//! Trimming: removal of the states that no successful path visits,
//! that is, the states not both accessible from the start and able to
//! reach a final state.

use vstd::prelude::*;

use crate::semiring::Weight;
use crate::utils::LinkedHashSet;
use crate::wfst_vec::VecFst;
use crate::{ExpandedFst, Fst, FstModel, MutableFst, StateId, sorted_desc};

verus! {

broadcast use vstd::seq_lib::group_seq_properties;

/// Every arc out of a member leads back into the set.
pub open spec fn closed_fwd<W: Weight>(m: FstModel<W>, s: Set<StateId>) -> bool {
    forall|i: StateId, k: int|
        s.contains(i) && i < m.states.len() && 0 <= k < m.states[i as int].arcs.len()
            ==> s.contains((#[trigger] m.states[i as int].arcs[k]).nextstate)
}

/// Every arc into a member starts inside the set.
pub open spec fn closed_bwd<W: Weight>(m: FstModel<W>, s: Set<StateId>) -> bool {
    forall|i: StateId, k: int|
        i < m.states.len() && 0 <= k < m.states[i as int].arcs.len() && s.contains(
            (#[trigger] m.states[i as int].arcs[k]).nextstate,
        ) ==> s.contains(i)
}

/// Reachable from the start by forward arc traversal: the state lies
/// in every forward-closed set that holds the start.
pub open spec fn accessible<W: Weight>(m: FstModel<W>, v: StateId) -> bool {
    forall|s: Set<StateId>|
        m.start is Some && s.contains(m.start.unwrap()) && #[trigger] closed_fwd(m, s)
            ==> s.contains(v)
}

/// Some final state is reachable from here: the state lies in every
/// backward-closed set that holds all final states.
pub open spec fn coaccessible<W: Weight>(m: FstModel<W>, v: StateId) -> bool {
    forall|s: Set<StateId>|
        (forall|f: StateId| f < m.states.len() && m.is_final_m(f as int) ==> s.contains(f))
            && #[trigger] closed_bwd(m, s) ==> s.contains(v)
}

/// An arc extends accessibility from its source to its target.
pub proof fn lemma_accessible_step<W: Weight>(m: FstModel<W>, u: StateId, v: StateId)
    requires
        accessible(m, u),
        u < m.states.len(),
        exists|k: int|
            0 <= k < m.states[u as int].arcs.len() && (#[trigger] m.states[u as int].arcs[k]).nextstate
                == v,
    ensures
        accessible(m, v),
{
    assert forall|s: Set<StateId>|
        m.start is Some && s.contains(m.start.unwrap()) && #[trigger] closed_fwd(m, s) implies s.contains(
        v,
    ) by {
        assert(s.contains(u));
        let k = choose|k: int|
            0 <= k < m.states[u as int].arcs.len() && (#[trigger] m.states[u as int].arcs[k]).nextstate
                == v;
        assert(s.contains(m.states[u as int].arcs[k].nextstate));
    }
}

/// An arc extends coaccessibility from its target to its source.
proof fn lemma_coaccessible_step<W: Weight>(m: FstModel<W>, u: StateId, v: StateId)
    requires
        coaccessible(m, v),
        u < m.states.len(),
        exists|k: int|
            0 <= k < m.states[u as int].arcs.len() && (#[trigger] m.states[u as int].arcs[k]).nextstate
                == v,
    ensures
        coaccessible(m, u),
{
    assert forall|s: Set<StateId>|
        (forall|f: StateId| f < m.states.len() && m.is_final_m(f as int) ==> s.contains(f))
            && #[trigger] closed_bwd(m, s) implies s.contains(u) by {
        assert(s.contains(v));
        let k = choose|k: int|
            0 <= k < m.states[u as int].arcs.len() && (#[trigger] m.states[u as int].arcs[k]).nextstate
                == v;
        assert(s.contains(m.states[u as int].arcs[k].nextstate));
    }
}

/// Dropping the front of a duplicate-free sequence keeps every other
/// element and loses the front.
proof fn lemma_drop_first_contains(q: Seq<StateId>)
    requires
        q.len() > 0,
        q.no_duplicates(),
    ensures
        forall|v: StateId| v != q[0] ==> #[trigger] q.drop_first().contains(v) == q.contains(v),
        !q.drop_first().contains(q[0]),
{
    assert(forall|k: int| 0 <= k < q.drop_first().len() ==> #[trigger] q.drop_first()[k] == q[k
        + 1]);
    assert forall|v: StateId| v != q[0] implies #[trigger] q.drop_first().contains(v)
        == q.contains(v) by {
        if q.drop_first().contains(v) {
            let k = choose|k: int| 0 <= k < q.drop_first().len() && q.drop_first()[k] == v;
            assert(q[k + 1] == v);
        }
        if q.contains(v) {
            let k = choose|k: int| 0 <= k < q.len() && q[k] == v;
            assert(k >= 1);
            assert(q.drop_first()[k - 1] == v);
        }
    }
    assert(!q.drop_first().contains(q[0])) by {
        if q.drop_first().contains(q[0]) {
            let k = choose|k: int| 0 <= k < q.drop_first().len() && q.drop_first()[k] == q[0];
            assert(q[k + 1] == q[0]);
        }
    }
}

/// The number of set entries in a mark vector.
spec fn count_true(s: Seq<bool>) -> nat
    decreases s.len(),
{
    if s.len() == 0 {
        0
    } else {
        count_true(s.drop_last()) + if s.last() {
            1nat
        } else {
            0nat
        }
    }
}

proof fn lemma_count_true_le(s: Seq<bool>)
    ensures
        count_true(s) <= s.len(),
    decreases s.len(),
{
    if s.len() > 0 {
        lemma_count_true_le(s.drop_last());
    }
}

proof fn lemma_count_true_update(s: Seq<bool>, i: int)
    requires
        0 <= i < s.len(),
        !s[i],
    ensures
        count_true(s.update(i, true)) == count_true(s) + 1,
    decreases s.len(),
{
    let t = s.update(i, true);
    if i == s.len() - 1 {
        assert(t.drop_last() =~= s.drop_last());
    } else {
        assert(t.drop_last() =~= s.drop_last().update(i, true));
        lemma_count_true_update(s.drop_last(), i);
    }
}

/// The set of marked states.
spec fn marked_set(marks: Seq<bool>) -> Set<StateId> {
    Set::new(|v: StateId| v < marks.len() && marks[v as int])
}

/// The states reachable from the start, as a mark vector: entry `v`
/// is set exactly when `v` is accessible.
fn find_accessible<W: Weight>(fst: &VecFst<W>) -> (marks: Vec<bool>)
    requires
        fst.model().wf(),
        fst.model().start is Some,
    ensures
        marks@.len() == fst.model().states.len(),
        forall|v: StateId|
            v < marks@.len() ==> (#[trigger] marks@[v as int]) == accessible(fst.model(), v),
{
    let ghost m = fst.model();
    let n = fst.get_numstates();
    let mut marks: Vec<bool> = Vec::new();
    for i in 0..n
        invariant
            marks@.len() == i,
            forall|t: int| 0 <= t < i ==> !(#[trigger] marks@[t]),
    {
        marks.push(false);
    }
    let start = fst.get_start().unwrap();
    marks[start] = true;
    let mut queue = LinkedHashSet::new();
    queue.insert(start);
    proof {
        assert(accessible(m, start));
    }
    loop
        invariant
            m == fst.model(),
            m.wf(),
            m.start == Some(start),
            start < n,
            n == m.states.len(),
            marks@.len() == n,
            queue.wf(),
            marks@[start as int],
            forall|k: int| 0 <= k < queue@.len() ==> #[trigger] queue@[k] < n,
            forall|k: int| 0 <= k < queue@.len() ==> marks@[#[trigger] queue@[k] as int],
            forall|v: StateId| v < n && #[trigger] marks@[v as int] ==> accessible(m, v),
            forall|v: StateId, k: int|
                v < n && marks@[v as int] && !queue@.contains(v) && 0 <= k < m.states[v as int].arcs.len()
                    ==> marks@[(#[trigger] m.states[v as int].arcs[k]).nextstate as int],
        ensures
            queue@.len() == 0,
        decreases (n - count_true(marks@)), queue@.len(),
    {
        let ghost marks0 = marks@;
        let ghost qlen0 = queue@.len();
        proof {
            lemma_count_true_le(marks@);
        }
        let ghost q0 = queue@;
        let s = match queue.pop_front() {
            Some(s) => s,
            None => {
                break ;
            },
        };
        proof {
            lemma_drop_first_contains(q0);
        }
        let arcs = fst.arc_iter(s);
        let na = arcs.len();
        for j in 0..na
            invariant
                m == fst.model(),
                m.wf(),
                m.start == Some(start),
                start < n,
                n == m.states.len(),
                s < n,
                na == arcs@.len(),
                arcs@ == m.states[s as int].arcs,
                marks@.len() == n,
                queue.wf(),
                marks@[start as int],
                marks@[s as int],
                forall|k: int| 0 <= k < queue@.len() ==> #[trigger] queue@[k] < n,
                forall|k: int| 0 <= k < queue@.len() ==> marks@[#[trigger] queue@[k] as int],
                forall|v: StateId| v < n && #[trigger] marks@[v as int] ==> accessible(m, v),
                forall|v: StateId, k: int|
                    v < n && marks@[v as int] && !queue@.contains(v) && v != s && 0 <= k
                        < m.states[v as int].arcs.len() ==> marks@[(#[trigger] m.states[v as int].arcs[k]).nextstate as int],
                forall|k: int|
                    0 <= k < j ==> marks@[(#[trigger] m.states[s as int].arcs[k]).nextstate as int],
                count_true(marks@) > count_true(marks0) || (count_true(marks@) == count_true(
                    marks0,
                ) && queue@.len() == qlen0 - 1),
                forall|v: StateId| v < n && marks0[v as int] ==> #[trigger] marks@[v as int],
        {
            let t = arcs[j].nextstate;
            proof {
                assert(m.states[s as int].arcs[j as int].nextstate < n);
            }
            if !marks[t] {
                proof {
                    lemma_count_true_update(marks@, t as int);
                    lemma_accessible_step(m, s, t);
                }
                marks[t] = true;
                queue.insert(t);
            }
        }
        proof {
            lemma_count_true_le(marks@);
        }
    }
    proof {
        let ms = marked_set(marks@);
        assert forall|v: StateId| v < n && accessible(m, v) implies marks@[v as int] by {
            assert(closed_fwd(m, ms));
            assert(ms.contains(start));
            assert(ms.contains(v));
        }
    }
    marks
}

/// The states from which a final state is reachable, as a mark
/// vector: entry `v` is set exactly when `v` is coaccessible.
fn find_coaccessible<W: Weight>(fst: &VecFst<W>) -> (marks: Vec<bool>)
    requires
        fst.model().wf(),
    ensures
        marks@.len() == fst.model().states.len(),
        forall|v: StateId|
            v < marks@.len() ==> (#[trigger] marks@[v as int]) == coaccessible(fst.model(), v),
{
    let ghost m = fst.model();
    let n = fst.get_numstates();
    let mut marks: Vec<bool> = Vec::new();
    let mut queue = LinkedHashSet::new();
    for i in 0..n
        invariant
            m == fst.model(),
            n == m.states.len(),
            marks@.len() == i,
            queue.wf(),
            forall|t: int|
                0 <= t < i ==> (#[trigger] marks@[t]) == m.is_final_m(t),
            forall|k: int| 0 <= k < queue@.len() ==> #[trigger] queue@[k] < i,
            forall|k: int| 0 <= k < queue@.len() ==> marks@[#[trigger] queue@[k] as int],
            forall|v: StateId|
                v < i && marks@[v as int] ==> #[trigger] queue@.contains(v),
    {
        let f = fst.is_final(i);
        marks.push(f);
        if f {
            queue.insert(i);
        }
    }
    proof {
        assert forall|v: StateId| v < n && #[trigger] marks@[v as int] implies coaccessible(
            m,
            v,
        ) by {
            assert(m.is_final_m(v as int));
        }
    }
    loop
        invariant
            m == fst.model(),
            m.wf(),
            n == m.states.len(),
            marks@.len() == n,
            queue.wf(),
            forall|f: StateId| f < n && m.is_final_m(f as int) ==> #[trigger] marks@[f as int],
            forall|k: int| 0 <= k < queue@.len() ==> #[trigger] queue@[k] < n,
            forall|k: int| 0 <= k < queue@.len() ==> marks@[#[trigger] queue@[k] as int],
            forall|v: StateId| v < n && #[trigger] marks@[v as int] ==> coaccessible(m, v),
            forall|u: StateId, k: int|
                u < n && 0 <= k < m.states[u as int].arcs.len() && marks@[(
                #[trigger] m.states[u as int].arcs[k]).nextstate as int] && !queue@.contains(
                    m.states[u as int].arcs[k].nextstate,
                ) ==> marks@[u as int],
        ensures
            queue@.len() == 0,
        decreases (n - count_true(marks@)), queue@.len(),
    {
        let ghost marks0 = marks@;
        let ghost qlen0 = queue@.len();
        proof {
            lemma_count_true_le(marks@);
        }
        let ghost q0 = queue@;
        let t = match queue.pop_front() {
            Some(t) => t,
            None => {
                break ;
            },
        };
        proof {
            lemma_drop_first_contains(q0);
        }
        for u in 0..n
            invariant
                m == fst.model(),
                m.wf(),
                n == m.states.len(),
                t < n,
                marks@.len() == n,
                queue.wf(),
                marks@[t as int],
                forall|f: StateId|
                    f < n && m.is_final_m(f as int) ==> #[trigger] marks@[f as int],
                forall|k: int| 0 <= k < queue@.len() ==> #[trigger] queue@[k] < n,
                forall|k: int| 0 <= k < queue@.len() ==> marks@[#[trigger] queue@[k] as int],
                forall|v: StateId| v < n && #[trigger] marks@[v as int] ==> coaccessible(m, v),
                forall|v: StateId, k: int|
                    v < n && 0 <= k < m.states[v as int].arcs.len() && marks@[(
                    #[trigger] m.states[v as int].arcs[k]).nextstate as int] && !queue@.contains(
                        m.states[v as int].arcs[k].nextstate,
                    ) && m.states[v as int].arcs[k].nextstate != t ==> marks@[v as int],
                forall|v: StateId, k: int|
                    v < u && 0 <= k < m.states[v as int].arcs.len() && (
                    #[trigger] m.states[v as int].arcs[k]).nextstate == t ==> marks@[v as int],
                count_true(marks@) > count_true(marks0) || (count_true(marks@) == count_true(
                    marks0,
                ) && queue@.len() == qlen0 - 1),
                forall|v: StateId| v < n && marks0[v as int] ==> #[trigger] marks@[v as int],
        {
            let arcs = fst.arc_iter(u);
            let na = arcs.len();
            let mut hits = false;
            for j in 0..na
                invariant
                    na == arcs@.len(),
                    u < n,
                    n == m.states.len(),
                    arcs@ == m.states[u as int].arcs,
                    hits == exists|k: int|
                        0 <= k < j && (#[trigger] m.states[u as int].arcs[k]).nextstate == t,
            {
                if arcs[j].nextstate == t {
                    hits = true;
                }
            }
            if hits {
                if !marks[u] {
                    proof {
                        lemma_count_true_update(marks@, u as int);
                        lemma_coaccessible_step(m, u, t);
                    }
                    marks[u] = true;
                    queue.insert(u);
                }
            }
        }
        proof {
            lemma_count_true_le(marks@);
        }
    }
    proof {
        let ms = marked_set(marks@);
        assert forall|v: StateId| v < n && coaccessible(m, v) implies marks@[v as int] by {
            assert(closed_bwd(m, ms));
            assert(forall|f: StateId|
                f < m.states.len() && m.is_final_m(f as int) ==> ms.contains(f));
            assert(ms.contains(v));
        }
    }
    marks
}

/// Trims a transducer: deletes every state that is not both
/// accessible and coaccessible, so that only states on successful
/// paths remain. The start state must itself lie on a successful
/// path.
pub fn connect<W: Weight>(fst: VecFst<W>) -> (r: VecFst<W>)
    requires
        fst.model().wf(),
        fst.model().start is Some,
        coaccessible(fst.model(), fst.model().start.unwrap()),
    ensures
        exists|ids: Seq<StateId>|
            {
                &&& sorted_desc(ids)
                &&& ids.no_duplicates()
                &&& forall|v: StateId|
                    #[trigger] ids.contains(v) <==> v < fst.model().states.len() && !(accessible(
                        fst.model(),
                        v,
                    ) && coaccessible(fst.model(), v))
                &&& r.model() == fst.model().del_states_desc_m(ids)
            },
{
    broadcast use vstd::seq_lib::group_to_multiset_ensures;

    let ghost m = fst.model();
    let mut fst = fst;
    let acc = find_accessible(&fst);
    let coacc = find_coaccessible(&fst);
    let n = fst.get_numstates();
    let mut to_delete: Vec<StateId> = Vec::new();
    let start = fst.get_start().unwrap();
    for i in 0..n
        invariant
            m == fst.model(),
            n == m.states.len(),
            acc@.len() == n,
            coacc@.len() == n,
            forall|v: StateId| v < n ==> (#[trigger] acc@[v as int]) == accessible(m, v),
            forall|v: StateId| v < n ==> (#[trigger] coacc@[v as int]) == coaccessible(m, v),
            forall|v: StateId|
                #[trigger] to_delete@.contains(v) <==> v < i && !(accessible(m, v)
                    && coaccessible(m, v)),
            forall|k: int, l: int|
                0 <= k < l < to_delete@.len() ==> #[trigger] to_delete@[k] < #[trigger] to_delete@[l],
    {
        let ghost td0 = to_delete@;
        if !acc[i] || !coacc[i] {
            to_delete.push(i);
        }
        proof {
            assert forall|v: StateId| #[trigger] to_delete@.contains(v) implies v < i + 1 && !(
            accessible(m, v) && coaccessible(m, v)) by {
                let k = choose|k: int| 0 <= k < to_delete@.len() && to_delete@[k] == v;
                if k < td0.len() {
                    assert(td0[k] == v);
                    assert(td0.contains(v));
                }
            }
            assert forall|v: StateId|
                v < i + 1 && !(accessible(m, v) && coaccessible(m, v)) implies #[trigger] to_delete@.contains(
                v,
            ) by {
                if v < i {
                    assert(td0.contains(v));
                    let k = choose|k: int| 0 <= k < td0.len() && td0[k] == v;
                    assert(to_delete@[k] == v);
                } else {
                    assert(to_delete@.last() == i);
                }
            }
            assert(forall|k: int|
                0 <= k < td0.len() ==> #[trigger] to_delete@[k] == td0[k]);
            assert forall|k: int| 0 <= k < td0.len() implies #[trigger] td0[k] < i by {
                assert(td0.contains(td0[k]));
            }
        }
    }
    proof {
        assert(to_delete@.no_duplicates()) by {
            assert(forall|k: int, l: int|
                0 <= k < l < to_delete@.len() ==> #[trigger] to_delete@[k] != #[trigger] to_delete@[l]);
        }
        assert(accessible(m, start));
        assert(coaccessible(m, start));
        assert(!to_delete@.contains(start)) by {
            if to_delete@.contains(start) {
                assert(!(accessible(m, start) && coaccessible(m, start)));
            }
        }
        assert forall|k: int|
            0 <= k < to_delete@.len() implies #[trigger] to_delete@[k] < m.states.len() by {
            assert(to_delete@.contains(to_delete@[k]));
        }
    }
    let ghost td = to_delete@;
    fst.del_states(to_delete);
    proof {
        let ids = choose|ids: Seq<StateId>|
            {
                &&& sorted_desc(ids)
                &&& ids.to_multiset() == td.to_multiset()
                &&& fst.model() == m.del_states_desc_m(ids)
            };
        td.lemma_multiset_has_no_duplicates();
        assert forall|v: StateId| #[trigger] ids.contains(v) implies v < m.states.len() && !(
        accessible(m, v) && coaccessible(m, v)) by {
            assert(ids.to_multiset().count(v) > 0);
            assert(td.contains(v));
        }
        assert forall|v: StateId|
            v < m.states.len() && !(accessible(m, v) && coaccessible(m, v)) implies #[trigger] ids.contains(
            v,
        ) by {
            assert(td.contains(v));
            assert(td.to_multiset().count(v) > 0);
        }
        assert(ids.no_duplicates()) by {
            assert(forall|x: StateId|
                ids.to_multiset().contains(x) ==> #[trigger] ids.to_multiset().count(x) == 1);
            ids.lemma_multiset_has_no_duplicates_conv();
        }
    }
    fst
}

} // verus!
