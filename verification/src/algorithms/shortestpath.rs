//! The single-source shortest-distance computation over a general
//! semiring, and the n-best shortest-paths construction of Mohri and
//! Riley, "An efficient algorithm for the N-best-strings problem"
//! (ICSLP 2002).

use core::cmp::Ordering;

use vstd::prelude::*;

use crate::algorithms::connect::{accessible, lemma_accessible_step};
use crate::algorithms::{
    extendfinal, lemma_extendfinal_wf, reverse, rev_arcs_of, rev_arcs_upto, spec_extendfinal,
    spec_reverse,
};
use crate::semiring::{NaturalLess, Weight};
use crate::utils::{ComparatorHeap, LinkedHashSet, cmp_ok};
use crate::wfst_vec::{StdArc, VecFst};
use crate::{ExpandedFst, Fst, FstModel, MutableFst, StateId};

verus! {

/// The position a popped element held in the queue it left.
proof fn index_of_removed<T>(q0: Seq<T>, q1: Seq<T>, x: T) -> (i: int)
    requires
        exists|i: int| 0 <= i < q0.len() && x == q0[i] && q1 == q0.remove(i),
    ensures
        0 <= i < q0.len() && x == q0[i] && q1 == q0.remove(i),
        q1.len() == q0.len() - 1,
        forall|k: int|
            0 <= k < q1.len() ==> #[trigger] q1[k] == if k < i {
                q0[k]
            } else {
                q0[k + 1]
            },
{
    let i = choose|i: int| 0 <= i < q0.len() && x == q0[i] && q1 == q0.remove(i);
    assert(forall|k: int|
        0 <= k < q1.len() ==> #[trigger] q1[k] == if k < i {
            q0[k]
        } else {
            q0[k + 1]
        });
    i
}

/// A queue entry of the n-best search: a state of the input and the
/// cost accumulated on the way to it.
#[derive(Clone, Copy, Debug)]
pub struct Pair<W: Weight>(pub StateId, pub W);

/// What holds of every queue entry of the n-best search: its state
/// exists, and its predecessor record points back consistently into
/// the output built so far; an entry without a predecessor is the
/// start pair.
pub(crate) open spec fn entry_ok<W: Weight>(
    e: (Pair<W>, Option<(StateId, StateId)>),
    origin: Seq<StateId>,
    nstates: usize,
    i0: StateId,
) -> bool {
    &&& (e.0).0 < nstates
    &&& match e.1 {
        Some(pred) => pred.0 < nstates && (pred.1 as int) < origin.len() && origin[pred.1 as int]
            == pred.0,
        None => (e.0).0 == i0,
    }
}

pub(crate) open spec fn entries_ok<W: Weight>(
    q: Seq<(Pair<W>, Option<(StateId, StateId)>)>,
    origin: Seq<StateId>,
    nstates: usize,
    i0: StateId,
) -> bool {
    forall|k: int| 0 <= k < q.len() ==> entry_ok(#[trigger] q[k], origin, nstates, i0)
}

/// Every queue entry after the first pop carries a predecessor
/// record.
pub(crate) open spec fn preds_some<W: Weight>(
    q: Seq<(Pair<W>, Option<(StateId, StateId)>)>,
) -> bool {
    forall|t: int| 0 <= t < q.len() ==> (#[trigger] q[t]).1 is Some
}

proof fn lemma_preds_some_remove<W: Weight>(
    q0: Seq<(Pair<W>, Option<(StateId, StateId)>)>,
    q1: Seq<(Pair<W>, Option<(StateId, StateId)>)>,
    x: (Pair<W>, Option<(StateId, StateId)>),
)
    requires
        preds_some(q0),
        exists|i: int| 0 <= i < q0.len() && x == q0[i] && q1 == q0.remove(i),
    ensures
        preds_some(q1),
{
    let i = index_of_removed(q0, q1, x);
    assert forall|t: int| 0 <= t < q1.len() implies (#[trigger] q1[t]).1 is Some by {
        if t < i {
            assert(q1[t] == q0[t]);
        } else {
            assert(q1[t] == q0[t + 1]);
        }
    }
}

proof fn lemma_preds_some_push<W: Weight>(
    q: Seq<(Pair<W>, Option<(StateId, StateId)>)>,
    e: (Pair<W>, Option<(StateId, StateId)>),
)
    requires
        preds_some(q),
        e.1 is Some,
    ensures
        preds_some(q.push(e)),
{
    assert forall|t: int| 0 <= t < q.push(e).len() implies (#[trigger] q.push(e)[t]).1
        is Some by {
        if t < q.len() {
            assert(q.push(e)[t] == q[t]);
        } else {
            assert(q.push(e)[t] == e);
        }
    }
}

/// Removing an entry keeps the rest well-formed, and the removed
/// entry was well-formed itself.
proof fn lemma_entries_ok_remove<W: Weight>(
    q0: Seq<(Pair<W>, Option<(StateId, StateId)>)>,
    q1: Seq<(Pair<W>, Option<(StateId, StateId)>)>,
    x: (Pair<W>, Option<(StateId, StateId)>),
    origin: Seq<StateId>,
    nstates: usize,
    i0: StateId,
)
    requires
        entries_ok(q0, origin, nstates, i0),
        exists|i: int| 0 <= i < q0.len() && x == q0[i] && q1 == q0.remove(i),
    ensures
        entries_ok(q1, origin, nstates, i0),
        entry_ok(x, origin, nstates, i0),
{
    let i = index_of_removed(q0, q1, x);
    assert(entry_ok(q0[i], origin, nstates, i0));
    assert forall|k: int| 0 <= k < q1.len() implies entry_ok(
        #[trigger] q1[k],
        origin,
        nstates,
        i0,
    ) by {
        if k < i {
            assert(q1[k] == q0[k]);
            assert(entry_ok(q0[k], origin, nstates, i0));
        } else {
            assert(q1[k] == q0[k + 1]);
            assert(entry_ok(q0[k + 1], origin, nstates, i0));
        }
    }
}

/// Appending a well-formed entry keeps the queue well-formed.
proof fn lemma_entries_ok_push<W: Weight>(
    q: Seq<(Pair<W>, Option<(StateId, StateId)>)>,
    e: (Pair<W>, Option<(StateId, StateId)>),
    origin: Seq<StateId>,
    nstates: usize,
    i0: StateId,
)
    requires
        entries_ok(q, origin, nstates, i0),
        entry_ok(e, origin, nstates, i0),
    ensures
        entries_ok(q.push(e), origin, nstates, i0),
{
    assert forall|k: int| 0 <= k < q.push(e).len() implies entry_ok(
        #[trigger] q.push(e)[k],
        origin,
        nstates,
        i0,
    ) by {
        if k < q.len() {
            assert(q.push(e)[k] == q[k]);
            assert(entry_ok(q[k], origin, nstates, i0));
        } else {
            assert(q.push(e)[k] == e);
        }
    }
}

/// A longer origin keeps every entry well-formed.
proof fn lemma_entries_ok_grow<W: Weight>(
    q: Seq<(Pair<W>, Option<(StateId, StateId)>)>,
    origin: Seq<StateId>,
    p: StateId,
    nstates: usize,
    i0: StateId,
)
    requires
        entries_ok(q, origin, nstates, i0),
    ensures
        entries_ok(q, origin.push(p), nstates, i0),
{
    assert forall|k: int| 0 <= k < q.len() implies entry_ok(
        #[trigger] q[k],
        origin.push(p),
        nstates,
        i0,
    ) by {
        assert(entry_ok(q[k], origin, nstates, i0));
        match (q[k]).1 {
            Some(pred) => {
                assert(origin.push(p)[pred.1 as int] == origin[pred.1 as int]);
            },
            None => {},
        }
    }
}

/// Every arc of one reversed state points back at its source.
proof fn lemma_rev_arcs_of_targets<W: Weight>(arcs: Seq<StdArc<W>>, src: StateId, j: int)
    ensures
        forall|k: int|
            0 <= k < rev_arcs_of(arcs, src, j).len() ==> (#[trigger] rev_arcs_of(arcs, src, j)[k]).nextstate
                == src,
        rev_arcs_of(arcs, src, j).len() > 0 ==> arcs.len() > 0,
    decreases arcs.len(),
{
    if arcs.len() > 0 {
        lemma_rev_arcs_of_targets(arcs.drop_last(), src, j);
    }
}

/// Every arc gathered from the reversal points at a source state that
/// lies below the gathering bound and has outgoing arcs of its own.
proof fn lemma_rev_arcs_upto_targets<W: Weight>(m: FstModel<W>, j: int, i: int)
    requires
        i <= m.states.len(),
        m.states.len() <= usize::MAX,
    ensures
        forall|k: int|
            0 <= k < rev_arcs_upto(m, j, i).len() ==> (#[trigger] rev_arcs_upto(m, j, i)[k]).nextstate
                < i && m.states[(rev_arcs_upto(m, j, i)[k]).nextstate as int].arcs.len() > 0,
    decreases i,
{
    if i > 0 {
        lemma_rev_arcs_upto_targets(m, j, i - 1);
        lemma_rev_arcs_of_targets::<W>(m.states[i - 1].arcs, (i - 1) as StateId, j);
        assert forall|k: int| 0 <= k < rev_arcs_upto(m, j, i).len() implies (
        #[trigger] rev_arcs_upto(m, j, i)[k]).nextstate < i && m.states[(rev_arcs_upto(
            m,
            j,
            i,
        )[k]).nextstate as int].arcs.len() > 0 by {
            let pre = rev_arcs_upto(m, j, i - 1);
            let ext = rev_arcs_of(m.states[i - 1].arcs, (i - 1) as StateId, j);
            if k < pre.len() {
                assert(rev_arcs_upto(m, j, i)[k] == pre[k]);
            } else {
                assert(rev_arcs_upto(m, j, i)[k] == ext[k - pre.len()]);
            }
        }
    }
}

/// One start arc of the reversal is covered: where its weight is a
/// member other than `zero`, the distance entry of its target is not
/// `zero`.
pub open spec fn start_arc_covered<W: Weight>(m: FstModel<W>, n0: int, k: int, d: Seq<W>) -> bool {
    (m.states[n0].arcs[k].weight.mem() && !m.states[n0].arcs[k].weight.eq_spec(W::zero_spec()))
        ==> d[m.states[n0].arcs[k].nextstate as int] != W::zero_spec()
}

/// Every state one arc away from the reversal's start with a member,
/// non-`zero` arc weight holds a non-`zero` distance estimate.
pub open spec fn first_layer_nonzero<W: Weight>(m: FstModel<W>, n0: int, d: Seq<W>) -> bool {
    forall|k: int| 0 <= k < m.states[n0].arcs.len() ==> #[trigger] start_arc_covered(m, n0, k, d)
}

/// The distance vector is closed under relaxation: every arc out of
/// a state with a non-`zero` entry reaches a state with a non-`zero`
/// entry. A run that converges leaves its estimates closed.
pub open spec fn nz_closed<W: Weight>(m: FstModel<W>, d: Seq<W>) -> bool {
    forall|u: int, k: int|
        0 <= u < m.states.len() && 0 <= k < m.states[u].arcs.len() && d[u] != W::zero_spec()
            ==> d[(#[trigger] m.states[u].arcs[k]).nextstate as int] != W::zero_spec()
}

/// A sum keeps a non-`zero` left addend non-`zero`: the semirings
/// here are zero-sum-free, and a non-member addend turns the sum into
/// `none`.
proof fn lemma_plus_nonzero_left<W: Weight>(a: W, b: W)
    requires
        a != W::zero_spec(),
    ensures
        a.plus_spec(b) != W::zero_spec(),
{
    W::law_zero_one();
    if !a.mem() || !b.mem() {
        W::law_plus_none(a, b);
    } else {
        W::law_plus_closed(a, b);
        if a.plus_spec(b) == W::zero_spec() {
            W::law_eq_reflexive(W::zero_spec());
            W::law_zero_sum_free(a, b);
            W::law_eq_structural(a, W::zero_spec());
        }
    }
}

/// A sum with a member, non-`zero` right addend is not `zero`.
proof fn lemma_plus_nonzero_right<W: Weight>(a: W, b: W)
    requires
        b.mem(),
        !b.eq_spec(W::zero_spec()),
    ensures
        a.plus_spec(b) != W::zero_spec(),
{
    W::law_zero_one();
    if !a.mem() {
        W::law_plus_none(a, b);
    } else {
        W::law_plus_closed(a, b);
        if a.plus_spec(b) == W::zero_spec() {
            W::law_eq_reflexive(W::zero_spec());
            W::law_zero_sum_free(a, b);
        }
    }
}

/// The shortest distance from every state to the final states: entry
/// `i` estimates the ⊕-sum over paths from state `i` of the input to
/// a final state, computed by relaxation over the reversed
/// transducer. The last entry belongs to the fresh super-final state
/// of the reversal and is always `one`.
///
/// The relaxation converges only for k-closed semirings; on other
/// inputs the estimates are returned as they stand when the
/// (astronomically large) internal step budget runs out. A non-`zero`
/// entry always belongs to a state the reversal reaches, the states
/// one member-weighted arc from the reversal's start are always
/// reached, and wherever the estimates come back closed under
/// relaxation — as every converged run leaves them — every reachable
/// state holds a non-`zero` entry.
pub fn shortest_distance<W: Weight>(ifst: &mut VecFst<W>) -> (d: Vec<W>)
    requires
        old(ifst).model().wf(),
        old(ifst).model().start is Some,
        old(ifst).model().states.len() < usize::MAX,
    ensures
        final(ifst).model() == old(ifst).model(),
        d@.len() == old(ifst).model().states.len() + 1,
        d@[old(ifst).model().states.len() as int] == W::one_spec(),
        forall|v: int|
            0 <= v < d@.len() && #[trigger] d@[v] != W::zero_spec() ==> accessible(
                spec_reverse(old(ifst).model()),
                v as StateId,
            ),
        first_layer_nonzero(
            spec_reverse(old(ifst).model()),
            old(ifst).model().states.len() as int,
            d@,
        ),
        nz_closed(spec_reverse(old(ifst).model()), d@) ==> forall|v: int|
            0 <= v < d@.len() && accessible(spec_reverse(old(ifst).model()), v as StateId)
                ==> #[trigger] d@[v] != W::zero_spec(),
{
    let ghost m0 = old(ifst).model();
    let revfst = reverse(ifst);
    let ghost mrev = spec_reverse(m0);
    let ghost me = spec_extendfinal(m0);
    let nstates = revfst.get_numstates();
    let ghost n0 = m0.states.len() as int;
    proof {
        assert(nstates == n0 + 1);
        assert(me.states[n0].arcs.len() == 0);
        assert forall|j: int, k: int|
            0 <= j < mrev.states.len() && 0 <= k < mrev.states[j].arcs.len() implies (
        #[trigger] mrev.states[j].arcs[k]).nextstate < nstates && mrev.states[j].arcs[k].nextstate
            != n0 by {
            lemma_rev_arcs_upto_targets(me, j, n0 + 1);
        }
    }
    let mut d: Vec<W> = Vec::new();
    let mut r: Vec<W> = Vec::new();
    for i in 0..nstates
        invariant
            d@.len() == i,
            r@.len() == i,
            forall|t: int| 0 <= t < i ==> #[trigger] d@[t] == W::zero_spec(),
    {
        let ghost dpre = d@;
        d.push(W::zero());
        r.push(W::zero());
        proof {
            assert(forall|t: int|
                0 <= t < dpre.len() ==> #[trigger] d@[t] == dpre[t]);
            assert(d@[dpre.len() as int] == W::zero_spec());
        }
    }
    let rstart = revfst.get_start().unwrap();
    proof {
        assert(rstart == n0);
    }
    let mut queue = LinkedHashSet::new();
    queue.insert(rstart);
    d[rstart] = W::one();
    r[rstart] = W::one();
    proof {
        assert(accessible(mrev, rstart));
        assert(W::one_spec() != W::zero_spec()) by {
            W::law_zero_one();
            if W::one_spec() == W::zero_spec() {
                W::law_eq_reflexive(W::one_spec());
            }
        }
    }
    let mut steps: usize = 0;
    loop
        invariant
            revfst.model() == mrev,
            nstates == mrev.states.len(),
            rstart == n0,
            n0 + 1 == nstates,
            d@.len() == nstates,
            r@.len() == nstates,
            queue.wf(),
            forall|k: int| 0 <= k < queue@.len() ==> #[trigger] queue@[k] < nstates,
            forall|j: int, k: int|
                0 <= j < mrev.states.len() && 0 <= k < mrev.states[j].arcs.len() ==> (
                #[trigger] mrev.states[j].arcs[k]).nextstate < nstates
                    && mrev.states[j].arcs[k].nextstate != n0,
            d@[n0] == W::one_spec(),
            forall|k: int| 0 <= k < queue@.len() ==> accessible(mrev, #[trigger] queue@[k]),
            forall|v: int|
                0 <= v < nstates && #[trigger] d@[v] != W::zero_spec() ==> accessible(
                    mrev,
                    v as StateId,
                ),
            steps == 0 ==> queue@.len() == 1 && queue@[0] == rstart && r@[n0] == W::one_spec(),
            steps >= 1 ==> !queue@.contains(rstart),
            steps >= 1 ==> first_layer_nonzero(mrev, n0, d@),
            steps <= usize::MAX,
        ensures
            d@.len() == nstates,
            d@[n0] == W::one_spec(),
            forall|v: int|
                0 <= v < nstates && #[trigger] d@[v] != W::zero_spec() ==> accessible(
                    mrev,
                    v as StateId,
                ),
            first_layer_nonzero(mrev, n0, d@),
        decreases usize::MAX - steps,
    {
        if steps >= usize::MAX {
            break ;
        }
        steps = steps + 1;
        let ghost q0 = queue@;
        let s = match queue.pop_front() {
            Some(s) => s,
            None => {
                break ;
            },
        };
        proof {
            assert(accessible(mrev, s)) by {
                assert(q0[0] == s);
            }
            assert(forall|k: int|
                0 <= k < queue@.len() ==> #[trigger] queue@[k] == q0[k + 1]);
            assert forall|k: int| 0 <= k < queue@.len() implies accessible(
                mrev,
                #[trigger] queue@[k],
            ) by {
                assert(queue@[k] == q0[k + 1]);
                assert(accessible(mrev, q0[k + 1]));
            }
            if steps == 1 {
                assert(s == rstart);
                assert(queue@.len() == 0);
            } else {
                assert(q0.contains(q0[0]));
                assert(s != rstart);
            }
            assert(!queue@.contains(rstart)) by {
                if queue@.contains(rstart) {
                    let k = choose|k: int| 0 <= k < queue@.len() && queue@[k] == rstart;
                    assert(q0[k + 1] == rstart);
                    assert(q0.contains(rstart));
                    assert(steps == 1 && q0.len() == 1);
                }
            }
        }
        let rnew = r[s];
        r[s] = W::zero();
        let arcs = revfst.arc_iter(s);
        let na = arcs.len();
        for j in 0..na
            invariant
                revfst.model() == mrev,
                nstates == mrev.states.len(),
                s < nstates,
                n0 + 1 == nstates,
                na == arcs@.len(),
                arcs@ == mrev.states[s as int].arcs,
                d@.len() == nstates,
                r@.len() == nstates,
                queue.wf(),
                forall|k: int| 0 <= k < queue@.len() ==> #[trigger] queue@[k] < nstates,
                forall|jj: int, k: int|
                    0 <= jj < mrev.states.len() && 0 <= k < mrev.states[jj].arcs.len() ==> (
                    #[trigger] mrev.states[jj].arcs[k]).nextstate < nstates
                        && mrev.states[jj].arcs[k].nextstate != n0,
                d@[n0] == W::one_spec(),
                accessible(mrev, s),
                forall|k: int| 0 <= k < queue@.len() ==> accessible(mrev, #[trigger] queue@[k]),
                forall|v: int|
                    0 <= v < nstates && #[trigger] d@[v] != W::zero_spec() ==> accessible(
                        mrev,
                        v as StateId,
                    ),
                !queue@.contains(rstart),
                rstart == n0,
                s == rstart ==> rnew == W::one_spec(),
                s == rstart ==> forall|jj: int|
                    0 <= jj < j ==> #[trigger] start_arc_covered(mrev, n0, jj, d@),
                s != rstart ==> first_layer_nonzero(mrev, n0, d@),
        {
            let a = arcs[j];
            let nexts = a.nextstate;
            proof {
                assert(mrev.states[s as int].arcs[j as int].nextstate < nstates);
                assert(mrev.states[s as int].arcs[j as int].nextstate != n0);
            }
            let dnext = d[nexts];
            let x = rnew.times(&a.weight);
            let dnextnew = dnext.plus(&x);
            let ghost dpre = d@;
            if !dnext.eq_weight(&dnextnew) {
                proof {
                    lemma_accessible_step(mrev, s, nexts);
                }
                d[nexts] = dnextnew;
                proof {
                    assert forall|v: int|
                        0 <= v < nstates && dpre[v] != W::zero_spec() implies #[trigger] d@[v]
                        != W::zero_spec() by {
                        if v == nexts as int {
                            lemma_plus_nonzero_left::<W>(dnext, x);
                        } else {
                            assert(d@[v] == dpre[v]);
                        }
                    }
                }
                let rn = r[nexts].plus(&x);
                r[nexts] = rn;
                let ghost qp = queue@;
                if !queue.contains(nexts) {
                    queue.insert(nexts);
                    proof {
                        assert(queue@ == qp.push(nexts));
                        assert forall|k: int| 0 <= k < queue@.len() implies accessible(
                            mrev,
                            #[trigger] queue@[k],
                        ) by {
                            if k < qp.len() {
                                assert(qp.push(nexts)[k] == qp[k]);
                                assert(accessible(mrev, qp[k]));
                            } else {
                                assert(qp.push(nexts)[k] == nexts);
                            }
                        }
                        assert(!queue@.contains(rstart)) by {
                            if queue@.contains(rstart) {
                                let k = choose|k: int|
                                    0 <= k < queue@.len() && queue@[k] == rstart;
                                if k < qp.len() {
                                    assert(qp.push(nexts)[k] == qp[k]);
                                    assert(queue@[k] == qp[k]);
                                    assert(qp.contains(rstart));
                                } else {
                                    assert(qp.push(nexts)[k] == nexts);
                                    assert(queue@[k] == nexts);
                                    assert(nexts != rstart);
                                }
                            }
                        }
                    }
                }
            }
            proof {
                if s == rstart {
                    assert forall|jj: int| 0 <= jj < j + 1 implies #[trigger] start_arc_covered(
                        mrev,
                        n0,
                        jj,
                        d@,
                    ) by {
                        if jj < j {
                            assert(start_arc_covered(mrev, n0, jj, dpre));
                            let t = mrev.states[n0].arcs[jj].nextstate;
                            if mrev.states[n0].arcs[jj].weight.mem() && !mrev.states[
                                n0
                            ].arcs[jj].weight.eq_spec(W::zero_spec()) {
                                assert(dpre[t as int] != W::zero_spec());
                                assert(d@[t as int] != W::zero_spec());
                            }
                        } else {
                            let w = a.weight;
                            if w.mem() && !w.eq_spec(W::zero_spec()) {
                                W::law_times_one(w);
                                assert(x == w);
                                if dnext.eq_spec(dnextnew) {
                                    W::law_eq_structural(dnext, dnextnew);
                                    assert(dnext != W::zero_spec()) by {
                                        if dnext == W::zero_spec() {
                                            W::law_plus_zero(w);
                                            W::law_plus_comm(dnext, x);
                                            assert(dnextnew == w);
                                            W::law_eq_reflexive(w);
                                        }
                                    }
                                    assert(d@[nexts as int] == dnext);
                                } else {
                                    lemma_plus_nonzero_right::<W>(dnext, x);
                                    assert(d@[nexts as int] == dnextnew);
                                }
                            }
                        }
                    }
                } else {
                    assert forall|jj: int|
                        0 <= jj < mrev.states[n0].arcs.len() implies start_arc_covered(
                        mrev,
                        n0,
                        jj,
                        d@,
                    ) by {
                        assert(start_arc_covered(mrev, n0, jj, dpre));
                        let t = mrev.states[n0].arcs[jj].nextstate;
                        if mrev.states[n0].arcs[jj].weight.mem() && !mrev.states[
                            n0
                        ].arcs[jj].weight.eq_spec(W::zero_spec()) {
                            assert(dpre[t as int] != W::zero_spec());
                            assert(d@[t as int] != W::zero_spec());
                        }
                    }
                }
            }
        }
        proof {
            if s == rstart {
                assert(first_layer_nonzero(mrev, n0, d@)) by {
                    assert(forall|jj: int|
                        0 <= jj < mrev.states[n0].arcs.len() ==> #[trigger] start_arc_covered(
                            mrev,
                            n0,
                            jj,
                            d@,
                        ));
                }
            }
        }
    }
    proof {
        if nz_closed(mrev, d@) {
            let nz = Set::new(|u: StateId| u < nstates && d@[u as int] != W::zero_spec());
            assert forall|v: int|
                0 <= v < d@.len() && accessible(mrev, v as StateId) implies #[trigger] d@[v]
                != W::zero_spec() by {
                assert(W::one_spec() != W::zero_spec()) by {
                    W::law_zero_one();
                    if W::one_spec() == W::zero_spec() {
                        W::law_eq_reflexive(W::one_spec());
                    }
                }
                assert(nz.contains(mrev.start.unwrap()));
                assert(crate::algorithms::connect::closed_fwd(mrev, nz));
                assert(nz.contains(v as StateId));
            }
        }
    }
    d
}

/// The soundness of the n-best construction: every output state stems
/// from a state of the extended input via `origin`, the start from
/// the start, final weights are copied, and every output arc copies
/// an input arc between the originating states.
pub open spec fn nbest_sound<W: Weight>(
    me: FstModel<W>,
    o: FstModel<W>,
    origin: Seq<StateId>,
) -> bool {
    &&& origin.len() == o.states.len()
    &&& forall|u: int| 0 <= u < o.states.len() ==> (#[trigger] origin[u]) < me.states.len()
    &&& forall|u: int|
        0 <= u < o.states.len() ==> (#[trigger] o.states[u]).finalweight == me.states[origin[u] as int].finalweight
    &&& (o.start is Some ==> o.start.unwrap() < o.states.len() && me.start is Some
        && origin[o.start.unwrap() as int] == me.start.unwrap())
    &&& forall|u: int, k: int|
        0 <= u < o.states.len() && 0 <= k < o.states[u].arcs.len() ==> ((
        #[trigger] o.states[u].arcs[k]).nextstate < o.states.len()
            && me.states[origin[u] as int].arcs.contains(
            StdArc {
                ilabel: o.states[u].arcs[k].ilabel,
                olabel: o.states[u].arcs[k].olabel,
                weight: o.states[u].arcs[k].weight,
                nextstate: origin[o.states[u].arcs[k].nextstate as int],
            },
        ))
}

/// The n lowest-cost complete paths, each preserved as a distinct
/// trajectory of fresh states and copied arcs.
///
/// The input is left in its `extendfinal` form, as the caller is
/// warned; a caller that needs it unchanged clones first. The `det`
/// flag is accepted and has no effect, since determinization is not
/// implemented. Which paths survive follows the natural order of the
/// weights at run time; the contract pins the structural soundness:
/// every state and arc of the output is a faithful copy of input
/// states and arcs along explored paths.
pub fn shortest_paths<W: Weight + NaturalLess>(ifst: &mut VecFst<W>, n: usize, det: bool) -> (ofst:
    VecFst<W>)
    requires
        old(ifst).model().wf(),
        old(ifst).model().start is Some,
        old(ifst).model().states.len() < usize::MAX - 1,
    ensures
        final(ifst).model() == spec_extendfinal(old(ifst).model()),
        ofst.model().isyms == old(ifst).model().isyms,
        ofst.model().osyms == old(ifst).model().osyms,
        ofst.model().start is Some,
        ofst.model().states.len() >= 1,
        exists|origin: Seq<StateId>|
            nbest_sound(spec_extendfinal(old(ifst).model()), ofst.model(), origin),
{
    let _ = det;
    let ghost m0 = old(ifst).model();
    let mut ofst = VecFst::<W>::new();
    match ifst.get_osyms() {
        Some(syms) => ofst.set_osyms(syms),
        None => {},
    }
    match ifst.get_isyms() {
        Some(syms) => ofst.set_isyms(syms),
        None => {},
    }
    let d = shortest_distance(ifst);
    let compare = |e1: &(Pair<W>, Option<(StateId, StateId)>), e2: &(
        Pair<W>,
        Option<(StateId, StateId)>,
    )| -> Ordering
        {
            let p1 = &e1.0;
            let p2 = &e2.0;
            if p1.0 < d.len() && p2.0 < d.len() {
                let a1 = p1.1.times(&d[p1.0]);
                let a2 = p2.1.times(&d[p2.0]);
                if a1.eq_weight(&a2) {
                    Ordering::Equal
                } else if a1.natural_less(&a2) {
                    Ordering::Less
                } else {
                    Ordering::Greater
                }
            } else {
                Ordering::Equal
            }
        };
    extendfinal(ifst);
    let ghost me = spec_extendfinal(m0);
    proof {
        lemma_extendfinal_wf(m0);
    }
    let nstates = ifst.get_numstates();
    let mut r: Vec<usize> = Vec::new();
    for i in 0..nstates
        invariant
            r@.len() == i,
            forall|t: int| 0 <= t < i ==> #[trigger] r@[t] == 0,
    {
        r.push(0);
    }
    // Each queue entry carries its pair and, where the pair has a
    // predecessor, the predecessor's state in the input and in the
    // output: the record the previous and statemap tables would hand
    // to the popped pair.
    let mut queue: ComparatorHeap<(Pair<W>, Option<(StateId, StateId)>), _> = ComparatorHeap::new(
        &compare,
    );
    proof {
        assert(cmp_ok::<(Pair<W>, Option<(StateId, StateId)>), _>(compare)) by {
            assert forall|x: &(Pair<W>, Option<(StateId, StateId)>), y: &(
                Pair<W>,
                Option<(StateId, StateId)>,
            )| #[trigger] call_requires(compare, (x, y)) by {
            }
        }
    }
    let i0 = ifst.get_start().unwrap();
    let ghost mut origin: Seq<StateId> = Seq::empty();
    let w1 = W::one();
    proof {
        assert(entries_ok(queue@, origin, nstates, i0));
        lemma_entries_ok_push(queue@, (Pair(i0, w1), None), origin, nstates, i0);
    }
    queue.push((Pair(i0, w1), None));
    let mut steps: usize = 0;
    loop
        invariant
            ifst.model() == me,
            me.wf(),
            me.start is Some,
            i0 == me.start.unwrap(),
            i0 < nstates,
            nstates == me.states.len(),
            r@.len() == nstates,
            forall|t: int| 0 <= t < nstates ==> #[trigger] r@[t] <= steps,
            queue.compare == &compare,
            cmp_ok::<(Pair<W>, Option<(StateId, StateId)>), _>(compare),
            entries_ok(queue@, origin, nstates, i0),
            origin.len() == ofst.model().states.len(),
            ofst.model().states.len() <= steps,
            nbest_sound(me, ofst.model(), origin),
            ofst.model().isyms == m0.isyms,
            ofst.model().osyms == m0.osyms,
            ofst.model().start is None ==> queue@.len() == 1 && (queue@[0]).1 is None
                && ((queue@[0]).0).0 == i0,
            ofst.model().start is Some ==> preds_some(queue@),
            ofst.model().start is Some ==> ofst.model().states.len() >= 1,
            steps >= 1 ==> ofst.model().start is Some,
            steps <= usize::MAX - 1,
        ensures
            nbest_sound(me, ofst.model(), origin),
            ofst.model().isyms == m0.isyms,
            ofst.model().osyms == m0.osyms,
            ofst.model().start is Some,
            ofst.model().states.len() >= 1,
        decreases usize::MAX - steps,
    {
        if steps >= usize::MAX - 1 {
            break ;
        }
        steps = steps + 1;
        let ghost q0 = queue@;
        let popped = queue.pop();
        let item = match popped {
            Some(item) => item,
            None => {
                break ;
            },
        };
        proof {
            lemma_entries_ok_remove(q0, queue@, item, origin, nstates, i0);
            let i = index_of_removed(q0, queue@, item);
            if ofst.model().start is None {
                assert(i == 0);
                assert(item.1 is None);
                assert(queue@ == q0.remove(0));
                assert(queue@.len() == 0);
                assert(preds_some(queue@));
            } else {
                lemma_preds_some_remove(q0, queue@, item);
            }
        }
        let (pair, pred) = item;
        let Pair(p, c) = pair;
        let ghost opre = ofst.model();
        let np = ofst.add_state(ifst.get_finalweight(p));
        proof {
            let og0 = origin;
            origin = origin.push(p);
            assert(origin == og0.push(p));
            lemma_entries_ok_grow(queue@, og0, p, nstates, i0);
            assert forall|u: int| 0 <= u < og0.len() implies #[trigger] origin[u] == og0[u] by {
                assert(og0.push(p)[u] == og0[u]);
            }
            assert(origin[og0.len() as int] == p) by {
                assert(og0.push(p)[og0.len() as int] == p);
            }
            assert forall|u: int, k: int|
                0 <= u < ofst.model().states.len() && 0 <= k
                    < ofst.model().states[u].arcs.len() implies ((
            #[trigger] ofst.model().states[u].arcs[k]).nextstate < ofst.model().states.len()
                && me.states[origin[u] as int].arcs.contains(
                StdArc {
                    ilabel: ofst.model().states[u].arcs[k].ilabel,
                    olabel: ofst.model().states[u].arcs[k].olabel,
                    weight: ofst.model().states[u].arcs[k].weight,
                    nextstate: origin[ofst.model().states[u].arcs[k].nextstate as int],
                },
            )) by {
                assert(u < opre.states.len());
                assert(ofst.model().states[u] == opre.states[u]);
            }
            assert(nbest_sound(me, ofst.model(), origin));
        }
        match pred {
            None => {
                ofst.set_start(np);
                proof {
                    assert(p == i0);
                    assert(origin[np as int] == p);
                    assert(nbest_sound(me, ofst.model(), origin));
                }
            },
            Some((opp, pp)) => {
                proof {
                    assert(ofst.model().start is Some);
                }
                let arcs = ifst.arc_iter(opp);
                let na = arcs.len();
                for k in 0..na
                    invariant
                        ofst.model().start is Some,
                        ifst.model() == me,
                        me.wf(),
                        nstates == me.states.len(),
                        opp < nstates,
                        p < nstates,
                        np < ofst.model().states.len(),
                        pp < np,
                        na == arcs@.len(),
                        arcs@ == me.states[opp as int].arcs,
                        origin.len() == ofst.model().states.len(),
                        origin[pp as int] == opp,
                        origin[np as int] == p,
                        nbest_sound(me, ofst.model(), origin),
                        ofst.model().isyms == m0.isyms,
                        ofst.model().osyms == m0.osyms,
                {
                    let a = arcs[k];
                    if a.nextstate == p {
                        let ghost apre = ofst.model();
                        ofst.add_arc(pp, np, a.ilabel, a.olabel, a.weight);
                        proof {
                            assert(me.states[opp as int].arcs[k as int] == a);
                            assert(me.states[opp as int].arcs.contains(a));
                            assert forall|u: int, t: int|
                                0 <= u < ofst.model().states.len() && 0 <= t
                                    < ofst.model().states[u].arcs.len() implies ((
                            #[trigger] ofst.model().states[u].arcs[t]).nextstate
                                < ofst.model().states.len() && me.states[origin[u] as int].arcs.contains(
                                StdArc {
                                    ilabel: ofst.model().states[u].arcs[t].ilabel,
                                    olabel: ofst.model().states[u].arcs[t].olabel,
                                    weight: ofst.model().states[u].arcs[t].weight,
                                    nextstate: origin[ofst.model().states[u].arcs[t].nextstate as int],
                                },
                            )) by {
                                if u == pp && t == apre.states[pp as int].arcs.len() {
                                    assert(ofst.model().states[u].arcs[t] == (StdArc {
                                        ilabel: a.ilabel,
                                        olabel: a.olabel,
                                        weight: a.weight,
                                        nextstate: np,
                                    }));
                                } else {
                                    assert(ofst.model().states[u].arcs[t]
                                        == apre.states[u].arcs[t]);
                                }
                            }
                            assert(nbest_sound(me, ofst.model(), origin));
                        }
                    }
                }
            },
        }
        proof {
            assert(ofst.model().start is Some);
        }
        let rp = r[p];
        let rp1 = rp + 1;
        r[p] = rp1;
        if rp1 == n && ifst.is_final(p) {
            break ;
        }
        if rp1 <= n {
            let arcs = ifst.arc_iter(p);
            let na = arcs.len();
            for k in 0..na
                invariant
                    na == arcs@.len(),
                    p < nstates,
                    i0 < nstates,
                    np < origin.len(),
                    origin[np as int] == p,
                    nstates == me.states.len(),
                    arcs@ == me.states[p as int].arcs,
                    me.wf(),
                    queue.compare == &compare,
                    cmp_ok::<(Pair<W>, Option<(StateId, StateId)>), _>(compare),
                    entries_ok(queue@, origin, nstates, i0),
                    preds_some(queue@),
            {
                let a = arcs[k];
                proof {
                    assert(me.states[p as int].arcs[k as int].nextstate < nstates);
                }
                let nc = c.times(&a.weight);
                proof {
                    lemma_entries_ok_push(
                        queue@,
                        (Pair(a.nextstate, nc), Some((p, np))),
                        origin,
                        nstates,
                        i0,
                    );
                    lemma_preds_some_push(queue@, (Pair(a.nextstate, nc), Some((p, np))));
                }
                queue.push((Pair(a.nextstate, nc), Some((p, np))));
            }
        }
    }
    proof {
        assert(nbest_sound(spec_extendfinal(m0), ofst.model(), origin));
    }
    ofst
}

} // verus!
