//! The generic transducer algorithms: extending to a single final
//! state, its inverse, reversal, trimming, and the shortest-distance
//! and n-best-paths computations.

pub mod connect;
pub mod shortestpath;

use vstd::prelude::*;

use crate::semiring::Weight;
use crate::wfst_vec::{StdArc, VecFst};
use crate::{ExpandedFst, Fst, FstModel, MutableFst, StateId, StateModel, renumber_after_del};

verus! {

/// The shape of a transducer after `extendfinal`: one fresh state
/// carries final weight `one`; every state that was final hands its
/// final weight to a new ε/ε arc into the fresh state and becomes
/// non-final.
pub open spec fn spec_extendfinal<W: Weight>(m: FstModel<W>) -> FstModel<W> {
    let n = m.states.len();
    FstModel {
        start: m.start,
        states: Seq::new(
            n + 1,
            |i: int|
                if i == n {
                    StateModel { finalweight: W::one_spec(), arcs: Seq::empty() }
                } else if m.is_final_m(i) {
                    StateModel {
                        finalweight: W::zero_spec(),
                        arcs: m.states[i].arcs.push(
                            StdArc {
                                ilabel: 0,
                                olabel: 0,
                                weight: m.states[i].finalweight,
                                nextstate: n as StateId,
                            },
                        ),
                    }
                } else {
                    m.states[i]
                },
        ),
        isyms: m.isyms,
        osyms: m.osyms,
    }
}

/// The index of the first final state, or the state count when no
/// state is final.
pub open spec fn first_final_from<W: Weight>(m: FstModel<W>, i: int) -> int
    decreases m.states.len() - i,
{
    if i < 0 || i >= m.states.len() {
        m.states.len() as int
    } else if m.is_final_m(i) {
        i
    } else {
        first_final_from(m, i + 1)
    }
}

/// The weight of the last ε/ε arc into state `f`, if any.
pub open spec fn last_eps_weight<W: Weight>(arcs: Seq<StdArc<W>>, f: StateId) -> Option<W>
    decreases arcs.len(),
{
    if arcs.len() == 0 {
        None
    } else if arcs.last().ilabel == 0 && arcs.last().olabel == 0 && arcs.last().nextstate == f {
        Some(arcs.last().weight)
    } else {
        last_eps_weight(arcs.drop_last(), f)
    }
}

/// The shape of a transducer after `unextendfinal`: every ε/ε arc into
/// the first final state moves its weight back onto its source's final
/// weight, and the final state is deleted.
pub open spec fn spec_unextendfinal<W: Weight>(m: FstModel<W>) -> FstModel<W> {
    let f = first_final_from(m, 0) as StateId;
    let restored = FstModel {
        states: Seq::new(
            m.states.len(),
            |i: int|
                match last_eps_weight(m.states[i].arcs, f) {
                    Some(w) => StateModel { finalweight: w, ..m.states[i] },
                    None => m.states[i],
                },
        ),
        ..m
    };
    restored.del_state_m(f)
}

/// Extends a transducer to a single final state.
///
/// It adds a new final state with the semiring's `one` as final weight
/// and connects the current final states to it with ε/ε arcs carrying
/// the old final weights.
pub fn extendfinal<W: Weight>(fst: &mut VecFst<W>)
    requires
        old(fst).model().states.len() < usize::MAX,
    ensures
        final(fst).model() == spec_extendfinal(old(fst).model()),
{
    let ghost m0 = old(fst).model();
    let n0 = fst.get_numstates();
    let mut finalstates: Vec<StateId> = Vec::new();
    for i in 0..n0
        invariant
            n0 == fst.model().states.len(),
            fst.model() == m0,
            forall|j: StateId| #[trigger]
                finalstates@.contains(j) <==> j < i && m0.is_final_m(j as int),
            finalstates@.no_duplicates(),
            forall|k: int| 0 <= k < finalstates@.len() ==> #[trigger] finalstates@[k] < i,
    {
        let ghost fs0 = finalstates@;
        if fst.is_final(i) {
            finalstates.push(i);
        }
        proof {
            assert forall|j: StateId| #[trigger] finalstates@.contains(j) implies j < i + 1
                && m0.is_final_m(j as int) by {
                let t = choose|t: int| 0 <= t < finalstates@.len() && finalstates@[t] == j;
                if t < fs0.len() {
                    assert(fs0[t] == j);
                    assert(fs0.contains(j));
                }
            }
            assert forall|j: StateId| j < i + 1 && m0.is_final_m(j as int) implies #[trigger]
                finalstates@.contains(j) by {
                if j < i {
                    assert(fs0.contains(j));
                    let t = choose|t: int| 0 <= t < fs0.len() && fs0[t] == j;
                    assert(finalstates@[t] == j);
                } else {
                    assert(finalstates@.last() == i);
                }
            }
            assert(finalstates@.no_duplicates()) by {
                if m0.is_final_m(i as int) {
                    assert(forall|t: int| 0 <= t < fs0.len() ==> #[trigger] fs0[t] < i);
                    assert(forall|t: int|
                        0 <= t < finalstates@.len() - 1 ==> #[trigger] finalstates@[t] == fs0[t]);
                }
            }
        }
    }
    let newfinal = fst.add_state(W::one());
    let nf = finalstates.len();
    for k in 0..nf
        invariant
            nf == finalstates@.len(),
            newfinal == n0,
            n0 < usize::MAX,
            m0.states.len() == n0,
            forall|j: StateId| #[trigger]
                finalstates@.contains(j) <==> j < n0 && m0.is_final_m(j as int),
            finalstates@.no_duplicates(),
            forall|t: int| 0 <= t < finalstates@.len() ==> #[trigger] finalstates@[t] < n0,
            fst.model().start == m0.start,
            fst.model().isyms == m0.isyms,
            fst.model().osyms == m0.osyms,
            fst.model().states.len() == n0 + 1,
            fst.model().states[n0 as int] == (StateModel::<W> {
                finalweight: W::one_spec(),
                arcs: Seq::empty(),
            }),
            forall|j: int|
                0 <= j < n0 ==> #[trigger] fst.model().states[j] == if finalstates@.subrange(
                    0,
                    k as int,
                ).contains(j as StateId) {
                    spec_extendfinal(m0).states[j]
                } else {
                    m0.states[j]
                },
    {
        let s = finalstates[k];
        proof {
            assert(finalstates@.contains(s));
            assert(!finalstates@.subrange(0, k as int).contains(s)) by {
                if finalstates@.subrange(0, k as int).contains(s) {
                    let t = choose|t: int|
                        0 <= t < k && finalstates@.subrange(0, k as int)[t] == s;
                    assert(finalstates@[t] == finalstates@[k as int]);
                }
            }
        }
        let ghost pre = fst.model();
        let finalweight = fst.get_finalweight(s);
        fst.add_arc(s, newfinal, 0, 0, finalweight);
        fst.set_finalweight(s, W::zero());
        proof {
            assert forall|j: StateId| #[trigger] finalstates@.subrange(0, k + 1 as int).contains(
                j,
            ) <==> (finalstates@.subrange(0, k as int).contains(j) || j == s) by {
                let s1 = finalstates@.subrange(0, k + 1 as int);
                let s0 = finalstates@.subrange(0, k as int);
                if s1.contains(j) {
                    let t = choose|t: int| 0 <= t < s1.len() && s1[t] == j;
                    if t < k {
                        assert(s0[t] == j);
                        assert(s0.contains(j));
                    } else {
                        assert(j == s);
                    }
                }
                if s0.contains(j) {
                    let t = choose|t: int| 0 <= t < s0.len() && s0[t] == j;
                    assert(s1[t] == j);
                }
                if j == s {
                    assert(s1[k as int] == s);
                }
            }
            assert forall|j: int| 0 <= j < n0 implies #[trigger] fst.model().states[j] == (
            if finalstates@.subrange(0, k + 1 as int).contains(j as StateId) {
                spec_extendfinal(m0).states[j]
            } else {
                m0.states[j]
            }) by {
                if j == s {
                    assert(m0.is_final_m(j));
                    assert(pre.states[j] == m0.states[j]);
                    assert(fst.model() == pre.with_arc(s, newfinal, 0, 0, finalweight)
                        .with_finalweight(s, W::zero_spec()));
                    assert(fst.model().states[j].finalweight == W::zero_spec());
                    assert(fst.model().states[j].arcs =~= m0.states[j].arcs.push(
                        StdArc {
                            ilabel: 0,
                            olabel: 0,
                            weight: m0.states[j].finalweight,
                            nextstate: newfinal,
                        },
                    ));
                    assert(spec_extendfinal(m0).states[j].finalweight == W::zero_spec());
                    assert(spec_extendfinal(m0).states[j].arcs == m0.states[j].arcs.push(
                        StdArc {
                            ilabel: 0,
                            olabel: 0,
                            weight: m0.states[j].finalweight,
                            nextstate: (m0.states.len() as StateId),
                        },
                    ));
                    assert(newfinal == m0.states.len() as StateId);
                    assert(fst.model().states[j] =~= spec_extendfinal(m0).states[j]);
                } else {
                    assert(fst.model().states[j] == pre.states[j]);
                }
            }
        }
    }
    proof {
        assert(finalstates@.subrange(0, nf as int) =~= finalstates@);
        assert(fst.model().states =~= spec_extendfinal(m0).states);
        assert(fst.model() =~= spec_extendfinal(m0));
    }
}

/// Undoes `extendfinal`: finds the first final state, moves the weight
/// of each ε/ε arc into it back onto the arc's source state, and
/// deletes it.
pub fn unextendfinal<W: Weight>(fst: &mut VecFst<W>)
    requires
        old(fst).model().states.len() > 0,
        old(fst).model().start is Some,
        exists|i: int| 0 <= i < old(fst).model().states.len() && old(fst).model().is_final_m(i),
        old(fst).model().start.unwrap() != first_final_from(old(fst).model(), 0),
    ensures
        final(fst).model() == spec_unextendfinal(old(fst).model()),
{
    let ghost m0 = old(fst).model();
    let n = fst.get_numstates();
    let mut finalstate: StateId = 0;
    let mut found = false;
    for i in 0..n
        invariant
            n == fst.model().states.len(),
            fst.model() == m0,
            found ==> finalstate < n && m0.is_final_m(finalstate as int) && (forall|t: int|
                0 <= t < finalstate ==> !m0.is_final_m(t)),
            !found ==> forall|t: int| 0 <= t < i ==> !m0.is_final_m(t),
    {
        if !found && fst.is_final(i) {
            finalstate = i;
            found = true;
        }
    }
    proof {
        assert(found) by {
            if !found {
                let w = choose|i: int| 0 <= i < m0.states.len() && m0.is_final_m(i);
                assert(!m0.is_final_m(w));
            }
        }
        lemma_first_final_prefix(m0, 0, finalstate as int);
        assert(first_final_from(m0, 0) == finalstate);
    }
    for i in 0..n
        invariant
            n == fst.model().states.len(),
            finalstate == first_final_from(m0, 0),
            fst.model().start == m0.start,
            fst.model().isyms == m0.isyms,
            fst.model().osyms == m0.osyms,
            forall|j: int|
                0 <= j < n ==> #[trigger] fst.model().states[j] == if j < i {
                    match last_eps_weight(m0.states[j].arcs, finalstate) {
                        Some(w) => StateModel { finalweight: w, ..m0.states[j] },
                        None => m0.states[j],
                    }
                } else {
                    m0.states[j]
                },
    {
        let arcs = fst.arc_iter(i);
        let na = arcs.len();
        for j in 0..na
            invariant
                n == fst.model().states.len(),
                i < n,
                na == arcs@.len(),
                arcs@ == m0.states[i as int].arcs,
                finalstate == first_final_from(m0, 0),
                fst.model().start == m0.start,
                fst.model().isyms == m0.isyms,
                fst.model().osyms == m0.osyms,
                forall|t: int|
                    0 <= t < n && t != i ==> #[trigger] fst.model().states[t] == if t < i {
                        match last_eps_weight(m0.states[t].arcs, finalstate) {
                            Some(w) => StateModel { finalweight: w, ..m0.states[t] },
                            None => m0.states[t],
                        }
                    } else {
                        m0.states[t]
                    },
                fst.model().states[i as int] == (match last_eps_weight(
                    m0.states[i as int].arcs.subrange(0, j as int),
                    finalstate,
                ) {
                    Some(w) => StateModel { finalweight: w, ..m0.states[i as int] },
                    None => m0.states[i as int],
                }),
        {
            let a = arcs[j];
            proof {
                assert(m0.states[i as int].arcs.subrange(0, j + 1 as int).drop_last()
                    =~= m0.states[i as int].arcs.subrange(0, j as int));
                assert(m0.states[i as int].arcs.subrange(0, j + 1 as int).last() == a);
            }
            if a.ilabel == 0 && a.olabel == 0 && a.nextstate == finalstate {
                fst.set_finalweight(i, a.weight);
            }
        }
        proof {
            assert(m0.states[i as int].arcs.subrange(0, na as int) =~= m0.states[i as int].arcs);
        }
    }
    proof {
        let restored = FstModel {
            states: Seq::new(
                m0.states.len(),
                |t: int|
                    match last_eps_weight(m0.states[t].arcs, finalstate) {
                        Some(w) => StateModel { finalweight: w, ..m0.states[t] },
                        None => m0.states[t],
                    },
            ),
            ..m0
        };
        assert(fst.model().states =~= restored.states);
        assert(fst.model() =~= restored);
    }
    fst.del_state(finalstate);
    proof {
        assert(fst.model() =~= spec_unextendfinal(m0));
    }
}

/// If no state below `i` is final, the search from 0 and the search
/// from `i` agree.
proof fn lemma_first_final_prefix<W: Weight>(m: FstModel<W>, lo: int, i: int)
    requires
        0 <= lo <= i <= m.states.len(),
        forall|t: int| lo <= t < i ==> !m.is_final_m(t),
    ensures
        first_final_from(m, lo) == first_final_from(m, i),
    decreases i - lo,
{
    if lo < i {
        lemma_first_final_prefix(m, lo + 1, i);
    }
}

/// Where some state is final, the first-final search lands on a final
/// state, the least one.
pub proof fn lemma_first_final_exists<W: Weight>(m: FstModel<W>)
    requires
        exists|i: int| 0 <= i < m.states.len() && m.is_final_m(i),
    ensures
        0 <= first_final_from(m, 0) < m.states.len(),
        m.is_final_m(first_final_from(m, 0)),
        forall|t: int| 0 <= t < first_final_from(m, 0) ==> !m.is_final_m(t),
{
    let w = choose|i: int| 0 <= i < m.states.len() && m.is_final_m(i);
    lemma_first_final_bound(m, 0, w);
}

proof fn lemma_first_final_bound<W: Weight>(m: FstModel<W>, lo: int, w: int)
    requires
        0 <= lo <= m.states.len(),
        lo <= w < m.states.len(),
        m.is_final_m(w),
    ensures
        lo <= first_final_from(m, lo) <= w,
        m.is_final_m(first_final_from(m, lo)),
        forall|t: int| lo <= t < first_final_from(m, lo) ==> !m.is_final_m(t),
    decreases w - lo,
{
    if !m.is_final_m(lo) {
        lemma_first_final_bound(m, lo + 1, w);
    }
}

/// Arc rewriting is the identity where no arc reaches the deleted
/// index.
proof fn lemma_rewrite_arcs_id<W: Weight>(arcs: Seq<StdArc<W>>, id: StateId)
    requires
        forall|k: int| 0 <= k < arcs.len() ==> (#[trigger] arcs[k]).nextstate < id,
    ensures
        crate::rewrite_arcs(arcs, id) == arcs,
    decreases arcs.len(),
{
    if arcs.len() > 0 {
        assert(forall|k: int|
            0 <= k < arcs.drop_last().len() ==> #[trigger] arcs.drop_last()[k] == arcs[k]);
        lemma_rewrite_arcs_id(arcs.drop_last(), id);
        assert(arcs.last() == arcs[arcs.len() - 1]);
        assert(crate::rewrite_arcs(arcs, id) =~= arcs);
    }
}

/// No ε/ε arc into `f` exists where no arc reaches `f` at all.
proof fn lemma_last_eps_none<W: Weight>(arcs: Seq<StdArc<W>>, f: StateId)
    requires
        forall|k: int| 0 <= k < arcs.len() ==> (#[trigger] arcs[k]).nextstate != f,
    ensures
        last_eps_weight(arcs, f) is None,
    decreases arcs.len(),
{
    if arcs.len() > 0 {
        assert(arcs.last() == arcs[arcs.len() - 1]);
        assert(forall|k: int|
            0 <= k < arcs.drop_last().len() ==> #[trigger] arcs.drop_last()[k] == arcs[k]);
        lemma_last_eps_none(arcs.drop_last(), f);
    }
}

/// After `extendfinal` the fresh state is the only final one, and the
/// first-final search finds it.
pub proof fn lemma_extendfinal_finals<W: Weight>(m: FstModel<W>)
    ensures
        forall|i: int| 0 <= i < m.states.len() ==> !spec_extendfinal(m).is_final_m(i),
        spec_extendfinal(m).is_final_m(m.states.len() as int),
        first_final_from(spec_extendfinal(m), 0) == m.states.len() as int,
{
    let me = spec_extendfinal(m);
    let n = m.states.len() as int;
    W::law_zero_one();
    assert forall|i: int| 0 <= i < n implies !me.is_final_m(i) by {
        if m.is_final_m(i) {
            W::law_eq_reflexive(W::zero_spec());
        }
    }
    assert(me.is_final_m(n));
    lemma_first_final_prefix(me, 0, n);
}

/// Undoing `extendfinal` with `unextendfinal` restores the transducer
/// exactly: the fresh final state, its incoming ε/ε arcs, and the
/// zeroed final weights all return to their old shape.
pub proof fn lemma_extendfinal_roundtrip<W: Weight>(m: FstModel<W>)
    requires
        m.wf(),
        m.start is Some,
        m.states.len() < usize::MAX,
    ensures
        spec_unextendfinal(spec_extendfinal(m)) == m,
{
    let me = spec_extendfinal(m);
    let n = m.states.len() as int;
    lemma_extendfinal_finals(m);
    let f = first_final_from(me, 0) as StateId;
    assert(f == n as StateId);
    let restored = FstModel {
        states: Seq::new(
            me.states.len(),
            |i: int|
                match last_eps_weight(me.states[i].arcs, f) {
                    Some(w) => StateModel { finalweight: w, ..me.states[i] },
                    None => me.states[i],
                },
        ),
        ..me
    };
    assert forall|i: int| 0 <= i < n implies restored.states[i] == (StateModel {
        finalweight: m.states[i].finalweight,
        arcs: me.states[i].arcs,
    }) by {
        if m.is_final_m(i) {
            assert(me.states[i].arcs.last().nextstate == f);
            assert(last_eps_weight(me.states[i].arcs, f) == Some(m.states[i].finalweight));
        } else {
            assert(me.states[i] == m.states[i]);
            assert(forall|k: int|
                0 <= k < m.states[i].arcs.len() ==> (#[trigger] m.states[i].arcs[k]).nextstate
                    != f);
            lemma_last_eps_none(m.states[i].arcs, f);
        }
    }
    assert(restored.states[n].arcs.len() == 0);
    assert(last_eps_weight(restored.states[n].arcs, f) is None);
    let out = restored.del_state_m(f);
    assert(out.start == m.start) by {
        let s = m.start.unwrap();
        assert(s < n);
        assert(renumber_after_del(s, f) == s);
    }
    assert forall|i: int| 0 <= i < n implies out.states[i] == m.states[i] by {
        assert(restored.states.remove(n)[i] == restored.states[i]);
        if m.is_final_m(i) {
            let pushed = me.states[i].arcs;
            assert(pushed.drop_last() =~= m.states[i].arcs);
            assert(pushed.last().nextstate == f);
            assert(crate::rewrite_arcs(pushed, f) == crate::rewrite_arcs(
                m.states[i].arcs,
                f,
            )) by {
                assert(crate::rewrite_arcs(pushed, f) =~= crate::rewrite_arcs(
                    pushed.drop_last(),
                    f,
                ));
            }
            assert(forall|k: int|
                0 <= k < m.states[i].arcs.len() ==> (#[trigger] m.states[i].arcs[k]).nextstate
                    < f);
            lemma_rewrite_arcs_id(m.states[i].arcs, f);
        } else {
            assert(forall|k: int|
                0 <= k < m.states[i].arcs.len() ==> (#[trigger] m.states[i].arcs[k]).nextstate
                    < f);
            lemma_rewrite_arcs_id(m.states[i].arcs, f);
        }
    }
    assert(out.states.len() == n);
    assert(out.states =~= m.states);
    assert(out =~= m);
}

/// The reversed arcs contributed to target `j` by the arcs of one
/// source state, in arc order.
pub open spec fn rev_arcs_of<W: Weight>(arcs: Seq<StdArc<W>>, src: StateId, j: int) -> Seq<
    StdArc<W>,
>
    decreases arcs.len(),
{
    if arcs.len() == 0 {
        Seq::empty()
    } else {
        let a = arcs.last();
        rev_arcs_of(arcs.drop_last(), src, j) + if a.nextstate == j {
            seq![
                StdArc {
                    ilabel: a.ilabel,
                    olabel: a.olabel,
                    weight: a.weight.reverse_spec(),
                    nextstate: src,
                },
            ]
        } else {
            Seq::empty()
        }
    }
}

/// The reversed arcs into target `j` gathered from source states
/// `0 .. i`.
pub open spec fn rev_arcs_upto<W: Weight>(m: FstModel<W>, j: int, i: int) -> Seq<StdArc<W>>
    decreases i,
{
    if i <= 0 {
        Seq::empty()
    } else {
        rev_arcs_upto(m, j, i - 1) + rev_arcs_of(m.states[i - 1].arcs, (i - 1) as StateId, j)
    }
}

/// The shape of `reverse`'s output: the transducer is first extended
/// to a single final state; that state becomes the start, the old
/// start becomes the single final state with weight `one`, every arc
/// turns around with its weight reversed, and the symbol tables swap
/// roles.
pub open spec fn spec_reverse<W: Weight>(m: FstModel<W>) -> FstModel<W> {
    let me = spec_extendfinal(m);
    let n1 = me.states.len();
    FstModel {
        start: Some(m.states.len() as StateId),
        states: Seq::new(
            n1,
            |j: int| StateModel {
                finalweight: if m.start == Some(j as StateId) {
                    W::one_spec()
                } else {
                    W::zero_spec()
                },
                arcs: rev_arcs_upto(me, j, n1 as int),
            },
        ),
        isyms: m.osyms,
        osyms: m.isyms,
    }
}

/// Reverses a transducer: where the input transduces x to y with
/// weight a, the result transduces the reverse of x to the reverse of
/// y with weight `a.reverse()`. The input is extended, read, and
/// restored to exactly its old shape.
pub fn reverse<W: Weight>(ifst: &mut VecFst<W>) -> (ofst: VecFst<W>)
    requires
        old(ifst).model().wf(),
        old(ifst).model().start is Some,
        old(ifst).model().states.len() < usize::MAX,
    ensures
        final(ifst).model() == old(ifst).model(),
        ofst.model() == spec_reverse(old(ifst).model()),
{
    let ghost m0 = old(ifst).model();
    extendfinal(ifst);
    let ghost me = spec_extendfinal(m0);
    proof {
        lemma_extendfinal_finals(m0);
        assert(me.wf()) by {
            assert(forall|i: int, k: int|
                0 <= i < m0.states.len() && 0 <= k < m0.states[i].arcs.len() ==> (
                #[trigger] m0.states[i].arcs[k]).nextstate < m0.states.len());
            assert forall|i: int, k: int|
                0 <= i < me.states.len() && 0 <= k < me.states[i].arcs.len() implies (
            #[trigger] me.states[i].arcs[k]).nextstate < me.states.len() by {
                if i < m0.states.len() && m0.is_final_m(i) {
                    if k < m0.states[i].arcs.len() {
                        assert(me.states[i].arcs[k] == m0.states[i].arcs[k]);
                    }
                }
            }
        }
    }
    let mut ofst = VecFst::<W>::new();
    match ifst.get_osyms() {
        Some(syms) => ofst.set_isyms(syms),
        None => {},
    }
    match ifst.get_isyms() {
        Some(syms) => ofst.set_osyms(syms),
        None => {},
    }
    let n1 = ifst.get_numstates();
    let ghost n0 = m0.states.len() as int;
    for i in 0..n1
        invariant
            ifst.model() == me,
            n1 == me.states.len(),
            n0 == m0.states.len() as int,
            n1 == n0 + 1,
            ofst.model().isyms == m0.osyms,
            ofst.model().osyms == m0.isyms,
            ofst.model().states.len() == i,
            forall|t: int|
                0 <= t < i ==> #[trigger] ofst.model().states[t] == (StateModel::<W> {
                    finalweight: W::zero_spec(),
                    arcs: Seq::empty(),
                }),
            ofst.model().start == if i > n0 {
                Some(n0 as StateId)
            } else {
                None::<StateId>
            },
            forall|t: int| 0 <= t < n0 ==> !me.is_final_m(t),
            me.is_final_m(n0),
    {
        let ghost pre = ofst.model();
        ofst.add_state(W::zero());
        proof {
            assert(ofst.model().states[i as int] == (StateModel::<W> {
                finalweight: W::zero_spec(),
                arcs: Seq::empty(),
            }));
            assert(forall|t: int|
                0 <= t < i ==> #[trigger] ofst.model().states[t] == pre.states[t]);
        }
        if ifst.is_final(i) {
            proof {
                assert(i == n0);
            }
            ofst.set_start(i);
        }
    }
    let s0 = ifst.get_start().unwrap();
    ofst.set_finalweight(s0, W::one());
    let ghost base = ofst.model();
    proof {
        assert(base.states.len() == n1);
        assert forall|t: int| 0 <= t < n1 implies #[trigger] base.states[t] == (StateModel::<
            W,
        > {
            finalweight: if m0.start == Some(t as StateId) {
                W::one_spec()
            } else {
                W::zero_spec()
            },
            arcs: Seq::empty(),
        }) by {
            assert(s0 < n0);
        }
    }
    for i in 0..n1
        invariant
            ifst.model() == me,
            n1 == me.states.len(),
            me.wf(),
            ofst.model().isyms == base.isyms,
            ofst.model().osyms == base.osyms,
            ofst.model().start == base.start,
            ofst.model().states.len() == n1,
            forall|t: int|
                0 <= t < n1 ==> #[trigger] ofst.model().states[t] == (StateModel {
                    finalweight: base.states[t].finalweight,
                    arcs: rev_arcs_upto(me, t, i as int),
                }),
    {
        let arcs = ifst.arc_iter(i);
        let na = arcs.len();
        for j in 0..na
            invariant
                ifst.model() == me,
                n1 == me.states.len(),
                me.wf(),
                i < n1,
                na == arcs@.len(),
                arcs@ == me.states[i as int].arcs,
                ofst.model().isyms == base.isyms,
                ofst.model().osyms == base.osyms,
                ofst.model().start == base.start,
                ofst.model().states.len() == n1,
                forall|t: int|
                    0 <= t < n1 ==> #[trigger] ofst.model().states[t] == (StateModel {
                        finalweight: base.states[t].finalweight,
                        arcs: rev_arcs_upto(me, t, i as int) + rev_arcs_of(
                            me.states[i as int].arcs.subrange(0, j as int),
                            i,
                            t,
                        ),
                    }),
        {
            let a = arcs[j];
            proof {
                assert(me.states[i as int].arcs[j as int].nextstate < n1);
            }
            let ghost pre = ofst.model();
            ofst.add_arc(a.nextstate, i, a.ilabel, a.olabel, a.weight.reverse());
            proof {
                assert forall|t: int| 0 <= t < n1 implies #[trigger] ofst.model().states[t]
                    == (StateModel {
                    finalweight: base.states[t].finalweight,
                    arcs: rev_arcs_upto(me, t, i as int) + rev_arcs_of(
                        me.states[i as int].arcs.subrange(0, j + 1 as int),
                        i,
                        t,
                    ),
                }) by {
                    let sub1 = me.states[i as int].arcs.subrange(0, j + 1 as int);
                    let sub0 = me.states[i as int].arcs.subrange(0, j as int);
                    assert(sub1.drop_last() =~= sub0);
                    assert(sub1.last() == a);
                    if t == a.nextstate {
                        assert(rev_arcs_of(sub1, i, t) =~= rev_arcs_of(sub0, i, t).push(
                            StdArc {
                                ilabel: a.ilabel,
                                olabel: a.olabel,
                                weight: a.weight.reverse_spec(),
                                nextstate: i,
                            },
                        ));
                        assert(ofst.model().states[t].arcs =~= rev_arcs_upto(me, t, i as int)
                            + rev_arcs_of(sub1, i, t));
                        assert(ofst.model().states[t] =~= (StateModel {
                            finalweight: base.states[t].finalweight,
                            arcs: rev_arcs_upto(me, t, i as int) + rev_arcs_of(sub1, i, t),
                        }));
                    } else {
                        assert(rev_arcs_of(sub1, i, t) =~= rev_arcs_of(sub0, i, t));
                        assert(ofst.model().states[t] == pre.states[t]);
                        assert(ofst.model().states[t] =~= (StateModel {
                            finalweight: base.states[t].finalweight,
                            arcs: rev_arcs_upto(me, t, i as int) + rev_arcs_of(sub1, i, t),
                        }));
                    }
                }
            }
        }
        proof {
            assert forall|t: int| 0 <= t < n1 implies #[trigger] ofst.model().states[t] == (
            StateModel {
                finalweight: base.states[t].finalweight,
                arcs: rev_arcs_upto(me, t, i + 1 as int),
            }) by {
                assert(me.states[i as int].arcs.subrange(0, na as int) =~= me.states[
                    i as int
                ].arcs);
            }
        }
    }
    unextendfinal(ifst);
    proof {
        lemma_extendfinal_roundtrip(m0);
        assert(ifst.model() == m0);
        assert forall|t: int| 0 <= t < n1 implies #[trigger] ofst.model().states[t]
            == spec_reverse(m0).states[t] by {
            assert(ofst.model().states[t].arcs + Seq::<StdArc<W>>::empty()
                == ofst.model().states[t].arcs);
            assert(ofst.model().states[t].arcs =~= spec_reverse(m0).states[t].arcs);
            assert(ofst.model().states[t] =~= spec_reverse(m0).states[t]);
        }
        assert(ofst.model().states =~= spec_reverse(m0).states);
        assert(ofst.model() =~= spec_reverse(m0));
    }
    ofst
}

/// Extending preserves well-formedness: the fresh state and the fresh
/// arcs stay inside the enlarged state range.
pub proof fn lemma_extendfinal_wf<W: Weight>(m: FstModel<W>)
    requires
        m.wf(),
    ensures
        spec_extendfinal(m).wf(),
{
    let me = spec_extendfinal(m);
    assert forall|i: int, k: int|
        0 <= i < me.states.len() && 0 <= k < me.states[i].arcs.len() implies (
    #[trigger] me.states[i].arcs[k]).nextstate < me.states.len() by {
        if i < m.states.len() && m.is_final_m(i) {
            if k < m.states[i].arcs.len() {
                assert(me.states[i].arcs[k] == m.states[i].arcs[k]);
            }
        }
    }
}

/// Membership in the arcs gathered by the reversal: target `j` holds
/// a reversed arc back to `i` exactly where state `i` holds the
/// matching forward arc.
proof fn lemma_rev_arcs_upto_contains<W: Weight>(
    m: FstModel<W>,
    j: int,
    b: int,
    a: StdArc<W>,
)
    requires
        0 <= b <= m.states.len(),
        m.states.len() <= usize::MAX,
        0 <= j <= usize::MAX,
    ensures
        rev_arcs_upto(m, j, b).contains(a) <==> (a.nextstate < b && exists|k: int|
            0 <= k < m.states[a.nextstate as int].arcs.len()
                && #[trigger] m.states[a.nextstate as int].arcs[k] == (StdArc {
                ilabel: a.ilabel,
                olabel: a.olabel,
                weight: a.weight.reverse_spec(),
                nextstate: j as StateId,
            }) && a.weight == m.states[a.nextstate as int].arcs[k].weight.reverse_spec()),
    decreases b,
{
    if b > 0 {
        lemma_rev_arcs_upto_contains(m, j, b - 1, a);
        let pre = rev_arcs_upto(m, j, b - 1);
        let ext = rev_arcs_of(m.states[b - 1].arcs, (b - 1) as StateId, j);
        lemma_rev_arcs_of_contains(m.states[b - 1].arcs, (b - 1) as StateId, j, a);
        assert(rev_arcs_upto(m, j, b) == pre + ext);
        if rev_arcs_upto(m, j, b).contains(a) {
            let t = choose|t: int|
                0 <= t < (pre + ext).len() && (pre + ext)[t] == a;
            if t < pre.len() {
                assert(pre[t] == a);
                assert(pre.contains(a));
            } else {
                assert(ext[t - pre.len()] == a);
                assert(ext.contains(a));
            }
        }
        if pre.contains(a) {
            let t = choose|t: int| 0 <= t < pre.len() && pre[t] == a;
            assert((pre + ext)[t] == a);
            assert(rev_arcs_upto(m, j, b).contains(a));
        }
        if ext.contains(a) {
            let t = choose|t: int| 0 <= t < ext.len() && ext[t] == a;
            assert((pre + ext)[t + pre.len()] == a);
            assert(rev_arcs_upto(m, j, b).contains(a));
        }
    }
}

/// Membership in one state's reversed arcs.
proof fn lemma_rev_arcs_of_contains<W: Weight>(
    arcs: Seq<StdArc<W>>,
    src: StateId,
    j: int,
    a: StdArc<W>,
)
    requires
        0 <= j <= usize::MAX,
    ensures
        rev_arcs_of(arcs, src, j).contains(a) <==> (a.nextstate == src && exists|k: int|
            0 <= k < arcs.len() && #[trigger] arcs[k] == (StdArc {
                ilabel: a.ilabel,
                olabel: a.olabel,
                weight: a.weight.reverse_spec(),
                nextstate: j as StateId,
            }) && a.weight == arcs[k].weight.reverse_spec()),
    decreases arcs.len(),
{
    if arcs.len() == 0 {
    } else {
        let dl = arcs.drop_last();
        lemma_rev_arcs_of_contains(dl, src, j, a);
        let pre = rev_arcs_of(dl, src, j);
        let last = arcs.last();
        let ext: Seq<StdArc<W>> = if last.nextstate == j {
            seq![
                StdArc {
                    ilabel: last.ilabel,
                    olabel: last.olabel,
                    weight: last.weight.reverse_spec(),
                    nextstate: src,
                },
            ]
        } else {
            Seq::empty()
        };
        assert(rev_arcs_of(arcs, src, j) == pre + ext);
        assert(forall|k: int| 0 <= k < dl.len() ==> #[trigger] dl[k] == arcs[k]);
        assert(arcs[arcs.len() - 1] == last);
        if rev_arcs_of(arcs, src, j).contains(a) {
            let t = choose|t: int| 0 <= t < (pre + ext).len() && (pre + ext)[t] == a;
            if t < pre.len() {
                assert(pre[t] == a);
                assert(pre.contains(a));
                let k = choose|k: int|
                    0 <= k < dl.len() && #[trigger] dl[k] == (StdArc {
                        ilabel: a.ilabel,
                        olabel: a.olabel,
                        weight: a.weight.reverse_spec(),
                        nextstate: j as StateId,
                    }) && a.weight == dl[k].weight.reverse_spec();
                assert(arcs[k] == dl[k]);
            } else {
                assert(ext[t - pre.len()] == a);
                assert(last.nextstate == j as StateId);
                assert(a == (StdArc {
                    ilabel: last.ilabel,
                    olabel: last.olabel,
                    weight: last.weight.reverse_spec(),
                    nextstate: src,
                }));
                W::law_reverse_involution(last.weight);
                assert(arcs[arcs.len() - 1] == (StdArc {
                    ilabel: a.ilabel,
                    olabel: a.olabel,
                    weight: a.weight.reverse_spec(),
                    nextstate: j as StateId,
                }));
            }
        }
        if a.nextstate == src && exists|k: int|
            0 <= k < arcs.len() && #[trigger] arcs[k] == (StdArc {
                ilabel: a.ilabel,
                olabel: a.olabel,
                weight: a.weight.reverse_spec(),
                nextstate: j as StateId,
            }) && a.weight == arcs[k].weight.reverse_spec() {
            let k = choose|k: int|
                0 <= k < arcs.len() && #[trigger] arcs[k] == (StdArc {
                    ilabel: a.ilabel,
                    olabel: a.olabel,
                    weight: a.weight.reverse_spec(),
                    nextstate: j as StateId,
                }) && a.weight == arcs[k].weight.reverse_spec();
            if k < dl.len() {
                assert(dl[k] == arcs[k]);
                assert(pre.contains(a));
                let t = choose|t: int| 0 <= t < pre.len() && pre[t] == a;
                assert((pre + ext)[t] == a);
            } else {
                assert(last == arcs[k]);
                assert(last.nextstate == j as StateId);
                W::law_reverse_involution(a.weight);
                assert(ext[0] == (StdArc {
                    ilabel: last.ilabel,
                    olabel: last.olabel,
                    weight: last.weight.reverse_spec(),
                    nextstate: src,
                }));
                assert(ext[0] == a);
                assert((pre + ext)[pre.len() as int] == a);
            }
            assert(rev_arcs_of(arcs, src, j).contains(a));
        }
    }
}

/// Reversing twice preserves the arc relation on the original states:
/// an arc stands between two states of the doubly reversed transducer
/// exactly where it stands in the original, labels and weight
/// included.
pub proof fn lemma_reverse_reverse_arcs<W: Weight>(
    m: FstModel<W>,
    a: StdArc<W>,
    j: StateId,
)
    requires
        m.wf(),
        m.start is Some,
        m.states.len() < usize::MAX - 1,
        j < m.states.len(),
        a.nextstate < m.states.len(),
    ensures
        spec_reverse(spec_reverse(m)).states[j as int].arcs.contains(a)
            <==> m.states[j as int].arcs.contains(a),
{
    let n = m.states.len() as int;
    let mrev = spec_reverse(m);
    let me = spec_extendfinal(m);
    let me2 = spec_extendfinal(mrev);
    let m2 = spec_reverse(mrev);
    let i = a.nextstate;
    lemma_extendfinal_finals(m);
    lemma_extendfinal_finals(mrev);
    W::law_reverse_involution(a.weight);
    let b = StdArc {
        ilabel: a.ilabel,
        olabel: a.olabel,
        weight: a.weight.reverse_spec(),
        nextstate: j,
    };
    // membership in the doubly reversed arcs of state j comes from a
    // reversed arc of the once-reversed machine at state i
    assert(m2.states[j as int].arcs == rev_arcs_upto(me2, j as int, me2.states.len() as int));
    lemma_rev_arcs_upto_contains(me2, j as int, me2.states.len() as int, a);
    // the extension of the reversed machine only adds an ε-arc into
    // its fresh state, which no original index names
    assert(me2.states[i as int].arcs.contains(b) <==> mrev.states[i as int].arcs.contains(b))
        by {
        if mrev.is_final_m(i as int) {
            assert(me2.states[i as int].arcs == mrev.states[i as int].arcs.push(
                StdArc {
                    ilabel: 0,
                    olabel: 0,
                    weight: mrev.states[i as int].finalweight,
                    nextstate: (mrev.states.len() as StateId),
                },
            ));
            let pushed = me2.states[i as int].arcs;
            let orig = mrev.states[i as int].arcs;
            if pushed.contains(b) {
                let t = choose|t: int| 0 <= t < pushed.len() && pushed[t] == b;
                if t < orig.len() {
                    assert(orig[t] == b);
                    assert(orig.contains(b));
                } else {
                    assert(b.nextstate < mrev.states.len());
                }
            }
            if orig.contains(b) {
                let t = choose|t: int| 0 <= t < orig.len() && orig[t] == b;
                assert(pushed[t] == b);
            }
        }
    }
    // and a reversed arc of the once-reversed machine comes from the
    // original arc, with the weight reversed back
    assert(mrev.states[i as int].arcs == rev_arcs_upto(me, i as int, me.states.len() as int));
    lemma_rev_arcs_upto_contains(me, i as int, me.states.len() as int, b);
    assert(me.states[j as int].arcs.contains(a) <==> m.states[j as int].arcs.contains(a)) by {
        if m.is_final_m(j as int) {
            let pushed = me.states[j as int].arcs;
            let orig = m.states[j as int].arcs;
            assert(pushed == orig.push(
                StdArc {
                    ilabel: 0,
                    olabel: 0,
                    weight: m.states[j as int].finalweight,
                    nextstate: (m.states.len() as StateId),
                },
            ));
            if pushed.contains(a) {
                let t = choose|t: int| 0 <= t < pushed.len() && pushed[t] == a;
                if t < orig.len() {
                    assert(orig[t] == a);
                    assert(orig.contains(a));
                } else {
                    assert(a.nextstate < m.states.len());
                }
            }
            if orig.contains(a) {
                let t = choose|t: int| 0 <= t < orig.len() && orig[t] == a;
                assert(pushed[t] == a);
            }
        }
    }
    if m2.states[j as int].arcs.contains(a) {
        let k = choose|k: int|
            0 <= k < me2.states[i as int].arcs.len() && #[trigger] me2.states[i as int].arcs[k]
                == b && a.weight == me2.states[i as int].arcs[k].weight.reverse_spec();
        assert(me2.states[i as int].arcs.contains(b));
        assert(mrev.states[i as int].arcs.contains(b));
        let k2 = choose|k2: int|
            0 <= k2 < mrev.states[i as int].arcs.len()
                && #[trigger] mrev.states[i as int].arcs[k2] == b;
        assert(b.nextstate == j && exists|k3: int|
            0 <= k3 < me.states[b.nextstate as int].arcs.len()
                && #[trigger] me.states[b.nextstate as int].arcs[k3] == (StdArc {
                ilabel: b.ilabel,
                olabel: b.olabel,
                weight: b.weight.reverse_spec(),
                nextstate: i,
            }) && b.weight == me.states[b.nextstate as int].arcs[k3].weight.reverse_spec());
        let k3 = choose|k3: int|
            0 <= k3 < me.states[j as int].arcs.len()
                && #[trigger] me.states[j as int].arcs[k3] == (StdArc {
                ilabel: b.ilabel,
                olabel: b.olabel,
                weight: b.weight.reverse_spec(),
                nextstate: i,
            });
        assert(me.states[j as int].arcs[k3] == a);
        assert(me.states[j as int].arcs.contains(a));
    }
    if m.states[j as int].arcs.contains(a) {
        assert(me.states[j as int].arcs.contains(a));
        let k3 = choose|k3: int|
            0 <= k3 < me.states[j as int].arcs.len() && me.states[j as int].arcs[k3] == a;
        assert(me.states[j as int].arcs[k3] == (StdArc {
            ilabel: b.ilabel,
            olabel: b.olabel,
            weight: b.weight.reverse_spec(),
            nextstate: i,
        }));
        assert(mrev.states[i as int].arcs.contains(b));
        let k2 = choose|k2: int|
            0 <= k2 < mrev.states[i as int].arcs.len() && mrev.states[i as int].arcs[k2] == b;
        assert(me2.states[i as int].arcs.contains(b));
        let k = choose|k: int|
            0 <= k < me2.states[i as int].arcs.len() && me2.states[i as int].arcs[k] == b;
        assert(me2.states[i as int].arcs[k] == (StdArc {
            ilabel: a.ilabel,
            olabel: a.olabel,
            weight: a.weight.reverse_spec(),
            nextstate: j,
        }));
        assert(a.weight == me2.states[i as int].arcs[k].weight.reverse_spec());
        assert(m2.states[j as int].arcs.contains(a));
    }
}

} // verus!
