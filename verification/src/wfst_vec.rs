//! The vector-backed mutable transducer: states in a dense vector,
//! each with its final weight and its outgoing arcs in insertion
//! order.

use vstd::multiset::Multiset;
use vstd::prelude::*;

use crate::semiring::Weight;
use crate::{
    Arc, ExpandedFst, Fst, FstModel, Label, MutableFst, StateId, StateModel, renumber_after_del,
    rewrite_arcs, sorted_desc, syms_model,
};

verus! {

/// One labeled, weighted transition to `nextstate`.
#[derive(Clone, Copy, Debug)]
pub struct StdArc<W: Weight> {
    pub ilabel: Label,
    pub olabel: Label,
    pub weight: W,
    pub nextstate: StateId,
}

impl<W: Weight> StdArc<W> {
    pub fn new(i: Label, o: Label, w: W, s: StateId) -> (r: Self)
        ensures
            r == (StdArc { ilabel: i, olabel: o, weight: w, nextstate: s }),
    {
        StdArc { ilabel: i, olabel: o, weight: w, nextstate: s }
    }
}

impl<W: Weight> Arc<W> for StdArc<W> {
    open spec fn ilabel_spec(&self) -> Label {
        self.ilabel
    }

    open spec fn olabel_spec(&self) -> Label {
        self.olabel
    }

    open spec fn weight_spec(&self) -> W {
        self.weight
    }

    open spec fn nextstate_spec(&self) -> StateId {
        self.nextstate
    }

    fn ilabel(&self) -> (r: Label) {
        self.ilabel
    }

    fn olabel(&self) -> (r: Label) {
        self.olabel
    }

    fn weight(&self) -> (r: W) {
        self.weight
    }

    fn nextstate(&self) -> (r: StateId) {
        self.nextstate
    }
}

/// One state: its final weight and its outgoing arcs.
#[derive(Clone, Debug)]
pub struct VecState<W: Weight> {
    pub finalweight: W,
    pub arcs: Vec<StdArc<W>>,
}

impl<W: Weight> VecState<W> {
    /// The mathematical shape of this state.
    pub open spec fn model(&self) -> StateModel<W> {
        StateModel { finalweight: self.finalweight, arcs: self.arcs@ }
    }

    fn new(finalweight: W) -> (r: Self)
        ensures
            r.model() == (StateModel::<W> { finalweight, arcs: Seq::empty() }),
    {
        let r = VecState { finalweight, arcs: Vec::new() };
        proof {
            assert(r.model().arcs =~= Seq::<StdArc<W>>::empty());
        }
        r
    }
}

/// The vector-backed transducer.
#[derive(Clone, Debug)]
pub struct VecFst<W: Weight> {
    pub states: Vec<VecState<W>>,
    pub startstate: Option<StateId>,
    pub isyms: Option<Vec<String>>,
    pub osyms: Option<Vec<String>>,
}

impl<W: Weight> VecFst<W> {
    pub fn new() -> (r: Self)
        ensures
            r.model() == FstModel::<W>::empty_model(),
    {
        let r = VecFst::<W> {
            states: Vec::new(),
            startstate: None,
            isyms: None,
            osyms: None,
        };
        proof {
            assert(r.model() =~= FstModel::<W>::empty_model());
        }
        r
    }
}

/// A copy of a string table, element for element.
pub fn clone_string_table(v: &Vec<String>) -> (r: Vec<String>)
    ensures
        r@.map_values(|s: String| s@) == v@.map_values(|s: String| s@),
{
    let mut r: Vec<String> = Vec::new();
    for i in 0..v.len()
        invariant
            r@.map_values(|s: String| s@) == v@.subrange(0, i as int).map_values(
                |s: String| s@,
            ),
    {
        let ghost prev = r@;
        r.push(v[i].clone());
        proof {
            assert(r@ == prev.push(v@[i as int]));
            prev.lemma_push_map_commute(|s: String| s@, v@[i as int]);
            assert(v@.subrange(0, i + 1 as int).drop_last() =~= v@.subrange(0, i as int));
            assert(v@.subrange(0, i as int).push(v@[i as int]) =~= v@.subrange(0, i + 1 as int));
            v@.subrange(0, i as int).lemma_push_map_commute(|s: String| s@, v@[i as int]);
            assert(r@.map_values(|s: String| s@) == v@.subrange(0, i + 1 as int).map_values(
                |s: String| s@,
            ));
        }
    }
    proof {
        assert(v@.subrange(0, v@.len() as int) =~= v@);
        assert(r@.map_values(|s: String| s@) =~~= v@.map_values(|s: String| s@));
    }
    r
}

impl<W: Weight> Fst<W> for VecFst<W> {
    open spec fn model(&self) -> FstModel<W> {
        FstModel {
            start: self.startstate,
            states: self.states@.map_values(|st: VecState<W>| st.model()),
            isyms: syms_model(self.isyms),
            osyms: syms_model(self.osyms),
        }
    }

    fn get_start(&self) -> (r: Option<StateId>) {
        self.startstate
    }

    fn get_finalweight(&self, id: StateId) -> (w: W) {
        self.states[id].finalweight
    }

    fn arc_iter(&self, id: StateId) -> (arcs: Vec<StdArc<W>>) {
        let mut arcs: Vec<StdArc<W>> = Vec::new();
        let n = self.states[id].arcs.len();
        for j in 0..n
            invariant
                n == self.states@[id as int].arcs@.len(),
                id < self.states@.len(),
                arcs@ =~= self.states@[id as int].arcs@.subrange(0, j as int),
        {
            arcs.push(self.states[id].arcs[j]);
        }
        proof {
            assert(arcs@ =~= self.model().states[id as int].arcs);
        }
        arcs
    }

    fn get_isyms(&self) -> (r: Option<Vec<String>>) {
        match &self.isyms {
            Some(v) => Some(clone_string_table(v)),
            None => None,
        }
    }

    fn get_osyms(&self) -> (r: Option<Vec<String>>) {
        match &self.osyms {
            Some(v) => Some(clone_string_table(v)),
            None => None,
        }
    }

    fn is_final(&self, id: StateId) -> (r: bool) {
        !self.states[id].finalweight.eq_weight(&W::zero())
    }
}

impl<W: Weight> ExpandedFst<W> for VecFst<W> {
    fn get_numstates(&self) -> (n: usize) {
        self.states.len()
    }
}

impl<W: Weight> MutableFst<W> for VecFst<W> {
    fn new() -> (r: Self) {
        VecFst::new()
    }

    fn set_start(&mut self, id: StateId) {
        self.startstate = Some(id);
        proof {
            assert(self.model() =~= old(self).model().with_start(id));
        }
    }

    fn add_state(&mut self, finalweight: W) -> (id: StateId) {
        let id = self.states.len();
        self.states.push(VecState::new(finalweight));
        proof {
            assert(self.model() =~= old(self).model().with_new_state(finalweight));
        }
        id
    }

    fn del_state(&mut self, id: StateId) {
        let ghost target = old(self).model().del_state_m(id);
        self.states.remove(id);
        match self.startstate {
            Some(s) => {
                if s > id {
                    self.startstate = Some(s - 1);
                }
            },
            None => {},
        }
        let n = self.states.len();
        let mut newstates: Vec<VecState<W>> = Vec::new();
        proof {
            assert(target.states.len() == n);
        }
        for i in 0..n
            invariant
                n == self.states@.len(),
                n == target.states.len(),
                forall|k: int|
                    0 <= k < n ==> #[trigger] target.states[k] == (StateModel {
                        arcs: rewrite_arcs(self.states@[k].model().arcs, id),
                        ..self.states@[k].model()
                    }),
                newstates@.len() == i,
                forall|k: int|
                    0 <= k < i ==> #[trigger] newstates@[k].model() == target.states[k],
        {
            let n_arcs = self.states[i].arcs.len();
            let mut newarcs: Vec<StdArc<W>> = Vec::new();
            for j in 0..n_arcs
                invariant
                    i < self.states@.len(),
                    n_arcs == self.states@[i as int].arcs@.len(),
                    newarcs@ =~= rewrite_arcs(
                        self.states@[i as int].arcs@.subrange(0, j as int),
                        id,
                    ),
            {
                let a = self.states[i].arcs[j];
                proof {
                    assert(self.states@[i as int].arcs@.subrange(0, j + 1 as int).drop_last()
                        =~= self.states@[i as int].arcs@.subrange(0, j as int));
                }
                if a.nextstate != id {
                    let t = if a.nextstate > id {
                        a.nextstate - 1
                    } else {
                        a.nextstate
                    };
                    newarcs.push(StdArc { nextstate: t, ..a });
                }
            }
            proof {
                assert(self.states@[i as int].arcs@.subrange(0, n_arcs as int)
                    =~= self.states@[i as int].arcs@);
            }
            let fw = self.states[i].finalweight;
            newstates.push(VecState { finalweight: fw, arcs: newarcs });
        }
        self.states = newstates;
        proof {
            assert(self.model().states =~= target.states);
            assert(self.model() =~= target);
        }
    }

    fn del_states(&mut self, states: Vec<StateId>) {
        let ghost states0 = states@;
        let mut v = states;
        let ghost orig = old(self).model();
        let ghost mut done: Seq<StateId> = Seq::empty();
        proof {
            broadcast use vstd::seq_lib::group_to_multiset_ensures;

            assert(orig.del_states_desc_m(done) =~= orig);
            assert(done.to_multiset().add(v@.to_multiset()) =~= states0.to_multiset());
        }
        while v.len() > 0
            invariant
                v@.no_duplicates(),
                sorted_desc(done),
                forall|k: int|
                    0 <= k < v@.len() ==> done.len() > 0 ==> #[trigger] v@[k] < done.last(),
                done.to_multiset().add(v@.to_multiset()) == states0.to_multiset(),
                self.model() == orig.del_states_desc_m(done),
                self.model().start is Some,
                forall|k: int| 0 <= k < v@.len() ==> #[trigger] v@[k] < self.model().states.len(),
                !v@.contains(self.model().start.unwrap()),
            decreases v@.len(),
        {
            let mut mi: usize = 0;
            let n = v.len();
            for k in 1..n
                invariant
                    n == v@.len(),
                    0 < n,
                    mi < k,
                    forall|t: int| 0 <= t < k ==> v@[t] <= v@[mi as int],
            {
                if v[k] > v[mi] {
                    mi = k;
                }
            }
            let ghost v0 = v@;
            let ghost pre = self.model();
            let ghost s_cur = self.model().start.unwrap();
            let x = v.remove(mi);
            proof {
                broadcast use vstd::seq_lib::group_to_multiset_ensures;

                assert(forall|t: int|
                    0 <= t < v@.len() ==> v@[t] == if t < mi {
                        v0[t]
                    } else {
                        v0[t + 1]
                    });
                assert(forall|t: int| 0 <= t < v@.len() ==> #[trigger] v@[t] <= x);
                assert(forall|t: int, u: int|
                    0 <= t < u < v@.len() ==> #[trigger] v@[t] != #[trigger] v@[u]);
                assert(v@.no_duplicates());
                assert(forall|t: int| 0 <= t < v@.len() ==> #[trigger] v@[t] < x);
                assert(forall|t: int|
                    0 <= t < v@.len() ==> #[trigger] v@[t] != s_cur && v@[t]
                        < pre.states.len()) by {
                    assert(forall|t: int| 0 <= t < v0.len() ==> v0[t] != s_cur);
                }
                assert(pre.start != Some(x)) by {
                    assert(v0[mi as int] == x);
                }
                assert(done.to_multiset().insert(x).add(v@.to_multiset())
                    =~= states0.to_multiset()) by {
                    assert(v@.to_multiset() =~= v0.to_multiset().remove(x));
                    assert(v0.to_multiset().count(x) > 0);
                }
            }
            self.del_state(x);
            proof {
                broadcast use vstd::seq_lib::group_to_multiset_ensures;

                lemma_del_states_desc_push(orig, done, x);
                done = done.push(x);
                assert(done.last() == x);
                assert(done.to_multiset() =~= done.drop_last().to_multiset().insert(x)) by {
                    assert(done.drop_last().push(x) =~= done);
                }
                assert(self.model().start == Some(renumber_after_del(s_cur, x)));
                assert(!v@.contains(self.model().start.unwrap())) by {
                    if s_cur > x {
                        assert(forall|t: int|
                            0 <= t < v@.len() ==> #[trigger] v@[t] < x <= s_cur - 1);
                    }
                }
            }
        }
        proof {
            broadcast use vstd::seq_lib::group_to_multiset_ensures;

            assert(v@.to_multiset() =~= Multiset::empty()) by {
                assert(v@.to_multiset().len() == 0);
            }
            assert(done.to_multiset() =~= states0.to_multiset());
            assert(sorted_desc(done) && done.to_multiset() == states@.to_multiset()
                && self.model() == old(self).model().del_states_desc_m(done));
        }
    }

    fn add_arc(
        &mut self,
        source: StateId,
        target: StateId,
        ilabel: Label,
        olabel: Label,
        weight: W,
    ) {
        let mut st_arcs = self.arc_iter(source);
        st_arcs.push(StdArc { ilabel, olabel, weight, nextstate: target });
        let fw = self.states[source].finalweight;
        self.states[source] = VecState { finalweight: fw, arcs: st_arcs };
        proof {
            assert(self.model().states =~= old(self).model().with_arc(
                source,
                target,
                ilabel,
                olabel,
                weight,
            ).states);
            assert(self.model() =~= old(self).model().with_arc(
                source,
                target,
                ilabel,
                olabel,
                weight,
            ));
        }
    }

    fn set_finalweight(&mut self, id: StateId, finalweight: W) {
        let arcs = self.arc_iter(id);
        self.states[id] = VecState { finalweight, arcs };
        proof {
            assert(self.model().states =~= old(self).model().with_finalweight(
                id,
                finalweight,
            ).states);
            assert(self.model() =~= old(self).model().with_finalweight(id, finalweight));
        }
    }

    fn set_isyms(&mut self, symtab: Vec<String>) {
        self.isyms = Some(symtab);
        proof {
            assert(self.model() =~= old(self).model().with_isyms(syms_model(Some(symtab))));
        }
    }

    fn set_osyms(&mut self, symtab: Vec<String>) {
        self.osyms = Some(symtab);
        proof {
            assert(self.model() =~= old(self).model().with_osyms(syms_model(Some(symtab))));
        }
    }

    fn del_isyms(&mut self) {
        self.isyms = None;
        proof {
            assert(self.model() =~= old(self).model().with_isyms(None));
        }
    }

    fn del_osyms(&mut self) {
        self.osyms = None;
        proof {
            assert(self.model() =~= old(self).model().with_osyms(None));
        }
    }
}

/// Deleting one more state after a descending run is the same as the
/// longer descending run, provided the new id sits below the run.
proof fn lemma_del_states_desc_push<W: Weight>(m: FstModel<W>, ids: Seq<StateId>, x: StateId)
    ensures
        m.del_states_desc_m(ids.push(x)) == m.del_states_desc_m(ids).del_state_m(x),
    decreases ids.len(),
{
    reveal_with_fuel(FstModel::del_states_desc_m, 3);
    if ids.len() == 0 {
        assert(ids.push(x).drop_first() =~= Seq::<StateId>::empty());
        assert(ids.push(x)[0] == x);
        assert(m.del_states_desc_m(ids.push(x)) == m.del_state_m(x).del_states_desc_m(
            ids.push(x).drop_first(),
        ));
    } else {
        assert(ids.push(x)[0] == ids[0]);
        assert(ids.push(x).drop_first() =~= ids.drop_first().push(x));
        lemma_del_states_desc_push(m.del_state_m(ids[0]), ids.drop_first(), x);
    }
}

} // verus!
