//! Weighted finite-state transducers over abstract semiring weights,
//! in the tradition of Mohri, Pereira and Riley, "The design
//! principles of a weighted finite-state transducer library" (2000).
//!
//! The crate has three layers: the semiring weight algebra
//! ([`semiring`], [`weights`]), the mutable transducer data model
//! ([`wfst_vec`]), and the generic algorithms over both
//! ([`algorithms`]).

pub mod algorithms;
pub mod compile;
pub mod num;
pub mod print;
pub mod random;
pub mod semiring;
pub mod utils;
pub mod weights;
pub mod wfst_io;
pub mod wfst_vec;

use vstd::prelude::*;

use crate::semiring::Weight;
use crate::wfst_vec::StdArc;

verus! {

/// An arc label; `0` is reserved for the empty symbol ε.
pub type Label = usize;

/// A state identifier: a dense non-negative index into a transducer.
pub type StateId = usize;

/// The mathematical shape of one state: its final weight and its
/// outgoing arcs in insertion order.
#[verifier::ext_equal]
pub struct StateModel<W: Weight> {
    pub finalweight: W,
    pub arcs: Seq<StdArc<W>>,
}

/// The mathematical shape of a transducer: an optional start state, a
/// sequence of states indexed by `StateId`, and two optional symbol
/// tables.
#[verifier::ext_equal]
pub struct FstModel<W: Weight> {
    pub start: Option<StateId>,
    pub states: Seq<StateModel<W>>,
    pub isyms: Option<Seq<Seq<char>>>,
    pub osyms: Option<Seq<Seq<char>>>,
}

/// The view of an optional symbol table.
pub open spec fn syms_model(r: Option<Vec<String>>) -> Option<Seq<Seq<char>>> {
    match r {
        Some(v) => Some(v@.map_values(|s: String| s@)),
        None => None,
    }
}

impl<W: Weight> FstModel<W> {
    /// No start, no states, no symbol tables.
    pub open spec fn empty_model() -> FstModel<W> {
        FstModel {
            start: None,
            states: Seq::empty(),
            isyms: None,
            osyms: None,
        }
    }

    /// Every arc target and the start state, if set, name an existing
    /// state.
    pub open spec fn wf(self) -> bool {
        &&& match self.start {
            Some(s) => s < self.states.len(),
            None => true,
        }
        &&& forall|i: int, j: int|
            0 <= i < self.states.len() && 0 <= j < self.states[i].arcs.len() ==> (
            #[trigger] self.states[i].arcs[j]).nextstate < self.states.len()
    }

    /// Whether state `i` is final: its final weight differs from
    /// `zero` under value equality.
    pub open spec fn is_final_m(self, i: int) -> bool {
        !self.states[i].finalweight.eq_spec(W::zero_spec())
    }

    pub open spec fn with_start(self, id: StateId) -> FstModel<W> {
        FstModel { start: Some(id), ..self }
    }

    pub open spec fn with_new_state(self, finalweight: W) -> FstModel<W> {
        FstModel {
            states: self.states.push(StateModel { finalweight, arcs: Seq::empty() }),
            ..self
        }
    }

    pub open spec fn with_arc(
        self,
        source: StateId,
        target: StateId,
        ilabel: Label,
        olabel: Label,
        weight: W,
    ) -> FstModel<W> {
        FstModel {
            states: self.states.update(
                source as int,
                StateModel {
                    arcs: self.states[source as int].arcs.push(
                        StdArc { ilabel, olabel, weight, nextstate: target },
                    ),
                    ..self.states[source as int]
                },
            ),
            ..self
        }
    }

    pub open spec fn with_finalweight(self, id: StateId, finalweight: W) -> FstModel<W> {
        FstModel {
            states: self.states.update(
                id as int,
                StateModel { finalweight, ..self.states[id as int] },
            ),
            ..self
        }
    }

    pub open spec fn with_isyms(self, syms: Option<Seq<Seq<char>>>) -> FstModel<W> {
        FstModel { isyms: syms, ..self }
    }

    pub open spec fn with_osyms(self, syms: Option<Seq<Seq<char>>>) -> FstModel<W> {
        FstModel { osyms: syms, ..self }
    }

    /// Deletion of state `id`: the state is removed, arcs into it are
    /// dropped, and every index above `id` slides down by one.
    pub open spec fn del_state_m(self, id: StateId) -> FstModel<W> {
        FstModel {
            start: match self.start {
                Some(s) => Some(renumber_after_del(s, id)),
                None => None,
            },
            states: self.states.remove(id as int).map_values(
                |st: StateModel<W>| StateModel { arcs: rewrite_arcs(st.arcs, id), ..st },
            ),
            ..self
        }
    }

    /// Deletion of a strictly descending sequence of states, one at a
    /// time.
    pub open spec fn del_states_desc_m(self, ids: Seq<StateId>) -> FstModel<W>
        decreases ids.len(),
    {
        if ids.len() == 0 {
            self
        } else {
            self.del_state_m(ids[0]).del_states_desc_m(ids.drop_first())
        }
    }
}

/// The index a surviving state keeps after state `id` was deleted.
pub open spec fn renumber_after_del(t: StateId, id: StateId) -> StateId {
    if t > id {
        (t - 1) as StateId
    } else {
        t
    }
}

/// The arc-rewriting contract of `del_state`: arcs into the deleted
/// state disappear, all other arcs keep their labels and weight and
/// follow their target's renumbering.
pub open spec fn rewrite_arcs<W: Weight>(arcs: Seq<StdArc<W>>, id: StateId) -> Seq<StdArc<W>>
    decreases arcs.len(),
{
    if arcs.len() == 0 {
        Seq::empty()
    } else {
        let a = arcs.last();
        rewrite_arcs(arcs.drop_last(), id) + if a.nextstate == id {
            Seq::empty()
        } else {
            seq![StdArc { nextstate: renumber_after_del(a.nextstate, id), ..a }]
        }
    }
}

/// Read-only access to a transducer.
pub trait Fst<W: Weight>: Sized {
    /// The mathematical shape of this transducer.
    spec fn model(&self) -> FstModel<W>;

    fn get_start(&self) -> (r: Option<StateId>)
        ensures
            r == self.model().start,
    ;

    fn get_finalweight(&self, id: StateId) -> (w: W)
        requires
            id < self.model().states.len(),
        ensures
            w == self.model().states[id as int].finalweight,
    ;

    /// A snapshot of the arcs leaving `id`, in insertion order. The
    /// caller may mutate the transducer while walking the snapshot.
    fn arc_iter(&self, id: StateId) -> (arcs: Vec<StdArc<W>>)
        requires
            id < self.model().states.len(),
        ensures
            arcs@ == self.model().states[id as int].arcs,
    ;

    fn get_isyms(&self) -> (r: Option<Vec<String>>)
        ensures
            syms_model(r) == self.model().isyms,
    ;

    fn get_osyms(&self) -> (r: Option<Vec<String>>)
        ensures
            syms_model(r) == self.model().osyms,
    ;

    fn is_final(&self, id: StateId) -> (r: bool)
        requires
            id < self.model().states.len(),
        ensures
            r == self.model().is_final_m(id as int),
    ;
}

/// Mutation of a transducer, under the index-stability contracts of
/// the data model.
pub trait MutableFst<W: Weight>: Fst<W> {
    fn new() -> (r: Self)
        ensures
            r.model() == FstModel::<W>::empty_model(),
    ;

    fn set_start(&mut self, id: StateId)
        requires
            id < old(self).model().states.len(),
        ensures
            final(self).model() == old(self).model().with_start(id),
    ;

    fn add_state(&mut self, finalweight: W) -> (id: StateId)
        requires
            old(self).model().states.len() < usize::MAX,
        ensures
            id == old(self).model().states.len(),
            final(self).model() == old(self).model().with_new_state(finalweight),
    ;

    fn del_state(&mut self, id: StateId)
        requires
            id < old(self).model().states.len(),
            old(self).model().start is Some,
            old(self).model().start != Some(id),
        ensures
            final(self).model() == old(self).model().del_state_m(id),
    ;

    fn del_states(&mut self, states: Vec<StateId>)
        requires
            states@.no_duplicates(),
            forall|k: int| 0 <= k < states@.len() ==> states@[k] < old(self).model().states.len(),
            old(self).model().start is Some,
            !states@.contains(old(self).model().start.unwrap()),
        ensures
            exists|ids: Seq<StateId>|
                {
                    &&& sorted_desc(ids)
                    &&& ids.to_multiset() == states@.to_multiset()
                    &&& final(self).model() == old(self).model().del_states_desc_m(ids)
                },
    ;

    fn add_arc(&mut self, source: StateId, target: StateId, ilabel: Label, olabel: Label, weight: W)
        requires
            source < old(self).model().states.len(),
            target < old(self).model().states.len(),
        ensures
            final(self).model() == old(self).model().with_arc(source, target, ilabel, olabel, weight),
    ;

    fn set_finalweight(&mut self, id: StateId, finalweight: W)
        requires
            id < old(self).model().states.len(),
        ensures
            final(self).model() == old(self).model().with_finalweight(id, finalweight),
    ;

    fn set_isyms(&mut self, symtab: Vec<String>)
        ensures
            final(self).model() == old(self).model().with_isyms(syms_model(Some(symtab))),
    ;

    fn set_osyms(&mut self, symtab: Vec<String>)
        ensures
            final(self).model() == old(self).model().with_osyms(syms_model(Some(symtab))),
    ;

    fn del_isyms(&mut self)
        ensures
            final(self).model() == old(self).model().with_isyms(None),
    ;

    fn del_osyms(&mut self)
        ensures
            final(self).model() == old(self).model().with_osyms(None),
    ;
}

/// A transducer whose state count is known.
pub trait ExpandedFst<W: Weight>: Fst<W> {
    fn get_numstates(&self) -> (n: usize)
        ensures
            n == self.model().states.len(),
    ;
}

/// One labeled, weighted transition.
pub trait Arc<W: Weight>: Sized + Clone {
    spec fn ilabel_spec(&self) -> Label;

    spec fn olabel_spec(&self) -> Label;

    spec fn weight_spec(&self) -> W;

    spec fn nextstate_spec(&self) -> StateId;

    fn ilabel(&self) -> (r: Label)
        ensures
            r == self.ilabel_spec(),
    ;

    fn olabel(&self) -> (r: Label)
        ensures
            r == self.olabel_spec(),
    ;

    fn weight(&self) -> (r: W)
        ensures
            r == self.weight_spec(),
    ;

    fn nextstate(&self) -> (r: StateId)
        ensures
            r == self.nextstate_spec(),
    ;
}

/// Strictly descending.
pub open spec fn sorted_desc(ids: Seq<StateId>) -> bool {
    forall|i: int, j: int| 0 <= i < j < ids.len() ==> ids[i] > ids[j]
}

} // verus!
