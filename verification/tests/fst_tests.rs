use wfst::num::Num;
use wfst::semiring::Weight;
use wfst::weights::TropicalWeight;
use wfst::wfst_vec::VecFst;
use wfst::{Arc, ExpandedFst, Fst, MutableFst};

fn trop(v: i64) -> TropicalWeight {
    TropicalWeight::new(Some(Num::Finite(v)))
}

#[test]
fn add_state_ids_are_dense() {
    let mut fst = VecFst::<TropicalWeight>::new();
    assert_eq!(fst.get_numstates(), 0);
    assert_eq!(fst.add_state(TropicalWeight::zero()), 0);
    assert_eq!(fst.add_state(TropicalWeight::zero()), 1);
    assert_eq!(fst.add_state(TropicalWeight::one()), 2);
    assert_eq!(fst.get_numstates(), 3);
}

#[test]
fn start_and_final() {
    let mut fst = VecFst::<TropicalWeight>::new();
    let s0 = fst.add_state(TropicalWeight::zero());
    let s1 = fst.add_state(trop(4));
    fst.set_start(s0);
    assert_eq!(fst.get_start(), Some(s0));
    assert!(!fst.is_final(s0));
    assert!(fst.is_final(s1));
    assert!(fst.get_finalweight(s1).eq_weight(&trop(4)));
    fst.set_finalweight(s0, trop(1));
    assert!(fst.is_final(s0));
}

#[test]
fn arcs_keep_insertion_order() {
    let mut fst = VecFst::<TropicalWeight>::new();
    let s0 = fst.add_state(TropicalWeight::zero());
    let s1 = fst.add_state(TropicalWeight::one());
    fst.set_start(s0);
    fst.add_arc(s0, s1, 1, 2, trop(5));
    fst.add_arc(s0, s0, 3, 4, trop(6));
    let arcs = fst.arc_iter(s0);
    assert_eq!(arcs.len(), 2);
    assert_eq!(arcs[0].ilabel(), 1);
    assert_eq!(arcs[0].olabel(), 2);
    assert_eq!(arcs[0].nextstate(), s1);
    assert!(arcs[0].weight().eq_weight(&trop(5)));
    assert_eq!(arcs[1].ilabel(), 3);
    assert_eq!(arcs[1].nextstate(), s0);
}

#[test]
fn del_state_rewrites_arcs() {
    // 0 -> 1 -> 2, plus 0 -> 2; deleting 1 drops its arcs and
    // renumbers 2 to 1
    let mut fst = VecFst::<TropicalWeight>::new();
    let s0 = fst.add_state(TropicalWeight::zero());
    let s1 = fst.add_state(TropicalWeight::zero());
    let s2 = fst.add_state(TropicalWeight::one());
    fst.set_start(s0);
    fst.add_arc(s0, s1, 1, 1, trop(1));
    fst.add_arc(s0, s2, 2, 2, trop(2));
    fst.add_arc(s1, s2, 3, 3, trop(3));
    fst.del_state(s1);
    assert_eq!(fst.get_numstates(), 2);
    let arcs = fst.arc_iter(0);
    // the arc into the deleted state is gone; the surviving arc's
    // target slid down by one
    assert_eq!(arcs.len(), 1);
    assert_eq!(arcs[0].ilabel(), 2);
    assert_eq!(arcs[0].nextstate(), 1);
    assert!(fst.is_final(1));
}

#[test]
fn del_state_renumbers_start() {
    let mut fst = VecFst::<TropicalWeight>::new();
    let _s0 = fst.add_state(TropicalWeight::zero());
    let s1 = fst.add_state(TropicalWeight::zero());
    let _s2 = fst.add_state(TropicalWeight::one());
    fst.set_start(s1);
    fst.del_state(0);
    assert_eq!(fst.get_start(), Some(0));
    assert_eq!(fst.get_numstates(), 2);
}

#[test]
fn del_states_many() {
    let mut fst = VecFst::<TropicalWeight>::new();
    for _ in 0..5 {
        fst.add_state(TropicalWeight::zero());
    }
    fst.set_finalweight(4, TropicalWeight::one());
    fst.set_start(0);
    fst.add_arc(0, 4, 1, 1, trop(1));
    fst.add_arc(0, 2, 2, 2, trop(2));
    fst.del_states(vec![1, 3]);
    assert_eq!(fst.get_numstates(), 3);
    assert_eq!(fst.get_start(), Some(0));
    let arcs = fst.arc_iter(0);
    assert_eq!(arcs.len(), 2);
    assert_eq!(arcs[0].nextstate(), 2);
    assert_eq!(arcs[1].nextstate(), 1);
    assert!(fst.is_final(2));
}

#[test]
fn symbol_tables() {
    let mut fst = VecFst::<TropicalWeight>::new();
    assert!(fst.get_isyms().is_none());
    fst.set_isyms(vec![String::from(""), String::from("a")]);
    fst.set_osyms(vec![String::from(""), String::from("b")]);
    let isyms = fst.get_isyms().unwrap();
    assert_eq!(isyms.len(), 2);
    assert_eq!(isyms[1], "a");
    assert_eq!(fst.get_osyms().unwrap()[1], "b");
    fst.del_isyms();
    assert!(fst.get_isyms().is_none());
    assert!(fst.get_osyms().is_some());
    fst.del_osyms();
    assert!(fst.get_osyms().is_none());
}

#[test]
fn std_arc_accessors() {
    let a = wfst::wfst_vec::StdArc::new(1, 2, trop(3), 4);
    assert_eq!(a.ilabel(), 1);
    assert_eq!(a.olabel(), 2);
    assert!(a.weight().eq_weight(&trop(3)));
    assert_eq!(a.nextstate(), 4);
}
