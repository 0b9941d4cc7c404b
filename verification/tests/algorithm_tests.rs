use wfst::algorithms::connect::connect;
use wfst::algorithms::shortestpath::{shortest_distance, shortest_paths};
use wfst::algorithms::{extendfinal, reverse, unextendfinal};
use wfst::num::Num;
use wfst::semiring::Weight;
use wfst::weights::TropicalWeight;
use wfst::wfst_vec::VecFst;
use wfst::{Arc, ExpandedFst, Fst, MutableFst, StateId};

fn trop(v: i64) -> TropicalWeight {
    TropicalWeight::new(Some(Num::Finite(v)))
}

/// The Mohri-Riley four-state example, with weights scaled to the
/// integer carrier by ten.
fn fig_two() -> VecFst<TropicalWeight> {
    let mut fst = VecFst::<TropicalWeight>::new();
    let s0 = fst.add_state(TropicalWeight::zero());
    let s1 = fst.add_state(TropicalWeight::zero());
    let s2 = fst.add_state(TropicalWeight::zero());
    let s3 = fst.add_state(TropicalWeight::one());
    fst.set_start(s0);
    fst.add_arc(s0, s1, 1, 1, trop(1));
    fst.add_arc(s0, s2, 2, 2, trop(1));
    fst.add_arc(s1, s3, 3, 3, trop(4));
    fst.add_arc(s1, s3, 4, 4, trop(2));
    fst.add_arc(s2, s3, 3, 3, trop(3));
    fst.add_arc(s2, s3, 4, 4, trop(2));
    fst
}

/// The total weights of all complete paths of an acyclic transducer,
/// found by walking every arc chain from the start.
fn complete_path_weights(fst: &VecFst<TropicalWeight>) -> Vec<i64> {
    let mut out = Vec::new();
    let start = match fst.get_start() {
        Some(s) => s,
        None => return out,
    };
    let mut stack: Vec<(StateId, i64)> = vec![(start, 0)];
    while let Some((s, cost)) = stack.pop() {
        if fst.is_final(s) {
            let fw = fst.get_finalweight(s);
            if let Some(Num::Finite(v)) = fw.val {
                out.push(cost + v);
            } else {
                out.push(cost);
            }
        }
        for a in fst.arc_iter(s) {
            if let Some(Num::Finite(v)) = a.weight().val {
                stack.push((a.nextstate(), cost + v));
            }
        }
    }
    out.sort();
    out
}

#[test]
fn extendfinal_moves_final_weights() {
    let mut fst = fig_two();
    extendfinal(&mut fst);
    assert_eq!(fst.get_numstates(), 5);
    assert!(fst.is_final(4));
    assert!(fst.get_finalweight(4).eq_weight(&TropicalWeight::one()));
    assert!(!fst.is_final(3));
    let arcs = fst.arc_iter(3);
    assert_eq!(arcs.len(), 1);
    assert_eq!(arcs[0].ilabel(), 0);
    assert_eq!(arcs[0].olabel(), 0);
    assert_eq!(arcs[0].nextstate(), 4);
    assert!(arcs[0].weight().eq_weight(&TropicalWeight::one()));
}

#[test]
fn unextend_undoes_extend() {
    let mut fst = fig_two();
    extendfinal(&mut fst);
    unextendfinal(&mut fst);
    let reference = fig_two();
    assert_eq!(fst.get_numstates(), reference.get_numstates());
    for s in 0..fst.get_numstates() {
        assert!(fst.get_finalweight(s).same(&reference.get_finalweight(s)));
        let a = fst.arc_iter(s);
        let b = reference.arc_iter(s);
        assert_eq!(a.len(), b.len());
        for k in 0..a.len() {
            assert_eq!(a[k].ilabel(), b[k].ilabel());
            assert_eq!(a[k].olabel(), b[k].olabel());
            assert_eq!(a[k].nextstate(), b[k].nextstate());
            assert!(a[k].weight().same(&b[k].weight()));
        }
    }
}

#[test]
fn reverse_restores_input_and_turns_arcs() {
    let mut fst = fig_two();
    let rev = reverse(&mut fst);
    // the input came back unchanged
    assert_eq!(fst.get_numstates(), 4);
    assert!(fst.is_final(3));
    // the reversal has the fresh super-final state as its start and
    // the old start as its single final state
    assert_eq!(rev.get_numstates(), 5);
    assert_eq!(rev.get_start(), Some(4));
    assert!(rev.is_final(0));
    assert!(rev.get_finalweight(0).eq_weight(&TropicalWeight::one()));
    // each input arc turned around: state 3's reversed arcs lead back
    // to states 1 and 2
    let back = rev.arc_iter(3);
    assert_eq!(back.len(), 4);
    assert!(back.iter().all(|a| a.nextstate() == 1 || a.nextstate() == 2));
}

#[test]
fn double_reverse_keeps_path_weights() {
    let mut fst = fig_two();
    let mut rev = reverse(&mut fst);
    let revrev = reverse(&mut rev);
    // reversing twice preserves the complete-path weights, with the
    // bookkeeping ε-arcs of the two extensions along the way
    assert_eq!(complete_path_weights(&fst), complete_path_weights(&revrev));
}

#[test]
fn connect_trims_useless_states() {
    let mut fst = fig_two();
    // an unreachable state and a dead-end state
    let u = fst.add_state(TropicalWeight::zero());
    let v = fst.add_state(TropicalWeight::zero());
    fst.add_arc(u, 3, 1, 1, trop(1));
    fst.add_arc(0, v, 1, 1, trop(1));
    let before = fst.get_numstates();
    let trimmed = connect(fst);
    assert_eq!(trimmed.get_numstates(), before - 2);
    assert_eq!(trimmed.get_start(), Some(0));
    assert_eq!(complete_path_weights(&trimmed), vec![3, 3, 4, 5]);
}

#[test]
fn shortest_distance_fig_two() {
    let mut fst = fig_two();
    let d = shortest_distance(&mut fst);
    // one entry per state of the extended machine; the super-final
    // entry is the semiring one
    assert_eq!(d.len(), 5);
    assert!(d[4].eq_weight(&TropicalWeight::one()));
    // distances to the final state
    assert!(d[3].eq_weight(&trop(0)));
    assert!(d[1].eq_weight(&trop(2)));
    assert!(d[2].eq_weight(&trop(2)));
    assert!(d[0].eq_weight(&trop(3)));
    // the input was restored
    assert_eq!(fst.get_numstates(), 4);
}

#[test]
fn shortest_paths_two_best() {
    let mut fst = fig_two();
    let out = shortest_paths(&mut fst, 2, false);
    let trimmed = connect(out);
    // two trajectories survive, one per best path; every parallel arc
    // between consecutive trajectory states rides along, so the
    // second-best weights appear beside the two best ones
    let weights = complete_path_weights(&trimmed);
    assert_eq!(weights[0], 3);
    assert_eq!(weights[1], 3);
    assert!(weights.contains(&4));
    assert_eq!(weights, vec![3, 3, 4, 5]);
}

#[test]
fn shortest_paths_three_best() {
    let mut fst = fig_two();
    let out = shortest_paths(&mut fst, 3, false);
    let trimmed = connect(out);
    let weights = complete_path_weights(&trimmed);
    assert_eq!(&weights[0..3], &[3, 3, 3]);
    assert_eq!(weights, vec![3, 3, 3, 4, 4, 5]);
}
