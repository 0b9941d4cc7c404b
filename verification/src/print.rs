//! Pretty-printing of a transducer in the text format that the
//! compiler reads: one arc or final-state line per state, the start
//! state's block first, labels written through the symbol tables
//! where present.

use vstd::prelude::*;
use vstd::string::StringExecFns;

use crate::semiring::Weight;
use crate::weights::{WeightText, dec_digits};
use crate::wfst_vec::VecFst;
use crate::{ExpandedFst, Fst, FstModel, Label, MutableFst, StateId};

verus! {

/// The text of one label: the symbol at its index where a table is
/// present and covers it, a placeholder where the table falls short,
/// the plain number otherwise.
pub open spec fn label_text(l: Label, syms: Option<Seq<Seq<char>>>) -> Seq<char> {
    match syms {
        Some(t) => if l < t.len() {
            t[l as int]
        } else {
            "_"@
        },
        None => dec_digits(l as int),
    }
}

/// The text of one arc line.
pub open spec fn arc_line_text<W: Weight + WeightText>(
    src: int,
    a: crate::wfst_vec::StdArc<W>,
    isyms: Option<Seq<Seq<char>>>,
    osyms: Option<Seq<Seq<char>>>,
) -> Seq<char> {
    dec_digits(src) + "\t"@ + dec_digits(a.nextstate as int) + "\t"@ + label_text(a.ilabel, isyms)
        + "\t"@ + label_text(a.olabel, osyms) + (if a.weight.eq_spec(W::one_spec()) {
        Seq::<char>::empty()
    } else {
        "\t"@ + a.weight.text_spec()
    }) + "\n"@
}

/// The text of a state's arc lines, in arc order.
pub open spec fn arcs_text<W: Weight + WeightText>(m: FstModel<W>, i: int, k: int) -> Seq<char>
    decreases k,
{
    if k <= 0 {
        Seq::empty()
    } else {
        arcs_text(m, i, k - 1) + arc_line_text(i, m.states[i].arcs[k - 1], m.isyms, m.osyms)
    }
}

/// The text of a state's block: its arc lines, then its final line if
/// it is final.
pub open spec fn state_text<W: Weight + WeightText>(m: FstModel<W>, i: int) -> Seq<char> {
    arcs_text(m, i, m.states[i].arcs.len() as int) + (if m.is_final_m(i) {
        dec_digits(i) + (if m.states[i].finalweight.eq_spec(W::one_spec()) {
            Seq::<char>::empty()
        } else {
            "\t"@ + m.states[i].finalweight.text_spec()
        }) + "\n"@
    } else {
        Seq::<char>::empty()
    })
}

/// The blocks of the states `0 .. k`, the start state's block
/// skipped.
pub open spec fn rest_text<W: Weight + WeightText>(m: FstModel<W>, k: int) -> Seq<char>
    decreases k,
{
    if k <= 0 {
        Seq::empty()
    } else {
        rest_text(m, k - 1) + if m.start == Some((k - 1) as StateId) {
            Seq::<char>::empty()
        } else {
            state_text(m, k - 1)
        }
    }
}

/// The whole text: the start state's block first, then every other
/// state's block in order.
pub open spec fn fst_text<W: Weight + WeightText>(m: FstModel<W>) -> Seq<char> {
    (match m.start {
        Some(s) => state_text(m, s as int),
        None => Seq::<char>::empty(),
    }) + rest_text(m, m.states.len() as int)
}

/// Appends one state's block.
#[verifier::rlimit(100)]
fn push_state_text<W: Weight + WeightText>(out: &mut String, fst: &VecFst<W>, i: StateId)
    requires
        i < fst.model().states.len(),
    ensures
        final(out)@ == old(out)@ + state_text(fst.model(), i as int),
{
    let ghost m = fst.model();
    let arcs = fst.arc_iter(i);
    let na = arcs.len();
    let mut k: usize = 0;
    while k < na
        invariant
            i < fst.model().states.len(),
            m == fst.model(),
            na == arcs@.len(),
            arcs@ == m.states[i as int].arcs,
            k <= na,
            out@ == old(out)@ + arcs_text(m, i as int, k as int),
        decreases na - k,
    {
        let a = arcs[k];
        let ghost line0 = out@;
        crate::weights::push_u64(out, i as u64);
        out.append("\t");
        crate::weights::push_u64(out, a.nextstate as u64);
        out.append("\t");
        push_label(out, a.ilabel, fst.get_isyms());
        out.append("\t");
        push_label(out, a.olabel, fst.get_osyms());
        if !a.weight.eq_weight(&W::one()) {
            out.append("\t");
            let wt = a.weight.text();
            out.append(wt.as_str());
        }
        out.append("\n");
        proof {
            assert(out@ =~= line0 + arc_line_text(i as int, a, m.isyms, m.osyms));
            assert(out@ =~= old(out)@ + arcs_text(m, i as int, k + 1 as int));
        }
        k = k + 1;
    }
    if fst.is_final(i) {
        crate::weights::push_u64(out, i as u64);
        let fw = fst.get_finalweight(i);
        if !fw.eq_weight(&W::one()) {
            out.append("\t");
            let wt = fw.text();
            out.append(wt.as_str());
        }
        out.append("\n");
    }
    proof {
        assert(out@ =~= old(out)@ + state_text(m, i as int));
    }
}

/// Appends one label.
fn push_label(out: &mut String, l: Label, syms: Option<Vec<String>>)
    ensures
        final(out)@ == old(out)@ + label_text(l, crate::syms_model(syms)),
{
    match syms {
        Some(t) => {
            if l < t.len() {
                let s = t[l].clone();
                out.append(s.as_str());
                proof {
                    assert(t@.map_values(|s: String| s@)[l as int] == t@[l as int]@);
                }
            } else {
                out.append("_");
            }
        },
        None => {
            crate::weights::push_u64(out, l as u64);
        },
    }
}

/// The text of the whole transducer, start state's block first.
pub fn to_text<W: Weight + WeightText>(fst: &VecFst<W>) -> (r: String)
    requires
        fst.model().start is Some ==> fst.model().start.unwrap() < fst.model().states.len(),
    ensures
        r@ == fst_text(fst.model()),
{
    let ghost m = fst.model();
    let mut out = String::new();
    match fst.get_start() {
        Some(s) => {
            if s < fst.get_numstates() {
                push_state_text(&mut out, fst, s);
            } else {
                proof {
                    assert(false) by {
                        assert(m.start == Some(s));
                    }
                }
            }
        },
        None => {},
    }
    let n = fst.get_numstates();
    let mut i: usize = 0;
    while i < n
        invariant
            m == fst.model(),
            n == m.states.len(),
            i <= n,
            out@ == (match m.start {
                Some(s) => state_text(m, s as int),
                None => Seq::<char>::empty(),
            }) + rest_text(m, i as int),
        decreases n - i,
    {
        let skip = match fst.get_start() {
            Some(s) => s == i,
            None => false,
        };
        if !skip {
            push_state_text(&mut out, fst, i);
        }
        proof {
            assert(out@ =~= (match m.start {
                Some(s) => state_text(m, s as int),
                None => Seq::<char>::empty(),
            }) + rest_text(m, i + 1 as int));
        }
        i = i + 1;
    }
    out
}

/// Prepares a transducer for printing the way the printing tool does:
/// fresh symbol tables are stored where given, and both tables are
/// cleared where symbol mapping is off; the result is the text.
pub fn print_text<W: Weight + WeightText>(
    fst: VecFst<W>,
    isyms: Option<Vec<String>>,
    osyms: Option<Vec<String>>,
    mapsyms: bool,
) -> (r: String)
    requires
        fst.model().start is Some ==> fst.model().start.unwrap() < fst.model().states.len(),
    ensures
        ({
            let m1 = match isyms {
                Some(t) => fst.model().with_isyms(crate::syms_model(Some(t))),
                None => fst.model(),
            };
            let m2 = match osyms {
                Some(t) => m1.with_osyms(crate::syms_model(Some(t))),
                None => m1,
            };
            let m3 = if mapsyms {
                m2
            } else {
                m2.with_isyms(None).with_osyms(None)
            };
            r@ == fst_text(m3)
        }),
{
    let mut fst = fst;
    match isyms {
        Some(t) => fst.set_isyms(t),
        None => {},
    }
    match osyms {
        Some(t) => fst.set_osyms(t),
        None => {},
    }
    if !mapsyms {
        fst.del_isyms();
        fst.del_osyms();
    }
    to_text(&fst)
}

} // verus!
