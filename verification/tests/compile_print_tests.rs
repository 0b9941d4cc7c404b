use wfst::compile::{compile_lines, load_symtab, parse_i64, parse_usize, split_fields};
use wfst::num::Num;
use wfst::print::{print_text, to_text};
use wfst::semiring::Weight;
use wfst::weights::TropicalWeight;
use wfst::wfst_io::{check_wrapper, IOWrapper};
use wfst::wfst_vec::VecFst;
use wfst::{Arc, ExpandedFst, Fst, MutableFst};

fn lines(text: &[&str]) -> Vec<String> {
    text.iter().map(|s| String::from(*s)).collect()
}

#[test]
fn split_fields_basics() {
    let f = split_fields("0 1\tc  c\t4");
    assert_eq!(f, vec!["0", "1", "c", "c", "4"]);
    assert_eq!(split_fields("   "), Vec::<String>::new());
    assert_eq!(split_fields("one"), vec!["one"]);
}

#[test]
fn parse_numbers() {
    assert_eq!(parse_usize(&String::from("042")), Some(42));
    assert_eq!(parse_usize(&String::from("")), None);
    assert_eq!(parse_usize(&String::from("4x")), None);
    assert_eq!(parse_usize(&String::from("-4")), None);
    assert_eq!(parse_i64(&String::from("-4")), Some(-4));
    assert_eq!(parse_i64(&String::from("17")), Some(17));
    assert_eq!(parse_i64(&String::from("-")), None);
    assert_eq!(parse_i64(&String::from("1z")), None);
}

#[test]
fn compile_simple_transducer() {
    let text = lines(&["0 1 1 1 5", "0 2 2 2", "1 7", "2"]);
    let fst: VecFst<TropicalWeight> =
        compile_lines(&text, None, None, false, false).unwrap();
    assert_eq!(fst.get_numstates(), 3);
    assert_eq!(fst.get_start(), Some(0));
    let arcs = fst.arc_iter(0);
    assert_eq!(arcs.len(), 2);
    assert_eq!(arcs[0].ilabel(), 1);
    assert!(arcs[0].weight().eq_weight(&TropicalWeight::new(Some(Num::Finite(5)))));
    // the weight field defaults to one
    assert!(arcs[1].weight().eq_weight(&TropicalWeight::one()));
    assert!(fst
        .get_finalweight(1)
        .eq_weight(&TropicalWeight::new(Some(Num::Finite(7)))));
    assert!(fst.get_finalweight(2).eq_weight(&TropicalWeight::one()));
}

#[test]
fn compile_rejects_bad_lines() {
    let text = lines(&["0 1 1"]);
    assert!(compile_lines::<TropicalWeight>(&text, None, None, false, false).is_err());
    let text = lines(&["0 1 x 1"]);
    assert!(compile_lines::<TropicalWeight>(&text, None, None, false, false).is_err());
}

#[test]
fn compile_with_symbol_mapping() {
    let syms = lines(&["", "a", "b"]);
    let text = lines(&["0 1 a b", "1"]);
    let fst: VecFst<TropicalWeight> =
        compile_lines(&text, Some(&syms), Some(&syms), true, true).unwrap();
    let arcs = fst.arc_iter(0);
    assert_eq!(arcs[0].ilabel(), 1);
    assert_eq!(arcs[0].olabel(), 2);
    assert_eq!(fst.get_isyms().unwrap()[1], "a");
    // an unknown symbol is an error
    let bad = lines(&["0 1 z b", "1"]);
    assert!(compile_lines::<TropicalWeight>(&bad, Some(&syms), Some(&syms), true, true).is_err());
}

#[test]
fn duplicate_symbol_maps_to_last_index() {
    // a symbol listed at two indices reads as the later one, the way
    // a map built by inserting the entries in order would have it
    let syms = lines(&["", "a", "a"]);
    let text = lines(&["0 1 a a", "1"]);
    let fst: VecFst<TropicalWeight> =
        compile_lines(&text, Some(&syms), Some(&syms), true, true).unwrap();
    let arcs = fst.arc_iter(0);
    assert_eq!(arcs[0].ilabel(), 2);
    assert_eq!(arcs[0].olabel(), 2);
}

#[test]
fn load_symtab_dense() {
    let text = lines(&["eps\t0", "b 2", "a 1"]);
    let syms = load_symtab(&text).unwrap();
    assert_eq!(syms, vec!["eps", "a", "b"]);
    assert!(load_symtab(&lines(&["a"])).is_err());
    assert!(load_symtab(&lines(&["a x"])).is_err());
}

#[test]
fn print_round_trip() {
    let text = lines(&["0 1 1 1 5", "0 2 2 2", "1 7", "2"]);
    let fst: VecFst<TropicalWeight> =
        compile_lines(&text, None, None, false, false).unwrap();
    let printed = to_text(&fst);
    let reread: Vec<String> = printed.lines().map(String::from).collect();
    let fst2: VecFst<TropicalWeight> =
        compile_lines(&reread, None, None, false, false).unwrap();
    assert_eq!(to_text(&fst2), printed);
}

#[test]
fn print_uses_symbols() {
    let text = lines(&["0 1 1 2", "1"]);
    let mut fst: VecFst<TropicalWeight> =
        compile_lines(&text, None, None, false, false).unwrap();
    fst.set_isyms(lines(&["", "a", "b"]));
    fst.set_osyms(lines(&["", "a", "b"]));
    let printed = to_text(&fst);
    assert_eq!(printed, "0\t1\ta\tb\n1\n");
    let plain = print_text(fst, None, None, false);
    assert_eq!(plain, "0\t1\t1\t2\n1\n");
}

#[test]
fn print_negative_weight() {
    let text = lines(&["0 1 1 1 -3", "1 2"]);
    let fst: VecFst<TropicalWeight> =
        compile_lines(&text, None, None, false, false).unwrap();
    assert_eq!(to_text(&fst), "0\t1\t1\t1\t-3\n1\t2\n");
}

#[test]
fn wrapper_dispatch() {
    let w = IOWrapper::new(TropicalWeight::wtype(), vec![1, 2, 3]);
    assert_eq!(check_wrapper(w, &TropicalWeight::wtype()).unwrap(), vec![1, 2, 3]);
    let w = IOWrapper::new(String::from("log"), vec![1]);
    let e = check_wrapper(w, &TropicalWeight::wtype()).unwrap_err();
    assert_eq!(e.message, "IO error: wrong type");
}
