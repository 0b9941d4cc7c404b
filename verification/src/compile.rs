//! The text transducer format: whitespace-separated fields, one arc
//! or final-state declaration per line, and the symbol-table format
//! of one `symbol index` pair per line. Reading streams is the
//! caller's business; the functions here turn lines of text into a
//! transducer and back.

use vstd::prelude::*;
use vstd::string::{StrSliceExecFns, StringExecFns};

use crate::num::Num;
use crate::semiring::Weight;
use crate::weights::FromNum;
use crate::wfst_vec::VecFst;
use crate::{Fst, FstModel, Label, MutableFst, StateId, StateModel};

verus! {

/// A malformed line, an unknown symbol, or an oversized table.
#[derive(Debug)]
pub struct IOError {
    pub message: String,
}

/// Field-separating whitespace.
pub open spec fn is_ws_char(c: char) -> bool {
    c == ' ' || c == '\t' || c == '\r' || c == '\n'
}

/// The whitespace-separated fields of a line, accumulated left to
/// right: `cur` is the token under construction at position `i`.
pub open spec fn split_acc(s: Seq<char>, i: int, cur: Seq<char>) -> Seq<Seq<char>>
    decreases s.len() - i,
{
    if i < 0 || i >= s.len() {
        if cur.len() > 0 {
            seq![cur]
        } else {
            Seq::empty()
        }
    } else if is_ws_char(s[i]) {
        if cur.len() > 0 {
            seq![cur] + split_acc(s, i + 1, Seq::empty())
        } else {
            split_acc(s, i + 1, Seq::empty())
        }
    } else {
        split_acc(s, i + 1, cur.push(s[i]))
    }
}

/// The whitespace-separated fields of a line.
pub open spec fn spec_fields(s: Seq<char>) -> Seq<Seq<char>> {
    split_acc(s, 0, Seq::empty())
}

/// Splits a line into its whitespace-separated fields.
pub fn split_fields(line: &str) -> (fields: Vec<String>)
    ensures
        fields@.map_values(|f: String| f@) == spec_fields(line@),
{
    let n = line.unicode_len();
    let mut fields: Vec<String> = Vec::new();
    let mut start: usize = 0;
    let mut i: usize = 0;
    proof {
        assert(line@.subrange(0, 0) =~= Seq::<char>::empty());
        assert(fields@.map_values(|f: String| f@) + split_acc(line@, 0, line@.subrange(0, 0))
            =~~= spec_fields(line@));
    }
    while i < n
        invariant
            n == line@.len(),
            start <= i <= n,
            fields@.map_values(|f: String| f@) + split_acc(
                line@,
                i as int,
                line@.subrange(start as int, i as int),
            ) == spec_fields(line@),
        decreases n - i,
    {
        let ghost cur = line@.subrange(start as int, i as int);
        let ghost fpre = fields@;
        let c = line.get_char(i);
        if c == ' ' || c == '\t' || c == '\r' || c == '\n' {
            if i > start {
                let f = line.substring_char(start, i).to_owned();
                fields.push(f);
                proof {
                    fpre.lemma_push_map_commute(|f: String| f@, f);
                    assert(fields@.map_values(|f: String| f@) =~~= fpre.map_values(
                        |f: String| f@,
                    ) + seq![cur]);
                    assert(split_acc(line@, i as int, cur) == seq![cur] + split_acc(
                        line@,
                        i + 1 as int,
                        Seq::empty(),
                    ));
                    assert(line@.subrange(i + 1 as int, i + 1 as int) =~= Seq::<char>::empty());
                    assert(fields@.map_values(|f: String| f@) + split_acc(
                        line@,
                        i + 1 as int,
                        line@.subrange(i + 1 as int, i + 1 as int),
                    ) =~~= spec_fields(line@));
                }
            } else {
                proof {
                    assert(cur =~= Seq::<char>::empty());
                    assert(line@.subrange(i + 1 as int, i + 1 as int) =~= Seq::<char>::empty());
                }
            }
            start = i + 1;
        } else {
            proof {
                assert(line@.subrange(start as int, i + 1 as int) =~= cur.push(line@[i as int]));
            }
        }
        i = i + 1;
    }
    let ghost cur = line@.subrange(start as int, i as int);
    if i > start {
        let ghost fpre = fields@;
        let f = line.substring_char(start, i).to_owned();
        fields.push(f);
        proof {
            fpre.lemma_push_map_commute(|f: String| f@, f);
            assert(fields@.map_values(|f: String| f@) =~~= spec_fields(line@));
        }
    } else {
        proof {
            assert(cur =~= Seq::<char>::empty());
        }
    }
    fields
}

/// A decimal digit, by code point.
pub open spec fn is_digit(c: char) -> bool {
    48 <= c as int <= 57
}

/// All digits, at least one.
pub open spec fn all_digits(s: Seq<char>) -> bool {
    s.len() > 0 && forall|i: int| 0 <= i < s.len() ==> is_digit(#[trigger] s[i])
}

/// The value of a digit string.
pub open spec fn dec_num(s: Seq<char>) -> int
    decreases s.len(),
{
    if s.len() == 0 {
        0
    } else {
        dec_num(s.drop_last()) * 10 + (s.last() as int - 48)
    }
}

/// A digit string's value never shrinks as digits arrive.
proof fn lemma_dec_num_nonneg(s: Seq<char>)
    requires
        forall|i: int| 0 <= i < s.len() ==> is_digit(#[trigger] s[i]),
    ensures
        dec_num(s) >= 0,
        s.len() > 0 ==> dec_num(s) >= dec_num(s.drop_last()),
    decreases s.len(),
{
    if s.len() > 0 {
        assert(forall|i: int|
            0 <= i < s.drop_last().len() ==> is_digit(#[trigger] s.drop_last()[i]));
        lemma_dec_num_nonneg(s.drop_last());
    }
}

proof fn lemma_dec_num_prefix_le(s: Seq<char>, i: int)
    requires
        forall|k: int| 0 <= k < s.len() ==> is_digit(#[trigger] s[k]),
        0 <= i <= s.len(),
    ensures
        dec_num(s.subrange(0, i)) <= dec_num(s),
    decreases s.len() - i,
{
    if i == s.len() {
        assert(s.subrange(0, i) =~= s);
    } else {
        lemma_dec_num_prefix_le(s, i + 1);
        let t = s.subrange(0, i + 1);
        assert(forall|k: int| 0 <= k < t.len() ==> is_digit(#[trigger] t[k]));
        assert(t.drop_last() =~= s.subrange(0, i));
        lemma_dec_num_nonneg(t);
    }
}

/// Parses an unsigned decimal number that fits a `usize`.
pub fn parse_usize(f: &String) -> (r: Option<usize>)
    ensures
        match r {
            Some(v) => all_digits(f@) && v as int == dec_num(f@) && dec_num(f@) <= usize::MAX,
            None => !all_digits(f@) || dec_num(f@) > usize::MAX,
        },
{
    let s = f.as_str();
    let n = s.unicode_len();
    if n == 0 {
        return None;
    }
    let mut acc: u128 = 0;
    let mut i: usize = 0;
    while i < n
        invariant
            n == s@.len(),
            s@ == f@,
            i <= n,
            forall|t: int| 0 <= t < i ==> is_digit(#[trigger] s@[t]),
            acc as int == dec_num(s@.subrange(0, i as int)),
            acc <= usize::MAX as u128,
        decreases n - i,
    {
        let c = s.get_char(i);
        let cv = c as u32;
        if cv < 48 || cv > 57 {
            return None;
        }
        let d = cv - 48;
        acc = acc * 10 + d as u128;
        proof {
            assert(s@.subrange(0, i + 1 as int).drop_last() =~= s@.subrange(0, i as int));
        }
        i = i + 1;
        if acc > usize::MAX as u128 {
            proof {
                if all_digits(s@) {
                    lemma_dec_num_prefix_le(s@, i as int);
                }
            }
            return None;
        }
    }
    proof {
        assert(s@.subrange(0, n as int) =~= s@);
    }
    Some(acc as usize)
}

/// The value of an optionally negated digit string, if it has that
/// shape.
pub open spec fn int_num(s: Seq<char>) -> Option<int> {
    if s.len() > 0 && s[0] == '-' {
        if all_digits(s.drop_first()) {
            Some(-dec_num(s.drop_first()))
        } else {
            None
        }
    } else if all_digits(s) {
        Some(dec_num(s))
    } else {
        None
    }
}

/// Parses a signed decimal number whose magnitude fits `i64::MAX`.
pub fn parse_i64(f: &String) -> (r: Option<i64>)
    ensures
        match r {
            Some(v) => int_num(f@) == Some(v as int) && -i64::MAX <= v,
            None => int_num(f@) is None || int_num(f@).unwrap() > i64::MAX || int_num(f@).unwrap()
                < -i64::MAX,
        },
{
    let s = f.as_str();
    let n = s.unicode_len();
    if n == 0 {
        return None;
    }
    let c0 = s.get_char(0);
    let neg = c0 == '-';
    let from: usize = if neg {
        1
    } else {
        0
    };
    let ghost digits = if neg {
        f@.drop_first()
    } else {
        f@
    };
    proof {
        assert(digits =~= f@.subrange(from as int, n as int));
    }
    if from >= n {
        return None;
    }
    let mut acc: u128 = 0;
    let mut i: usize = from;
    while i < n
        invariant
            n == s@.len(),
            s@ == f@,
            from <= i <= n,
            from < n,
            from == if neg {
                1int
            } else {
                0int
            },
            n > 0,
            neg <==> f@[0] == '-',
            digits == f@.subrange(from as int, n as int),
            forall|t: int| from <= t < i ==> is_digit(#[trigger] s@[t]),
            acc as int == dec_num(s@.subrange(from as int, i as int)),
            acc <= i64::MAX as u128,
        decreases n - i,
    {
        let c = s.get_char(i);
        let cv = c as u32;
        if cv < 48 || cv > 57 {
            proof {
                assert(digits[i - from] == s@[i as int]);
                assert(!is_digit(digits[i - from]));
                assert(!all_digits(digits));
                if neg {
                    assert(f@.drop_first() =~= digits);
                    assert(int_num(f@) is None);
                } else {
                    assert(f@ =~= digits);
                    assert(int_num(f@) is None);
                }
            }
            return None;
        }
        let d = cv - 48;
        acc = acc * 10 + d as u128;
        proof {
            assert(s@.subrange(from as int, i + 1 as int).drop_last() =~= s@.subrange(
                from as int,
                i as int,
            ));
        }
        i = i + 1;
        if acc > i64::MAX as u128 {
            proof {
                if all_digits(digits) {
                    assert forall|t: int| from <= t < n implies is_digit(#[trigger] s@[t]) by {
                        assert(digits[t - from] == s@[t]);
                    }
                    lemma_dec_shift_prefix_le(s@, from as int, i as int, n as int);
                    assert(dec_num(digits) > i64::MAX);
                    if neg {
                        assert(f@.drop_first() =~= digits);
                        assert(int_num(f@) == Some(-dec_num(digits)));
                    } else {
                        assert(f@ =~= digits);
                        assert(int_num(f@) == Some(dec_num(digits)));
                    }
                } else {
                    if neg {
                        assert(f@.drop_first() =~= digits);
                        assert(int_num(f@) is None);
                    } else {
                        assert(f@ =~= digits);
                        assert(int_num(f@) is None);
                    }
                }
            }
            return None;
        }
    }
    proof {
        assert forall|t: int| 0 <= t < digits.len() implies is_digit(#[trigger] digits[t]) by {
            assert(digits[t] == s@[from + t]);
        }
        assert(all_digits(digits));
        assert(acc as int == dec_num(digits)) by {
            assert(s@.subrange(from as int, n as int) == digits);
        }
        if neg {
            assert(f@.drop_first() =~= digits);
            assert(int_num(f@) == Some(-dec_num(digits)));
        } else {
            assert(f@ =~= digits);
            assert(int_num(f@) == Some(dec_num(digits)));
        }
    }
    if neg {
        Some(-(acc as i64))
    } else {
        Some(acc as i64)
    }
}

/// A digit string dominates the value of any of its prefixes.
proof fn lemma_dec_shift_prefix_le(s: Seq<char>, from: int, i: int, n: int)
    requires
        0 <= from <= i <= n <= s.len(),
        forall|t: int| from <= t < n ==> is_digit(#[trigger] s[t]),
    ensures
        dec_num(s.subrange(from, i)) <= dec_num(s.subrange(from, n)),
    decreases n - i,
{
    if i == n {
    } else {
        lemma_dec_shift_prefix_le(s, from, i + 1, n);
        let t = s.subrange(from, i + 1);
        assert(forall|k: int| 0 <= k < t.len() ==> is_digit(#[trigger] t[k]));
        assert(t.drop_last() =~= s.subrange(from, i));
        lemma_dec_num_nonneg(t);
    }
}

/// The last position of a symbol among the table entries below `i`:
/// where a symbol appears at several indices, the highest one names
/// it, as in a map built by inserting the entries in order.
pub open spec fn sym_index_back(t: Seq<Seq<char>>, f: Seq<char>, i: int) -> Option<int>
    decreases i,
{
    if i <= 0 || i > t.len() {
        None
    } else if t[i - 1] == f {
        Some(i - 1)
    } else {
        sym_index_back(t, f, i - 1)
    }
}

/// Looks a symbol up in a table; the label is the symbol's last
/// position.
pub fn find_symbol(t: &Vec<String>, f: &String) -> (r: Option<usize>)
    ensures
        match r {
            Some(v) => sym_index_back(t@.map_values(|s: String| s@), f@, t@.len() as int)
                == Some(v as int),
            None => sym_index_back(t@.map_values(|s: String| s@), f@, t@.len() as int) is None,
        },
{
    let ghost tm = t@.map_values(|s: String| s@);
    let n = t.len();
    let mut i: usize = n;
    while i > 0
        invariant
            n == t@.len(),
            tm == t@.map_values(|s: String| s@),
            i <= n,
            sym_index_back(tm, f@, n as int) == sym_index_back(tm, f@, i as int),
        decreases i,
    {
        if t[i - 1] == *f {
            proof {
                assert(tm[i - 1] == f@);
            }
            return Some(i - 1);
        }
        proof {
            assert(tm[i - 1] != f@);
        }
        i = i - 1;
    }
    None
}

/// One parsed line of the text format.
#[derive(Clone, Copy, Debug)]
pub enum CompiledLine<W: Weight> {
    /// A final-state declaration: the state and its final weight.
    FinalLine(StateId, W),
    /// An arc declaration: source, target, input label, output label,
    /// weight.
    ArcLine(StateId, StateId, Label, Label, W),
}

/// A label field read either as a plain number or through a symbol
/// table.
pub open spec fn spec_label(f: Seq<char>, syms: Option<Seq<Seq<char>>>) -> Option<int> {
    match syms {
        Some(t) => sym_index_back(t, f, t.len() as int),
        None => if all_digits(f) && dec_num(f) <= usize::MAX as int {
            Some(dec_num(f))
        } else {
            None
        },
    }
}

/// A weight field: a signed number of magnitude at most `i64::MAX`,
/// lifted into the carrier.
pub open spec fn spec_weight<W: Weight + FromNum>(f: Seq<char>) -> Option<W> {
    match int_num(f) {
        Some(v) => if -i64::MAX <= v <= i64::MAX {
            Some(W::from_num_spec(Num::Finite(v as i64)))
        } else {
            None
        },
        None => None,
    }
}

/// A state field: an unsigned number that fits a `usize`.
pub open spec fn spec_state(f: Seq<char>) -> Option<int> {
    if all_digits(f) && dec_num(f) <= usize::MAX as int {
        Some(dec_num(f))
    } else {
        None
    }
}

/// The meaning of one line: one or two fields declare a final state,
/// four or five an arc; the weight defaults to `one`.
pub open spec fn spec_parse_line<W: Weight + FromNum>(
    line: Seq<char>,
    isyms: Option<Seq<Seq<char>>>,
    osyms: Option<Seq<Seq<char>>>,
) -> Option<CompiledLine<W>> {
    let fs = spec_fields(line);
    if fs.len() == 1 {
        match spec_state(fs[0]) {
            Some(s) => Some(CompiledLine::FinalLine(s as StateId, W::one_spec())),
            None => None,
        }
    } else if fs.len() == 2 {
        match (spec_state(fs[0]), spec_weight::<W>(fs[1])) {
            (Some(s), Some(w)) => Some(CompiledLine::FinalLine(s as StateId, w)),
            _ => None,
        }
    } else if fs.len() == 4 || fs.len() == 5 {
        let w = if fs.len() == 5 {
            spec_weight::<W>(fs[4])
        } else {
            Some(W::one_spec())
        };
        match (spec_state(fs[0]), spec_state(fs[1]), spec_label(fs[2], isyms), spec_label(
            fs[3],
            osyms,
        ), w) {
            (Some(s), Some(t), Some(il), Some(ol), Some(wv)) => Some(
                CompiledLine::ArcLine(
                    s as StateId,
                    t as StateId,
                    il as Label,
                    ol as Label,
                    wv,
                ),
            ),
            _ => None,
        }
    } else {
        None
    }
}

/// Parses one line into its meaning, with a format error where it
/// has none.
fn parse_line<W: Weight + FromNum>(
    line: &String,
    isyms: Option<&Vec<String>>,
    osyms: Option<&Vec<String>>,
) -> (r: Result<CompiledLine<W>, IOError>)
    ensures
        match r {
            Ok(cl) => spec_parse_line::<W>(
                line@,
                syms_view(isyms),
                syms_view(osyms),
            ) == Some(cl),
            Err(_) => spec_parse_line::<W>(line@, syms_view(isyms), syms_view(osyms)) is None,
        },
{
    let fields = split_fields(line.as_str());
    let nf = fields.len();
    if nf == 1 {
        match parse_usize(&fields[0]) {
            Some(s) => Ok(CompiledLine::FinalLine(s, W::one())),
            None => Err(format_error()),
        }
    } else if nf == 2 {
        let s = parse_usize(&fields[0]);
        let w = parse_weight::<W>(&fields[1]);
        match (s, w) {
            (Some(s), Some(w)) => Ok(CompiledLine::FinalLine(s, w)),
            _ => Err(format_error()),
        }
    } else if nf == 4 || nf == 5 {
        let s = parse_usize(&fields[0]);
        let t = parse_usize(&fields[1]);
        let il = parse_label(&fields[2], isyms);
        let ol = parse_label(&fields[3], osyms);
        let w = if nf == 5 {
            parse_weight::<W>(&fields[4])
        } else {
            Some(W::one())
        };
        match (s, t, il, ol, w) {
            (Some(s), Some(t), Some(il), Some(ol), Some(w)) => Ok(
                CompiledLine::ArcLine(s, t, il, ol, w),
            ),
            _ => Err(format_error()),
        }
    } else {
        Err(format_error())
    }
}

/// The view of an optional symbol table handed in by reference.
pub open spec fn syms_view(t: Option<&Vec<String>>) -> Option<Seq<Seq<char>>> {
    match t {
        Some(v) => Some(v@.map_values(|s: String| s@)),
        None => None,
    }
}

fn format_error() -> (r: IOError)
    ensures
        r.message@ == "Format error: wrong number of fields or bad field"@,
{
    IOError { message: String::from_str("Format error: wrong number of fields or bad field") }
}

fn parse_label(f: &String, syms: Option<&Vec<String>>) -> (r: Option<Label>)
    ensures
        match r {
            Some(v) => spec_label(f@, syms_view(syms)) == Some(v as int),
            None => spec_label(f@, syms_view(syms)) is None,
        },
{
    match syms {
        Some(t) => find_symbol(t, f),
        None => parse_usize(f),
    }
}

fn parse_weight<W: Weight + FromNum>(f: &String) -> (r: Option<W>)
    ensures
        match r {
            Some(w) => spec_weight::<W>(f@) == Some(w),
            None => spec_weight::<W>(f@) is None,
        },
{
    match parse_i64(f) {
        Some(v) => Some(W::from_num(Num::Finite(v))),
        None => None,
    }
}

/// The last declared final weight of a state, or none.
pub open spec fn last_final_of<W: Weight>(
    parsed: Seq<CompiledLine<W>>,
    i: int,
) -> Option<W>
    decreases parsed.len(),
{
    if parsed.len() == 0 {
        None
    } else {
        match parsed.last() {
            CompiledLine::FinalLine(s, w) => if s as int == i {
                Some(w)
            } else {
                last_final_of(parsed.drop_last(), i)
            },
            CompiledLine::ArcLine(..) => last_final_of(parsed.drop_last(), i),
        }
    }
}

/// The arcs declared with source `i`, in order of declaration.
pub open spec fn arcs_of_lines<W: Weight>(parsed: Seq<CompiledLine<W>>, i: int) -> Seq<
    crate::wfst_vec::StdArc<W>,
>
    decreases parsed.len(),
{
    if parsed.len() == 0 {
        Seq::empty()
    } else {
        arcs_of_lines(parsed.drop_last(), i) + match parsed.last() {
            CompiledLine::ArcLine(s, t, il, ol, w) => if s as int == i {
                seq![
                    crate::wfst_vec::StdArc { ilabel: il, olabel: ol, weight: w, nextstate: t },
                ]
            } else {
                Seq::empty()
            },
            CompiledLine::FinalLine(..) => Seq::empty(),
        }
    }
}

/// The largest state mentioned by any line.
pub open spec fn max_state<W: Weight>(parsed: Seq<CompiledLine<W>>) -> int
    decreases parsed.len(),
{
    if parsed.len() == 0 {
        0
    } else {
        let rest = max_state(parsed.drop_last());
        let here = match parsed.last() {
            CompiledLine::FinalLine(s, _) => s as int,
            CompiledLine::ArcLine(s, t, _, _, _) => if s as int > t as int {
                s as int
            } else {
                t as int
            },
        };
        if here > rest {
            here
        } else {
            rest
        }
    }
}

/// The transducer a parsed program denotes: `max + 1` dense states,
/// the final weights and arcs of the declarations, the start taken
/// from the first line's first state.
pub open spec fn spec_build<W: Weight>(
    parsed: Seq<CompiledLine<W>>,
    start: StateId,
    isyms: Option<Seq<Seq<char>>>,
    osyms: Option<Seq<Seq<char>>>,
) -> FstModel<W> {
    let n = max_state(parsed) + 1;
    FstModel {
        start: Some(start),
        states: Seq::new(
            n as nat,
            |i: int| StateModel {
                finalweight: match last_final_of(parsed, i) {
                    Some(w) => w,
                    None => W::zero_spec(),
                },
                arcs: arcs_of_lines(parsed, i),
            },
        ),
        isyms,
        osyms,
    }
}

/// The state named first on the first line: the start state.
pub open spec fn spec_start<W: Weight>(parsed: Seq<CompiledLine<W>>) -> StateId {
    match parsed[0] {
        CompiledLine::FinalLine(s, _) => s,
        CompiledLine::ArcLine(s, _, _, _, _) => s,
    }
}

/// Compiles the lines of the text format into a transducer. The
/// symbol tables, where given, are stored on the result; the label
/// fields are read through them only where the matching `map` flag is
/// set, as plain numbers otherwise.
pub fn compile_lines<W: Weight + FromNum>(
    lines: &Vec<String>,
    isyms: Option<&Vec<String>>,
    osyms: Option<&Vec<String>>,
    mapisyms: bool,
    maposyms: bool,
) -> (r: Result<VecFst<W>, IOError>)
    requires
        lines@.len() > 0,
    ensures
        match r {
            Ok(fst) => {
                exists|parsed: Seq<CompiledLine<W>>|
                    {
                        &&& parsed.len() == lines@.len()
                        &&& forall|k: int|
                            0 <= k < lines@.len() ==> spec_parse_line::<W>(
                                lines@[k]@,
                                if mapisyms {
                                    syms_view(isyms)
                                } else {
                                    None
                                },
                                if maposyms {
                                    syms_view(osyms)
                                } else {
                                    None
                                },
                            ) == Some(#[trigger] parsed[k])
                        &&& max_state(parsed) < usize::MAX as int
                        &&& fst.model() == spec_build(
                            parsed,
                            spec_start(parsed),
                            syms_view(isyms),
                            syms_view(osyms),
                        )
                    }
            },
            Err(_) => (exists|k: int|
                0 <= k < lines@.len() && spec_parse_line::<W>(
                    #[trigger] lines@[k]@,
                    if mapisyms {
                        syms_view(isyms)
                    } else {
                        None
                    },
                    if maposyms {
                        syms_view(osyms)
                    } else {
                        None
                    },
                ) is None) || (exists|parsed: Seq<CompiledLine<W>>|
                {
                    &&& parsed.len() == lines@.len()
                    &&& (forall|k: int|
                        0 <= k < lines@.len() ==> spec_parse_line::<W>(
                            lines@[k]@,
                            if mapisyms {
                                syms_view(isyms)
                            } else {
                                None
                            },
                            if maposyms {
                                syms_view(osyms)
                            } else {
                                None
                            },
                        ) == Some(#[trigger] parsed[k]))
                    &&& max_state(parsed) >= usize::MAX as int
                }),
        },
{
    let ghost ism = if mapisyms {
        syms_view(isyms)
    } else {
        None
    };
    let ghost osm = if maposyms {
        syms_view(osyms)
    } else {
        None
    };
    let nl = lines.len();
    let mut parsed: Vec<CompiledLine<W>> = Vec::new();
    let mut i: usize = 0;
    while i < nl
        invariant
            nl == lines@.len(),
            i <= nl,
            parsed@.len() == i,
            ism == if mapisyms {
                syms_view(isyms)
            } else {
                None::<Seq<Seq<char>>>
            },
            osm == if maposyms {
                syms_view(osyms)
            } else {
                None::<Seq<Seq<char>>>
            },
            forall|k: int|
                0 <= k < i ==> spec_parse_line::<W>(lines@[k]@, ism, osm) == Some(
                    #[trigger] parsed@[k],
                ),
        decreases nl - i,
    {
        let cl = parse_line::<W>(
            &lines[i],
            if mapisyms {
                isyms
            } else {
                None
            },
            if maposyms {
                osyms
            } else {
                None
            },
        );
        match cl {
            Ok(cl) => {
                parsed.push(cl);
            },
            Err(e) => {
                return Err(e);
            },
        }
        i = i + 1;
    }
    // the largest state mentioned, and the start from the first line
    let mut maxs: usize = 0;
    let mut k: usize = 0;
    while k < parsed.len()
        invariant
            parsed@.len() == nl,
            k <= nl,
            maxs as int == max_state(parsed@.subrange(0, k as int)),
        decreases nl - k,
    {
        let here: usize = match parsed[k] {
            CompiledLine::FinalLine(s, _) => s,
            CompiledLine::ArcLine(s, t, _, _, _) => if s > t {
                s
            } else {
                t
            },
        };
        if here > maxs {
            maxs = here;
        }
        proof {
            assert(parsed@.subrange(0, k + 1 as int).drop_last() =~= parsed@.subrange(
                0,
                k as int,
            ));
        }
        k = k + 1;
    }
    proof {
        assert(parsed@.subrange(0, nl as int) =~= parsed@);
    }
    if maxs == usize::MAX {
        return Err(
            IOError { message: String::from_str("Format error: state space too large") },
        );
    }
    let nstates = maxs + 1;
    let start: usize = match parsed[0] {
        CompiledLine::FinalLine(s, _) => s,
        CompiledLine::ArcLine(s, _, _, _, _) => s,
    };
    let mut fst = VecFst::<W>::new();
    match isyms {
        Some(t) => {
            let copy = crate::wfst_vec::clone_string_table(t);
            fst.set_isyms(copy);
        },
        None => {},
    }
    match osyms {
        Some(t) => {
            let copy = crate::wfst_vec::clone_string_table(t);
            fst.set_osyms(copy);
        },
        None => {},
    }
    let ghost target = spec_build(parsed@, start as StateId, syms_view(isyms), syms_view(osyms));
    let mut s: usize = 0;
    while s < nstates
        invariant
            parsed@.len() == nl,
            nstates == max_state(parsed@) + 1,
            target == spec_build(
                parsed@,
                start as StateId,
                syms_view(isyms),
                syms_view(osyms),
            ),
            s <= nstates,
            fst.model().states.len() == s,
            fst.model().isyms == syms_view(isyms),
            fst.model().osyms == syms_view(osyms),
            fst.model().start is None,
            forall|t: int|
                0 <= t < s ==> #[trigger] fst.model().states[t] == (StateModel {
                    finalweight: match last_final_of(parsed@, t) {
                        Some(w) => w,
                        None => W::zero_spec(),
                    },
                    arcs: Seq::empty(),
                }),
        decreases nstates - s,
    {
        let fw = final_weight_for(&parsed, s);
        fst.add_state(fw);
        s = s + 1;
    }
    proof {
        assert(start as int <= max_state(parsed@)) by {
            lemma_max_state_bounds(parsed@, 0);
        }
    }
    fst.set_start(start);
    let np = parsed.len();
    let mut k2: usize = 0;
    while k2 < np
        invariant
            parsed@.len() == np,
            np == nl,
            nstates == max_state(parsed@) + 1,
            k2 <= np,
            fst.model().states.len() == nstates,
            fst.model().isyms == syms_view(isyms),
            fst.model().osyms == syms_view(osyms),
            fst.model().start == Some(start as StateId),
            forall|t: int|
                0 <= t < nstates ==> #[trigger] fst.model().states[t] == (StateModel {
                    finalweight: match last_final_of(parsed@, t) {
                        Some(w) => w,
                        None => W::zero_spec(),
                    },
                    arcs: arcs_of_lines(parsed@.subrange(0, k2 as int), t),
                }),
        decreases np - k2,
    {
        let ghost pre = fst.model();
        match parsed[k2] {
            CompiledLine::ArcLine(src, tgt, il, ol, w) => {
                proof {
                    lemma_max_state_bounds(parsed@, k2 as int);
                }
                fst.add_arc(src, tgt, il, ol, w);
                proof {
                    assert forall|t: int| 0 <= t < nstates implies #[trigger] fst.model().states[t]
                        == (StateModel {
                        finalweight: match last_final_of(parsed@, t) {
                            Some(w) => w,
                            None => W::zero_spec(),
                        },
                        arcs: arcs_of_lines(parsed@.subrange(0, k2 + 1 as int), t),
                    }) by {
                        assert(parsed@.subrange(0, k2 + 1 as int).drop_last() =~= parsed@.subrange(
                            0,
                            k2 as int,
                        ));
                        assert(parsed@.subrange(0, k2 + 1 as int).last() == parsed@[k2 as int]);
                        if t == src as int {
                            assert(fst.model().states[t].arcs =~= arcs_of_lines(
                                parsed@.subrange(0, k2 + 1 as int),
                                t,
                            ));
                            assert(fst.model().states[t] =~= (StateModel {
                                finalweight: match last_final_of(parsed@, t) {
                                    Some(w) => w,
                                    None => W::zero_spec(),
                                },
                                arcs: arcs_of_lines(parsed@.subrange(0, k2 + 1 as int), t),
                            }));
                        } else {
                            assert(fst.model().states[t] == pre.states[t]);
                            assert(arcs_of_lines(parsed@.subrange(0, k2 + 1 as int), t)
                                =~= arcs_of_lines(parsed@.subrange(0, k2 as int), t));
                            assert(fst.model().states[t] =~= (StateModel {
                                finalweight: match last_final_of(parsed@, t) {
                                    Some(w) => w,
                                    None => W::zero_spec(),
                                },
                                arcs: arcs_of_lines(parsed@.subrange(0, k2 + 1 as int), t),
                            }));
                        }
                    }
                }
            },
            CompiledLine::FinalLine(..) => {
                proof {
                    assert forall|t: int| 0 <= t < nstates implies arcs_of_lines(
                        parsed@.subrange(0, k2 + 1 as int),
                        t,
                    ) =~= arcs_of_lines(parsed@.subrange(0, k2 as int), t) by {
                        assert(parsed@.subrange(0, k2 + 1 as int).drop_last() =~= parsed@.subrange(
                            0,
                            k2 as int,
                        ));
                        assert(parsed@.subrange(0, k2 + 1 as int).last() == parsed@[k2 as int]);
                    }
                }
            },
        }
        k2 = k2 + 1;
    }
    proof {
        assert(parsed@.subrange(0, np as int) =~= parsed@);
        assert(fst.model().states =~= target.states);
        assert(fst.model() =~= target);
        assert(start as StateId == spec_start(parsed@));
    }
    Ok(fst)
}

/// Every state a line mentions lies at or below the maximum.
proof fn lemma_max_state_bounds<W: Weight>(parsed: Seq<CompiledLine<W>>, k: int)
    requires
        0 <= k < parsed.len(),
    ensures
        match parsed[k] {
            CompiledLine::FinalLine(s, _) => s as int <= max_state(parsed),
            CompiledLine::ArcLine(s, t, _, _, _) => s as int <= max_state(parsed) && t as int
                <= max_state(parsed),
        },
    decreases parsed.len(),
{
    if k == parsed.len() - 1 {
        lemma_max_state_nonneg(parsed.drop_last());
    } else {
        lemma_max_state_bounds(parsed.drop_last(), k);
        assert(parsed.drop_last()[k] == parsed[k]);
    }
}

proof fn lemma_max_state_nonneg<W: Weight>(parsed: Seq<CompiledLine<W>>)
    ensures
        max_state(parsed) >= 0,
    decreases parsed.len(),
{
    if parsed.len() > 0 {
        lemma_max_state_nonneg(parsed.drop_last());
    }
}

/// The final weight a parsed program assigns to state `i`: the last
/// declaration wins, `zero` where there is none.
fn final_weight_for<W: Weight>(parsed: &Vec<CompiledLine<W>>, i: usize) -> (r: W)
    ensures
        r == (match last_final_of(parsed@, i as int) {
            Some(w) => w,
            None => W::zero_spec(),
        }),
{
    let mut acc = W::zero();
    let n = parsed.len();
    let mut k: usize = 0;
    while k < n
        invariant
            n == parsed@.len(),
            k <= n,
            acc == (match last_final_of(parsed@.subrange(0, k as int), i as int) {
                Some(w) => w,
                None => W::zero_spec(),
            }),
        decreases n - k,
    {
        proof {
            assert(parsed@.subrange(0, k + 1 as int).drop_last() =~= parsed@.subrange(
                0,
                k as int,
            ));
            assert(parsed@.subrange(0, k + 1 as int).last() == parsed@[k as int]);
        }
        match parsed[k] {
            CompiledLine::FinalLine(s, w) => {
                if s == i {
                    acc = w;
                }
            },
            CompiledLine::ArcLine(..) => {},
        }
        k = k + 1;
    }
    proof {
        assert(parsed@.subrange(0, n as int) =~= parsed@);
    }
    acc
}

/// One parsed symbol-table entry agrees with its line.
pub open spec fn entry_line_ok(line: Seq<char>, e: (usize, String)) -> bool {
    let fs = spec_fields(line);
    fs.len() == 2 && spec_state(fs[1]) == Some(e.0 as int) && e.1@ == fs[0]
}

/// One line of a symbol table parses: two fields, the second a
/// number below `usize::MAX`.
pub open spec fn symtab_line_ok(line: Seq<char>) -> bool {
    let fs = spec_fields(line);
    fs.len() == 2 && spec_state(fs[1]) is Some && spec_state(fs[1]).unwrap() < usize::MAX as int
}

/// The symbol the last line with index `idx` declares, if any.
pub open spec fn last_sym(lines: Seq<Seq<char>>, idx: int) -> Option<Seq<char>>
    decreases lines.len(),
{
    if lines.len() == 0 {
        None
    } else {
        let fs = spec_fields(lines.last());
        if fs.len() == 2 && spec_state(fs[1]) == Some(idx) {
            Some(fs[0])
        } else {
            last_sym(lines.drop_last(), idx)
        }
    }
}

/// Parses a symbol table: one `symbol index` pair per line. The
/// result lists the symbol of each index up to the largest index
/// used; the last declaration of an index wins, and unused indices
/// keep the empty symbol.
pub fn load_symtab(lines: &Vec<String>) -> (r: Result<Vec<String>, IOError>)
    ensures
        r is Ok <==> (forall|k: int| 0 <= k < lines@.len() ==> symtab_line_ok(#[trigger] lines@[k]@)),
        match r {
            Ok(syms) => {
                &&& forall|k: int|
                    0 <= k < lines@.len() ==> {
                        let fs = spec_fields(#[trigger] lines@[k]@);
                        fs.len() == 2 && spec_state(fs[1]) is Some && spec_state(
                            fs[1],
                        ).unwrap() < syms@.len()
                    }
                &&& forall|idx: int|
                    0 <= idx < syms@.len() ==> (#[trigger] syms@[idx])@ == match last_sym(
                        lines@.map_values(|l: String| l@),
                        idx,
                    ) {
                        Some(sy) => sy,
                        None => Seq::<char>::empty(),
                    }
            },
            Err(_) => exists|k: int|
                0 <= k < lines@.len() && !symtab_line_ok(#[trigger] lines@[k]@),
        },
{
    let ghost lm = lines@.map_values(|l: String| l@);
    let nl = lines.len();
    let mut entries: Vec<(usize, String)> = Vec::new();
    let mut maxi: usize = 0;
    let mut k: usize = 0;
    while k < nl
        invariant
            nl == lines@.len(),
            lm == lines@.map_values(|l: String| l@),
            k <= nl,
            entries@.len() == k,
            forall|t: int| 0 <= t < k ==> entry_line_ok(lines@[t]@, #[trigger] entries@[t]),
            forall|t: int| 0 <= t < k ==> (#[trigger] entries@[t]).0 <= maxi,
            maxi < usize::MAX,
        decreases nl - k,
    {
        let fields = split_fields(lines[k].as_str());
        if fields.len() != 2 {
            proof {
                assert(!symtab_line_ok(lines@[k as int]@));
            }
            return Err(
                IOError { message: String::from_str("Format error: wrong number of fields") },
            );
        }
        let idx = match parse_usize(&fields[1]) {
            Some(v) => v,
            None => {
                proof {
                    assert(!symtab_line_ok(lines@[k as int]@));
                }
                return Err(IOError { message: String::from_str("Format error: bad index") });
            },
        };
        if idx == usize::MAX {
            proof {
                assert(!symtab_line_ok(lines@[k as int]@));
            }
            return Err(IOError { message: String::from_str("Format error: index too large") });
        }
        let sym = fields[0].clone();
        proof {
            assert(sym@ == spec_fields(lines@[k as int]@)[0]);
        }
        let ghost epre = entries@;
        let ghost e = (idx, sym);
        proof {
            assert(entry_line_ok(lines@[k as int]@, e));
        }
        entries.push((idx, sym));
        proof {
            assert(entries@ == epre.push(e));
            assert forall|t: int| 0 <= t < k + 1 implies entry_line_ok(
                lines@[t]@,
                #[trigger] entries@[t],
            ) by {
                if t < k {
                    assert(epre.push(e)[t] == epre[t]);
                    assert(entries@[t] == epre[t]);
                    assert(entry_line_ok(lines@[t]@, epre[t]));
                } else {
                    assert(epre.push(e)[t] == e);
                    assert(entries@[t] == e);
                }
            }
            assert(forall|t: int|
                0 <= t < k ==> #[trigger] entries@[t] == epre[t]);
        }
        if idx > maxi {
            maxi = idx;
        }
        k = k + 1;
    }
    let mut syms: Vec<String> = Vec::new();
    let mut j: usize = 0;
    while j < maxi + 1
        invariant
            syms@.len() == j,
            j <= maxi + 1,
            maxi < usize::MAX,
            forall|u: int| 0 <= u < j ==> (#[trigger] syms@[u])@ == Seq::<char>::empty(),
        decreases maxi + 1 - j,
    {
        let ghost spre = syms@;
        let empty_sym = String::from_str("");
        proof {
            reveal_strlit("");
            assert(empty_sym@ =~= Seq::<char>::empty());
        }
        syms.push(empty_sym);
        proof {
            assert(syms@ == spre.push(empty_sym));
            assert(forall|u: int|
                0 <= u < j ==> #[trigger] syms@[u] == spre.push(empty_sym)[u] && spre.push(
                    empty_sym,
                )[u] == spre[u]);
            assert(syms@[j as int] == spre.push(empty_sym)[j as int]);
            assert(spre.push(empty_sym)[j as int] == empty_sym);
        }
        j = j + 1;
    }
    let ne = entries.len();
    let mut t: usize = 0;
    while t < ne
        invariant
            ne == entries@.len(),
            nl == lines@.len(),
            lm == lines@.map_values(|l: String| l@),
            ne == nl,
            t <= ne,
            syms@.len() == maxi + 1,
            forall|u: int| 0 <= u < ne ==> (#[trigger] entries@[u]).0 <= maxi,
            forall|u: int| 0 <= u < ne ==> entry_line_ok(lines@[u]@, #[trigger] entries@[u]),
            forall|idx: int|
                0 <= idx < syms@.len() ==> (#[trigger] syms@[idx])@ == match last_sym(
                    lm.subrange(0, t as int),
                    idx,
                ) {
                    Some(sy) => sy,
                    None => Seq::<char>::empty(),
                },
        decreases ne - t,
    {
        let (idx, sym) = (entries[t].0, entries[t].1.clone());
        let ghost spre = syms@;
        syms[idx] = sym;
        proof {
            assert(entry_line_ok(lines@[t as int]@, entries@[t as int]));
            assert(lm.subrange(0, t + 1 as int).drop_last() =~= lm.subrange(0, t as int));
            assert(lm.subrange(0, t + 1 as int).last() == lm[t as int]);
            assert(lm[t as int] == lines@[t as int]@);
            assert forall|ix: int| 0 <= ix < syms@.len() implies (#[trigger] syms@[ix])@
                == match last_sym(lm.subrange(0, t + 1 as int), ix) {
                Some(sy) => sy,
                None => Seq::<char>::empty(),
            } by {
                if ix == idx as int {
                    assert(syms@[ix] == sym);
                } else {
                    assert(syms@[ix] == spre[ix]);
                }
            }
        }
        t = t + 1;
    }
    proof {
        assert(lm.subrange(0, ne as int) =~= lm);
        assert forall|k2: int| 0 <= k2 < lines@.len() implies {
            let fs = spec_fields(#[trigger] lines@[k2]@);
            fs.len() == 2 && spec_state(fs[1]) is Some && spec_state(fs[1]).unwrap()
                < syms@.len()
        } by {
            assert(entry_line_ok(lines@[k2]@, entries@[k2]));
            assert((entries@[k2]).0 <= maxi);
        }
    }
    Ok(syms)
}

} // verus!
