//! The concrete weight types: the tropical semiring `(min, +)` and
//! the min-max semiring `(min, max)` over the exact extended number
//! line. The log semiring needs real-valued arithmetic and therefore
//! lives outside the verified library.

use vstd::prelude::*;
use vstd::string::StringExecFns;

use crate::num::Num;
use crate::semiring::{
    Commutative, DivideType, Idempotent, LeftSemiring, NaturalLess, Path, RightSemiring, Semiring,
    Weight,
};

verus! {

/// The `approx_eq` and `quantize` tolerance used when the caller
/// passes no delta. The carrier is exact, so the default tolerance is
/// exactness itself.
pub const DEFAULT_DELTA: i64 = 0;

/// The delta actually used by `approx_eq` and `quantize`.
pub open spec fn delta_or_default(delta: Option<i64>) -> i64 {
    match delta {
        Some(d) => d,
        None => DEFAULT_DELTA,
    }
}

fn delta_value(delta: Option<i64>) -> (r: i64)
    ensures
        r == delta_or_default(delta),
{
    match delta {
        Some(d) => d,
        None => DEFAULT_DELTA,
    }
}

/// Both values present and within `d` of one another.
pub open spec fn approx_eq_vals(a: Option<Num>, b: Option<Num>, d: i64) -> bool {
    match (a, b) {
        (Some(x), Some(y)) => x.le_spec(y.add_spec(Num::Finite(d))) && y.le_spec(
            x.add_spec(Num::Finite(d)),
        ),
        _ => false,
    }
}

fn approx_eq_vals_exec(a: Option<Num>, b: Option<Num>, delta: Option<i64>) -> (r: bool)
    ensures
        r == approx_eq_vals(a, b, delta_or_default(delta)),
{
    let d = delta_value(delta);
    match (a, b) {
        (Some(x), Some(y)) => x.le(&y.add(&Num::Finite(d))) && y.le(&x.add(&Num::Finite(d))),
        _ => false,
    }
}

/// The tropical semiring: `⊕` is minimum, `⊗` is addition, `zero` is
/// `+∞` and `one` is `0`. `NotNumber` and `-∞` are non-members.
#[derive(Clone, Copy, Debug, Hash)]
pub struct TropicalWeight {
    pub val: Option<Num>,
}

impl TropicalWeight {
    pub fn new(val: Option<Num>) -> (r: Self)
        ensures
            r == (TropicalWeight { val }),
    {
        TropicalWeight { val }
    }
}

impl Weight for TropicalWeight {
    open spec fn mem(self) -> bool {
        match self.val {
            Some(v) => !(v is NotNumber) && !(v is NegInfinite),
            None => false,
        }
    }

    open spec fn plus_spec(self, rhs: Self) -> Self {
        if !self.mem() || !rhs.mem() {
            Self::none_spec()
        } else if self.val.unwrap().lt_spec(rhs.val.unwrap()) {
            self
        } else {
            rhs
        }
    }

    open spec fn times_spec(self, rhs: Self) -> Self {
        if !self.mem() || !rhs.mem() {
            Self::none_spec()
        } else {
            TropicalWeight { val: Some(self.val.unwrap().add_spec(rhs.val.unwrap())) }
        }
    }

    open spec fn times_exact(self, rhs: Self) -> bool {
        match (self.val, rhs.val) {
            (Some(x), Some(y)) => x.add_exact(y),
            _ => true,
        }
    }

    open spec fn divide_exact(self, rhs: Self) -> bool {
        match (self.val, rhs.val) {
            (Some(x), Some(y)) => x.sub_exact(y),
            _ => true,
        }
    }

    open spec fn zero_spec() -> Self {
        TropicalWeight { val: Some(Num::Infinite) }
    }

    open spec fn one_spec() -> Self {
        TropicalWeight { val: Some(Num::Finite(0)) }
    }

    open spec fn none_spec() -> Self {
        TropicalWeight { val: None }
    }

    open spec fn eq_spec(self, rhs: Self) -> bool {
        match (self.val, rhs.val) {
            (Some(x), Some(y)) => !(x is NotNumber) && x == y,
            _ => false,
        }
    }

    open spec fn divide_spec(self, rhs: Self, divtype: Option<DivideType>) -> Self {
        if !self.mem() || !rhs.mem() {
            Self::none_spec()
        } else if rhs.val.unwrap() is Infinite {
            Self::none_spec()
        } else if self.val.unwrap() is Infinite {
            self
        } else {
            TropicalWeight { val: Some(self.val.unwrap().sub_spec(rhs.val.unwrap())) }
        }
    }

    open spec fn reverse_spec(self) -> Self {
        self
    }

    open spec fn approx_eq_spec(self, rhs: Self, delta: Option<i64>) -> bool {
        self.mem() && rhs.mem() && approx_eq_vals(self.val, rhs.val, delta_or_default(delta))
    }

    open spec fn quantize_spec(self, delta: Option<i64>) -> Self {
        match self.val {
            Some(v) => TropicalWeight { val: Some(v.quantize_spec(delta_or_default(delta))) },
            None => Self::none_spec(),
        }
    }

    open spec fn wtype_spec() -> Seq<char> {
        "tropical"@
    }

    fn is_member(&self) -> (r: bool) {
        match self.val {
            Some(v) => !matches!(v, Num::NotNumber) && !matches!(v, Num::NegInfinite),
            None => false,
        }
    }

    fn plus(&self, rhs: &Self) -> (r: Self) {
        if !self.is_member() || !rhs.is_member() {
            Self::none()
        } else if self.val.unwrap().lt(&rhs.val.unwrap()) {
            *self
        } else {
            *rhs
        }
    }

    fn times(&self, rhs: &Self) -> (r: Self) {
        if !self.is_member() || !rhs.is_member() {
            Self::none()
        } else {
            TropicalWeight { val: Some(self.val.unwrap().add(&rhs.val.unwrap())) }
        }
    }

    fn zero() -> (r: Self) {
        TropicalWeight { val: Some(Num::Infinite) }
    }

    fn one() -> (r: Self) {
        TropicalWeight { val: Some(Num::Finite(0)) }
    }

    fn none() -> (r: Self) {
        TropicalWeight { val: None }
    }

    fn eq_weight(&self, rhs: &Self) -> (r: bool) {
        match (self.val, rhs.val) {
            (Some(x), Some(y)) => !matches!(x, Num::NotNumber) && x == y,
            _ => false,
        }
    }

    fn same(&self, rhs: &Self) -> (r: bool) {
        match (self.val, rhs.val) {
            (Some(x), Some(y)) => x == y,
            (None, None) => true,
            _ => false,
        }
    }

    fn approx_eq(&self, rhs: &Self, delta: Option<i64>) -> (r: bool) {
        self.is_member() && rhs.is_member() && approx_eq_vals_exec(self.val, rhs.val, delta)
    }

    fn quantize(&self, delta: Option<i64>) -> (r: Self) {
        let d = delta_value(delta);
        match self.val {
            Some(v) => TropicalWeight { val: Some(v.quantize(d)) },
            None => Self::none(),
        }
    }

    fn divide(&self, rhs: &Self, divtype: Option<DivideType>) -> (r: Self) {
        if !self.is_member() || !rhs.is_member() {
            Self::none()
        } else {
            let v1 = self.val.unwrap();
            let v2 = rhs.val.unwrap();
            if matches!(v2, Num::Infinite) {
                Self::none()
            } else if matches!(v1, Num::Infinite) {
                *self
            } else {
                TropicalWeight { val: Some(v1.sub(&v2)) }
            }
        }
    }

    fn reverse(&self) -> (r: Self) {
        *self
    }

    fn wtype() -> (r: String) {
        String::from_str("tropical")
    }

    proof fn law_zero_one() {
    }

    proof fn law_eq_structural(a: Self, b: Self) {
    }

    proof fn law_eq_reflexive(a: Self) {
    }

    proof fn law_eq_symmetric(a: Self, b: Self) {
    }

    proof fn law_plus_none(a: Self, b: Self) {
    }

    proof fn law_times_none(a: Self, b: Self) {
    }

    proof fn law_divide_none(a: Self, b: Self, divtype: Option<DivideType>) {
    }

    proof fn law_plus_closed(a: Self, b: Self) {
    }

    proof fn law_times_closed(a: Self, b: Self) {
    }

    proof fn law_plus_assoc(a: Self, b: Self, c: Self) {
    }

    proof fn law_times_assoc(a: Self, b: Self, c: Self) {
    }

    proof fn law_plus_comm(a: Self, b: Self) {
    }

    proof fn law_plus_zero(a: Self) {
    }

    proof fn law_times_one(a: Self) {
    }

    proof fn law_zero_sum_free(a: Self, b: Self) {
    }

    proof fn law_times_zero(a: Self) {
    }

    proof fn law_divide_left(p: Self, b: Self) {
    }

    proof fn law_divide_right(p: Self, b: Self) {
    }

    proof fn law_reverse_involution(a: Self) {
    }

    proof fn law_reverse_plus(a: Self, b: Self) {
    }

    proof fn law_reverse_times(a: Self, b: Self) {
    }
}

impl LeftSemiring for TropicalWeight {
    proof fn law_left_distributive(a: Self, b: Self, c: Self) {
    }
}

impl RightSemiring for TropicalWeight {
    proof fn law_right_distributive(a: Self, b: Self, c: Self) {
    }
}

impl Semiring for TropicalWeight {

}

impl Commutative for TropicalWeight {
    proof fn law_times_commutative(a: Self, b: Self) {
    }
}

impl Idempotent for TropicalWeight {
    proof fn law_plus_idempotent(a: Self) {
    }
}

impl Path for TropicalWeight {
    proof fn law_path(a: Self, b: Self) {
    }
}

impl NaturalLess for TropicalWeight {
    fn natural_less(&self, rhs: &Self) -> (r: bool) {
        self.plus(rhs).eq_weight(self) && !self.eq_weight(rhs)
    }
}

/// The min-max semiring: `⊕` is minimum, `⊗` is maximum, `zero` is
/// `+∞` and `one` is `-∞`. Only `NotNumber` is a non-member.
#[derive(Clone, Copy, Debug, Hash)]
pub struct MinmaxWeight {
    pub val: Option<Num>,
}

impl MinmaxWeight {
    pub fn new(val: Option<Num>) -> (r: Self)
        ensures
            r == (MinmaxWeight { val }),
    {
        MinmaxWeight { val }
    }
}

impl Weight for MinmaxWeight {
    open spec fn mem(self) -> bool {
        match self.val {
            Some(v) => !(v is NotNumber),
            None => false,
        }
    }

    open spec fn plus_spec(self, rhs: Self) -> Self {
        if !self.mem() || !rhs.mem() {
            Self::none_spec()
        } else if self.val.unwrap().lt_spec(rhs.val.unwrap()) {
            self
        } else {
            rhs
        }
    }

    open spec fn times_spec(self, rhs: Self) -> Self {
        if !self.mem() || !rhs.mem() {
            Self::none_spec()
        } else if rhs.val.unwrap().le_spec(self.val.unwrap()) {
            self
        } else {
            rhs
        }
    }

    open spec fn times_exact(self, rhs: Self) -> bool {
        true
    }

    open spec fn divide_exact(self, rhs: Self) -> bool {
        true
    }

    open spec fn zero_spec() -> Self {
        MinmaxWeight { val: Some(Num::Infinite) }
    }

    open spec fn one_spec() -> Self {
        MinmaxWeight { val: Some(Num::NegInfinite) }
    }

    open spec fn none_spec() -> Self {
        MinmaxWeight { val: None }
    }

    open spec fn eq_spec(self, rhs: Self) -> bool {
        match (self.val, rhs.val) {
            (Some(x), Some(y)) => !(x is NotNumber) && x == y,
            _ => false,
        }
    }

    open spec fn divide_spec(self, rhs: Self, divtype: Option<DivideType>) -> Self {
        if !self.mem() || !rhs.mem() {
            Self::none_spec()
        } else if rhs.val.unwrap().le_spec(self.val.unwrap()) {
            self
        } else {
            Self::none_spec()
        }
    }

    open spec fn reverse_spec(self) -> Self {
        self
    }

    open spec fn approx_eq_spec(self, rhs: Self, delta: Option<i64>) -> bool {
        self.mem() && rhs.mem() && approx_eq_vals(self.val, rhs.val, delta_or_default(delta))
    }

    open spec fn quantize_spec(self, delta: Option<i64>) -> Self {
        match self.val {
            Some(v) => MinmaxWeight { val: Some(v.quantize_spec(delta_or_default(delta))) },
            None => Self::none_spec(),
        }
    }

    open spec fn wtype_spec() -> Seq<char> {
        "minmax"@
    }

    fn is_member(&self) -> (r: bool) {
        match self.val {
            Some(v) => !matches!(v, Num::NotNumber),
            None => false,
        }
    }

    fn plus(&self, rhs: &Self) -> (r: Self) {
        if !self.is_member() || !rhs.is_member() {
            Self::none()
        } else if self.val.unwrap().lt(&rhs.val.unwrap()) {
            *self
        } else {
            *rhs
        }
    }

    fn times(&self, rhs: &Self) -> (r: Self) {
        if !self.is_member() || !rhs.is_member() {
            Self::none()
        } else if rhs.val.unwrap().le(&self.val.unwrap()) {
            *self
        } else {
            *rhs
        }
    }

    fn zero() -> (r: Self) {
        MinmaxWeight { val: Some(Num::Infinite) }
    }

    fn one() -> (r: Self) {
        MinmaxWeight { val: Some(Num::NegInfinite) }
    }

    fn none() -> (r: Self) {
        MinmaxWeight { val: None }
    }

    fn eq_weight(&self, rhs: &Self) -> (r: bool) {
        match (self.val, rhs.val) {
            (Some(x), Some(y)) => !matches!(x, Num::NotNumber) && x == y,
            _ => false,
        }
    }

    fn same(&self, rhs: &Self) -> (r: bool) {
        match (self.val, rhs.val) {
            (Some(x), Some(y)) => x == y,
            (None, None) => true,
            _ => false,
        }
    }

    fn approx_eq(&self, rhs: &Self, delta: Option<i64>) -> (r: bool) {
        self.is_member() && rhs.is_member() && approx_eq_vals_exec(self.val, rhs.val, delta)
    }

    fn quantize(&self, delta: Option<i64>) -> (r: Self) {
        let d = delta_value(delta);
        match self.val {
            Some(v) => MinmaxWeight { val: Some(v.quantize(d)) },
            None => Self::none(),
        }
    }

    fn divide(&self, rhs: &Self, divtype: Option<DivideType>) -> (r: Self) {
        if !self.is_member() || !rhs.is_member() {
            Self::none()
        } else if rhs.val.unwrap().le(&self.val.unwrap()) {
            *self
        } else {
            Self::none()
        }
    }

    fn reverse(&self) -> (r: Self) {
        *self
    }

    fn wtype() -> (r: String) {
        String::from_str("minmax")
    }

    proof fn law_zero_one() {
    }

    proof fn law_eq_structural(a: Self, b: Self) {
    }

    proof fn law_eq_reflexive(a: Self) {
    }

    proof fn law_eq_symmetric(a: Self, b: Self) {
    }

    proof fn law_plus_none(a: Self, b: Self) {
    }

    proof fn law_times_none(a: Self, b: Self) {
    }

    proof fn law_divide_none(a: Self, b: Self, divtype: Option<DivideType>) {
    }

    proof fn law_plus_closed(a: Self, b: Self) {
    }

    proof fn law_times_closed(a: Self, b: Self) {
    }

    proof fn law_plus_assoc(a: Self, b: Self, c: Self) {
    }

    proof fn law_times_assoc(a: Self, b: Self, c: Self) {
    }

    proof fn law_plus_comm(a: Self, b: Self) {
    }

    proof fn law_plus_zero(a: Self) {
    }

    proof fn law_times_one(a: Self) {
    }

    proof fn law_zero_sum_free(a: Self, b: Self) {
    }

    proof fn law_times_zero(a: Self) {
    }

    proof fn law_divide_left(p: Self, b: Self) {
    }

    proof fn law_divide_right(p: Self, b: Self) {
    }

    proof fn law_reverse_involution(a: Self) {
    }

    proof fn law_reverse_plus(a: Self, b: Self) {
    }

    proof fn law_reverse_times(a: Self, b: Self) {
    }
}

impl LeftSemiring for MinmaxWeight {
    proof fn law_left_distributive(a: Self, b: Self, c: Self) {
    }
}

impl RightSemiring for MinmaxWeight {
    proof fn law_right_distributive(a: Self, b: Self, c: Self) {
    }
}

impl Semiring for MinmaxWeight {

}

impl Commutative for MinmaxWeight {
    proof fn law_times_commutative(a: Self, b: Self) {
    }
}

impl Idempotent for MinmaxWeight {
    proof fn law_plus_idempotent(a: Self) {
    }
}

impl Path for MinmaxWeight {
    proof fn law_path(a: Self, b: Self) {
    }
}

impl NaturalLess for MinmaxWeight {
    fn natural_less(&self, rhs: &Self) -> (r: bool) {
        self.plus(rhs).eq_weight(self) && !self.eq_weight(rhs)
    }
}

/// A weight type whose carrier embeds the exact number line; the
/// text-format compiler builds weights through it.
pub trait FromNum: Weight {
    /// The weight holding the given carrier value.
    spec fn from_num_spec(v: Num) -> Self;

    fn from_num(v: Num) -> (r: Self)
        ensures
            r == Self::from_num_spec(v),
    ;
}

impl FromNum for TropicalWeight {
    open spec fn from_num_spec(v: Num) -> Self {
        TropicalWeight { val: Some(v) }
    }

    fn from_num(v: Num) -> (r: Self) {
        TropicalWeight { val: Some(v) }
    }
}

impl FromNum for MinmaxWeight {
    open spec fn from_num_spec(v: Num) -> Self {
        MinmaxWeight { val: Some(v) }
    }

    fn from_num(v: Num) -> (r: Self) {
        MinmaxWeight { val: Some(v) }
    }
}

/// The digit character of one decimal digit.
pub open spec fn digit_char(d: int) -> char {
    if d == 0 {
        '0'
    } else if d == 1 {
        '1'
    } else if d == 2 {
        '2'
    } else if d == 3 {
        '3'
    } else if d == 4 {
        '4'
    } else if d == 5 {
        '5'
    } else if d == 6 {
        '6'
    } else if d == 7 {
        '7'
    } else if d == 8 {
        '8'
    } else {
        '9'
    }
}

/// The decimal digits of an unsigned number, most significant first.
pub open spec fn dec_digits(n: int) -> Seq<char>
    decreases n,
{
    if n < 10 {
        seq![digit_char(n)]
    } else {
        dec_digits(n / 10).push(digit_char(n % 10))
    }
}

/// The decimal text of a signed number.
pub open spec fn int_text(v: int) -> Seq<char> {
    if v < 0 {
        seq!['-'] + dec_digits(-v)
    } else {
        dec_digits(v)
    }
}

/// The text of a carrier value, as the printer writes it.
pub open spec fn num_text(v: Num) -> Seq<char> {
    match v {
        Num::NotNumber => "nan"@,
        Num::NegInfinite => "-inf"@,
        Num::Infinite => "inf"@,
        Num::Finite(x) => int_text(x as int),
    }
}

/// The text of an optional carrier value.
pub open spec fn val_text(v: Option<Num>) -> Seq<char> {
    match v {
        Some(x) => num_text(x),
        None => "none"@,
    }
}

/// A weight the text printer can write out.
pub trait WeightText: Weight {
    /// What the printer writes for this weight.
    spec fn text_spec(self) -> Seq<char>;

    fn text(&self) -> (r: String)
        ensures
            r@ == self.text_spec(),
    ;
}

impl WeightText for TropicalWeight {
    open spec fn text_spec(self) -> Seq<char> {
        val_text(self.val)
    }

    fn text(&self) -> (r: String) {
        val_to_string(self.val)
    }
}

impl WeightText for MinmaxWeight {
    open spec fn text_spec(self) -> Seq<char> {
        val_text(self.val)
    }

    fn text(&self) -> (r: String) {
        val_to_string(self.val)
    }
}

/// Appends one decimal digit.
fn push_digit(out: &mut String, d: u64)
    requires
        d < 10,
    ensures
        final(out)@ == old(out)@ + seq![digit_char(d as int)],
{
    if d == 0 {
        out.append("0");
        proof {
            reveal_strlit("0");
            assert("0"@ =~= seq![digit_char(0)]);
        }
    } else if d == 1 {
        out.append("1");
        proof {
            reveal_strlit("1");
            assert("1"@ =~= seq![digit_char(1)]);
        }
    } else if d == 2 {
        out.append("2");
        proof {
            reveal_strlit("2");
            assert("2"@ =~= seq![digit_char(2)]);
        }
    } else if d == 3 {
        out.append("3");
        proof {
            reveal_strlit("3");
            assert("3"@ =~= seq![digit_char(3)]);
        }
    } else if d == 4 {
        out.append("4");
        proof {
            reveal_strlit("4");
            assert("4"@ =~= seq![digit_char(4)]);
        }
    } else if d == 5 {
        out.append("5");
        proof {
            reveal_strlit("5");
            assert("5"@ =~= seq![digit_char(5)]);
        }
    } else if d == 6 {
        out.append("6");
        proof {
            reveal_strlit("6");
            assert("6"@ =~= seq![digit_char(6)]);
        }
    } else if d == 7 {
        out.append("7");
        proof {
            reveal_strlit("7");
            assert("7"@ =~= seq![digit_char(7)]);
        }
    } else if d == 8 {
        out.append("8");
        proof {
            reveal_strlit("8");
            assert("8"@ =~= seq![digit_char(8)]);
        }
    } else {
        out.append("9");
        proof {
            reveal_strlit("9");
            assert("9"@ =~= seq![digit_char(9)]);
        }
    }
}

/// Appends the decimal digits of an unsigned number.
pub fn push_u64(out: &mut String, n: u64)
    ensures
        final(out)@ == old(out)@ + dec_digits(n as int),
    decreases n,
{
    if n < 10 {
        push_digit(out, n);
    } else {
        push_u64(out, n / 10);
        push_digit(out, n % 10);
        proof {
            assert(out@ =~= old(out)@ + dec_digits(n as int));
        }
    }
}

/// The text of an optional carrier value.
fn val_to_string(v: Option<Num>) -> (r: String)
    ensures
        r@ == val_text(v),
{
    match v {
        None => String::from_str("none"),
        Some(Num::NotNumber) => String::from_str("nan"),
        Some(Num::NegInfinite) => String::from_str("-inf"),
        Some(Num::Infinite) => String::from_str("inf"),
        Some(Num::Finite(x)) => {
            let mut out = String::new();
            if x < 0 {
                out.append("-");
                let m: u64 = (-(x as i128)) as u64;
                push_u64(&mut out, m);
                proof {
                    reveal_strlit("-");
                    assert("-"@ =~= seq!['-']);
                    assert(out@ =~= int_text(x as int));
                }
            } else {
                push_u64(&mut out, x as u64);
                proof {
                    assert(out@ =~= int_text(x as int));
                }
            }
            out
        },
    }
}

} // verus!
