//! The `Weight` contract of a semiring element, the orthogonal
//! capability markers that algorithms demand when they need an
//! algebraic law, and the iterated product `power`.
//!
//! See Mehryar Mohri, "Semiring Framework and Algorithms for
//! Shortest-Distance Problems", *Journal of Automata, Languages and
//! Combinatorics* 7(3):321-350, 2002.

use vstd::prelude::*;

verus! {

/// Which side a division is taken on, for semirings where the two
/// differ.
#[derive(Clone, Copy, Debug, PartialEq, Eq, Structural)]
pub enum DivideType {
    Divleft,
    Divright,
    Divany,
}

/// An element of a semiring `(W, ⊕, ⊗, zero, one)`.
///
/// Every value carries a membership predicate; the distinguished
/// `none` element is always a non-member, and every operation on a
/// non-member operand yields `none`. Each executable method is pinned
/// to a specification-level counterpart, and the `law_*` proof
/// obligations make every implementation prove the semiring laws.
/// Laws about `⊗` hold where `times_exact` does, that is, where the
/// product suffers no saturation at the edge of the carrier's range.
pub trait Weight: Sized + Copy {
    /// The membership predicate: whether this value is a semiring
    /// element proper.
    spec fn mem(self) -> bool;

    /// What `plus` returns.
    spec fn plus_spec(self, rhs: Self) -> Self;

    /// What `times` returns.
    spec fn times_spec(self, rhs: Self) -> Self;

    /// Whether the product of the two operands is exact, with no
    /// saturation at the edge of the representable range.
    spec fn times_exact(self, rhs: Self) -> bool;

    /// Whether the quotient of the two operands is exact.
    spec fn divide_exact(self, rhs: Self) -> bool;

    /// The identity of `plus` and annihilator of `times`.
    spec fn zero_spec() -> Self;

    /// The identity of `times`.
    spec fn one_spec() -> Self;

    /// The non-member sentinel.
    spec fn none_spec() -> Self;

    /// Value equality: both operands are comparable values and carry
    /// the same one. Not reflexive on non-members.
    spec fn eq_spec(self, rhs: Self) -> bool;

    /// What `divide` returns.
    spec fn divide_spec(self, rhs: Self, divtype: Option<DivideType>) -> Self;

    /// What `reverse` returns.
    spec fn reverse_spec(self) -> Self;

    /// What `approx_eq` returns.
    spec fn approx_eq_spec(self, rhs: Self, delta: Option<i64>) -> bool;

    /// What `quantize` returns.
    spec fn quantize_spec(self, delta: Option<i64>) -> Self;

    /// The stable type tag used by the serialization envelope.
    spec fn wtype_spec() -> Seq<char>;

    fn is_member(&self) -> (r: bool)
        ensures
            r == self.mem(),
    ;

    fn plus(&self, rhs: &Self) -> (r: Self)
        ensures
            r == self.plus_spec(*rhs),
    ;

    fn times(&self, rhs: &Self) -> (r: Self)
        ensures
            r == self.times_spec(*rhs),
    ;

    fn zero() -> (r: Self)
        ensures
            r == Self::zero_spec(),
    ;

    fn one() -> (r: Self)
        ensures
            r == Self::one_spec(),
    ;

    fn none() -> (r: Self)
        ensures
            r == Self::none_spec(),
    ;

    /// Value equality; never true when an operand is a non-member.
    fn eq_weight(&self, rhs: &Self) -> (r: bool)
        ensures
            r == self.eq_spec(*rhs),
    ;

    /// Structural equality, which also tells non-members apart.
    fn same(&self, rhs: &Self) -> (r: bool)
        ensures
            r == (*self == *rhs),
    ;

    fn approx_eq(&self, rhs: &Self, delta: Option<i64>) -> (r: bool)
        ensures
            r == self.approx_eq_spec(*rhs, delta),
    ;

    fn quantize(&self, delta: Option<i64>) -> (r: Self)
        ensures
            r == self.quantize_spec(delta),
    ;

    fn divide(&self, rhs: &Self, divtype: Option<DivideType>) -> (r: Self)
        ensures
            r == self.divide_spec(*rhs, divtype),
    ;

    fn reverse(&self) -> (r: Self)
        ensures
            r == self.reverse_spec(),
    ;

    fn wtype() -> (r: String)
        ensures
            r@ == Self::wtype_spec(),
    ;

    /// `zero` and `one` are members, distinct under value equality;
    /// `none` is not a member.
    proof fn law_zero_one()
        ensures
            Self::zero_spec().mem(),
            Self::one_spec().mem(),
            !Self::none_spec().mem(),
            !Self::one_spec().eq_spec(Self::zero_spec()),
    ;

    /// Value equality implies structural equality.
    proof fn law_eq_structural(a: Self, b: Self)
        ensures
            a.eq_spec(b) ==> a == b,
    ;

    /// Value equality is reflexive on members.
    proof fn law_eq_reflexive(a: Self)
        ensures
            a.mem() ==> a.eq_spec(a),
    ;

    /// Value equality is symmetric.
    proof fn law_eq_symmetric(a: Self, b: Self)
        ensures
            a.eq_spec(b) == b.eq_spec(a),
    ;

    /// A sum with a non-member operand is `none`.
    proof fn law_plus_none(a: Self, b: Self)
        ensures
            !a.mem() || !b.mem() ==> a.plus_spec(b) == Self::none_spec(),
    ;

    /// A product with a non-member operand is `none`.
    proof fn law_times_none(a: Self, b: Self)
        ensures
            !a.mem() || !b.mem() ==> a.times_spec(b) == Self::none_spec(),
    ;

    /// A quotient with a non-member operand is `none`.
    proof fn law_divide_none(a: Self, b: Self, divtype: Option<DivideType>)
        ensures
            !a.mem() || !b.mem() ==> a.divide_spec(b, divtype) == Self::none_spec(),
    ;

    /// The sum of members is a member.
    proof fn law_plus_closed(a: Self, b: Self)
        ensures
            a.mem() && b.mem() ==> a.plus_spec(b).mem(),
    ;

    /// The exact product of members is a member.
    proof fn law_times_closed(a: Self, b: Self)
        ensures
            a.mem() && b.mem() && a.times_exact(b) ==> a.times_spec(b).mem(),
    ;

    /// `plus` is associative.
    proof fn law_plus_assoc(a: Self, b: Self, c: Self)
        ensures
            a.plus_spec(b).plus_spec(c) == a.plus_spec(b.plus_spec(c)),
    ;

    /// `times` is associative wherever the intermediate products are
    /// exact.
    proof fn law_times_assoc(a: Self, b: Self, c: Self)
        ensures
            a.times_exact(b) && b.times_exact(c) && a.times_spec(b).times_exact(c)
                && a.times_exact(b.times_spec(c)) ==> a.times_spec(b).times_spec(c) == a.times_spec(
                b.times_spec(c),
            ),
    ;

    /// `plus` is commutative in every semiring of this library.
    proof fn law_plus_comm(a: Self, b: Self)
        ensures
            a.plus_spec(b) == b.plus_spec(a),
    ;

    /// `zero` is the identity of `plus` on members and on `none`.
    proof fn law_plus_zero(a: Self)
        ensures
            a.mem() || a == Self::none_spec() ==> a.plus_spec(Self::zero_spec()) == a
                && Self::zero_spec().plus_spec(a) == a,
    ;

    /// `one` is the identity of `times` on members and on `none`.
    proof fn law_times_one(a: Self)
        ensures
            a.mem() || a == Self::none_spec() ==> a.times_spec(Self::one_spec()) == a
                && Self::one_spec().times_spec(a) == a,
    ;

    /// Every semiring of this library is zero-sum-free: a sum of
    /// members carries the value `zero` only where both addends do.
    proof fn law_zero_sum_free(a: Self, b: Self)
        ensures
            a.mem() && b.mem() && a.plus_spec(b).eq_spec(Self::zero_spec()) ==> a.eq_spec(
                Self::zero_spec(),
            ) && b.eq_spec(Self::zero_spec()),
    ;

    /// `zero` annihilates `times` on members.
    proof fn law_times_zero(a: Self)
        ensures
            a.mem() ==> a.times_spec(Self::zero_spec()) == Self::zero_spec()
                && Self::zero_spec().times_spec(a) == Self::zero_spec(),
    ;

    /// Left division undoes `times`: where `d = p / b` is a member,
    /// `p = b ⊗ d`.
    proof fn law_divide_left(p: Self, b: Self)
        ensures
            p.mem() && b.mem() && p.divide_exact(b) && p.divide_spec(
                b,
                Some(DivideType::Divleft),
            ).mem() ==> p.eq_spec(b.times_spec(p.divide_spec(b, Some(DivideType::Divleft)))),
    ;

    /// Right division undoes `times`: where `d = p / b` is a member,
    /// `p = d ⊗ b`.
    proof fn law_divide_right(p: Self, b: Self)
        ensures
            p.mem() && b.mem() && p.divide_exact(b) && p.divide_spec(
                b,
                Some(DivideType::Divright),
            ).mem() ==> p.eq_spec(p.divide_spec(b, Some(DivideType::Divright)).times_spec(b)),
    ;

    /// `reverse` is an involution.
    proof fn law_reverse_involution(a: Self)
        ensures
            a.reverse_spec().reverse_spec() == a,
    ;

    /// `reverse` distributes over `plus`.
    proof fn law_reverse_plus(a: Self, b: Self)
        ensures
            a.plus_spec(b).reverse_spec() == a.reverse_spec().plus_spec(b.reverse_spec()),
    ;

    /// `reverse` distributes over `times`.
    proof fn law_reverse_times(a: Self, b: Self)
        ensures
            a.times_spec(b).reverse_spec() == a.reverse_spec().times_spec(b.reverse_spec()),
    ;
}

/// Declares `c ⊗ (a ⊕ b) = (c ⊗ a) ⊕ (c ⊗ b)`.
pub trait LeftSemiring: Weight {
    proof fn law_left_distributive(a: Self, b: Self, c: Self)
        ensures
            c.times_exact(a) && c.times_exact(b) ==> c.times_spec(a.plus_spec(b)) == c.times_spec(
                a,
            ).plus_spec(c.times_spec(b)),
    ;
}

/// Declares `(a ⊕ b) ⊗ c = (a ⊗ c) ⊕ (b ⊗ c)`.
pub trait RightSemiring: Weight {
    proof fn law_right_distributive(a: Self, b: Self, c: Self)
        ensures
            a.times_exact(c) && b.times_exact(c) ==> a.plus_spec(b).times_spec(c) == a.times_spec(
                c,
            ).plus_spec(b.times_spec(c)),
    ;
}

/// Both distributive laws apply.
pub trait Semiring: LeftSemiring + RightSemiring {

}

/// Declares `a ⊗ b = b ⊗ a`.
pub trait Commutative: Weight {
    proof fn law_times_commutative(a: Self, b: Self)
        ensures
            a.times_spec(b) == b.times_spec(a),
    ;
}

/// Declares `a ⊕ a = a`.
pub trait Idempotent: Weight {
    proof fn law_plus_idempotent(a: Self)
        ensures
            a.mem() || a == Self::none_spec() ==> a.plus_spec(a) == a,
    ;
}

/// Declares `a ⊕ b ∈ {a, b}`: the natural order is total on members.
pub trait Path: Weight {
    proof fn law_path(a: Self, b: Self)
        ensures
            a.mem() && b.mem() ==> a.plus_spec(b) == a || a.plus_spec(b) == b,
    ;
}

/// The strict natural order: `a < b` iff `a ⊕ b = a` and `a ≠ b`,
/// both read under value equality.
pub open spec fn natural_less_spec<W: Weight>(a: W, b: W) -> bool {
    a.plus_spec(b).eq_spec(a) && !a.eq_spec(b)
}

/// A weight type whose natural order is decidable; the n-best path
/// algorithm demands it of semirings that satisfy `Path`.
pub trait NaturalLess: Weight {
    fn natural_less(&self, rhs: &Self) -> (r: bool)
        ensures
            r == natural_less_spec(*self, *rhs),
    ;
}

/// The iterated product: `power_spec(w, 0)` is `one`, and
/// `power_spec(w, n)` is `power_spec(w, n-1) ⊗ w`.
pub open spec fn power_spec<W: Weight>(w: W, n: nat) -> W
    decreases n,
{
    if n == 0 {
        W::one_spec()
    } else {
        power_spec(w, (n - 1) as nat).times_spec(w)
    }
}

/// The n-fold product of `w` with itself, starting from `one`.
pub fn power<W: Weight>(w: &W, n: u8) -> (r: W)
    ensures
        r == power_spec(*w, n as nat),
{
    let mut result = W::one();
    for i in 0..n
        invariant
            result == power_spec(*w, i as nat),
    {
        result = result.times(w);
    }
    result
}

/// The zeroth power is `one`.
pub proof fn lemma_power_zero<W: Weight>(w: W)
    ensures
        power_spec(w, 0) == W::one_spec(),
{
}

/// The first power of a member is the member itself.
pub proof fn lemma_power_one<W: Weight>(w: W)
    requires
        w.mem(),
    ensures
        power_spec(w, 1) == w,
{
    reveal_with_fuel(power_spec, 2);
    W::law_times_one(w);
}

/// The third power of a member is `w ⊗ (w ⊗ w)`, where the products
/// stay exact.
pub proof fn lemma_power_three<W: Weight>(w: W)
    requires
        w.mem(),
        w.times_exact(w),
        w.times_spec(w).times_exact(w),
        w.times_exact(w.times_spec(w)),
    ensures
        power_spec(w, 3) == w.times_spec(w.times_spec(w)),
{
    reveal_with_fuel(power_spec, 4);
    W::law_times_one(w);
    W::law_times_assoc(w, w, w);
}

/// Value equality is transitive.
pub proof fn lemma_eq_transitive<W: Weight>(a: W, b: W, c: W)
    ensures
        a.eq_spec(b) && b.eq_spec(c) ==> a.eq_spec(c),
{
    W::law_eq_structural(a, b);
}

} // verus!
