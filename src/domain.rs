use vstd::prelude::*;
use vstd::std_specs::cmp::PartialEqSpec;
use crate::ast::{CompareOp, IntBinaryOp, IntUnaryOp, compare_holds};

verus! {

/// Quotient of integer division rounded toward zero, as in C.
pub open spec fn trunc_div(a: int, b: int) -> int
    recommends
        b != 0,
{
    if (a >= 0) == (b > 0) {
        if a >= 0 {
            a / b
        } else {
            (-a) / (-b)
        }
    } else {
        if a >= 0 {
            -(a / (-b))
        } else {
            -((-a) / b)
        }
    }
}

/// The value of a unary operator on an integer.
pub open spec fn unary_value(op: IntUnaryOp, n: int) -> int {
    match op {
        IntUnaryOp::AddUnary => n,
        IntUnaryOp::SubUnary => -n,
    }
}

/// The value of a binary operator on two integers; none for a division or a
/// remainder by zero.
pub open spec fn binary_value(op: IntBinaryOp, a: int, b: int) -> Option<int> {
    match op {
        IntBinaryOp::Add => Some(a + b),
        IntBinaryOp::Sub => Some(a - b),
        IntBinaryOp::Mul => Some(a * b),
        IntBinaryOp::Div => if b == 0 {
            None
        } else {
            Some(trunc_div(a, b))
        },
        IntBinaryOp::Mod => if b == 0 {
            None
        } else {
            Some(a - b * trunc_div(a, b))
        },
    }
}

/// Whether `op` divides by its right operand.
pub open spec fn divides(op: IntBinaryOp) -> bool {
    op == IntBinaryOp::Div || op == IntBinaryOp::Mod
}

/// An integer that stands in relation `op` to `y` on its left.
pub open spec fn left_partner(op: CompareOp, y: int) -> int {
    match op {
        CompareOp::LT | CompareOp::NE => y - 1,
        CompareOp::GT => y + 1,
        _ => y,
    }
}

/// An integer that stands in relation `op` to `x` on its right.
pub open spec fn right_partner(op: CompareOp, x: int) -> int {
    match op {
        CompareOp::LT | CompareOp::NE => x + 1,
        CompareOp::GT => x - 1,
        _ => x,
    }
}

/// A lattice of sets of integers, the abstract values of one variable.
///
/// `contains` gives the set that an element stands for. Every operation is
/// sound: it keeps at least the integers that the concrete operation can give.
pub trait ValueDomain: Sized + Copy + PartialEq {
    /// The representation invariant.
    spec fn valid(&self) -> bool;

    /// Whether the element stands for a set holding `n`.
    spec fn contains(&self, n: int) -> bool;

    spec fn spec_bottom() -> Self;

    spec fn spec_join(a: Self, b: Self) -> Self;

    spec fn spec_meet(a: Self, b: Self) -> Self;

    spec fn spec_widen(a: Self, b: Self) -> Self;

    /// The lattice order.
    spec fn spec_le(a: Self, b: Self) -> bool;

    /// All integers.
    spec fn spec_top() -> Self;

    /// Exactly the integer `c`.
    spec fn spec_constant(c: i64) -> Self;

    /// What `range` gives.
    spec fn spec_range(lo: Self, hi: Self) -> Self;

    /// What `unary` gives.
    spec fn spec_unary(op: IntUnaryOp, a: Self) -> Self;

    /// What `binary` gives; none for a division by a divisor that is only 0.
    spec fn spec_binary(op: IntBinaryOp, a: Self, b: Self) -> Option<Self>;

    /// What `compare` gives: the two sides refined by the comparison.
    spec fn spec_compare(op: CompareOp, a: Self, b: Self) -> (Self, Self);

    /// A bound on how many more times widening can change an element.
    spec fn rank(a: Self) -> nat;

    /// `==` on elements is equality of the elements.
    proof fn lemma_eq_is_equality()
        ensures
            <Self as vstd::std_specs::cmp::PartialEqSpec>::obeys_eq_spec(),
            forall|a: Self, b: Self| a.eq_spec(&b) <==> a == b;

    /// The order is inclusion of the sets the elements stand for.
    proof fn lemma_le_contains(a: Self, b: Self)
        requires
            a.valid(),
            b.valid(),
            Self::spec_le(a, b),
        ensures
            forall|n: int| a.contains(n) ==> b.contains(n);

    /// The order is reflexive.
    proof fn lemma_le_reflexive(a: Self)
        requires
            a.valid(),
        ensures
            Self::spec_le(a, a);

    /// Join, meet and widening are idempotent.
    proof fn lemma_idempotent(a: Self)
        requires
            a.valid(),
        ensures
            Self::spec_join(a, a) == a,
            Self::spec_meet(a, a) == a,
            Self::spec_widen(a, a) == a;

    /// Join and meet are commutative.
    proof fn lemma_commutative(a: Self, b: Self)
        requires
            a.valid(),
            b.valid(),
        ensures
            Self::spec_join(a, b) == Self::spec_join(b, a),
            Self::spec_meet(a, b) == Self::spec_meet(b, a);

    /// Join absorbs meet.
    proof fn lemma_absorption(a: Self, b: Self)
        requires
            a.valid(),
            b.valid(),
        ensures
            Self::spec_join(a, Self::spec_meet(a, b)) == a;

    /// Bottom is neutral for join and absorbing for meet.
    proof fn lemma_bottom_laws(a: Self)
        requires
            a.valid(),
        ensures
            Self::spec_join(a, Self::spec_bottom()) == a,
            Self::spec_meet(a, Self::spec_bottom()) == Self::spec_bottom();

    /// Join is monotone in both arguments.
    proof fn lemma_join_monotone(a: Self, a2: Self, b: Self, b2: Self)
        requires
            a.valid(),
            a2.valid(),
            b.valid(),
            b2.valid(),
            Self::spec_le(a, a2),
            Self::spec_le(b, b2),
        ensures
            Self::spec_le(Self::spec_join(a, b), Self::spec_join(a2, b2));

    /// Each widening step either leaves its left argument as it is or
    /// lowers its rank.
    proof fn lemma_widen_progress(a: Self, b: Self)
        requires
            a.valid(),
            b.valid(),
        ensures
            Self::spec_widen(a, b).valid(),
            Self::spec_widen(a, b) == a || Self::rank(Self::spec_widen(a, b)) < Self::rank(a);

    /// The empty set.
    fn bottom() -> (r: Self)
        ensures
            r.valid(),
            r == Self::spec_bottom(),
            forall|n: int| !r.contains(n);

    /// All integers.
    fn top() -> (r: Self)
        ensures
            r.valid(),
            r == Self::spec_top(),
            forall|n: int| r.contains(n);

    fn is_bottom(&self) -> (r: bool)
        ensures
            self.valid() ==> (r == forall|n: int| !self.contains(n));

    /// Inclusion of the two sets.
    fn subset(&self, other: &Self) -> (r: bool)
        ensures
            r == Self::spec_le(*self, *other),
            self.valid() && other.valid() ==> (r == forall|n: int|
                self.contains(n) ==> other.contains(n));

    /// An upper bound of both.
    fn join(&self, other: &Self) -> (r: Self)
        ensures
            r == Self::spec_join(*self, *other),
            self.valid() && other.valid() ==> r.valid(),
            forall|n: int| self.contains(n) || other.contains(n) ==> r.contains(n);

    /// Exactly the common integers.
    fn meet(&self, other: &Self) -> (r: Self)
        ensures
            r == Self::spec_meet(*self, *other),
            self.valid() && other.valid() ==> r.valid(),
            self.valid() && other.valid() ==> forall|n: int|
                r.contains(n) <==> self.contains(n) && other.contains(n);

    /// An upper bound of both that makes ascending chains stabilise.
    fn widen(&self, other: &Self) -> (r: Self)
        ensures
            r == Self::spec_widen(*self, *other),
            self.valid() && other.valid() ==> r.valid(),
            forall|n: int| self.contains(n) || other.contains(n) ==> r.contains(n);

    /// A refinement of `self` that keeps what `self` and `other` share.
    fn narrow(&self, other: &Self) -> (r: Self)
        ensures
            self.valid() && other.valid() ==> r.valid(),
            forall|n: int| r.contains(n) ==> self.contains(n),
            forall|n: int| self.contains(n) && other.contains(n) ==> r.contains(n);

    fn constant(c: i64) -> (r: Self)
        ensures
            r.valid(),
            r == Self::spec_constant(c),
            r.contains(c as int);

    /// The integers that `rand(lo, hi)` can draw for some `lo` in `lo` and
    /// `hi` in `hi`.
    fn range(lo: &Self, hi: &Self) -> (r: Self)
        requires
            lo.valid(),
            hi.valid(),
        ensures
            r.valid(),
            r == Self::spec_range(*lo, *hi),
            forall|a: int, b: int, n: int|
                lo.contains(a) && hi.contains(b) && a <= n <= b ==> r.contains(n);

    fn unary(op: IntUnaryOp, a: &Self) -> (r: Self)
        requires
            a.valid(),
        ensures
            r.valid(),
            r == Self::spec_unary(op, *a),
            forall|n: int| a.contains(n) ==> r.contains(unary_value(op, n));

    /// None exactly where the operator divides and the divisor can only be 0.
    fn binary(op: IntBinaryOp, a: &Self, b: &Self) -> (r: Option<Self>)
        requires
            a.valid(),
            b.valid(),
        ensures
            r == Self::spec_binary(op, *a, *b),
            r.is_none() == (divides(op) && b.contains(0) && forall|n: int| b.contains(n) ==> n == 0),
            r matches Some(v) ==> v.valid() && forall|x: int, y: int|
                a.contains(x) && b.contains(y) && binary_value(op, x, y) is Some ==> v.contains(
                    binary_value(op, x, y)->0,
                );

    /// Refines `a` and `b` to the values that can satisfy `a op b`.
    fn compare(op: CompareOp, a: &Self, b: &Self) -> (r: (Self, Self))
        requires
            a.valid(),
            b.valid(),
        ensures
            r == Self::spec_compare(op, *a, *b),
            r.0.valid(),
            r.1.valid(),
            forall|n: int| r.0.contains(n) ==> a.contains(n),
            forall|n: int| r.1.contains(n) ==> b.contains(n),
            forall|x: int, y: int|
                a.contains(x) && b.contains(y) && compare_holds(op, x, y) ==> r.0.contains(x)
                    && r.1.contains(y),
            !(exists|x: int, y: int| #[trigger] a.contains(x) && #[trigger] b.contains(y) && compare_holds(op, x, y))
                ==> (forall|n: int| !r.0.contains(n)) && (forall|n: int| !r.1.contains(n));

    /// How reports write an element.
    spec fn spec_text(a: Self) -> Seq<char>;

    /// A rendering of the element for reports.
    fn to_text(&self) -> (r: String)
        ensures
            r@ == Self::spec_text(*self);
}

/// The sequence that folds `xs` with widening: `ys[0] = xs[0]` and
/// `ys[i + 1] = ys[i] ∇ xs[i + 1]`.
pub open spec fn widen_chain<D: ValueDomain>(xs: Seq<D>) -> Seq<D>
    decreases xs.len(),
{
    if xs.len() <= 1 {
        xs
    } else {
        let ys = widen_chain(xs.drop_last());
        ys.push(D::spec_widen(ys.last(), xs.last()))
    }
}

/// Folding any sequence with widening stabilises: along the folded
/// sequence the rank never rises, and every change of element lowers it, so
/// there are at most as many changes as the first element's rank.
pub proof fn lemma_widen_chain_stabilises<D: ValueDomain>(xs: Seq<D>)
    requires
        forall|i: int| 0 <= i < xs.len() ==> (#[trigger] xs[i]).valid(),
    ensures
        widen_chain(xs).len() == xs.len(),
        forall|i: int| 0 <= i < xs.len() ==> (#[trigger] widen_chain(xs)[i]).valid(),
        forall|i: int, j: int|
            0 <= i <= j < xs.len() ==> D::rank(#[trigger] widen_chain(xs)[j]) <= D::rank(
                #[trigger] widen_chain(xs)[i],
            ) && (widen_chain(xs)[j] != widen_chain(xs)[i] ==> D::rank(widen_chain(xs)[j]) < D::rank(
                widen_chain(xs)[i],
            )),
    decreases xs.len(),
{
    if xs.len() > 1 {
        let init = xs.drop_last();
        lemma_widen_chain_stabilises(init);
        let ys = widen_chain(init);
        let last = D::spec_widen(ys.last(), xs.last());
        D::lemma_widen_progress(ys.last(), xs.last());
        let zs = widen_chain(xs);
        assert(zs == ys.push(last));
        let n = xs.len() - 1;
        assert forall|i: int, j: int| 0 <= i <= j < xs.len() implies D::rank(#[trigger] zs[j]) <= D::rank(
            #[trigger] zs[i],
        ) && (zs[j] != zs[i] ==> D::rank(zs[j]) < D::rank(zs[i])) by {
            if j == n {
                if i < n {
                    assert(zs[i] == ys[i]);
                    assert(D::rank(ys[n - 1]) <= D::rank(ys[i]));
                    if ys[n - 1] != ys[i] {
                        assert(D::rank(ys[n - 1]) < D::rank(ys[i]));
                    }
                }
            } else {
                assert(zs[i] == ys[i] && zs[j] == ys[j]);
            }
        }
        assert forall|i: int| 0 <= i < xs.len() implies (#[trigger] zs[i]).valid() by {
            if i < n {
                assert(zs[i] == ys[i]);
            }
        }
    }
}

} // verus!

verus! {

/// The widened sequence of an infinite sequence `x`: `y(0) = x(0)` and
/// `y(i + 1) = y(i) ∇ x(i + 1)`.
pub open spec fn widened<D: ValueDomain>(x: spec_fn(nat) -> D, i: nat) -> D
    decreases i,
{
    if i == 0 {
        x(0)
    } else {
        D::spec_widen(widened(x, (i - 1) as nat), x(i))
    }
}

proof fn lemma_widened_valid<D: ValueDomain>(x: spec_fn(nat) -> D, i: nat)
    requires
        forall|n: nat| (#[trigger] x(n)).valid(),
    ensures
        widened(x, i).valid(),
    decreases i,
{
    if i > 0 {
        lemma_widened_valid(x, (i - 1) as nat);
        D::lemma_widen_progress(widened(x, (i - 1) as nat), x(i));
    }
}

/// Along the widened sequence the rank never rises, and it falls wherever
/// the element has changed.
proof fn lemma_widened_rank<D: ValueDomain>(x: spec_fn(nat) -> D, s: nat, j: nat)
    requires
        forall|n: nat| (#[trigger] x(n)).valid(),
        s <= j,
    ensures
        D::rank(widened(x, j)) <= D::rank(widened(x, s)),
        widened(x, j) != widened(x, s) ==> D::rank(widened(x, j)) < D::rank(widened(x, s)),
    decreases j - s,
{
    if j > s {
        lemma_widened_rank(x, s, (j - 1) as nat);
        lemma_widened_valid(x, (j - 1) as nat);
        D::lemma_widen_progress(widened(x, (j - 1) as nat), x(j));
    }
}

/// From `m` on, the widened sequence of `x` no longer changes.
pub open spec fn settled_from<D: ValueDomain>(x: spec_fn(nat) -> D, m: nat) -> bool {
    forall|i: nat| i >= m ==> #[trigger] widened(x, i) == widened(x, m)
}

proof fn lemma_widened_settles_from<D: ValueDomain>(x: spec_fn(nat) -> D, s: nat, r: nat)
    requires
        forall|n: nat| (#[trigger] x(n)).valid(),
        D::rank(widened(x, s)) <= r,
    ensures
        exists|m: nat| m >= s && #[trigger] settled_from(x, m),
    decreases r,
{
    if settled_from(x, s) {
        assert(s >= s);
    } else {
        let j = choose|j: nat| j >= s && widened(x, j) != widened(x, s);
        lemma_widened_rank(x, s, j);
        lemma_widened_settles_from(x, j, (r - 1) as nat);
    }
}

/// Widening makes every sequence settle: there is an `m` after which the
/// widened sequence no longer changes.
pub proof fn lemma_widening_settles<D: ValueDomain>(x: spec_fn(nat) -> D)
    requires
        forall|n: nat| (#[trigger] x(n)).valid(),
    ensures
        exists|m: nat| #[trigger] settled_from(x, m),
{
    lemma_widened_settles_from(x, 0, D::rank(widened(x, 0)));
}

} // verus!
