use vstd::prelude::*;
use vstd::string::StringExecFns;
use crate::ast::{CompareOp, IntBinaryOp, IntUnaryOp, compare_holds};
use crate::domain::{ValueDomain, binary_value, divides, unary_value};

use crate::text::{int_text, push_int};

verus! {

/// An interval of integers with inclusive bounds; a missing lower bound is
/// minus infinity and a missing upper bound plus infinity.
#[derive(Clone, Copy, Debug, Eq)]
pub enum Interval {
    Bot,
    Range { lo: Option<i64>, hi: Option<i64> },
}

fn same_bound(a: Option<i64>, b: Option<i64>) -> (r: bool)
    ensures
        r == (a == b),
{
    match (a, b) {
        (Some(x), Some(y)) => x == y,
        (None, None) => true,
        _ => false,
    }
}

impl PartialEq for Interval {
    fn eq(&self, other: &Interval) -> (r: bool)
        ensures
            r == (*self == *other),
    {
        match (self, other) {
            (Interval::Bot, Interval::Bot) => true,
            (Interval::Range { lo: l1, hi: h1 }, Interval::Range { lo: l2, hi: h2 }) => same_bound(*l1, *l2)
                && same_bound(*h1, *h2),
            _ => false,
        }
    }
}

impl vstd::std_specs::cmp::PartialEqSpecImpl for Interval {
    open spec fn obeys_eq_spec() -> bool {
        true
    }

    open spec fn eq_spec(&self, other: &Interval) -> bool {
        *self == *other
    }
}

pub open spec fn above(lo: Option<i64>, n: int) -> bool {
    match lo {
        None => true,
        Some(l) => l <= n,
    }
}

pub open spec fn below(hi: Option<i64>, n: int) -> bool {
    match hi {
        None => true,
        Some(h) => n <= h,
    }
}

/// The lower of two lower bounds.
pub open spec fn min_lo(a: Option<i64>, b: Option<i64>) -> Option<i64> {
    match (a, b) {
        (Some(x), Some(y)) => Some(if x <= y { x } else { y }),
        _ => None,
    }
}

/// The higher of two upper bounds.
pub open spec fn max_hi(a: Option<i64>, b: Option<i64>) -> Option<i64> {
    match (a, b) {
        (Some(x), Some(y)) => Some(if x >= y { x } else { y }),
        _ => None,
    }
}

/// The higher of two lower bounds.
pub open spec fn max_lo(a: Option<i64>, b: Option<i64>) -> Option<i64> {
    match (a, b) {
        (Some(x), Some(y)) => Some(if x >= y { x } else { y }),
        (Some(x), None) => Some(x),
        (None, y) => y,
    }
}

/// The lower of two upper bounds.
pub open spec fn min_hi(a: Option<i64>, b: Option<i64>) -> Option<i64> {
    match (a, b) {
        (Some(x), Some(y)) => Some(if x <= y { x } else { y }),
        (Some(x), None) => Some(x),
        (None, y) => y,
    }
}

/// The interval of the given bounds; empty where they cross.
pub open spec fn make(lo: Option<i64>, hi: Option<i64>) -> Interval {
    match (lo, hi) {
        (Some(l), Some(h)) => if l <= h {
            Interval::Range { lo, hi }
        } else {
            Interval::Bot
        },
        _ => Interval::Range { lo, hi },
    }
}

pub open spec fn join_of(a: Interval, b: Interval) -> Interval {
    match (a, b) {
        (Interval::Bot, _) => b,
        (_, Interval::Bot) => a,
        (Interval::Range { lo: l1, hi: h1 }, Interval::Range { lo: l2, hi: h2 }) => Interval::Range {
            lo: min_lo(l1, l2),
            hi: max_hi(h1, h2),
        },
    }
}

pub open spec fn meet_of(a: Interval, b: Interval) -> Interval {
    match (a, b) {
        (Interval::Range { lo: l1, hi: h1 }, Interval::Range { lo: l2, hi: h2 }) => make(
            max_lo(l1, l2),
            min_hi(h1, h2),
        ),
        _ => Interval::Bot,
    }
}

/// Lower bound `x` lies strictly below lower bound `y`.
pub open spec fn lo_lt(x: Option<i64>, y: Option<i64>) -> bool {
    match (x, y) {
        (None, Some(_)) => true,
        (Some(a), Some(b)) => a < b,
        _ => false,
    }
}

/// Upper bound `x` lies strictly above upper bound `y`.
pub open spec fn hi_gt(x: Option<i64>, y: Option<i64>) -> bool {
    match (x, y) {
        (None, Some(_)) => true,
        (Some(a), Some(b)) => a > b,
        _ => false,
    }
}

/// Widening: a bound of `a` that `b` goes past is dropped to infinity.
pub open spec fn widen_of(a: Interval, b: Interval) -> Interval {
    match (a, b) {
        (Interval::Bot, _) => b,
        (_, Interval::Bot) => a,
        (Interval::Range { lo: l1, hi: h1 }, Interval::Range { lo: l2, hi: h2 }) => Interval::Range {
            lo: if lo_lt(l2, l1) {
                None
            } else {
                l1
            },
            hi: if hi_gt(h2, h1) {
                None
            } else {
                h1
            },
        },
    }
}

/// Narrowing: the infinite bounds of `a` take the bounds of `b`.
pub open spec fn narrow_of(a: Interval, b: Interval) -> Interval {
    match (a, b) {
        (Interval::Range { lo: l1, hi: h1 }, Interval::Range { lo: l2, hi: h2 }) => make(
            if l1 is None {
                l2
            } else {
                l1
            },
            if h1 is None {
                h2
            } else {
                h1
            },
        ),
        _ => Interval::Bot,
    }
}

/// Inclusion of intervals, read off the bounds.
pub open spec fn le_of(a: Interval, b: Interval) -> bool {
    match (a, b) {
        (Interval::Bot, _) => true,
        (_, Interval::Bot) => false,
        (Interval::Range { lo: l1, hi: h1 }, Interval::Range { lo: l2, hi: h2 }) => !lo_lt(l1, l2)
            && !hi_gt(h1, h2),
    }
}

/// How many widening steps can still change an interval.
pub open spec fn rank(a: Interval) -> nat {
    match a {
        Interval::Bot => 3,
        Interval::Range { lo, hi } => (if lo is Some {
            1nat
        } else {
            0nat
        }) + (if hi is Some {
            1nat
        } else {
            0nat
        }),
    }
}

/// The sum of two bounds of the same side; infinite where either is or
/// where the sum leaves `i64`.
pub open spec fn sum_bound(a: Option<i64>, b: Option<i64>) -> Option<i64> {
    match (a, b) {
        (Some(x), Some(y)) => if i64::MIN <= x + y <= i64::MAX {
            Some((x + y) as i64)
        } else {
            None
        },
        _ => None,
    }
}

/// The negation of a bound, as a bound of the other side.
pub open spec fn neg_of(a: Option<i64>) -> Option<i64> {
    match a {
        Some(x) => if x == i64::MIN {
            None
        } else {
            Some((-x) as i64)
        },
        None => None,
    }
}

/// One less than a finite bound, where that stays in `i64`.
pub open spec fn dec_bound(h: Option<i64>) -> Option<i64> {
    match h {
        Some(x) => Some(if x > i64::MIN { (x - 1) as i64 } else { x }),
        None => None,
    }
}

/// One more than a finite bound, where that stays in `i64`.
pub open spec fn inc_bound(l: Option<i64>) -> Option<i64> {
    match l {
        Some(x) => Some(if x < i64::MAX { (x + 1) as i64 } else { x }),
        None => None,
    }
}

/// The single value of an interval that has exactly one.
pub open spec fn single_of(a: Interval) -> Option<i64> {
    match a {
        Interval::Range { lo: Some(l), hi: Some(h) } => if l == h {
            Some(l)
        } else {
            None
        },
        _ => None,
    }
}

/// The interval less `c` where `c` is one of its ends.
pub open spec fn without_of(a: Interval, c: i64) -> Interval {
    match a {
        Interval::Bot => Interval::Bot,
        Interval::Range { lo, hi } => make(
            match lo {
                Some(l) => Some(if l == c && c < i64::MAX { (c + 1) as i64 } else { l }),
                None => None,
            },
            match hi {
                Some(h) => Some(if h == c && c > i64::MIN { (c - 1) as i64 } else { h }),
                None => None,
            },
        ),
    }
}

pub open spec fn unary_of(op: IntUnaryOp, a: Interval) -> Interval {
    match op {
        IntUnaryOp::AddUnary => a,
        IntUnaryOp::SubUnary => match a {
            Interval::Bot => Interval::Bot,
            Interval::Range { lo, hi } => Interval::Range { lo: neg_of(hi), hi: neg_of(lo) },
        },
    }
}

/// Sums and differences are computed on the bounds; products, quotients and
/// remainders of non-empty intervals may be any integer; a division by an
/// interval that holds only 0 has no result.
pub open spec fn binary_of(op: IntBinaryOp, a: Interval, b: Interval) -> Option<Interval> {
    if (op == IntBinaryOp::Div || op == IntBinaryOp::Mod) && b == (Interval::Range { lo: Some(0), hi: Some(0) }) {
        None
    } else {
        match (a, b) {
            (Interval::Range { lo: l1, hi: h1 }, Interval::Range { lo: l2, hi: h2 }) => Some(
                match op {
                    IntBinaryOp::Add => Interval::Range { lo: sum_bound(l1, l2), hi: sum_bound(h1, h2) },
                    IntBinaryOp::Sub => Interval::Range {
                        lo: sum_bound(l1, neg_of(h2)),
                        hi: sum_bound(h1, neg_of(l2)),
                    },
                    _ => Interval::Range { lo: None, hi: None },
                },
            ),
            _ => Some(Interval::Bot),
        }
    }
}

pub open spec fn range_of(lo: Interval, hi: Interval) -> Interval {
    match (lo, hi) {
        (Interval::Range { lo: l, .. }, Interval::Range { hi: h, .. }) => make(l, h),
        _ => Interval::Bot,
    }
}

pub open spec fn compare_of(op: CompareOp, a: Interval, b: Interval) -> (Interval, Interval) {
    match (a, b) {
        (Interval::Range { lo: l1, hi: h1 }, Interval::Range { lo: l2, hi: h2 }) => match op {
            CompareOp::EQ => (meet_of(a, b), meet_of(a, b)),
            CompareOp::NE => if single_of(a) is Some && single_of(a) == single_of(b) {
                (Interval::Bot, Interval::Bot)
            } else {
                (
                    match single_of(b) {
                        Some(c) => without_of(a, c),
                        None => a,
                    },
                    match single_of(a) {
                        Some(c) => without_of(b, c),
                        None => b,
                    },
                )
            },
            CompareOp::LE => if l1 is Some && h2 is Some && l1->0 > h2->0 {
                (Interval::Bot, Interval::Bot)
            } else {
                (meet_of(a, Interval::Range { lo: None, hi: h2 }), meet_of(b, Interval::Range { lo: l1, hi: None }))
            },
            CompareOp::GE => if l2 is Some && h1 is Some && l2->0 > h1->0 {
                (Interval::Bot, Interval::Bot)
            } else {
                (meet_of(a, Interval::Range { lo: l2, hi: None }), meet_of(b, Interval::Range { lo: None, hi: h1 }))
            },
            CompareOp::LT => if l1 is Some && h2 is Some && l1->0 >= h2->0 {
                (Interval::Bot, Interval::Bot)
            } else {
                (
                    meet_of(a, Interval::Range { lo: None, hi: dec_bound(h2) }),
                    meet_of(b, Interval::Range { lo: inc_bound(l1), hi: None }),
                )
            },
            CompareOp::GT => if l2 is Some && h1 is Some && l2->0 >= h1->0 {
                (Interval::Bot, Interval::Bot)
            } else {
                (
                    meet_of(a, Interval::Range { lo: inc_bound(l2), hi: None }),
                    meet_of(b, Interval::Range { lo: None, hi: dec_bound(h1) }),
                )
            },
        },
        _ => (Interval::Bot, Interval::Bot),
    }
}

/// Some value of a non-empty interval.
pub open spec fn elem(a: Interval) -> int {
    match a {
        Interval::Range { lo: Some(l), .. } => l as int,
        Interval::Range { lo: None, hi: Some(h) } => h as int,
        _ => 0,
    }
}

/// Where the lower end of `a` does not lie above the upper end of `b`, some
/// value of `a` is at most some value of `b`.
proof fn lemma_le_witness(a: Interval, b: Interval)
    requires
        a.wf(),
        b.wf(),
        a is Range,
        b is Range,
        !(a->lo is Some && b->hi is Some && a->lo->0 > b->hi->0),
    ensures
        exists|x: int, y: int| a.contains(x) && b.contains(y) && x <= y,
{
    let x = elem(a);
    assert(a.contains(x));
    match b->hi {
        Some(h) => {
            let xx: int = match (a->lo, a->hi) {
                (Some(l), _) => l as int,
                (None, Some(h1)) => if h1 <= h { h1 as int } else { h as int },
                (None, None) => h as int,
            };
            assert(a.contains(xx) && b.contains(h as int) && xx <= h);
        },
        None => {
            let y: int = match b->lo {
                Some(l) => if l >= x { l as int } else { x },
                None => x,
            };
            assert(a.contains(x) && b.contains(y) && x <= y);
        },
    }
}

/// Where the lower end of `a` lies below the upper end of `b`, some value of
/// `a` is below some value of `b`.
proof fn lemma_lt_witness(a: Interval, b: Interval)
    requires
        a.wf(),
        b.wf(),
        a is Range,
        b is Range,
        !(a->lo is Some && b->hi is Some && a->lo->0 >= b->hi->0),
    ensures
        exists|x: int, y: int| a.contains(x) && b.contains(y) && x < y,
{
    let x = elem(a);
    assert(a.contains(x));
    match b->hi {
        Some(h) => {
            let xx: int = match (a->lo, a->hi) {
                (Some(l), _) => l as int,
                (None, Some(h1)) => if h1 < h { h1 as int } else { h - 1 },
                (None, None) => h - 1,
            };
            assert(a.contains(xx) && b.contains(h as int) && xx < h);
        },
        None => {
            let y: int = match b->lo {
                Some(l) => if l > x { l as int } else { x + 1 },
                None => x + 1,
            };
            assert(a.contains(x) && b.contains(y) && x < y);
        },
    }
}

/// Unless both are the same single value, some value of `a` differs from
/// some value of `b`.
proof fn lemma_ne_witness(a: Interval, b: Interval)
    requires
        a.wf(),
        b.wf(),
        a is Range,
        b is Range,
        !(single_of(a) is Some && single_of(a) == single_of(b)),
    ensures
        exists|x: int, y: int| a.contains(x) && b.contains(y) && x != y,
{
    let x = elem(a);
    assert(a.contains(x));
    match (b->lo, b->hi) {
        (_, None) => {
            let y: int = match b->lo {
                Some(l) => if l > x { l as int } else { x + 1 },
                None => x + 1,
            };
            assert(b.contains(y) && x != y);
        },
        (None, Some(h)) => {
            let y: int = if (h as int) < x { h as int } else { x - 1 };
            assert(b.contains(y) && x != y);
        },
        (Some(l2), Some(h2)) => {
            if l2 as int != x {
                assert(b.contains(l2 as int));
            } else if h2 as int != x {
                assert(b.contains(h2 as int));
            } else {
                let y = x;
                assert(b.contains(y));
                match (a->lo, a->hi) {
                    (_, None) => {
                        assert(a.contains(x + 1));
                    },
                    (None, Some(h1)) => {
                        assert(a.contains(x - 1));
                    },
                    (Some(l1), Some(h1)) => {
                        if h1 as int != x {
                            assert(a.contains(h1 as int));
                        } else {
                            assert(l1 == h1);
                        }
                    },
                }
            }
        },
    }
}

fn lo_of_sum(a: Option<i64>, b: Option<i64>) -> (r: Option<i64>)
    ensures
        forall|x: int, y: int| above(a, x) && above(b, y) ==> above(r, x + y),
        r is Some <==> (a is Some && b is Some && i64::MIN <= a->0 + b->0 <= i64::MAX),
        r is Some ==> r->0 == a->0 + b->0,
        r == sum_bound(a, b),
{
    match (a, b) {
        (Some(x), Some(y)) => {
            let s = x as i128 + y as i128;
            if i64::MIN as i128 <= s && s <= i64::MAX as i128 {
                Some(s as i64)
            } else {
                None
            }
        },
        _ => None,
    }
}

fn hi_of_sum(a: Option<i64>, b: Option<i64>) -> (r: Option<i64>)
    ensures
        forall|x: int, y: int| below(a, x) && below(b, y) ==> below(r, x + y),
        r is Some <==> (a is Some && b is Some && i64::MIN <= a->0 + b->0 <= i64::MAX),
        r is Some ==> r->0 == a->0 + b->0,
        r == sum_bound(a, b),
{
    match (a, b) {
        (Some(x), Some(y)) => {
            let s = x as i128 + y as i128;
            if i64::MIN as i128 <= s && s <= i64::MAX as i128 {
                Some(s as i64)
            } else {
                None
            }
        },
        _ => None,
    }
}

/// The negation of an upper bound, as a lower bound.
fn neg_bound(a: Option<i64>) -> (r: Option<i64>)
    ensures
        r is Some <==> (a is Some && a->0 != i64::MIN),
        r is Some ==> r->0 == -a->0,
        r == neg_of(a),
{
    match a {
        Some(x) => if x == i64::MIN {
            None
        } else {
            Some(-x)
        },
        None => None,
    }
}

impl Interval {
    pub open spec fn wf(&self) -> bool {
        match self {
            Interval::Bot => true,
            Interval::Range { lo, hi } => match (*lo, *hi) {
                (Some(l), Some(h)) => l <= h,
                _ => true,
            },
        }
    }

    pub open spec fn has(&self, n: int) -> bool {
        match self {
            Interval::Bot => false,
            Interval::Range { lo, hi } => above(*lo, n) && below(*hi, n),
        }
    }

    fn from_bounds(lo: Option<i64>, hi: Option<i64>) -> (r: Interval)
        ensures
            r == make(lo, hi),
    {
        match (lo, hi) {
            (Some(l), Some(h)) => if l <= h {
                Interval::Range { lo, hi }
            } else {
                Interval::Bot
            },
            _ => Interval::Range { lo, hi },
        }
    }

    pub fn join_itv(&self, other: &Interval) -> (r: Interval)
        ensures
            r == join_of(*self, *other),
    {
        match (self, other) {
            (Interval::Bot, _) => *other,
            (_, Interval::Bot) => *self,
            (Interval::Range { lo: l1, hi: h1 }, Interval::Range { lo: l2, hi: h2 }) => {
                let lo = match (l1, l2) {
                    (Some(x), Some(y)) => Some(if *x <= *y { *x } else { *y }),
                    _ => None,
                };
                let hi = match (h1, h2) {
                    (Some(x), Some(y)) => Some(if *x >= *y { *x } else { *y }),
                    _ => None,
                };
                Interval::Range { lo, hi }
            },
        }
    }

    pub fn meet_itv(&self, other: &Interval) -> (r: Interval)
        ensures
            r == meet_of(*self, *other),
    {
        match (self, other) {
            (Interval::Range { lo: l1, hi: h1 }, Interval::Range { lo: l2, hi: h2 }) => {
                let lo = match (l1, l2) {
                    (Some(x), Some(y)) => Some(if *x >= *y { *x } else { *y }),
                    (Some(x), None) => Some(*x),
                    (None, y) => *y,
                };
                let hi = match (h1, h2) {
                    (Some(x), Some(y)) => Some(if *x <= *y { *x } else { *y }),
                    (Some(x), None) => Some(*x),
                    (None, y) => *y,
                };
                Interval::from_bounds(lo, hi)
            },
            _ => Interval::Bot,
        }
    }

    pub fn widen_itv(&self, other: &Interval) -> (r: Interval)
        ensures
            r == widen_of(*self, *other),
    {
        match (self, other) {
            (Interval::Bot, _) => *other,
            (_, Interval::Bot) => *self,
            (Interval::Range { lo: l1, hi: h1 }, Interval::Range { lo: l2, hi: h2 }) => {
                let drop_lo = match (l2, l1) {
                    (None, Some(_)) => true,
                    (Some(a), Some(b)) => *a < *b,
                    _ => false,
                };
                let drop_hi = match (h2, h1) {
                    (None, Some(_)) => true,
                    (Some(a), Some(b)) => *a > *b,
                    _ => false,
                };
                Interval::Range {
                    lo: if drop_lo {
                        None
                    } else {
                        *l1
                    },
                    hi: if drop_hi {
                        None
                    } else {
                        *h1
                    },
                }
            },
        }
    }

    pub fn narrow_itv(&self, other: &Interval) -> (r: Interval)
        ensures
            r == narrow_of(*self, *other),
    {
        match (self, other) {
            (Interval::Range { lo: l1, hi: h1 }, Interval::Range { lo: l2, hi: h2 }) => {
                let lo = if l1.is_none() {
                    *l2
                } else {
                    *l1
                };
                let hi = if h1.is_none() {
                    *h2
                } else {
                    *h1
                };
                Interval::from_bounds(lo, hi)
            },
            _ => Interval::Bot,
        }
    }

    pub fn le_itv(&self, other: &Interval) -> (r: bool)
        ensures
            r == le_of(*self, *other),
    {
        match (self, other) {
            (Interval::Bot, _) => true,
            (_, Interval::Bot) => false,
            (Interval::Range { lo: l1, hi: h1 }, Interval::Range { lo: l2, hi: h2 }) => {
                let lo_below = match (l1, l2) {
                    (None, Some(_)) => true,
                    (Some(a), Some(b)) => *a < *b,
                    _ => false,
                };
                let hi_above = match (h1, h2) {
                    (None, Some(_)) => true,
                    (Some(a), Some(b)) => *a > *b,
                    _ => false,
                };
                !lo_below && !hi_above
            },
        }
    }

    /// The interval less the value `c` where `c` is one of its ends.
    fn without(&self, c: i64) -> (r: Interval)
        requires
            self.wf(),
        ensures
            r.wf(),
            forall|n: int| r.contains(n) ==> self.contains(n),
            forall|n: int| self.contains(n) && n != c ==> r.contains(n),
            r == without_of(*self, c),
    {
        match self {
            Interval::Bot => Interval::Bot,
            Interval::Range { lo, hi } => {
                let lo2 = match lo {
                    Some(l) => if *l == c && c < i64::MAX {
                        Some(c + 1)
                    } else {
                        Some(*l)
                    },
                    None => None,
                };
                let hi2 = match hi {
                    Some(h) => if *h == c && c > i64::MIN {
                        Some(c - 1)
                    } else {
                        Some(*h)
                    },
                    None => None,
                };
                proof {
                    lemma_make(lo2, hi2);
                }
                Interval::from_bounds(lo2, hi2)
            },
        }
    }

    /// The single value of the interval, if it has exactly one.
    fn single(&self) -> (r: Option<i64>)
        ensures
            r matches Some(c) ==> forall|n: int| self.contains(n) <==> n == c,
            r == single_of(*self),
    {
        match self {
            Interval::Range { lo: Some(l), hi: Some(h) } => if *l == *h {
                Some(*l)
            } else {
                None
            },
            _ => None,
        }
    }

    /// The integers at most `hi`.
    fn at_most(hi: Option<i64>) -> (r: Interval)
        ensures
            r.wf(),
            forall|n: int| r.contains(n) <==> below(hi, n),
            r == (Interval::Range { lo: None, hi }),
    {
        Interval::Range { lo: None, hi }
    }

    /// The integers at least `lo`.
    fn at_least(lo: Option<i64>) -> (r: Interval)
        ensures
            r.wf(),
            forall|n: int| r.contains(n) <==> above(lo, n),
            r == (Interval::Range { lo, hi: None }),
    {
        Interval::Range { lo, hi: None }
    }
}

proof fn lemma_make(lo: Option<i64>, hi: Option<i64>)
    ensures
        make(lo, hi).wf(),
        forall|n: int| make(lo, hi).contains(n) <==> above(lo, n) && below(hi, n),
{
}

proof fn lemma_le_has(a: Interval, b: Interval)
    requires
        a.wf(),
        b.wf(),
    ensures
        le_of(a, b) == forall|n: int| a.contains(n) ==> b.contains(n),
{
    if !le_of(a, b) {
        match (a, b) {
            (Interval::Range { lo: l1, hi: h1 }, Interval::Bot) => {
                let w: int = match (l1, h1) {
                    (Some(l), _) => l as int,
                    (None, Some(h)) => h as int,
                    (None, None) => 0,
                };
                assert(a.contains(w));
            },
            (Interval::Range { lo: l1, hi: h1 }, Interval::Range { lo: l2, hi: h2 }) => {
                if lo_lt(l1, l2) {
                    let w: int = match l1 {
                        Some(l) => l as int,
                        None => match (l2, h1) {
                            (Some(y), Some(h)) => if h < y {
                                h as int
                            } else {
                                y - 1
                            },
                            (Some(y), None) => y - 1,
                            _ => 0,
                        },
                    };
                    assert(a.contains(w) && !b.contains(w));
                } else {
                    let w: int = match h1 {
                        Some(h) => h as int,
                        None => match (h2, l1) {
                            (Some(y), Some(l)) => if l > y {
                                l as int
                            } else {
                                y + 1
                            },
                            (Some(y), None) => y + 1,
                            _ => 0,
                        },
                    };
                    assert(a.contains(w) && !b.contains(w));
                }
            },
            _ => {},
        }
    }
}

impl ValueDomain for Interval {
    open spec fn valid(&self) -> bool {
        self.wf()
    }

    open spec fn contains(&self, n: int) -> bool {
        self.has(n)
    }

    open spec fn spec_bottom() -> Interval {
        Interval::Bot
    }

    open spec fn spec_join(a: Interval, b: Interval) -> Interval {
        join_of(a, b)
    }

    open spec fn spec_meet(a: Interval, b: Interval) -> Interval {
        meet_of(a, b)
    }

    open spec fn spec_widen(a: Interval, b: Interval) -> Interval {
        widen_of(a, b)
    }

    open spec fn spec_le(a: Interval, b: Interval) -> bool {
        le_of(a, b)
    }

    open spec fn rank(a: Interval) -> nat {
        rank(a)
    }

    open spec fn spec_top() -> Interval {
        Interval::Range { lo: None, hi: None }
    }

    open spec fn spec_constant(c: i64) -> Interval {
        Interval::Range { lo: Some(c), hi: Some(c) }
    }

    open spec fn spec_range(lo: Interval, hi: Interval) -> Interval {
        range_of(lo, hi)
    }

    open spec fn spec_unary(op: IntUnaryOp, a: Interval) -> Interval {
        unary_of(op, a)
    }

    open spec fn spec_binary(op: IntBinaryOp, a: Interval, b: Interval) -> Option<Interval> {
        binary_of(op, a, b)
    }

    open spec fn spec_compare(op: CompareOp, a: Interval, b: Interval) -> (Interval, Interval) {
        compare_of(op, a, b)
    }

    open spec fn spec_text(a: Interval) -> Seq<char> {
        match a {
            Interval::Bot => "bottom"@,
            Interval::Range { lo, hi } => "["@ + match lo {
                Some(l) => int_text(l as int),
                None => "-inf"@,
            } + ", "@ + match hi {
                Some(h) => int_text(h as int),
                None => "+inf"@,
            } + "]"@,
        }
    }

    proof fn lemma_eq_is_equality() {
    }

    proof fn lemma_le_contains(a: Interval, b: Interval) {
        lemma_le_has(a, b);
    }

    proof fn lemma_le_reflexive(a: Interval) {
    }

    proof fn lemma_idempotent(a: Interval) {
    }

    proof fn lemma_commutative(a: Interval, b: Interval) {
    }

    proof fn lemma_absorption(a: Interval, b: Interval) {
        lemma_make(max_lo(a->lo, b->lo), min_hi(a->hi, b->hi));
    }

    proof fn lemma_bottom_laws(a: Interval) {
    }

    proof fn lemma_join_monotone(a: Interval, a2: Interval, b: Interval, b2: Interval) {
    }

    proof fn lemma_widen_progress(a: Interval, b: Interval) {
    }

    fn bottom() -> (r: Interval) {
        Interval::Bot
    }

    fn top() -> (r: Interval) {
        Interval::Range { lo: None, hi: None }
    }

    fn is_bottom(&self) -> (r: bool) {
        match self {
            Interval::Bot => {
                true
            },
            Interval::Range { lo, hi } => {
                let w: Ghost<int> = Ghost(
                    match (lo, hi) {
                        (Some(l), _) => *l as int,
                        (None, Some(h)) => *h as int,
                        (None, None) => 0,
                    },
                );
                proof {
                    if self.wf() {
                        assert(self.contains(w@));
                    }
                }
                false
            },
        }
    }

    fn subset(&self, other: &Interval) -> (r: bool) {
        proof {
            if self.wf() && other.wf() {
                lemma_le_has(*self, *other);
            }
        }
        self.le_itv(other)
    }

    fn join(&self, other: &Interval) -> (r: Interval) {
        let r = self.join_itv(other);
        proof {
            if let (Interval::Range { lo: l1, hi: h1 }, Interval::Range { lo: l2, hi: h2 }) = (*self, *other) {
                assert forall|n: int| self.contains(n) || other.contains(n) implies r.contains(n) by {}
            }
        }
        r
    }

    fn meet(&self, other: &Interval) -> (r: Interval) {
        let r = self.meet_itv(other);
        proof {
            if let (Interval::Range { lo: l1, hi: h1 }, Interval::Range { lo: l2, hi: h2 }) = (*self, *other) {
                lemma_make(max_lo(l1, l2), min_hi(h1, h2));
            }
        }
        r
    }

    fn widen(&self, other: &Interval) -> (r: Interval) {
        self.widen_itv(other)
    }

    fn narrow(&self, other: &Interval) -> (r: Interval) {
        let r = self.narrow_itv(other);
        proof {
            if let (Interval::Range { lo: l1, hi: h1 }, Interval::Range { lo: l2, hi: h2 }) = (*self, *other) {
                lemma_make(if l1 is None { l2 } else { l1 }, if h1 is None { h2 } else { h1 });
            }
        }
        r
    }

    fn constant(c: i64) -> (r: Interval) {
        Interval::Range { lo: Some(c), hi: Some(c) }
    }

    fn range(lo: &Interval, hi: &Interval) -> (r: Interval) {
        match (lo, hi) {
            (Interval::Range { lo: l, .. }, Interval::Range { hi: h, .. }) => {
                let r = Interval::from_bounds(*l, *h);
                proof {
                    lemma_make(*l, *h);
                }
                r
            },
            _ => Interval::Bot,
        }
    }

    fn unary(op: IntUnaryOp, a: &Interval) -> (r: Interval) {
        match op {
            IntUnaryOp::AddUnary => *a,
            IntUnaryOp::SubUnary => match a {
                Interval::Bot => Interval::Bot,
                Interval::Range { lo, hi } => Interval::Range { lo: neg_bound(*hi), hi: neg_bound(*lo) },
            },
        }
    }

    fn binary(op: IntBinaryOp, a: &Interval, b: &Interval) -> (r: Option<Interval>) {
        let zero_only = match b {
            Interval::Range { lo: Some(l), hi: Some(h) } => *l == 0 && *h == 0,
            _ => false,
        };
        proof {
            if let Interval::Range { lo, hi } = *b {
                if !zero_only && b.contains(0) {
                    let w: int = match (lo, hi) {
                        (Some(l), _) => if l != 0 { l as int } else { match hi { Some(h) => h as int, None => 1 } },
                        (None, _) => -1,
                    };
                    assert(b.contains(w) && w != 0);
                }
            }
        }
        assert(divides(op) == (op == IntBinaryOp::Div || op == IntBinaryOp::Mod));
        match op {
            IntBinaryOp::Add => match (a, b) {
                (Interval::Range { lo: l1, hi: h1 }, Interval::Range { lo: l2, hi: h2 }) => {
                    Some(Interval::Range { lo: lo_of_sum(*l1, *l2), hi: hi_of_sum(*h1, *h2) })
                },
                _ => Some(Interval::Bot),
            },
            IntBinaryOp::Sub => match (a, b) {
                (Interval::Range { lo: l1, hi: h1 }, Interval::Range { lo: l2, hi: h2 }) => {
                    let nl = neg_bound(*h2);
                    let nh = neg_bound(*l2);
                    let lo = lo_of_sum(*l1, nl);
                    let hi = hi_of_sum(*h1, nh);
                    proof {
                        assert forall|x: int, y: int| a.contains(x) && b.contains(y) implies above(lo, x - y) && below(hi, x - y) by {
                            assert(above(nl, -y) && below(nh, -y));
                        }
                    }
                    Some(Interval::Range { lo, hi })
                },
                _ => Some(Interval::Bot),
            },
            IntBinaryOp::Mul => match (a, b) {
                (Interval::Range { .. }, Interval::Range { .. }) => Some(Interval::Range { lo: None, hi: None }),
                _ => Some(Interval::Bot),
            },
            IntBinaryOp::Div | IntBinaryOp::Mod => {
                if zero_only {
                    None
                } else {
                    match (a, b) {
                        (Interval::Range { .. }, Interval::Range { .. }) => Some(Interval::Range { lo: None, hi: None }),
                        _ => Some(Interval::Bot),
                    }
                }
            },
        }
    }

    fn compare(op: CompareOp, a: &Interval, b: &Interval) -> (r: (Interval, Interval)) {
        match (a, b) {
            (Interval::Range { lo: l1, hi: h1 }, Interval::Range { lo: l2, hi: h2 }) => {
                match op {
                    CompareOp::EQ => {
                        let m = a.meet(b);
                        (m, m)
                    },
                    CompareOp::NE => {
                        let same_point = match (l1, h1, l2, h2) {
                            (Some(x1), Some(y1), Some(x2), Some(y2)) => *x1 == *y1 && *x2 == *y2 && *x1 == *x2,
                            _ => false,
                        };
                        if same_point {
                            (Interval::Bot, Interval::Bot)
                        } else {
                            proof {
                                lemma_ne_witness(*a, *b);
                            }
                            let na = match b.single() {
                                Some(c) => a.without(c),
                                None => *a,
                            };
                            let nb = match a.single() {
                                Some(c) => b.without(c),
                                None => *b,
                            };
                            (na, nb)
                        }
                    },
                    CompareOp::LE => {
                        if l1.is_some() && h2.is_some() && l1.unwrap() > h2.unwrap() {
                            return (Interval::Bot, Interval::Bot);
                        }
                        proof {
                            lemma_le_witness(*a, *b);
                        }
                        (a.meet(&Interval::at_most(*h2)), b.meet(&Interval::at_least(*l1)))
                    },
                    CompareOp::GE => {
                        if l2.is_some() && h1.is_some() && l2.unwrap() > h1.unwrap() {
                            return (Interval::Bot, Interval::Bot);
                        }
                        proof {
                            lemma_le_witness(*b, *a);
                            let (p, q) = choose|p: int, q: int| b.contains(p) && a.contains(q) && p <= q;
                            assert(a.contains(q) && b.contains(p) && compare_holds(op, q, p));
                        }
                        (a.meet(&Interval::at_least(*l2)), b.meet(&Interval::at_most(*h1)))
                    },
                    CompareOp::LT => {
                        if l1.is_some() && h2.is_some() && l1.unwrap() >= h2.unwrap() {
                            return (Interval::Bot, Interval::Bot);
                        }
                        proof {
                            lemma_lt_witness(*a, *b);
                        }
                        let ub = match h2 {
                            Some(h) => Some(if *h > i64::MIN { *h - 1 } else { *h }),
                            None => None,
                        };
                        let lb = match l1 {
                            Some(l) => Some(if *l < i64::MAX { *l + 1 } else { *l }),
                            None => None,
                        };
                        (a.meet(&Interval::at_most(ub)), b.meet(&Interval::at_least(lb)))
                    },
                    CompareOp::GT => {
                        if l2.is_some() && h1.is_some() && l2.unwrap() >= h1.unwrap() {
                            return (Interval::Bot, Interval::Bot);
                        }
                        proof {
                            lemma_lt_witness(*b, *a);
                            let (p, q) = choose|p: int, q: int| b.contains(p) && a.contains(q) && p < q;
                            assert(a.contains(q) && b.contains(p) && compare_holds(op, q, p));
                        }
                        let lb = match l2 {
                            Some(l) => Some(if *l < i64::MAX { *l + 1 } else { *l }),
                            None => None,
                        };
                        let ub = match h1 {
                            Some(h) => Some(if *h > i64::MIN { *h - 1 } else { *h }),
                            None => None,
                        };
                        (a.meet(&Interval::at_least(lb)), b.meet(&Interval::at_most(ub)))
                    },
                }
            },
            _ => (Interval::Bot, Interval::Bot),
        }
    }

    fn to_text(&self) -> (r: String) {
        proof {
            reveal_strlit("bottom");
            reveal_strlit("[");
            reveal_strlit("-inf");
            reveal_strlit(", ");
            reveal_strlit("+inf");
            reveal_strlit("]");
        }
        match self {
            Interval::Bot => "bottom".to_owned(),
            Interval::Range { lo, hi } => {
                let mut s = "[".to_owned();
                match lo {
                    Some(l) => push_int(*l, &mut s),
                    None => s.append("-inf"),
                }
                s.append(", ");
                match hi {
                    Some(h) => push_int(*h, &mut s),
                    None => s.append("+inf"),
                }
                s.append("]");
                proof {
                    assert(s@ =~= Self::spec_text(*self));
                }
                s
            },
        }
    }
}

} // verus!
