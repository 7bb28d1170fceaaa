use vstd::prelude::*;
use crate::ast::{CompareOp, IntBinaryOp, IntUnaryOp, compare_holds};
use crate::domain::{ValueDomain, binary_value, divides, left_partner, right_partner, unary_value};
use vstd::string::StringExecFns;

use crate::text::{int_text, push_int};

verus! {

/// Exact finite sets of integers, kept while they hold at most two values;
/// a larger set is widened to all integers.
#[derive(Clone, Copy, Debug, Eq)]
pub enum Concrete {
    Bot,
    One(i64),
    /// Two values, the smaller first.
    Two(i64, i64),
    Top,
}

impl PartialEq for Concrete {
    fn eq(&self, other: &Concrete) -> (r: bool)
        ensures
            r == (*self == *other),
    {
        match (self, other) {
            (Concrete::Bot, Concrete::Bot) => true,
            (Concrete::Top, Concrete::Top) => true,
            (Concrete::One(a), Concrete::One(b)) => *a == *b,
            (Concrete::Two(a, b), Concrete::Two(c, d)) => *a == *c && *b == *d,
            _ => false,
        }
    }
}

impl vstd::std_specs::cmp::PartialEqSpecImpl for Concrete {
    open spec fn obeys_eq_spec() -> bool {
        true
    }

    open spec fn eq_spec(&self, other: &Concrete) -> bool {
        *self == *other
    }
}

/// The set of the values `a` and `b`.
pub open spec fn pair(a: i64, b: i64) -> Concrete {
    if a == b {
        Concrete::One(a)
    } else if a < b {
        Concrete::Two(a, b)
    } else {
        Concrete::Two(b, a)
    }
}

pub open spec fn set_join(a: Concrete, b: Concrete) -> Concrete {
    match (a, b) {
        (Concrete::Bot, _) => b,
        (_, Concrete::Bot) => a,
        (Concrete::Top, _) => Concrete::Top,
        (_, Concrete::Top) => Concrete::Top,
        (Concrete::One(x), Concrete::One(y)) => pair(x, y),
        (Concrete::One(x), Concrete::Two(y, z)) => if x == y || x == z {
            b
        } else {
            Concrete::Top
        },
        (Concrete::Two(x, y), Concrete::One(z)) => if z == x || z == y {
            a
        } else {
            Concrete::Top
        },
        (Concrete::Two(x, y), Concrete::Two(z, w)) => if x == z && y == w {
            a
        } else {
            Concrete::Top
        },
    }
}

pub open spec fn set_meet(a: Concrete, b: Concrete) -> Concrete {
    match (a, b) {
        (Concrete::Top, _) => b,
        (_, Concrete::Top) => a,
        (Concrete::Bot, _) => Concrete::Bot,
        (_, Concrete::Bot) => Concrete::Bot,
        (Concrete::One(x), Concrete::One(y)) => if x == y {
            a
        } else {
            Concrete::Bot
        },
        (Concrete::One(x), Concrete::Two(y, z)) => if x == y || x == z {
            a
        } else {
            Concrete::Bot
        },
        (Concrete::Two(x, y), Concrete::One(z)) => if z == x || z == y {
            b
        } else {
            Concrete::Bot
        },
        (Concrete::Two(x, y), Concrete::Two(z, w)) => if x == z && y == w {
            a
        } else if x == z || x == w {
            Concrete::One(x)
        } else if y == z || y == w {
            Concrete::One(y)
        } else {
            Concrete::Bot
        },
    }
}

pub open spec fn set_le(a: Concrete, b: Concrete) -> bool {
    match (a, b) {
        (Concrete::Bot, _) => true,
        (_, Concrete::Top) => true,
        (Concrete::One(x), Concrete::One(y)) => x == y,
        (Concrete::One(x), Concrete::Two(y, z)) => x == y || x == z,
        (Concrete::Two(x, y), Concrete::Two(z, w)) => x == z && y == w,
        _ => false,
    }
}

pub open spec fn set_rank(a: Concrete) -> nat {
    match a {
        Concrete::Bot => 3,
        Concrete::One(_) => 2,
        Concrete::Two(_, _) => 1,
        Concrete::Top => 0,
    }
}

fn make_pair(a: i64, b: i64) -> (r: Concrete)
    ensures
        r == pair(a, b),
{
    if a == b {
        Concrete::One(a)
    } else if a < b {
        Concrete::Two(a, b)
    } else {
        Concrete::Two(b, a)
    }
}

/// The value of a binary operator on two integers, where it is defined, is
/// not a division, and fits in an `i64`.
fn apply_binary(op: IntBinaryOp, x: i64, y: i64) -> (r: Option<i64>)
    ensures
        r matches Some(v) ==> binary_value(op, x as int, y as int) == Some(v as int),
        r == crate::constant::fold_of(op, x, y),
{
    let wide = match op {
        IntBinaryOp::Add => x as i128 + y as i128,
        IntBinaryOp::Sub => x as i128 - y as i128,
        IntBinaryOp::Mul => {
            assert(-0x4000_0000_0000_0000_0000_0000_0000_0000 <= (x as int) * (y as int)
                <= 0x4000_0000_0000_0000_0000_0000_0000_0000) by (nonlinear_arith)
                requires
                    i64::MIN <= x <= i64::MAX,
                    i64::MIN <= y <= i64::MAX,
            ;
            x as i128 * y as i128
        },
        _ => {
            return None;
        },
    };
    if i64::MIN as i128 <= wide && wide <= i64::MAX as i128 {
        Some(wide as i64)
    } else {
        None
    }
}

/// The smallest and the largest value of a finite set; both the same for a
/// single value.
pub open spec fn ends(a: Concrete) -> (i64, i64) {
    match a {
        Concrete::One(x) => (x, x),
        Concrete::Two(x, y) => (x, y),
        _ => (0, 0),
    }
}

fn bounds_of(a: &Concrete) -> (r: (i64, i64))
    ensures
        r == ends(*a),
{
    match a {
        Concrete::One(x) => (*x, *x),
        Concrete::Two(x, y) => (*x, *y),
        _ => (0, 0),
    }
}

/// Whether `x op y` holds.
pub fn holds_exec(op: CompareOp, x: i64, y: i64) -> (r: bool)
    ensures
        r == compare_holds(op, x as int, y as int),
{
    match op {
        CompareOp::NE => x != y,
        CompareOp::EQ => x == y,
        CompareOp::LT => x < y,
        CompareOp::LE => x <= y,
        CompareOp::GT => x > y,
        CompareOp::GE => x >= y,
    }
}

/// Some value of the finite set `a` and some of `b` satisfy `op`.
pub open spec fn pair_holds(op: CompareOp, a: Concrete, b: Concrete) -> bool {
    let (x1, x2) = ends(a);
    let (y1, y2) = ends(b);
    compare_holds(op, x1 as int, y1 as int) || compare_holds(op, x1 as int, y2 as int) || compare_holds(
        op,
        x2 as int,
        y1 as int,
    ) || compare_holds(op, x2 as int, y2 as int)
}

impl ValueDomain for Concrete {
    open spec fn valid(&self) -> bool {
        match self {
            Concrete::Two(a, b) => *a < *b,
            _ => true,
        }
    }

    open spec fn contains(&self, n: int) -> bool {
        match self {
            Concrete::Bot => false,
            Concrete::One(a) => n == *a as int,
            Concrete::Two(a, b) => n == *a as int || n == *b as int,
            Concrete::Top => true,
        }
    }

    open spec fn spec_bottom() -> Concrete {
        Concrete::Bot
    }

    open spec fn spec_join(a: Concrete, b: Concrete) -> Concrete {
        set_join(a, b)
    }

    open spec fn spec_meet(a: Concrete, b: Concrete) -> Concrete {
        set_meet(a, b)
    }

    /// The lattice has finite height: widening is the join.
    open spec fn spec_widen(a: Concrete, b: Concrete) -> Concrete {
        set_join(a, b)
    }

    open spec fn spec_le(a: Concrete, b: Concrete) -> bool {
        set_le(a, b)
    }

    open spec fn rank(a: Concrete) -> nat {
        set_rank(a)
    }

    open spec fn spec_top() -> Concrete {
        Concrete::Top
    }

    open spec fn spec_constant(c: i64) -> Concrete {
        Concrete::One(c)
    }

    open spec fn spec_range(lo: Concrete, hi: Concrete) -> Concrete {
        match (lo, hi) {
            (Concrete::Bot, _) => Concrete::Bot,
            (_, Concrete::Bot) => Concrete::Bot,
            (Concrete::One(x), Concrete::One(y)) => if x == y {
                Concrete::One(x)
            } else if x > y {
                Concrete::Bot
            } else if x < i64::MAX && x + 1 == y {
                Concrete::Two(x, y)
            } else {
                Concrete::Top
            },
            _ => Concrete::Top,
        }
    }

    open spec fn spec_unary(op: IntUnaryOp, a: Concrete) -> Concrete {
        match (op, a) {
            (IntUnaryOp::SubUnary, Concrete::One(x)) => if x == i64::MIN {
                Concrete::Top
            } else {
                Concrete::One((-x) as i64)
            },
            (IntUnaryOp::SubUnary, Concrete::Two(x, y)) => if x == i64::MIN {
                Concrete::Top
            } else {
                Concrete::Two((-y) as i64, (-x) as i64)
            },
            _ => a,
        }
    }

    open spec fn spec_binary(op: IntBinaryOp, a: Concrete, b: Concrete) -> Option<Concrete> {
        if (op == IntBinaryOp::Div || op == IntBinaryOp::Mod) && b == Concrete::One(0) {
            None
        } else {
            Some(
                match (a, b) {
                    (Concrete::Bot, _) => Concrete::Bot,
                    (_, Concrete::Bot) => Concrete::Bot,
                    (Concrete::One(x), Concrete::One(y)) => match crate::constant::fold_of(op, x, y) {
                        Some(v) => Concrete::One(v),
                        None => Concrete::Top,
                    },
                    _ => Concrete::Top,
                },
            )
        }
    }

    open spec fn spec_compare(op: CompareOp, a: Concrete, b: Concrete) -> (Concrete, Concrete) {
        match (a, b) {
            (Concrete::Bot, _) => (Concrete::Bot, Concrete::Bot),
            (_, Concrete::Bot) => (Concrete::Bot, Concrete::Bot),
            _ => if op == CompareOp::EQ {
                (set_meet(a, b), set_meet(a, b))
            } else if a is Top || b is Top || pair_holds(op, a, b) {
                (a, b)
            } else {
                (Concrete::Bot, Concrete::Bot)
            },
        }
    }

    open spec fn spec_text(a: Concrete) -> Seq<char> {
        match a {
            Concrete::Bot => "{}"@,
            Concrete::One(c) => "{"@ + int_text(c as int) + "}"@,
            Concrete::Two(x, y) => "{"@ + int_text(x as int) + ", "@ + int_text(y as int) + "}"@,
            Concrete::Top => "top"@,
        }
    }

    proof fn lemma_eq_is_equality() {
    }

    proof fn lemma_le_contains(a: Concrete, b: Concrete) {
    }

    proof fn lemma_le_reflexive(a: Concrete) {
    }

    proof fn lemma_idempotent(a: Concrete) {
    }

    proof fn lemma_commutative(a: Concrete, b: Concrete) {
    }

    proof fn lemma_absorption(a: Concrete, b: Concrete) {
    }

    proof fn lemma_bottom_laws(a: Concrete) {
    }

    proof fn lemma_join_monotone(a: Concrete, a2: Concrete, b: Concrete, b2: Concrete) {
    }

    proof fn lemma_widen_progress(a: Concrete, b: Concrete) {
    }

    fn bottom() -> (r: Concrete) {
        Concrete::Bot
    }

    fn top() -> (r: Concrete) {
        Concrete::Top
    }

    fn is_bottom(&self) -> (r: bool) {
        match self {
            Concrete::Bot => true,
            Concrete::One(a) => {
                assert(self.contains(*a as int));
                false
            },
            Concrete::Two(a, _) => {
                assert(self.contains(*a as int));
                false
            },
            Concrete::Top => {
                assert(self.contains(0));
                false
            },
        }
    }

    fn subset(&self, other: &Concrete) -> (r: bool) {
        let r = match (self, other) {
            (Concrete::Bot, _) => true,
            (_, Concrete::Top) => true,
            (Concrete::One(x), Concrete::One(y)) => *x == *y,
            (Concrete::One(x), Concrete::Two(y, z)) => *x == *y || *x == *z,
            (Concrete::Two(x, y), Concrete::Two(z, w)) => *x == *z && *y == *w,
            _ => false,
        };
        proof {
            if self.valid() && other.valid() && !r {
                match (*self, *other) {
                    (Concrete::One(x), _) => assert(self.contains(x as int) && !other.contains(x as int)),
                    (Concrete::Two(x, y), _) => {
                        if other.contains(x as int) {
                            assert(self.contains(y as int) && !other.contains(y as int));
                        } else {
                            assert(self.contains(x as int));
                        }
                    },
                    (Concrete::Top, Concrete::One(y)) => assert(self.contains(y as int + 1)),
                    (Concrete::Top, Concrete::Two(y, z)) => assert(self.contains(z as int + 1)),
                    (Concrete::Top, Concrete::Bot) => assert(self.contains(0)),
                    _ => {},
                }
            }
        }
        r
    }

    fn join(&self, other: &Concrete) -> (r: Concrete) {
        match (self, other) {
            (Concrete::Bot, _) => *other,
            (_, Concrete::Bot) => *self,
            (Concrete::Top, _) => Concrete::Top,
            (_, Concrete::Top) => Concrete::Top,
            (Concrete::One(x), Concrete::One(y)) => make_pair(*x, *y),
            (Concrete::One(x), Concrete::Two(y, z)) => if *x == *y || *x == *z {
                *other
            } else {
                Concrete::Top
            },
            (Concrete::Two(x, y), Concrete::One(z)) => if *z == *x || *z == *y {
                *self
            } else {
                Concrete::Top
            },
            (Concrete::Two(x, y), Concrete::Two(z, w)) => if *x == *z && *y == *w {
                *self
            } else {
                Concrete::Top
            },
        }
    }

    fn meet(&self, other: &Concrete) -> (r: Concrete) {
        match (self, other) {
            (Concrete::Top, _) => *other,
            (_, Concrete::Top) => *self,
            (Concrete::Bot, _) => Concrete::Bot,
            (_, Concrete::Bot) => Concrete::Bot,
            (Concrete::One(x), Concrete::One(y)) => if *x == *y {
                *self
            } else {
                Concrete::Bot
            },
            (Concrete::One(x), Concrete::Two(y, z)) => if *x == *y || *x == *z {
                *self
            } else {
                Concrete::Bot
            },
            (Concrete::Two(x, y), Concrete::One(z)) => if *z == *x || *z == *y {
                *other
            } else {
                Concrete::Bot
            },
            (Concrete::Two(x, y), Concrete::Two(z, w)) => if *x == *z && *y == *w {
                *self
            } else if *x == *z || *x == *w {
                Concrete::One(*x)
            } else if *y == *z || *y == *w {
                Concrete::One(*y)
            } else {
                Concrete::Bot
            },
        }
    }

    fn widen(&self, other: &Concrete) -> (r: Concrete) {
        self.join(other)
    }

    fn narrow(&self, other: &Concrete) -> (r: Concrete) {
        match self {
            Concrete::Top => *other,
            _ => *self,
        }
    }

    fn constant(c: i64) -> (r: Concrete) {
        Concrete::One(c)
    }

    fn range(lo: &Concrete, hi: &Concrete) -> (r: Concrete) {
        match (lo, hi) {
            (Concrete::Bot, _) => Concrete::Bot,
            (_, Concrete::Bot) => Concrete::Bot,
            (Concrete::One(x), Concrete::One(y)) => if *x == *y {
                Concrete::One(*x)
            } else if *x > *y {
                Concrete::Bot
            } else if *x < i64::MAX && *x + 1 == *y {
                Concrete::Two(*x, *y)
            } else {
                Concrete::Top
            },
            _ => Concrete::Top,
        }
    }

    fn unary(op: IntUnaryOp, a: &Concrete) -> (r: Concrete) {
        match (op, a) {
            (IntUnaryOp::AddUnary, _) => *a,
            (IntUnaryOp::SubUnary, Concrete::One(x)) => if *x == i64::MIN {
                Concrete::Top
            } else {
                Concrete::One(-*x)
            },
            (IntUnaryOp::SubUnary, Concrete::Two(x, y)) => if *x == i64::MIN {
                Concrete::Top
            } else {
                Concrete::Two(-*y, -*x)
            },
            (IntUnaryOp::SubUnary, _) => *a,
        }
    }

    fn binary(op: IntBinaryOp, a: &Concrete, b: &Concrete) -> (r: Option<Concrete>) {
        let zero_only = match b {
            Concrete::One(y) => *y == 0,
            _ => false,
        };
        proof {
            if !zero_only {
                match *b {
                    Concrete::One(y) => assert(b.contains(y as int) && y != 0),
                    Concrete::Two(y, z) => {
                        if y == 0 {
                            assert(b.contains(z as int) && z != 0);
                        } else {
                            assert(b.contains(y as int) && y != 0);
                        }
                    },
                    Concrete::Top => assert(b.contains(1)),
                    Concrete::Bot => {},
                }
            }
        }
        let divides_op = match op {
            IntBinaryOp::Div | IntBinaryOp::Mod => true,
            _ => false,
        };
        if divides_op && zero_only {
            return None;
        }
        match (a, b) {
            (Concrete::Bot, _) => Some(Concrete::Bot),
            (_, Concrete::Bot) => Some(Concrete::Bot),
            (Concrete::One(x), Concrete::One(y)) => match apply_binary(op, *x, *y) {
                Some(v) => Some(Concrete::One(v)),
                None => Some(Concrete::Top),
            },
            _ => Some(Concrete::Top),
        }
    }

    fn compare(op: CompareOp, a: &Concrete, b: &Concrete) -> (r: (Concrete, Concrete)) {
        match (a, b) {
            (Concrete::Bot, _) => (Concrete::Bot, Concrete::Bot),
            (_, Concrete::Bot) => (Concrete::Bot, Concrete::Bot),
            (Concrete::Top, _) | (_, Concrete::Top) => {
                proof {
                    match (*a, *b) {
                        (Concrete::One(x), _) => assert(a.contains(x as int) && b.contains(right_partner(op, x as int))),
                        (Concrete::Two(x, _), _) => assert(a.contains(x as int) && b.contains(right_partner(op, x as int))),
                        (_, Concrete::One(y)) => assert(a.contains(left_partner(op, y as int)) && b.contains(y as int)),
                        (_, Concrete::Two(y, _)) => assert(a.contains(left_partner(op, y as int)) && b.contains(y as int)),
                        _ => assert(a.contains(left_partner(op, 0)) && b.contains(0)),
                    }
                }
                match op {
                    CompareOp::EQ => {
                        let m = a.meet(b);
                        (m, m)
                    },
                    _ => (*a, *b),
                }
            },
            _ => match op {
                CompareOp::EQ => {
                    let m = a.meet(b);
                    (m, m)
                },
                _ => {
                    let (x1, x2) = bounds_of(a);
                    let (y1, y2) = bounds_of(b);
                    let any = holds_exec(op, x1, y1) || holds_exec(op, x1, y2) || holds_exec(op, x2, y1) || holds_exec(
                        op,
                        x2,
                        y2,
                    );
                    if any {
                        proof {
                            assert(a.contains(x1 as int) && a.contains(x2 as int));
                            assert(b.contains(y1 as int) && b.contains(y2 as int));
                        }
                        (*a, *b)
                    } else {
                        (Concrete::Bot, Concrete::Bot)
                    }
                },
            },
        }
    }

    fn to_text(&self) -> (r: String) {
        proof {
            reveal_strlit("{}");
            reveal_strlit("{");
            reveal_strlit("}");
            reveal_strlit(", ");
            reveal_strlit("top");
        }
        match self {
            Concrete::Bot => "{}".to_owned(),
            Concrete::One(c) => {
                let mut s = "{".to_owned();
                push_int(*c, &mut s);
                s.append("}");
                proof {
                    assert(s@ =~= Self::spec_text(*self));
                }
                s
            },
            Concrete::Two(x, y) => {
                let mut s = "{".to_owned();
                push_int(*x, &mut s);
                s.append(", ");
                push_int(*y, &mut s);
                s.append("}");
                proof {
                    assert(s@ =~= Self::spec_text(*self));
                }
                s
            },
            Concrete::Top => "top".to_owned(),
        }
    }
}

} // verus!
