use vstd::prelude::*;
use crate::ast::{CompareOp, IntBinaryOp, IntUnaryOp, compare_holds};
use crate::domain::{ValueDomain, binary_value, divides, left_partner, right_partner, unary_value};

use crate::text::{int_text, push_int};

verus! {

/// The flat lattice of constants: no value, exactly one value, any value.
#[derive(Clone, Copy, Debug, Eq)]
pub enum Constant {
    Bot,
    Cst(i64),
    Top,
}

impl PartialEq for Constant {
    fn eq(&self, other: &Constant) -> (r: bool)
        ensures
            r == (*self == *other),
    {
        match (self, other) {
            (Constant::Bot, Constant::Bot) => true,
            (Constant::Top, Constant::Top) => true,
            (Constant::Cst(x), Constant::Cst(y)) => *x == *y,
            _ => false,
        }
    }
}

impl vstd::std_specs::cmp::PartialEqSpecImpl for Constant {
    open spec fn obeys_eq_spec() -> bool {
        true
    }

    open spec fn eq_spec(&self, other: &Constant) -> bool {
        *self == *other
    }
}

pub open spec fn cst_join(a: Constant, b: Constant) -> Constant {
    match (a, b) {
        (Constant::Bot, _) => b,
        (_, Constant::Bot) => a,
        (Constant::Cst(x), Constant::Cst(y)) => if x == y {
            a
        } else {
            Constant::Top
        },
        _ => Constant::Top,
    }
}

pub open spec fn cst_meet(a: Constant, b: Constant) -> Constant {
    match (a, b) {
        (Constant::Top, _) => b,
        (_, Constant::Top) => a,
        (Constant::Cst(x), Constant::Cst(y)) => if x == y {
            a
        } else {
            Constant::Bot
        },
        _ => Constant::Bot,
    }
}

pub open spec fn cst_le(a: Constant, b: Constant) -> bool {
    match (a, b) {
        (Constant::Bot, _) => true,
        (_, Constant::Top) => true,
        (Constant::Cst(x), Constant::Cst(y)) => x == y,
        _ => false,
    }
}

pub open spec fn cst_rank(a: Constant) -> nat {
    match a {
        Constant::Bot => 2,
        Constant::Cst(_) => 1,
        Constant::Top => 0,
    }
}

/// The value of a binary operator on two constants where it is folded:
/// sums, differences and products that fit in an `i64`.
pub open spec fn fold_of(op: IntBinaryOp, x: i64, y: i64) -> Option<i64> {
    match op {
        IntBinaryOp::Add => if i64::MIN <= x + y <= i64::MAX { Some((x + y) as i64) } else { None },
        IntBinaryOp::Sub => if i64::MIN <= x - y <= i64::MAX { Some((x - y) as i64) } else { None },
        IntBinaryOp::Mul => if i64::MIN <= x * y <= i64::MAX { Some((x * y) as i64) } else { None },
        _ => None,
    }
}

/// The value of a binary operator on two constants, where it is defined and
/// fits in an `i64`; division and remainder are not folded.
fn fold_binary(op: IntBinaryOp, x: i64, y: i64) -> (r: Option<i64>)
    ensures
        r matches Some(v) ==> binary_value(op, x as int, y as int) == Some(v as int),
        r == fold_of(op, x, y),
{
    let wide = match op {
        IntBinaryOp::Add => x as i128 + y as i128,
        IntBinaryOp::Sub => x as i128 - y as i128,
        IntBinaryOp::Mul => {
            assert(-0x4000_0000_0000_0000_0000_0000_0000_0000 <= (x as int) * (y as int)
                <= 0x4000_0000_0000_0000_0000_0000_0000_0000) by (nonlinear_arith)
                requires
                    i64::MIN <= x <= i64::MAX,
                    i64::MIN <= y <= i64::MAX,
            ;
            x as i128 * y as i128
        },
        _ => {
            return None;
        },
    };
    if i64::MIN as i128 <= wide && wide <= i64::MAX as i128 {
        Some(wide as i64)
    } else {
        None
    }
}

impl ValueDomain for Constant {
    open spec fn valid(&self) -> bool {
        true
    }

    open spec fn contains(&self, n: int) -> bool {
        match self {
            Constant::Bot => false,
            Constant::Cst(c) => n == *c as int,
            Constant::Top => true,
        }
    }

    open spec fn spec_bottom() -> Constant {
        Constant::Bot
    }

    open spec fn spec_join(a: Constant, b: Constant) -> Constant {
        cst_join(a, b)
    }

    open spec fn spec_meet(a: Constant, b: Constant) -> Constant {
        cst_meet(a, b)
    }

    /// The lattice has finite height: widening is the join.
    open spec fn spec_widen(a: Constant, b: Constant) -> Constant {
        cst_join(a, b)
    }

    open spec fn spec_le(a: Constant, b: Constant) -> bool {
        cst_le(a, b)
    }

    open spec fn rank(a: Constant) -> nat {
        cst_rank(a)
    }

    open spec fn spec_top() -> Constant {
        Constant::Top
    }

    open spec fn spec_constant(c: i64) -> Constant {
        Constant::Cst(c)
    }

    open spec fn spec_range(lo: Constant, hi: Constant) -> Constant {
        match (lo, hi) {
            (Constant::Bot, _) => Constant::Bot,
            (_, Constant::Bot) => Constant::Bot,
            (Constant::Cst(x), Constant::Cst(y)) => if x == y {
                lo
            } else if x > y {
                Constant::Bot
            } else {
                Constant::Top
            },
            _ => Constant::Top,
        }
    }

    open spec fn spec_unary(op: IntUnaryOp, a: Constant) -> Constant {
        match (op, a) {
            (IntUnaryOp::SubUnary, Constant::Cst(x)) => if x == i64::MIN {
                Constant::Top
            } else {
                Constant::Cst((-x) as i64)
            },
            _ => a,
        }
    }

    open spec fn spec_binary(op: IntBinaryOp, a: Constant, b: Constant) -> Option<Constant> {
        if (op == IntBinaryOp::Div || op == IntBinaryOp::Mod) && b == Constant::Cst(0) {
            None
        } else {
            Some(
                match (a, b) {
                    (Constant::Bot, _) => Constant::Bot,
                    (_, Constant::Bot) => Constant::Bot,
                    (Constant::Cst(x), Constant::Cst(y)) => match fold_of(op, x, y) {
                        Some(v) => Constant::Cst(v),
                        None => Constant::Top,
                    },
                    _ => Constant::Top,
                },
            )
        }
    }

    open spec fn spec_compare(op: CompareOp, a: Constant, b: Constant) -> (Constant, Constant) {
        match (a, b) {
            (Constant::Bot, _) => (Constant::Bot, Constant::Bot),
            (_, Constant::Bot) => (Constant::Bot, Constant::Bot),
            (Constant::Cst(x), Constant::Cst(y)) => if compare_holds(op, x as int, y as int) {
                (a, b)
            } else {
                (Constant::Bot, Constant::Bot)
            },
            _ => if op == CompareOp::EQ {
                (cst_meet(a, b), cst_meet(a, b))
            } else {
                (a, b)
            },
        }
    }


    open spec fn spec_text(a: Constant) -> Seq<char> {
        match a {
            Constant::Bot => "bottom"@,
            Constant::Cst(c) => int_text(c as int),
            Constant::Top => "top"@,
        }
    }

    proof fn lemma_eq_is_equality() {
    }

    proof fn lemma_le_contains(a: Constant, b: Constant) {
    }

    proof fn lemma_le_reflexive(a: Constant) {
    }

    proof fn lemma_idempotent(a: Constant) {
    }

    proof fn lemma_commutative(a: Constant, b: Constant) {
    }

    proof fn lemma_absorption(a: Constant, b: Constant) {
    }

    proof fn lemma_bottom_laws(a: Constant) {
    }

    proof fn lemma_join_monotone(a: Constant, a2: Constant, b: Constant, b2: Constant) {
    }

    proof fn lemma_widen_progress(a: Constant, b: Constant) {
    }

    fn bottom() -> (r: Constant) {
        Constant::Bot
    }

    fn top() -> (r: Constant) {
        Constant::Top
    }

    fn is_bottom(&self) -> (r: bool) {
        match self {
            Constant::Bot => true,
            Constant::Cst(c) => {
                assert(self.contains(*c as int));
                false
            },
            Constant::Top => {
                assert(self.contains(0));
                false
            },
        }
    }

    fn subset(&self, other: &Constant) -> (r: bool) {
        match (self, other) {
            (Constant::Bot, _) => true,
            (_, Constant::Top) => true,
            (Constant::Cst(x), Constant::Cst(y)) => {
                if *x != *y {
                    assert(self.contains(*x as int) && !other.contains(*x as int));
                }
                *x == *y
            },
            (Constant::Cst(x), Constant::Bot) => {
                assert(self.contains(*x as int));
                false
            },
            (Constant::Top, Constant::Bot) => {
                assert(self.contains(0));
                false
            },
            (Constant::Top, Constant::Cst(y)) => {
                assert(self.contains(*y as int + 1));
                false
            },
        }
    }

    fn join(&self, other: &Constant) -> (r: Constant) {
        match (self, other) {
            (Constant::Bot, _) => *other,
            (_, Constant::Bot) => *self,
            (Constant::Cst(x), Constant::Cst(y)) => if *x == *y {
                *self
            } else {
                Constant::Top
            },
            _ => Constant::Top,
        }
    }

    fn meet(&self, other: &Constant) -> (r: Constant) {
        match (self, other) {
            (Constant::Top, _) => *other,
            (_, Constant::Top) => *self,
            (Constant::Cst(x), Constant::Cst(y)) => if *x == *y {
                *self
            } else {
                Constant::Bot
            },
            _ => Constant::Bot,
        }
    }

    fn widen(&self, other: &Constant) -> (r: Constant) {
        self.join(other)
    }

    fn narrow(&self, other: &Constant) -> (r: Constant) {
        match self {
            Constant::Top => *other,
            _ => self.meet(&Constant::Top),
        }
    }

    fn constant(c: i64) -> (r: Constant) {
        Constant::Cst(c)
    }

    fn range(lo: &Constant, hi: &Constant) -> (r: Constant) {
        match (lo, hi) {
            (Constant::Bot, _) => Constant::Bot,
            (_, Constant::Bot) => Constant::Bot,
            (Constant::Cst(x), Constant::Cst(y)) => if *x == *y {
                *lo
            } else if *x > *y {
                Constant::Bot
            } else {
                Constant::Top
            },
            _ => Constant::Top,
        }
    }

    fn unary(op: IntUnaryOp, a: &Constant) -> (r: Constant) {
        match (op, a) {
            (IntUnaryOp::AddUnary, _) => *a,
            (IntUnaryOp::SubUnary, Constant::Cst(x)) => if *x == i64::MIN {
                Constant::Top
            } else {
                Constant::Cst(-*x)
            },
            (IntUnaryOp::SubUnary, _) => *a,
        }
    }

    fn binary(op: IntBinaryOp, a: &Constant, b: &Constant) -> (r: Option<Constant>) {
        let zero_only = match b {
            Constant::Cst(y) => *y == 0,
            _ => false,
        };
        proof {
            if !zero_only {
                match *b {
                    Constant::Cst(y) => assert(b.contains(y as int) && y != 0),
                    Constant::Top => assert(b.contains(1)),
                    Constant::Bot => {},
                }
            }
        }
        let divides_op = match op {
            IntBinaryOp::Div | IntBinaryOp::Mod => true,
            _ => false,
        };
        if divides_op && zero_only {
            return None;
        }
        match (a, b) {
            (Constant::Bot, _) => Some(Constant::Bot),
            (_, Constant::Bot) => Some(Constant::Bot),
            (Constant::Cst(x), Constant::Cst(y)) => match fold_binary(op, *x, *y) {
                Some(v) => Some(Constant::Cst(v)),
                None => Some(Constant::Top),
            },
            _ => Some(Constant::Top),
        }
    }

    fn compare(op: CompareOp, a: &Constant, b: &Constant) -> (r: (Constant, Constant)) {
        match (a, b) {
            (Constant::Bot, _) => (Constant::Bot, Constant::Bot),
            (_, Constant::Bot) => (Constant::Bot, Constant::Bot),
            (Constant::Cst(x), Constant::Cst(y)) => {
                let holds = match op {
                    CompareOp::NE => *x != *y,
                    CompareOp::EQ => *x == *y,
                    CompareOp::LT => *x < *y,
                    CompareOp::LE => *x <= *y,
                    CompareOp::GT => *x > *y,
                    CompareOp::GE => *x >= *y,
                };
                if holds {
                    proof {
                        assert(a.contains(*x as int) && b.contains(*y as int));
                    }
                    (*a, *b)
                } else {
                    (Constant::Bot, Constant::Bot)
                }
            },
            _ => {
                proof {
                    match (*a, *b) {
                        (Constant::Cst(x), _) => {
                            assert(a.contains(x as int) && b.contains(right_partner(op, x as int)));
                        },
                        (_, Constant::Cst(y)) => {
                            assert(a.contains(left_partner(op, y as int)) && b.contains(y as int));
                        },
                        _ => {
                            assert(a.contains(left_partner(op, 0)) && b.contains(0));
                        },
                    }
                }
                match op {
                    CompareOp::EQ => {
                        let m = a.meet(b);
                        (m, m)
                    },
                    _ => (*a, *b),
                }
            },
        }
    }

    fn to_text(&self) -> (r: String) {
        proof {
            reveal_strlit("bottom");
            reveal_strlit("top");
        }
        match self {
            Constant::Bot => "bottom".to_owned(),
            Constant::Cst(c) => {
                let mut s = String::new();
                push_int(*c, &mut s);
                proof {
                    assert(s@ =~= Self::spec_text(*self));
                }
                s
            },
            Constant::Top => "top".to_owned(),
        }
    }
}

} // verus!
