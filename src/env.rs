use vstd::prelude::*;
use crate::ast::{BoolBinaryOp, BoolExpr, BoolUnaryOp, CompareOp, IntExpr, Span, compare_holds, negated};
use crate::domain::{ValueDomain, binary_value, unary_value};
use crate::error::AnalysisError;
use crate::map::{AvlMap, MapError, merged, passes2z};
use crate::symbol::Symbol;

verus! {

/// A concrete state: the integer value of each variable, by key.
pub type State = Map<Seq<u8>, int>;

/// The draws of `rand`: the value that the `rand` at a span yields.
pub type Picks = spec_fn(Span) -> int;

/// The value of `e` in state `st` when each `rand` yields what `pick` gives
/// for its span; none where a variable is missing, a divisor is 0 or a draw
/// falls outside its bounds.
pub open spec fn value_of(e: IntExpr, st: State, pick: Picks) -> Option<int>
    decreases e,
{
    match e {
        IntExpr::Const { cst, .. } => Some(cst as int),
        IntExpr::Ident { var, .. } => if st.contains_key(var.key()) {
            Some(st[var.key()])
        } else {
            None
        },
        IntExpr::Unary { op, exp, .. } => match value_of(*exp, st, pick) {
            Some(m) => Some(unary_value(op, m)),
            None => None,
        },
        IntExpr::Binary { op, lhs, rhs, .. } => match (value_of(*lhs, st, pick), value_of(*rhs, st, pick)) {
            (Some(a), Some(b)) => binary_value(op, a, b),
            _ => None,
        },
        IntExpr::Rand { span, lower, upper } => match (value_of(*lower, st, pick), value_of(*upper, st, pick)) {
            (Some(a), Some(b)) => if a <= pick(span) <= b {
                Some(pick(span))
            } else {
                None
            },
            _ => None,
        },
    }
}

/// The truth value of `b` in state `st` under the draws `pick`.
pub open spec fn truth_of(b: BoolExpr, st: State, pick: Picks) -> Option<bool>
    decreases b,
{
    match b {
        BoolExpr::Const { cst, .. } => Some(cst),
        BoolExpr::Unary { op: BoolUnaryOp::Not, exp, .. } => match truth_of(*exp, st, pick) {
            Some(v) => Some(!v),
            None => None,
        },
        BoolExpr::Binary { op, lhs, rhs, .. } => match (truth_of(*lhs, st, pick), truth_of(*rhs, st, pick)) {
            (Some(v1), Some(v2)) => Some(
                match op {
                    BoolBinaryOp::And => v1 && v2,
                    BoolBinaryOp::Or => v1 || v2,
                },
            ),
            _ => None,
        },
        BoolExpr::Compare { op, lhs, rhs, .. } => match (value_of(lhs, st, pick), value_of(rhs, st, pick)) {
            (Some(x), Some(y)) => Some(compare_holds(op, x, y)),
            _ => None,
        },
    }
}

/// Under the draws `pick`, both sides of `e1 op e2` have a value in `st` and
/// the comparison holds.
pub open spec fn holds(op: CompareOp, e1: IntExpr, e2: IntExpr, st: State, pick: Picks) -> bool {
    &&& value_of(e1, st, pick) is Some
    &&& value_of(e2, st, pick) is Some
    &&& compare_holds(op, value_of(e1, st, pick)->0, value_of(e2, st, pick)->0)
}

/// Every variable that `e` reads is a key of `dom`.
pub open spec fn known(e: IntExpr, dom: Set<Seq<u8>>) -> bool
    decreases e,
{
    match e {
        IntExpr::Const { .. } => true,
        IntExpr::Ident { var, .. } => dom.contains(var.key()),
        IntExpr::Unary { exp, .. } => known(*exp, dom),
        IntExpr::Binary { lhs, rhs, .. } => known(*lhs, dom) && known(*rhs, dom),
        IntExpr::Rand { lower, upper, .. } => known(*lower, dom) && known(*upper, dom),
    }
}

/// An expression that reads a variable missing from the state has no value.
pub proof fn lemma_unknown_no_value(e: IntExpr, st: State, pick: Picks)
    requires
        !known(e, st.dom()),
    ensures
        value_of(e, st, pick) is None,
    decreases e,
{
    match e {
        IntExpr::Unary { exp, .. } => lemma_unknown_no_value(*exp, st, pick),
        IntExpr::Binary { lhs, rhs, .. } => {
            if !known(*lhs, st.dom()) {
                lemma_unknown_no_value(*lhs, st, pick);
            } else {
                lemma_unknown_no_value(*rhs, st, pick);
            }
        },
        IntExpr::Rand { lower, upper, .. } => {
            if !known(*lower, st.dom()) {
                lemma_unknown_no_value(*lower, st, pick);
            } else {
                lemma_unknown_no_value(*upper, st, pick);
            }
        },
        _ => {},
    }
}

/// The abstract value of `e` over the values `vals`, as `Env::eval`
/// computes it with the domain's transfer functions; none where a divisor
/// can only be 0.
pub open spec fn abs_eval<V: ValueDomain>(e: IntExpr, vals: Map<Seq<u8>, V>) -> Option<V>
    decreases e,
{
    match e {
        IntExpr::Const { cst, .. } => Some(V::spec_constant(cst)),
        IntExpr::Ident { var, .. } => if vals.contains_key(var.key()) {
            Some(vals[var.key()])
        } else {
            Some(V::spec_top())
        },
        IntExpr::Unary { op, exp, .. } => match abs_eval(*exp, vals) {
            Some(v) => Some(V::spec_unary(op, v)),
            None => None,
        },
        IntExpr::Binary { op, lhs, rhs, .. } => match (abs_eval(*lhs, vals), abs_eval(*rhs, vals)) {
            (Some(a), Some(b)) => V::spec_binary(op, a, b),
            _ => None,
        },
        IntExpr::Rand { lower, upper, .. } => match (abs_eval(*lower, vals), abs_eval(*upper, vals)) {
            (Some(a), Some(b)) => Some(V::spec_range(a, b)),
            _ => None,
        },
    }
}

/// The values after a comparison refined its two sides to `c1` and `c2`: a
/// side that is a variable alone has its value met with its refinement,
/// the left side first.
pub open spec fn refined<V: ValueDomain>(vals: Map<Seq<u8>, V>, e1: IntExpr, e2: IntExpr, c1: V, c2: V) -> Map<Seq<u8>, V> {
    let v1 = match e1 {
        IntExpr::Ident { var, .. } => if vals.contains_key(var.key()) {
            vals.insert(var.key(), V::spec_meet(vals[var.key()], c1))
        } else {
            vals
        },
        _ => vals,
    };
    match e2 {
        IntExpr::Ident { var, .. } => if v1.contains_key(var.key()) {
            v1.insert(var.key(), V::spec_meet(v1[var.key()], c2))
        } else {
            v1
        },
        _ => v1,
    }
}

/// An environment seen as whether it is unreachable and its values; the
/// values of an unreachable environment do not matter.
pub type Shape<V> = (bool, Map<Seq<u8>, V>);

/// Two shapes stand for the same environment.
pub open spec fn same_shape<V>(a: Shape<V>, b: Shape<V>) -> bool {
    a.0 == b.0 && (!a.0 ==> a.1 == b.1)
}

/// The meet of two environments of the same variables, value by value; it
/// is unreachable where either is or where some value becomes empty.
pub open spec fn meet_shape<V: ValueDomain>(a: Shape<V>, b: Shape<V>) -> Shape<V> {
    if a.0 || b.0 {
        (true, a.1)
    } else {
        let m = Map::new(|k: Seq<u8>| a.1.contains_key(k), |k: Seq<u8>| V::spec_meet(a.1[k], b.1[k]));
        (exists|k: Seq<u8>| #[trigger] m.contains_key(k) && !nonempty(m[k]), m)
    }
}

/// The join of two environments of the same variables, value by value.
pub open spec fn join_shape<V: ValueDomain>(a: Shape<V>, b: Shape<V>) -> Shape<V> {
    if a.0 {
        b
    } else if b.0 {
        a
    } else {
        (false, Map::new(|k: Seq<u8>| a.1.contains_key(k), |k: Seq<u8>| V::spec_join(a.1[k], b.1[k])))
    }
}

/// What `Env::compare` makes of an environment of shape `d`.
pub open spec fn compare_shape<V: ValueDomain>(d: Shape<V>, e1: IntExpr, op: CompareOp, e2: IntExpr) -> Result<
    Shape<V>,
    AnalysisError,
> {
    if !(known(e1, d.1.dom()) && known(e2, d.1.dom())) {
        Err(AnalysisError::UnknownVariable)
    } else if d.0 {
        Ok(d)
    } else {
        match (abs_eval(e1, d.1), abs_eval(e2, d.1)) {
            (Some(a1), Some(a2)) => {
                let c = V::spec_compare(op, a1, a2);
                let vals = refined(d.1, e1, e2, c.0, c.1);
                Ok(
                    (
                        !nonempty(c.0) || !nonempty(c.1) || exists|k: Seq<u8>|
                            #[trigger] vals.contains_key(k) && !nonempty(vals[k]),
                        vals,
                    ),
                )
            },
            _ => Err(AnalysisError::IllegalOperation),
        }
    }
}

/// What `Env::guard` makes of an environment of shape `d`: both sides of a
/// conjunction or disjunction are filtered from `d`, the left one first, and
/// met, or joined and met with `d`.
pub open spec fn guard_shape<V: ValueDomain>(d: Shape<V>, b: BoolExpr, sat: bool) -> Result<Shape<V>, AnalysisError>
    decreases b,
{
    match b {
        BoolExpr::Const { cst, .. } => if cst == sat {
            Ok(d)
        } else {
            Ok((true, d.1))
        },
        BoolExpr::Unary { exp, .. } => guard_shape(d, *exp, !sat),
        BoolExpr::Binary { op, lhs, rhs, .. } => match guard_shape(d, *lhs, sat) {
            Err(x) => Err(x),
            Ok(l) => match guard_shape(d, *rhs, sat) {
                Err(x) => Err(x),
                Ok(r) => Ok(
                    if (op == BoolBinaryOp::And) == sat {
                        meet_shape(l, r)
                    } else {
                        meet_shape(join_shape(l, r), d)
                    },
                ),
            },
        },
        BoolExpr::Compare { op, lhs, rhs, .. } => compare_shape(
            d,
            lhs,
            if sat {
                op
            } else {
                negated(op)
            },
            rhs,
        ),
    }
}

/// A guard fails only on a variable out of scope or a divisor that can
/// only be 0.
pub proof fn lemma_guard_error_kind<V: ValueDomain>(d: Shape<V>, b: BoolExpr, sat: bool)
    ensures
        guard_shape(d, b, sat) matches Err(x) ==> x == AnalysisError::UnknownVariable || x
            == AnalysisError::IllegalOperation,
    decreases b,
{
    match b {
        BoolExpr::Unary { exp, .. } => lemma_guard_error_kind(d, *exp, !sat),
        BoolExpr::Binary { lhs, rhs, .. } => {
            lemma_guard_error_kind(d, *lhs, sat);
            lemma_guard_error_kind(d, *rhs, sat);
        },
        _ => {},
    }
}

/// Every value of the shape is valid.
pub open spec fn valid_shape<V: ValueDomain>(d: Shape<V>) -> bool {
    forall|k: Seq<u8>| #[trigger] d.1.contains_key(k) ==> d.1[k].valid()
}

proof fn lemma_meet_shape_commutes<V: ValueDomain>(a: Shape<V>, b: Shape<V>)
    requires
        valid_shape(a),
        valid_shape(b),
        a.1.dom() == b.1.dom(),
    ensures
        same_shape(meet_shape(a, b), meet_shape(b, a)),
{
    if !a.0 && !b.0 {
        let m1 = meet_shape(a, b).1;
        let m2 = meet_shape(b, a).1;
        assert forall|k: Seq<u8>| m1.contains_key(k) implies m1[k] == m2[k] by {
            V::lemma_commutative(a.1[k], b.1[k]);
        }
        assert(m1 =~= m2);
    }
}

proof fn lemma_join_shape_commutes<V: ValueDomain>(a: Shape<V>, b: Shape<V>)
    requires
        valid_shape(a),
        valid_shape(b),
        a.1.dom() == b.1.dom(),
    ensures
        same_shape(join_shape(a, b), join_shape(b, a)),
{
    if !a.0 && !b.0 {
        let m1 = join_shape(a, b).1;
        let m2 = join_shape(b, a).1;
        assert forall|k: Seq<u8>| m1.contains_key(k) implies m1[k] == m2[k] by {
            V::lemma_commutative(a.1[k], b.1[k]);
        }
        assert(m1 =~= m2);
    }
}

/// Filtering by `l && r` or `l || r` gives the same environment as filtering
/// by the operands in the other order, where both operands can be filtered.
pub proof fn lemma_guard_commutes<V: ValueDomain>(
    d: Shape<V>,
    op: BoolBinaryOp,
    l: BoolExpr,
    r: BoolExpr,
    s1: Span,
    s2: Span,
    sat: bool,
)
    requires
        guard_shape(d, l, sat) is Ok,
        guard_shape(d, r, sat) is Ok,
        valid_shape(guard_shape(d, l, sat)->Ok_0),
        valid_shape(guard_shape(d, r, sat)->Ok_0),
        valid_shape(d),
        guard_shape(d, l, sat)->Ok_0.1.dom() == d.1.dom(),
        guard_shape(d, r, sat)->Ok_0.1.dom() == d.1.dom(),
    ensures
        same_shape(
            guard_shape(d, BoolExpr::Binary { span: s1, op, lhs: Box::new(l), rhs: Box::new(r) }, sat)->Ok_0,
            guard_shape(d, BoolExpr::Binary { span: s2, op, lhs: Box::new(r), rhs: Box::new(l) }, sat)->Ok_0,
        ),
{
    let a = guard_shape(d, l, sat)->Ok_0;
    let b = guard_shape(d, r, sat)->Ok_0;
    if (op == BoolBinaryOp::And) == sat {
        lemma_meet_shape_commutes(a, b);
    } else {
        lemma_join_shape_commutes(a, b);
        let j1 = join_shape(a, b);
        let j2 = join_shape(b, a);
        lemma_meet_shape_same(j1, j2, d, d);
    }
}

proof fn lemma_meet_shape_same<V: ValueDomain>(a: Shape<V>, a2: Shape<V>, b: Shape<V>, b2: Shape<V>)
    requires
        same_shape(a, a2),
        same_shape(b, b2),
    ensures
        same_shape(meet_shape(a, b), meet_shape(a2, b2)),
{
}

proof fn lemma_join_shape_same<V: ValueDomain>(a: Shape<V>, a2: Shape<V>, b: Shape<V>, b2: Shape<V>)
    requires
        same_shape(a, a2),
        same_shape(b, b2),
    ensures
        same_shape(join_shape(a, b), join_shape(a2, b2)),
{
}

/// The element stands for at least one integer.
pub open spec fn nonempty<V: ValueDomain>(v: V) -> bool {
    exists|n: int| v.contains(n)
}

/// A non-relational abstract environment: an abstract value for each
/// variable in scope, or the unreachable state.
pub struct Env<V> {
    unreachable: bool,
    vars: AvlMap<V>,
}

impl<V: ValueDomain> Env<V> {
    /// The map is well formed and its values valid; a reachable environment
    /// has no empty value.
    pub closed spec fn wf(&self) -> bool {
        &&& self.vars.wf()
        &&& forall|k: Seq<u8>| #[trigger] self.vars@.contains_key(k) ==> self.vars@[k].valid()
        &&& !self.unreachable ==> forall|k: Seq<u8>|
            #[trigger] self.vars@.contains_key(k) ==> nonempty(self.vars@[k])
    }

    pub closed spec fn unreachable(&self) -> bool {
        self.unreachable
    }

    /// The height of the tree that holds the values.
    pub closed spec fn depth(&self) -> nat {
        self.vars.height()
    }

    /// Whether the environment is unreachable, and its values.
    pub open spec fn shape(&self) -> Shape<V> {
        (self.unreachable(), self.values())
    }

    /// The abstract value of each variable in scope.
    pub closed spec fn values(&self) -> Map<Seq<u8>, V> {
        self.vars@
    }

    /// The variables in scope.
    pub open spec fn scope(&self) -> Set<Seq<u8>> {
        self.values().dom()
    }

    /// The concrete states that the environment stands for.
    pub open spec fn admits(&self, st: State) -> bool {
        &&& !self.unreachable()
        &&& st.dom() == self.scope()
        &&& forall|k: Seq<u8>| #[trigger] st.contains_key(k) ==> self.values()[k].contains(st[k])
    }

    /// `g` is what comparing `e1 op e2` leaves of this reachable environment:
    /// the two sides' abstract values are refined by the domain's comparison,
    /// the variables standing alone are met with their refinements, and the
    /// result is unreachable exactly where some value became empty.
    pub open spec fn compared(&self, e1: IntExpr, op: CompareOp, e2: IntExpr, g: Env<V>) -> bool {
        let a1 = abs_eval(e1, self.values())->0;
        let a2 = abs_eval(e2, self.values())->0;
        let c = V::spec_compare(op, a1, a2);
        let vals = refined(self.values(), e1, e2, c.0, c.1);
        &&& g.unreachable() <==> (!nonempty(c.0) || !nonempty(c.1) || exists|k: Seq<u8>|
            #[trigger] vals.contains_key(k) && !nonempty(vals[k]))
        &&& !g.unreachable() ==> g.values() == vals
    }

    /// The reachable environment with no variables.
    pub fn new() -> (r: Env<V>)
        ensures
            r.wf(),
            !r.unreachable(),
            r.values() == Map::<Seq<u8>, V>::empty(),
            r.depth() == 0,
    {
        Env { unreachable: false, vars: AvlMap::new() }
    }

    /// The unreachable environment over the same variables.
    pub fn bottom_of(&self) -> (r: Env<V>)
        requires
            self.wf(),
        ensures
            r.wf(),
            r.unreachable(),
            r.values() == self.values(),
    {
        Env { unreachable: true, vars: self.vars.duplicate() }
    }

    /// A copy.
    pub fn duplicate(&self) -> (r: Env<V>)
        ensures
            r == *self,
    {
        Env { unreachable: self.unreachable, vars: self.vars.duplicate() }
    }

    /// The environment over the same variables where each may hold any value.
    pub fn top_of(&self) -> (r: Env<V>)
        requires
            self.wf(),
        ensures
            r.wf(),
            !r.unreachable(),
            r.scope() == self.scope(),
            forall|st: State| st.dom() == self.scope() ==> r.admits(st),
    {
        let mut vars = self.vars.duplicate();
        vars.map(|v: &V| -> (t: V)
            ensures
                t.valid() && forall|n: int| t.contains(n),
            { V::top() });
        let r = Env { unreachable: false, vars };
        proof {
            assert forall|k: Seq<u8>| #[trigger] r.vars@.contains_key(k) implies nonempty(r.vars@[k]) by {
                assert(r.vars@[k].contains(0));
            }
        }
        r
    }

    /// Whether the environment stands for no state.
    pub fn is_bottom(&self) -> (r: bool)
        requires
            self.wf(),
        ensures
            r == self.unreachable(),
            r == !exists|st: State| self.admits(st),
    {
        proof {
            if !self.unreachable {
                let st = Map::new(
                    |k: Seq<u8>| self.vars@.contains_key(k),
                    |k: Seq<u8>| choose|n: int| self.vars@[k].contains(n),
                );
                assert(st.dom() =~= self.scope());
                assert forall|k: Seq<u8>| #[trigger] st.contains_key(k) implies self.values()[k].contains(
                    st[k],
                ) by {
                    assert(nonempty(self.vars@[k]));
                }
                assert(self.admits(st));
            }
        }
        self.unreachable
    }

    /// Declares `s` with any value; fails, leaving the environment as it
    /// was, only where the map cannot grow.
    pub fn add_variable(&mut self, s: &Symbol) -> (r: Result<(), MapError>)
        requires
            old(self).wf(),
        ensures
            final(self).wf(),
            final(self).unreachable() == old(self).unreachable(),
            r.is_ok() == (old(self).depth() < u32::MAX),
            r.is_ok() ==> final(self).depth() <= old(self).depth() + 1,
            r.is_ok() ==> final(self).values().dom() == old(self).values().dom().insert(s.key()),
            r.is_ok() ==> forall|k: Seq<u8>|
                k != s.key() && #[trigger] old(self).values().contains_key(k) ==> final(self).values()[k]
                    == old(self).values()[k],
            r.is_ok() ==> forall|n: int| final(self).values()[s.key()].contains(n),
            r.is_err() ==> final(self).values() == old(self).values(),
    {
        let t = V::top();
        let r = self.vars.add(s, &t);
        proof {
            assert(t.contains(0));
        }
        r
    }

    /// Whether `s` is in scope.
    pub fn declares(&self, s: &Symbol) -> (r: bool)
        requires
            self.wf(),
        ensures
            r == self.scope().contains(s.key()),
    {
        self.vars.mem(s)
    }

    /// Takes `s` out of scope.
    pub fn remove_variable(&mut self, s: &Symbol)
        requires
            old(self).wf(),
        ensures
            final(self).wf(),
            final(self).unreachable() == old(self).unreachable(),
            final(self).values() == old(self).values().remove(s.key()),
            final(self).depth() <= old(self).depth(),
    {
        self.vars.remove(s);
    }

    /// Least upper bound, variable by variable.
    pub fn join(&self, other: &Env<V>) -> (r: Env<V>)
        requires
            self.wf(),
            other.wf(),
            self.scope() == other.scope(),
        ensures
            r.wf(),
            same_shape(r.shape(), join_shape(self.shape(), other.shape())),
            r.scope() == self.scope(),
            r.unreachable() == (self.unreachable() && other.unreachable()),
            self.unreachable() ==> r.values() == other.values(),
            !self.unreachable() && other.unreachable() ==> r.values() == self.values(),
            !self.unreachable() && !other.unreachable() ==> forall|k: Seq<u8>|
                #[trigger] self.scope().contains(k) ==> r.values()[k] == V::spec_join(
                    self.values()[k],
                    other.values()[k],
                ),
            forall|st: State| self.admits(st) || other.admits(st) ==> r.admits(st),
    {
        if self.unreachable {
            return other.duplicate();
        }
        if other.unreachable {
            return self.duplicate();
        }
        let mut vars = self.vars.duplicate();
        let f = |a: &V, b: &V| -> (c: V)
            ensures
                c == V::spec_join(*a, *b),
                a.valid() && b.valid() ==> c.valid(),
                forall|n: int| a.contains(n) || b.contains(n) ==> c.contains(n),
            { a.join(b) };
        let _ = vars.map2z(&other.vars, f);
        proof {
            V::lemma_eq_is_equality();
            assert forall|k: Seq<u8>| #[trigger] self.scope().contains(k) implies vars@[k] == V::spec_join(
                self.values()[k],
                other.values()[k],
            ) by {
                assert(merged(f, self.vars@[k], other.vars@[k], vars@[k]));
                V::lemma_idempotent(self.vars@[k]);
            }
            assert forall|k: Seq<u8>| #[trigger] vars@.contains_key(k) implies vars@[k].valid() && nonempty(vars@[k]) by {
                assert(merged(f, self.vars@[k], other.vars@[k], vars@[k]));
                V::lemma_idempotent(self.vars@[k]);
                let n = choose|n: int| self.vars@[k].contains(n);
                assert(vars@[k].contains(n));
            }
            assert(vars@ =~= Map::new(
                |k: Seq<u8>| self.values().contains_key(k),
                |k: Seq<u8>| V::spec_join(self.values()[k], other.values()[k]),
            ));
        }
        Env { unreachable: false, vars }
    }

    /// The variables whose values differ in `other` may hold any value; the
    /// others keep their values. Used to force a loop that keeps changing to
    /// stabilise.
    pub fn widen_changed(&self, other: &Env<V>) -> (r: Env<V>)
        requires
            self.wf(),
            other.wf(),
            self.scope() == other.scope(),
        ensures
            r.wf(),
            r.scope() == self.scope(),
            r.unreachable() == (self.unreachable() && other.unreachable()),
            self.unreachable() ==> r.values() == other.values(),
            !self.unreachable() && other.unreachable() ==> r.values() == self.values(),
            !self.unreachable() && !other.unreachable() ==> forall|k: Seq<u8>|
                #[trigger] self.scope().contains(k) ==> if self.values()[k] == other.values()[k] {
                    r.values()[k] == self.values()[k]
                } else {
                    forall|n: int| r.values()[k].contains(n)
                },
            forall|st: State| self.admits(st) || other.admits(st) ==> r.admits(st),
    {
        if self.unreachable {
            return other.duplicate();
        }
        if other.unreachable {
            return self.duplicate();
        }
        let mut vars = self.vars.duplicate();
        let f = |a: &V, b: &V| -> (c: V)
            ensures
                c.valid(),
                forall|n: int| c.contains(n),
            { V::top() };
        let _ = vars.map2z(&other.vars, f);
        proof {
            V::lemma_eq_is_equality();
            assert forall|k: Seq<u8>| #[trigger] vars@.contains_key(k) implies vars@[k].valid() && nonempty(vars@[k])
                && (forall|n: int| self.vars@[k].contains(n) || other.vars@[k].contains(n) ==> vars@[k].contains(n)) by {
                assert(merged(f, self.vars@[k], other.vars@[k], vars@[k]));
                let n = choose|n: int| self.vars@[k].contains(n);
                assert(vars@[k].contains(n));
            }
        }
        Env { unreachable: false, vars }
    }

    /// Widening, variable by variable.
    pub fn widen(&self, other: &Env<V>) -> (r: Env<V>)
        requires
            self.wf(),
            other.wf(),
            self.scope() == other.scope(),
        ensures
            r.wf(),
            r.scope() == self.scope(),
            r.unreachable() == (self.unreachable() && other.unreachable()),
            self.unreachable() ==> r.values() == other.values(),
            !self.unreachable() && other.unreachable() ==> r.values() == self.values(),
            !self.unreachable() && !other.unreachable() ==> forall|k: Seq<u8>|
                #[trigger] self.scope().contains(k) ==> r.values()[k] == V::spec_widen(
                    self.values()[k],
                    other.values()[k],
                ),
            forall|st: State| self.admits(st) || other.admits(st) ==> r.admits(st),
    {
        if self.unreachable {
            return other.duplicate();
        }
        if other.unreachable {
            return self.duplicate();
        }
        let mut vars = self.vars.duplicate();
        let f = |a: &V, b: &V| -> (c: V)
            ensures
                c == V::spec_widen(*a, *b),
                a.valid() && b.valid() ==> c.valid(),
                forall|n: int| a.contains(n) || b.contains(n) ==> c.contains(n),
            { a.widen(b) };
        let _ = vars.map2z(&other.vars, f);
        proof {
            V::lemma_eq_is_equality();
            assert forall|k: Seq<u8>| #[trigger] self.scope().contains(k) implies vars@[k] == V::spec_widen(
                self.values()[k],
                other.values()[k],
            ) by {
                assert(merged(f, self.vars@[k], other.vars@[k], vars@[k]));
                V::lemma_idempotent(self.vars@[k]);
            }
            assert forall|k: Seq<u8>| #[trigger] vars@.contains_key(k) implies vars@[k].valid() && nonempty(vars@[k]) by {
                assert(merged(f, self.vars@[k], other.vars@[k], vars@[k]));
                let n = choose|n: int| self.vars@[k].contains(n);
                assert(vars@[k].contains(n));
            }
        }
        Env { unreachable: false, vars }
    }

    /// Greatest lower bound, variable by variable; unreachable where some
    /// variable has no value left.
    pub fn meet(&self, other: &Env<V>) -> (r: Env<V>)
        requires
            self.wf(),
            other.wf(),
            self.scope() == other.scope(),
        ensures
            r.wf(),
            same_shape(r.shape(), meet_shape(self.shape(), other.shape())),
            r.scope() == self.scope(),
            !self.unreachable() && !other.unreachable() ==> forall|k: Seq<u8>|
                #[trigger] self.scope().contains(k) ==> r.values()[k] == V::spec_meet(
                    self.values()[k],
                    other.values()[k],
                ),
            r.unreachable() == (self.unreachable() || other.unreachable() || exists|k: Seq<u8>|
                #[trigger] self.scope().contains(k) && !nonempty(
                    V::spec_meet(self.values()[k], other.values()[k]),
                )),
            forall|st: State| r.admits(st) <==> self.admits(st) && other.admits(st),
    {
        if self.unreachable || other.unreachable {
            return self.bottom_of();
        }
        let mut vars = self.vars.duplicate();
        let f = |a: &V, b: &V| -> (c: V)
            ensures
                c == V::spec_meet(*a, *b),
                a.valid() && b.valid() ==> c.valid(),
                a.valid() && b.valid() ==> forall|n: int| c.contains(n) <==> a.contains(n) && b.contains(n),
            { a.meet(b) };
        let _ = vars.map2z(&other.vars, f);
        proof {
            V::lemma_eq_is_equality();
            assert forall|k: Seq<u8>| #[trigger] self.scope().contains(k) implies vars@[k] == V::spec_meet(
                self.values()[k],
                other.values()[k],
            ) && vars@[k].valid() by {
                assert(merged(f, self.vars@[k], other.vars@[k], vars@[k]));
                V::lemma_idempotent(self.vars@[k]);
            }
            assert forall|k: Seq<u8>| #[trigger] vars@.contains_key(k) implies vars@[k].valid() by {
                assert(self.scope().contains(k));
            }
        }
        let mut r = Env { unreachable: false, vars };
        r.canonicalize();
        proof {
            assert forall|st: State| r.admits(st) <==> self.admits(st) && other.admits(st) by {
                if self.admits(st) && other.admits(st) {
                    assert forall|k: Seq<u8>| #[trigger] self.scope().contains(k) implies nonempty(
                        V::spec_meet(self.values()[k], other.values()[k]),
                    ) by {
                        assert(st.contains_key(k));
                        assert(r.values()[k].contains(st[k]));
                    }
                }
                if r.admits(st) {
                    assert forall|k: Seq<u8>| #[trigger] st.contains_key(k) implies self.values()[k].contains(st[k])
                        && other.values()[k].contains(st[k]) by {
                        assert(self.scope().contains(k));
                    }
                }
            }
            let m = Map::new(
                |k: Seq<u8>| self.values().contains_key(k),
                |k: Seq<u8>| V::spec_meet(self.values()[k], other.values()[k]),
            );
            assert(r.values() =~= m);
            assert((exists|k: Seq<u8>| #[trigger] m.contains_key(k) && !nonempty(m[k])) == (exists|k: Seq<u8>|
                #[trigger] self.scope().contains(k) && !nonempty(V::spec_meet(self.values()[k], other.values()[k]))));
        }
        r
    }

    /// Narrowing, variable by variable: refines `self` while keeping every
    /// state that `self` and `other` share.
    pub fn narrow(&self, other: &Env<V>) -> (r: Env<V>)
        requires
            self.wf(),
            other.wf(),
            self.scope() == other.scope(),
        ensures
            r.wf(),
            r.scope() == self.scope(),
            self.unreachable() || other.unreachable() ==> r.unreachable(),
            forall|st: State| r.admits(st) ==> self.admits(st),
            forall|st: State| self.admits(st) && other.admits(st) ==> r.admits(st),
    {
        if self.unreachable || other.unreachable {
            return self.bottom_of();
        }
        let mut vars = self.vars.duplicate();
        let f = |a: &V, b: &V| -> (c: V)
            ensures
                a.valid() && b.valid() ==> c.valid(),
                forall|n: int| c.contains(n) ==> a.contains(n),
                forall|n: int| a.contains(n) && b.contains(n) ==> c.contains(n),
            { a.narrow(b) };
        let _ = vars.map2z(&other.vars, f);
        proof {
            V::lemma_eq_is_equality();
            assert forall|k: Seq<u8>| #[trigger] self.scope().contains(k) implies vars@[k].valid()
                && (forall|n: int| vars@[k].contains(n) ==> self.vars@[k].contains(n))
                && (forall|n: int| self.vars@[k].contains(n) && other.vars@[k].contains(n) ==> vars@[k].contains(n)) by {
                assert(merged(f, self.vars@[k], other.vars@[k], vars@[k]));
            }
            assert forall|k: Seq<u8>| #[trigger] vars@.contains_key(k) implies vars@[k].valid() by {
                assert(self.scope().contains(k));
            }
        }
        let mut r = Env { unreachable: false, vars };
        r.canonicalize();
        proof {
            assert forall|st: State| self.admits(st) && other.admits(st) implies r.admits(st) by {
                assert forall|k: Seq<u8>| #[trigger] self.scope().contains(k) implies nonempty(r.values()[k]) by {
                    assert(st.contains_key(k));
                    assert(r.values()[k].contains(st[k]));
                }
                assert forall|k: Seq<u8>| #[trigger] st.contains_key(k) implies r.values()[k].contains(st[k]) by {
                    assert(self.scope().contains(k));
                }
            }
            assert forall|st: State| r.admits(st) implies self.admits(st) by {
                assert forall|k: Seq<u8>| #[trigger] st.contains_key(k) implies self.values()[k].contains(st[k]) by {
                    assert(self.scope().contains(k));
                }
            }
        }
        r
    }

    /// Inclusion: an unreachable environment is below every environment, and a
    /// reachable one is below another where each of its values is.
    pub fn subset(&self, other: &Env<V>) -> (r: bool)
        requires
            self.wf(),
            other.wf(),
            self.scope() == other.scope(),
        ensures
            r == (self.unreachable() || (!other.unreachable() && forall|k: Seq<u8>|
                #[trigger] self.scope().contains(k) ==> V::spec_le(self.values()[k], other.values()[k]))),
            r ==> forall|st: State| self.admits(st) ==> other.admits(st),
    {
        if self.unreachable {
            return true;
        }
        if other.unreachable {
            return false;
        }
        let mut vars = self.vars.duplicate();
        let f = |k: &Symbol, a: &V, b: &V| -> (c: bool)
            ensures
                c == V::spec_le(*a, *b),
            { a.subset(b) };
        let res = vars.for_all2z(&other.vars, f);
        let r = match res {
            Ok(b) => b,
            Err(_) => false,
        };
        proof {
            V::lemma_eq_is_equality();
            crate::map::lemma_bindings_ascending(&self.vars);
            let bs = self.vars.bindings();
            if r {
                assert forall|k: Seq<u8>| #[trigger] self.scope().contains(k) implies V::spec_le(
                    self.values()[k],
                    other.values()[k],
                ) by {
                    let i = choose|i: int| 0 <= i < bs.len() && bs[i].0.key() == k;
                    assert(passes2z(f, bs[i].0, bs[i].1, other.vars@[bs[i].0.key()]));
                    V::lemma_le_reflexive(self.vars@[k]);
                }
                assert forall|st: State| self.admits(st) implies other.admits(st) by {
                    assert forall|k: Seq<u8>| #[trigger] st.contains_key(k) implies other.values()[k].contains(st[k]) by {
                        assert(self.scope().contains(k));
                        V::lemma_le_contains(self.values()[k], other.values()[k]);
                    }
                }
            } else {
                let i = choose|i: int|
                    0 <= i < bs.len() && f.ensures(
                        (&(#[trigger] bs[i]).0, &bs[i].1, &other.vars@[bs[i].0.key()]),
                        false,
                    );
                assert(self.scope().contains(bs[i].0.key()));
            }
        }
        r
    }

    /// Whether every variable that `e` reads is in scope.
    pub fn knows(&self, e: &IntExpr) -> (r: bool)
        requires
            self.wf(),
        ensures
            r == known(*e, self.scope()),
        decreases e,
    {
        match e {
            IntExpr::Const { .. } => true,
            IntExpr::Ident { var, .. } => self.vars.mem(var),
            IntExpr::Unary { exp, .. } => self.knows(exp),
            IntExpr::Binary { lhs, rhs, .. } => self.knows(lhs) && self.knows(rhs),
            IntExpr::Rand { lower, upper, .. } => self.knows(lower) && self.knows(upper),
        }
    }

    /// The abstract value of `e`: it holds every value that `e` takes in a
    /// state of the environment. Fails where a divisor can only be 0, and
    /// then `e` has no value in any such state.
    pub fn eval(&self, e: &IntExpr) -> (r: Result<V, AnalysisError>)
        requires
            self.wf(),
            known(*e, self.scope()),
        ensures
            match r {
                Ok(v) => v.valid() && forall|st: State, pick: Picks|
                    self.admits(st) && #[trigger] value_of(*e, st, pick) is Some ==> v.contains(
                        value_of(*e, st, pick)->0,
                    ),
                Err(x) => x == AnalysisError::IllegalOperation && forall|st: State, pick: Picks|
                    self.admits(st) ==> #[trigger] value_of(*e, st, pick) is None,
            },
            abs_eval(*e, self.values()) == match r {
                Ok(v) => Some(v),
                Err(_) => None::<V>,
            },
        decreases e,
    {
        match e {
            IntExpr::Const { cst, .. } => Ok(V::constant(*cst)),
            IntExpr::Ident { var, .. } => match self.vars.find(var) {
                Some(v) => {
                    proof {
                        assert forall|st: State, pick: Picks|
                            self.admits(st) && #[trigger] value_of(*e, st, pick) is Some implies v.contains(
                            value_of(*e, st, pick)->0,
                        ) by {
                            assert(st.contains_key(var.key()));
                        }
                    }
                    Ok(*v)
                },
                None => Ok(V::top()),
            },
            IntExpr::Unary { op, exp, .. } => match self.eval(exp) {
                Ok(v) => {
                    let r = V::unary(*op, &v);
                    proof {
                        assert forall|st: State, pick: Picks|
                            self.admits(st) && #[trigger] value_of(*e, st, pick) is Some implies r.contains(
                            value_of(*e, st, pick)->0,
                        ) by {
                            assert(value_of(**exp, st, pick) is Some);
                            assert(v.contains(value_of(**exp, st, pick)->0));
                        }
                    }
                    Ok(r)
                },
                Err(x) => {
                    proof {
                        assert forall|st: State, pick: Picks| self.admits(st) implies #[trigger] value_of(
                            *e,
                            st,
                            pick,
                        ) is None by {
                            assert(value_of(**exp, st, pick) is None);
                        }
                    }
                    Err(x)
                },
            },
            IntExpr::Binary { op, lhs, rhs, .. } => {
                let a = match self.eval(lhs) {
                    Ok(v) => v,
                    Err(x) => {
                        proof {
                            assert forall|st: State, pick: Picks| self.admits(st) implies #[trigger] value_of(
                                *e,
                                st,
                                pick,
                            ) is None by {
                                assert(value_of(**lhs, st, pick) is None);
                            }
                        }
                        return Err(x);
                    },
                };
                let b = match self.eval(rhs) {
                    Ok(v) => v,
                    Err(x) => {
                        proof {
                            assert forall|st: State, pick: Picks| self.admits(st) implies #[trigger] value_of(
                                *e,
                                st,
                                pick,
                            ) is None by {
                                assert(value_of(**rhs, st, pick) is None);
                            }
                        }
                        return Err(x);
                    },
                };
                match V::binary(*op, &a, &b) {
                    Some(r) => {
                        proof {
                            assert forall|st: State, pick: Picks|
                                self.admits(st) && #[trigger] value_of(*e, st, pick) is Some implies r.contains(
                                value_of(*e, st, pick)->0,
                            ) by {
                                assert(value_of(**lhs, st, pick) is Some && value_of(**rhs, st, pick) is Some);
                                assert(a.contains(value_of(**lhs, st, pick)->0));
                                assert(b.contains(value_of(**rhs, st, pick)->0));
                            }
                        }
                        Ok(r)
                    },
                    None => {
                        proof {
                            assert forall|st: State, pick: Picks| self.admits(st) implies #[trigger] value_of(
                                *e,
                                st,
                                pick,
                            ) is None by {
                                if value_of(**rhs, st, pick) is Some {
                                    assert(b.contains(value_of(**rhs, st, pick)->0));
                                }
                            }
                        }
                        Err(AnalysisError::IllegalOperation)
                    },
                }
            },
            IntExpr::Rand { lower, upper, .. } => {
                let a = match self.eval(lower) {
                    Ok(v) => v,
                    Err(x) => {
                        proof {
                            assert forall|st: State, pick: Picks| self.admits(st) implies #[trigger] value_of(
                                *e,
                                st,
                                pick,
                            ) is None by {
                                assert(value_of(**lower, st, pick) is None);
                            }
                        }
                        return Err(x);
                    },
                };
                let b = match self.eval(upper) {
                    Ok(v) => v,
                    Err(x) => {
                        proof {
                            assert forall|st: State, pick: Picks| self.admits(st) implies #[trigger] value_of(
                                *e,
                                st,
                                pick,
                            ) is None by {
                                assert(value_of(**upper, st, pick) is None);
                            }
                        }
                        return Err(x);
                    },
                };
                let r = V::range(&a, &b);
                proof {
                    assert forall|st: State, pick: Picks|
                        self.admits(st) && #[trigger] value_of(*e, st, pick) is Some implies r.contains(
                        value_of(*e, st, pick)->0,
                    ) by {
                        assert(value_of(**lower, st, pick) is Some && value_of(**upper, st, pick) is Some);
                        assert(a.contains(value_of(**lower, st, pick)->0));
                        assert(b.contains(value_of(**upper, st, pick)->0));
                    }
                }
                Ok(r)
            },
        }
    }

    /// Assigns `e` to `s`. Fails, changing nothing, where `s` or a variable
    /// of `e` is out of scope; where a divisor of `e` can only be 0 the
    /// environment becomes unreachable.
    pub fn assign(&mut self, s: &Symbol, e: &IntExpr) -> (r: Result<(), AnalysisError>)
        requires
            old(self).wf(),
        ensures
            final(self).wf(),
            final(self).scope() == old(self).scope(),
            (r == Err::<(), AnalysisError>(AnalysisError::UnknownVariable)) == (!old(self).scope().contains(s.key())
                || !known(*e, old(self).scope())),
            r == Err::<(), AnalysisError>(AnalysisError::UnknownVariable) ==> *final(self) == *old(self),
            r is Ok || r == Err::<(), AnalysisError>(AnalysisError::UnknownVariable) || r == Err::<
                (),
                AnalysisError,
            >(AnalysisError::IllegalOperation),
            old(self).unreachable() ==> final(self).unreachable(),
            r is Ok ==> forall|st: State, pick: Picks|
                old(self).admits(st) && #[trigger] value_of(*e, st, pick) is Some ==> final(self).admits(
                    st.insert(s.key(), value_of(*e, st, pick)->0),
                ),
            r is Ok && !final(self).unreachable() ==> forall|k: Seq<u8>|
                k != s.key() && #[trigger] old(self).scope().contains(k) ==> final(self).values()[k]
                    == old(self).values()[k],
            r == Err::<(), AnalysisError>(AnalysisError::IllegalOperation) ==> final(self).unreachable()
                && forall|st: State, pick: Picks| old(self).admits(st) ==> #[trigger] value_of(*e, st, pick) is None,
            !old(self).unreachable() && old(self).scope().contains(s.key()) && known(*e, old(self).scope()) ==> match abs_eval(*e, old(self).values()) {
                Some(v) => r is Ok && final(self).unreachable() == !nonempty(v) && (!final(self).unreachable()
                    ==> final(self).values() == old(self).values().insert(s.key(), v)),
                None => r == Err::<(), AnalysisError>(AnalysisError::IllegalOperation),
            },
    {
        if !self.vars.mem(s) || !self.knows(e) {
            return Err(AnalysisError::UnknownVariable);
        }
        if self.unreachable {
            return Ok(());
        }
        match self.eval(e) {
            Ok(v) => {
                if v.is_bottom() {
                    self.unreachable = true;
                } else {
                    self.set_value(s, &v);
                    proof {
                        assert forall|st: State, pick: Picks|
                            old(self).admits(st) && #[trigger] value_of(*e, st, pick) is Some implies self.admits(
                            st.insert(s.key(), value_of(*e, st, pick)->0),
                        ) by {
                            let st2 = st.insert(s.key(), value_of(*e, st, pick)->0);
                            assert(st2.dom() =~= self.scope());
                            assert forall|k: Seq<u8>| #[trigger] st2.contains_key(k) implies self.values()[k].contains(st2[k]) by {
                                if k != s.key() {
                                    assert(st.contains_key(k));
                                }
                            }
                        }
                    }
                }
                Ok(())
            },
            Err(x) => {
                self.unreachable = true;
                Err(x)
            },
        }
    }

    /// Refines the environment to the states where `e1 op e2` can hold: the
    /// values of the variables that stand alone on either side are met with
    /// what the comparison leaves them.
    pub fn compare(&self, e1: &IntExpr, op: CompareOp, e2: &IntExpr) -> (r: Result<Env<V>, AnalysisError>)
        requires
            self.wf(),
        ensures
            match compare_shape(self.shape(), *e1, op, *e2) {
                Ok(d) => r matches Ok(g) && same_shape(g.shape(), d),
                Err(x) => r == Err::<Env<V>, AnalysisError>(x),
            },
            match r {
                Ok(g) => {
                    &&& g.wf()
                    &&& g.scope() == self.scope()
                    &&& self.unreachable() ==> g.unreachable()
                    &&& forall|st: State| g.admits(st) ==> self.admits(st)
                    &&& forall|st: State, pick: Picks|
                        self.admits(st) && #[trigger] holds(op, *e1, *e2, st, pick) ==> g.admits(st)
                    &&& !self.unreachable() ==> self.compared(*e1, op, *e2, g)
                },
                Err(x) => {
                    &&& (x == AnalysisError::UnknownVariable && !(known(*e1, self.scope()) && known(
                        *e2,
                        self.scope(),
                    ))) || (x == AnalysisError::IllegalOperation && known(*e1, self.scope()) && known(
                        *e2,
                        self.scope(),
                    ))
                    &&& x == AnalysisError::IllegalOperation ==> !self.unreachable() && (abs_eval(*e1, self.values()) is None
                        || abs_eval(*e2, self.values()) is None)
                    &&& forall|st: State, pick: Picks|
                        self.admits(st) ==> !(#[trigger] value_of(*e1, st, pick) is Some && #[trigger] value_of(
                            *e2,
                            st,
                            pick,
                        ) is Some)
                },
            },
            !self.unreachable() && known(*e1, self.scope()) && known(*e2, self.scope()) ==> (r is Err <==> (
            abs_eval(*e1, self.values()) is None || abs_eval(*e2, self.values()) is None)),
    {
        if !(self.knows(e1) && self.knows(e2)) {
            proof {
                assert forall|st: State, pick: Picks| self.admits(st) implies !(#[trigger] value_of(*e1, st, pick) is Some && #[trigger] value_of(*e2, st, pick) is Some) by {
                    if !known(*e1, self.scope()) {
                        lemma_unknown_no_value(*e1, st, pick);
                    } else {
                        lemma_unknown_no_value(*e2, st, pick);
                    }
                }
            }
            return Err(AnalysisError::UnknownVariable);
        }
        if self.unreachable {
            return Ok(self.duplicate());
        }
        let v1 = match self.eval(e1) {
            Ok(v) => v,
            Err(x) => {
                proof {
                    assert forall|st: State, pick: Picks| self.admits(st) implies !(#[trigger] value_of(*e1, st, pick) is Some && #[trigger] value_of(*e2, st, pick) is Some) by {
                        assert(value_of(*e1, st, pick) is None);
                    }
                }
                return Err(x);
            },
        };
        let v2 = match self.eval(e2) {
            Ok(v) => v,
            Err(x) => {
                proof {
                    assert forall|st: State, pick: Picks| self.admits(st) implies !(#[trigger] value_of(*e1, st, pick) is Some && #[trigger] value_of(*e2, st, pick) is Some) by {
                        assert(value_of(*e2, st, pick) is None);
                    }
                }
                return Err(x);
            },
        };
        let (r1, r2) = V::compare(op, &v1, &v2);
        proof {
            assert forall|st: State, pick: Picks| self.admits(st) && #[trigger] holds(op, *e1, *e2, st, pick) implies r1.contains(
                value_of(*e1, st, pick)->0,
            ) && r2.contains(value_of(*e2, st, pick)->0) by {}
        }
        if r1.is_bottom() || r2.is_bottom() {
            return Ok(self.bottom_of());
        }
        let mut g = self.duplicate();
        if let IntExpr::Ident { var, .. } = e1 {
            if let Some(cur) = g.vars.find(var) {
                let nv = cur.meet(&r1);
                if nv.is_bottom() {
                    proof {
                        assert forall|st: State, pick: Picks|
                            self.admits(st) && #[trigger] holds(op, *e1, *e2, st, pick) implies false by {
                            assert(st.contains_key(var.key()));
                            assert(nv.contains(value_of(*e1, st, pick)->0));
                        }
                    }
                    return Ok(self.bottom_of());
                }
                g.set_value(var, &nv);
                proof {
                    assert(g.scope() =~= self.scope());
                    assert forall|st: State, pick: Picks|
                        self.admits(st) && #[trigger] holds(op, *e1, *e2, st, pick) implies g.admits(st) by {
                        assert(st.contains_key(var.key()));
                        assert(nv.contains(value_of(*e1, st, pick)->0));
                    }
                    assert forall|st: State| g.admits(st) implies self.admits(st) by {
                        assert forall|k: Seq<u8>| #[trigger] st.contains_key(k) implies self.values()[k].contains(st[k]) by {
                            assert(g.values()[k].contains(st[k]));
                        }
                    }
                }
            }
        }
        let ghost g1 = g;
        proof {
            assert(forall|st: State| g1.admits(st) ==> self.admits(st));
            assert(forall|st: State, pick: Picks|
                self.admits(st) && #[trigger] holds(op, *e1, *e2, st, pick) ==> g1.admits(st));
        }
        if let IntExpr::Ident { var, .. } = e2 {
            if let Some(cur) = g.vars.find(var) {
                let nv = cur.meet(&r2);
                if nv.is_bottom() {
                    proof {
                        assert forall|st: State, pick: Picks|
                            self.admits(st) && #[trigger] holds(op, *e1, *e2, st, pick) implies false by {
                            assert(g1.admits(st));
                            assert(st.contains_key(var.key()));
                            assert(nv.contains(value_of(*e2, st, pick)->0));
                        }
                        let c = V::spec_compare(op, v1, v2);
                        let vals = refined(self.values(), *e1, *e2, c.0, c.1);
                        assert(g1.values().contains_key(var.key()));
                        assert(vals.contains_key(var.key()) && vals[var.key()] == nv);
                        assert(!nonempty(vals[var.key()]));
                    }
                    return Ok(self.bottom_of());
                }
                g.set_value(var, &nv);
                proof {
                    assert(g.scope() =~= g1.scope());
                    assert forall|st: State, pick: Picks|
                        self.admits(st) && #[trigger] holds(op, *e1, *e2, st, pick) implies g.admits(st) by {
                        assert(g1.admits(st));
                        assert(st.contains_key(var.key()));
                        assert(nv.contains(value_of(*e2, st, pick)->0));
                    }
                    assert forall|st: State| g.admits(st) implies self.admits(st) by {
                        assert forall|k: Seq<u8>| #[trigger] st.contains_key(k) implies g1.values()[k].contains(st[k]) by {
                            assert(g.values()[k].contains(st[k]));
                        }
                        assert(g1.admits(st));
                    }
                }
            }
        }
        Ok(g)
    }

    /// Refines the environment to the states where `b` can evaluate to `sat`.
    /// Both sides of a conjunction or a disjunction are refined from this
    /// environment, and the results are met or joined.
    pub fn guard(&self, b: &BoolExpr, sat: bool) -> (r: Result<Env<V>, AnalysisError>)
        requires
            self.wf(),
        ensures
            match guard_shape(self.shape(), *b, sat) {
                Ok(d) => r matches Ok(g) && same_shape(g.shape(), d),
                Err(x) => r == Err::<Env<V>, AnalysisError>(x),
            },
            match r {
                Ok(g) => {
                    &&& g.wf()
                    &&& g.scope() == self.scope()
                    &&& self.unreachable() ==> g.unreachable()
                    &&& forall|st: State, pick: Picks|
                        self.admits(st) && #[trigger] truth_of(*b, st, pick) == Some(sat) ==> g.admits(st)
                    &&& forall|st: State| g.admits(st) ==> self.admits(st)
                    &&& *b matches BoolExpr::Compare { op, lhs, rhs, .. } ==> (self.unreachable() || self.compared(
                        lhs,
                        if sat {
                            op
                        } else {
                            negated(op)
                        },
                        rhs,
                        g,
                    ))
                },
                Err(x) => {
                    &&& x == AnalysisError::UnknownVariable || x == AnalysisError::IllegalOperation
                    &&& forall|st: State, pick: Picks| self.admits(st) ==> #[trigger] truth_of(*b, st, pick) is None
                },
            },
            b matches BoolExpr::Const { cst, .. } ==> r matches Ok(g) && g.unreachable() == (
            self.unreachable() || cst != sat),
        decreases b,
    {
        match b {
            BoolExpr::Const { cst, .. } => {
                if *cst == sat {
                    Ok(self.duplicate())
                } else {
                    Ok(self.bottom_of())
                }
            },
            BoolExpr::Unary { exp, .. } => {
                let r = self.guard(exp, !sat);
                proof {
                    if r is Err {
                        assert forall|st: State, pick: Picks| self.admits(st) implies #[trigger] truth_of(*b, st, pick) is None by {
                            assert(truth_of(**exp, st, pick) is None);
                        }
                    }
                    if r is Ok {
                        let g = r->Ok_0;
                        assert forall|st: State, pick: Picks|
                            self.admits(st) && #[trigger] truth_of(*b, st, pick) == Some(sat) implies g.admits(st) by {
                            assert(truth_of(**exp, st, pick) == Some(!sat));
                        }
                    }
                }
                r
            },
            BoolExpr::Binary { op, lhs, rhs, .. } => {
                let gl = match self.guard(lhs, sat) {
                    Ok(g) => g,
                    Err(x) => {
                        proof {
                            assert forall|st: State, pick: Picks| self.admits(st) implies #[trigger] truth_of(*b, st, pick) is None by {
                                assert(truth_of(**lhs, st, pick) is None);
                            }
                        }
                        return Err(x);
                    },
                };
                let gr = match self.guard(rhs, sat) {
                    Ok(g) => g,
                    Err(x) => {
                        proof {
                            assert forall|st: State, pick: Picks| self.admits(st) implies #[trigger] truth_of(*b, st, pick) is None by {
                                assert(truth_of(**rhs, st, pick) is None);
                            }
                        }
                        return Err(x);
                    },
                };
                let both = match op {
                    BoolBinaryOp::And => sat,
                    BoolBinaryOp::Or => !sat,
                };
                if both {
                    let g = gl.meet(&gr);
                    proof {
                        assert forall|st: State, pick: Picks|
                            self.admits(st) && #[trigger] truth_of(*b, st, pick) == Some(sat) implies g.admits(st) by {
                            assert(truth_of(**lhs, st, pick) == Some(sat) && truth_of(**rhs, st, pick) == Some(sat));
                        }
                    }
                    Ok(g)
                } else {
                    let g = gl.join(&gr).meet(self);
                    proof {
                        assert forall|st: State, pick: Picks|
                            self.admits(st) && #[trigger] truth_of(*b, st, pick) == Some(sat) implies g.admits(st) by {
                            assert(truth_of(**lhs, st, pick) is Some && truth_of(**rhs, st, pick) is Some);
                            if truth_of(**lhs, st, pick) == Some(sat) {
                                assert(gl.admits(st));
                            } else {
                                assert(truth_of(**rhs, st, pick) == Some(sat));
                                assert(gr.admits(st));
                            }
                        }
                    }
                    Ok(g)
                }
            },
            BoolExpr::Compare { op, lhs, rhs, .. } => {
                let op2 = if sat {
                    *op
                } else {
                    op.negate()
                };
                let r = self.compare(lhs, op2, rhs);
                proof {
                    if r is Err {
                        assert forall|st: State, pick: Picks| self.admits(st) implies #[trigger] truth_of(*b, st, pick) is None by {
                            assert(!(value_of(*lhs, st, pick) is Some && value_of(*rhs, st, pick) is Some));
                        }
                    }
                    if r is Ok {
                        let g = r->Ok_0;
                        assert forall|st: State, pick: Picks|
                            self.admits(st) && #[trigger] truth_of(*b, st, pick) == Some(sat) implies g.admits(st) by {
                            assert(holds(op2, *lhs, *rhs, st, pick));
                        }
                    }
                }
                r
            },
        }
    }

    /// How `print` writes the abstract value of `s`.
    pub open spec fn print_text(&self, s: Symbol) -> Seq<char> {
        if self.unreachable() {
            "unreachable"@
        } else if self.values().contains_key(s.key()) {
            V::spec_text(self.values()[s.key()])
        } else {
            "undeclared"@
        }
    }

    /// The abstract value of `s`, as text.
    pub fn print(&self, s: &Symbol) -> (r: String)
        requires
            self.wf(),
        ensures
            r@ == self.print_text(*s),
    {
        proof {
            reveal_strlit("unreachable");
            reveal_strlit("undeclared");
        }
        if self.unreachable {
            return "unreachable".to_owned();
        }
        match self.vars.find(s) {
            Some(v) => v.to_text(),
            None => "undeclared".to_owned(),
        }
    }

    /// Gives the variable `s` of the scope the value `v`.
    fn set_value(&mut self, s: &Symbol, v: &V)
        requires
            old(self).wf(),
            v.valid(),
            old(self).unreachable() || nonempty(*v),
        ensures
            final(self).wf(),
            final(self).unreachable() == old(self).unreachable(),
            final(self).values() == if old(self).values().contains_key(s.key()) {
                old(self).values().insert(s.key(), *v)
            } else {
                old(self).values()
            },
    {
        self.vars.replace(s, v);
    }

    /// Marks the environment unreachable where one of its values is empty.
    fn canonicalize(&mut self)
        requires
            old(self).vars.wf(),
            forall|k: Seq<u8>| #[trigger] old(self).vars@.contains_key(k) ==> old(self).vars@[k].valid(),
        ensures
            final(self).wf(),
            final(self).values() == old(self).values(),
            final(self).unreachable() == (old(self).unreachable() || exists|k: Seq<u8>|
                #[trigger] old(self).values().contains_key(k) && !nonempty(old(self).values()[k])),
    {
        if self.unreachable {
            return;
        }
        let check = |k: &Symbol, v: &V| -> (b: bool)
            ensures
                v.valid() ==> (b == nonempty(*v)),
            { !v.is_bottom() };
        let all = self.vars.for_all(check);
        proof {
            crate::map::lemma_bindings_ascending(&self.vars);
        }
        if !all {
            self.unreachable = true;
            proof {
                let b = self.vars.bindings();
                let i = choose|i: int|
                    0 <= i < b.len() && check.ensures((&(#[trigger] b[i]).0, &b[i].1), false);
                assert(self.vars@.contains_key(b[i].0.key()));
            }
        } else {
            proof {
                let b = self.vars.bindings();
                assert forall|k: Seq<u8>| #[trigger] self.vars@.contains_key(k) implies nonempty(
                    self.vars@[k],
                ) by {
                    let i = choose|i: int| 0 <= i < b.len() && b[i].0.key() == k;
                    assert(b[i].1 == self.vars@[k]);
                }
            }
        }
    }
}

} // verus!
