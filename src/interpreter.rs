use vstd::prelude::*;
use vstd::string::StringExecFns;
use crate::ast::{BoolExpr, Program, Span, TNode};
use crate::domain::ValueDomain;
use crate::env::{Env, Picks, Shape, State, abs_eval, guard_shape, join_shape, known, nonempty, same_shape, truth_of, value_of};
use crate::ast::IntExpr;
use crate::error::AnalysisError;
use crate::symbol::Symbol;

verus! {

/// How many narrowing steps follow the ascending phase of a loop.
pub const NARROWING_STEPS: u32 = 3;

/// How many ascending steps a loop may take before the variables that still
/// change are widened to any value; after as many more steps, all are.
pub const MAX_ASCENDING_STEPS: u32 = 1000;

/// The starting values of declared variables, by key.
pub type Inits = spec_fn(Seq<u8>) -> int;

/// The state after declaring the first `n` symbols of `ds` in `st`: a name
/// that is not there yet starts with the value that `init` gives it.
pub open spec fn declared(ds: Seq<Symbol>, n: nat, st: State, init: Inits) -> State
    decreases n,
{
    if n == 0 {
        st
    } else {
        let prev = declared(ds, (n - 1) as nat, st, init);
        let k = ds[n - 1].key();
        if prev.contains_key(k) {
            prev
        } else {
            prev.insert(k, init(k))
        }
    }
}

/// The statement holds no loop.
pub open spec fn loop_free(s: TNode) -> bool
    decreases s, 0int,
{
    match s {
        TNode::While { .. } => false,
        TNode::Block { stmt, .. } => list_loop_free(stmt@, 0),
        TNode::If { then, otherwise, .. } => loop_free(*then) && match otherwise {
            Some(o) => loop_free(*o),
            None => true,
        },
        _ => true,
    }
}

/// The statements of `ss` from position `i` on hold no loop.
pub open spec fn list_loop_free(ss: Seq<TNode>, i: int) -> bool
    decreases ss, ss.len() - i,
{
    if 0 <= i < ss.len() {
        loop_free(ss[i]) && list_loop_free(ss, i + 1)
    } else {
        true
    }
}

/// The state in which a loop-free statement ends when it starts in `st`,
/// with the draws `pick` and the starting values `init`; none where it
/// halts, fails an assertion, or evaluates something without a value.
pub open spec fn run(s: TNode, st: State, pick: Picks, init: Inits) -> Option<State>
    decreases s, 0int,
{
    match s {
        TNode::Assign { lhs, rhs } => if st.contains_key(lhs.key()) && value_of(rhs, st, pick) is Some {
            Some(st.insert(lhs.key(), value_of(rhs, st, pick)->0))
        } else {
            None
        },
        TNode::Block { decl, stmt } => match run_list(
            stmt@,
            0,
            declared(decl@, decl@.len(), st, init),
            pick,
            init,
        ) {
            Some(st2) => Some(st2.restrict(st.dom())),
            None => None,
        },
        TNode::If { cond, then, otherwise } => match truth_of(cond, st, pick) {
            Some(true) => run(*then, st, pick, init),
            Some(false) => match otherwise {
                Some(o) => run(*o, st, pick, init),
                None => Some(st),
            },
            None => None,
        },
        TNode::While { .. } => None,
        TNode::Halt => None,
        TNode::Assert { cond } => if truth_of(cond, st, pick) == Some(true) {
            Some(st)
        } else {
            None
        },
        TNode::Print { .. } => Some(st),
    }
}

/// The state after the statements of `ss` from position `i` on.
pub open spec fn run_list(ss: Seq<TNode>, i: int, st: State, pick: Picks, init: Inits) -> Option<State>
    decreases ss, ss.len() - i,
{
    if 0 <= i < ss.len() {
        match run(ss[i], st, pick, init) {
            Some(st1) => run_list(ss, i + 1, st1, pick, init),
            None => None,
        }
    } else {
        Some(st)
    }
}

/// Declaring only adds keys.
proof fn lemma_declared_dom(ds: Seq<Symbol>, n: nat, st: State, init: Inits)
    ensures
        st.dom().subset_of(declared(ds, n, st, init).dom()),
    decreases n,
{
    if n > 0 {
        lemma_declared_dom(ds, (n - 1) as nat, st, init);
    }
}

/// A statement that runs to its end leaves the variables in scope as they were.
proof fn lemma_run_dom(s: TNode, st: State, pick: Picks, init: Inits)
    ensures
        run(s, st, pick, init) matches Some(st2) ==> st2.dom() == st.dom(),
    decreases s, 0int,
{
    match s {
        TNode::Assign { lhs, rhs } => {
            if run(s, st, pick, init) is Some {
                assert(run(s, st, pick, init)->0.dom() =~= st.dom());
            }
        },
        TNode::Block { decl, stmt } => {
            let st1 = declared(decl@, decl@.len(), st, init);
            lemma_declared_dom(decl@, decl@.len(), st, init);
            lemma_run_list_dom(stmt@, 0, st1, pick, init);
            if run(s, st, pick, init) is Some {
                assert(run(s, st, pick, init)->0.dom() =~= st.dom());
            }
        },
        TNode::If { cond, then, otherwise } => {
            lemma_run_dom(*then, st, pick, init);
            if let Some(o) = otherwise {
                lemma_run_dom(*o, st, pick, init);
            }
        },
        _ => {},
    }
}

proof fn lemma_run_list_dom(ss: Seq<TNode>, i: int, st: State, pick: Picks, init: Inits)
    ensures
        run_list(ss, i, st, pick, init) matches Some(st2) ==> st2.dom() == st.dom(),
    decreases ss, ss.len() - i,
{
    if 0 <= i < ss.len() {
        lemma_run_dom(ss[i], st, pick, init);
        if let Some(st1) = run(ss[i], st, pick, init) {
            lemma_run_list_dom(ss, i + 1, st1, pick, init);
        }
    }
}

/// Every statement of a loop-free list is loop-free.
proof fn lemma_list_loop_free(ss: Seq<TNode>, i: int)
    requires
        0 <= i,
        list_loop_free(ss, i),
    ensures
        forall|j: int| i <= j < ss.len() ==> loop_free(#[trigger] ss[j]),
    decreases ss.len() - i,
{
    if i < ss.len() {
        lemma_list_loop_free(ss, i + 1);
    }
}

/// What an assignment `lhs = rhs` makes of `env`: a variable out of scope is
/// reported and leaves `env` as it was; otherwise a reachable environment
/// gives `lhs` the abstract value of `rhs`, or becomes unreachable where that
/// value is empty or a divisor can only be 0, which is reported.
pub open spec fn assigned<V: ValueDomain>(
    env: Env<V>,
    lhs: Symbol,
    rhs: IntExpr,
    r: Env<V>,
    found: Seq<AnalysisResults>,
) -> bool {
    if !env.scope().contains(lhs.key()) || !known(rhs, env.scope()) {
        r == env && found.contains(AnalysisResults { kind: AnalysisError::UnknownVariable, span: Some(rhs.span()) })
    } else if env.unreachable() {
        r.unreachable()
    } else {
        match abs_eval(rhs, env.values()) {
            Some(v) => r.unreachable() == !nonempty(v) && (!r.unreachable() ==> r.values() == env.values().insert(
                lhs.key(),
                v,
            )),
            None => r.unreachable() && found.contains(
                AnalysisResults { kind: AnalysisError::IllegalOperation, span: Some(rhs.span()) },
            ),
        }
    }
}

/// What filtering an environment of shape `d` by `cond == sat` gives; a
/// condition that cannot be evaluated leaves nothing reachable.
pub open spec fn filter_shape<V: ValueDomain>(d: Shape<V>, cond: BoolExpr, sat: bool) -> Shape<V> {
    match guard_shape(d, cond, sat) {
        Ok(g) => g,
        Err(_) => (true, d.1),
    }
}

/// `y` is closed under the loop `while (cond) body` where the body holds no
/// loop: every run of the body from a state of `y` where `cond` holds ends in
/// a state of `y`.
pub open spec fn post_fixpoint<V: ValueDomain>(y: Env<V>, cond: BoolExpr, body: TNode) -> bool {
    loop_free(body) ==> forall|st: State, pick: Picks, init: Inits|
        y.admits(st) && truth_of(cond, st, pick) == Some(true) && #[trigger] run(body, st, pick, init) is Some
            ==> y.admits(run(body, st, pick, init)->0)
}

/// `r` leaves the loop `while (cond) body` entered with `env`: it is the
/// false-filter of a loop-head environment `y` that holds every state of
/// `env` and is closed under the loop.
pub open spec fn loop_exit<V: ValueDomain>(env: Env<V>, cond: BoolExpr, body: TNode, r: Env<V>) -> bool {
    exists|y: Env<V>|
        #![trigger y.shape()]
        y.wf() && y.scope() == env.scope() && (forall|st: State| env.admits(st) ==> y.admits(st)) && post_fixpoint(
            y,
            cond,
            body,
        ) && same_shape(r.shape(), filter_shape(y.shape(), cond, false)) && (forall|st: State, pick: Picks|
            y.admits(st) && #[trigger] truth_of(cond, st, pick) == Some(false) ==> r.admits(st))
}

/// The state after `n` turns of `while (cond) body` from `st`, turn `i`
/// drawing with `picks(i)` and declaring with `inits(i)`; none where a turn
/// finds `cond` not true or the body does not run to its end.
pub open spec fn iterate(
    cond: BoolExpr,
    body: TNode,
    st: State,
    picks: spec_fn(nat) -> Picks,
    inits: spec_fn(nat) -> Inits,
    n: nat,
) -> Option<State>
    decreases n,
{
    if n == 0 {
        Some(st)
    } else {
        match iterate(cond, body, st, picks, inits, (n - 1) as nat) {
            Some(s) => if truth_of(cond, s, picks((n - 1) as nat)) == Some(true) {
                run(body, s, picks((n - 1) as nat), inits((n - 1) as nat))
            } else {
                None
            },
            None => None,
        }
    }
}

/// A loop left as `loop_exit` states is analysed soundly: every run of the
/// loop from a state of the entry environment that leaves it after `n`
/// turns ends in a state of the result.
pub proof fn lemma_loop_sound<V: ValueDomain>(
    env: Env<V>,
    cond: BoolExpr,
    body: TNode,
    r: Env<V>,
    st: State,
    picks: spec_fn(nat) -> Picks,
    inits: spec_fn(nat) -> Inits,
    n: nat,
)
    requires
        loop_exit(env, cond, body, r),
        loop_free(body),
        env.admits(st),
        iterate(cond, body, st, picks, inits, n) is Some,
        truth_of(cond, iterate(cond, body, st, picks, inits, n)->0, picks(n)) == Some(false),
    ensures
        r.admits(iterate(cond, body, st, picks, inits, n)->0),
{
    let y = choose|y: Env<V>|
        #![trigger y.shape()]
        y.wf() && y.scope() == env.scope() && (forall|st: State| env.admits(st) ==> y.admits(st)) && post_fixpoint(
            y,
            cond,
            body,
        ) && same_shape(r.shape(), filter_shape(y.shape(), cond, false)) && (forall|st: State, pick: Picks|
            y.admits(st) && #[trigger] truth_of(cond, st, pick) == Some(false) ==> r.admits(st));
    lemma_iterate_inside(y, cond, body, st, picks, inits, n);
}

proof fn lemma_iterate_inside<V: ValueDomain>(
    y: Env<V>,
    cond: BoolExpr,
    body: TNode,
    st: State,
    picks: spec_fn(nat) -> Picks,
    inits: spec_fn(nat) -> Inits,
    n: nat,
)
    requires
        post_fixpoint(y, cond, body),
        loop_free(body),
        y.admits(st),
        iterate(cond, body, st, picks, inits, n) is Some,
    ensures
        y.admits(iterate(cond, body, st, picks, inits, n)->0),
    decreases n,
{
    if n > 0 {
        let m = (n - 1) as nat;
        lemma_iterate_inside(y, cond, body, st, picks, inits, m);
        let s = iterate(cond, body, st, picks, inits, m)->0;
        assert(run(body, s, picks(m), inits(m)) is Some);
    }
}

/// `r` is what the test `if (cond) then else otherwise` makes of `env`: the
/// join of a then-result `t` and an else-result `e`. `t` holds every run of
/// `then` from a state of `env` where `cond` holds, and so does `e` for
/// `otherwise` where it fails; without `otherwise`, `e` is the false-filter
/// of `env`.
pub open spec fn branch_join<V: ValueDomain>(
    env: Env<V>,
    cond: BoolExpr,
    then: TNode,
    otherwise: Option<Box<TNode>>,
    r: Env<V>,
) -> bool {
    exists|t: Env<V>, e: Env<V>|
        #![trigger t.shape(), e.shape()]
        {
            &&& t.scope() == env.scope() && e.scope() == env.scope()
            &&& same_shape(r.shape(), join_shape(t.shape(), e.shape()))
            &&& loop_free(then) ==> forall|st: State, pick: Picks, init: Inits|
                env.admits(st) && truth_of(cond, st, pick) == Some(true) && #[trigger] run(then, st, pick, init) is Some
                    ==> t.admits(run(then, st, pick, init)->0)
            &&& match otherwise {
                Some(o) => loop_free(*o) ==> forall|st: State, pick: Picks, init: Inits|
                    env.admits(st) && truth_of(cond, st, pick) == Some(false) && #[trigger] run(*o, st, pick, init)
                        is Some ==> e.admits(run(*o, st, pick, init)->0),
                None => same_shape(e.shape(), filter_shape(env.shape(), cond, false)),
            }
        }
}

/// What analysing `stmt` from `env` gives, `r`, with the findings going from
/// `before` to `after`: the scope is kept, loop-free statements are sound,
/// and each kind of statement has its own effect.
pub open spec fn stmt_effect<V: ValueDomain>(
    stmt: TNode,
    env: Env<V>,
    r: Env<V>,
    before: Seq<AnalysisResults>,
    after: Seq<AnalysisResults>,
) -> bool {
    &&& r.wf()
    &&& r.scope() == env.scope()
    &&& keeps(before, after)
    &&& loop_free(stmt) ==> forall|st: State, pick: Picks, init: Inits|
        env.admits(st) && #[trigger] run(stmt, st, pick, init) is Some ==> r.admits(run(stmt, st, pick, init)->0)
    &&& match stmt {
        TNode::Halt => r == env,
        TNode::Print { .. } => r == env,
        TNode::Assign { lhs, rhs } => assigned(env, lhs, rhs, r, after),
        TNode::Assert { cond } => same_shape(r.shape(), filter_shape(env.shape(), cond, true)) && (after.contains(
            AnalysisResults { kind: AnalysisError::FailedAssert, span: Some(cond.span()) },
        ) <==> (before.contains(AnalysisResults { kind: AnalysisError::FailedAssert, span: Some(cond.span()) })
            || (r.unreachable() && !env.unreachable()))),
        TNode::While { cond, body } => loop_exit(env, cond, *body, r),
        TNode::If { cond, then, otherwise } => branch_join(env, cond, *then, otherwise, r),
        TNode::Block { .. } => true,
    }
}

/// `es` and `fs` follow the statements `ss[0..k]` from `env` and `found`:
/// `es[i + 1]` and `fs[i + 1]` are what statement `i` makes of `es[i]` and
/// `fs[i]`.
pub open spec fn chain<V: ValueDomain>(
    ss: Seq<TNode>,
    es: Seq<Env<V>>,
    fs: Seq<Seq<AnalysisResults>>,
    k: int,
) -> bool {
    &&& 0 <= k <= ss.len()
    &&& es.len() == k + 1
    &&& fs.len() == k + 1
    &&& forall|i: int| 0 <= i < k ==> stmt_effect(#[trigger] ss[i], es[i], es[i + 1], fs[i], fs[i + 1])
}

/// The statements of `ss`, analysed from `env` with findings `before`, end
/// in `r` with findings `after`: they run front to back as a `chain`, to the
/// end, or up to a `halt` or to a statement that only an unreachable
/// environment reaches, which leaves `r` unreachable.
pub open spec fn list_outcome<V: ValueDomain>(
    ss: Seq<TNode>,
    env: Env<V>,
    r: Env<V>,
    before: Seq<AnalysisResults>,
    after: Seq<AnalysisResults>,
) -> bool {
    exists|es: Seq<Env<V>>, fs: Seq<Seq<AnalysisResults>>, k: int|
        #![trigger chain(ss, es, fs, k)]
        {
            &&& chain(ss, es, fs, k)
            &&& es[0] == env
            &&& fs[0] == before
            &&& keeps(fs[k], after)
            &&& k == ss.len() ==> r == es[k]
            &&& k < ss.len() ==> (ss[k] is Halt || es[k].unreachable()) && r.unreachable() && r.values()
                == es[k].values()
        }
}

/// The report line of `print` for its first `n` variables: each as
/// `name : value`, separated by `, `.
pub open spec fn print_line<V: ValueDomain>(vars: Seq<Symbol>, env: Env<V>, n: nat) -> Seq<char>
    decreases n,
{
    if n == 0 {
        Seq::empty()
    } else {
        let prev = print_line(vars, env, (n - 1) as nat);
        (if n > 1 {
            prev + ", "@
        } else {
            prev
        }) + vars[n - 1].name() + " : "@ + env.print_text(vars[n - 1])
    }
}

/// Every finding of `before` is still among `after`.
pub open spec fn keeps(before: Seq<AnalysisResults>, after: Seq<AnalysisResults>) -> bool {
    forall|f: AnalysisResults| before.contains(f) ==> #[trigger] after.contains(f)
}

/// A finding of the analysis and where it was made.
#[derive(Clone, Copy, Debug, PartialEq, Eq, Structural)]
pub struct AnalysisResults {
    pub kind: AnalysisError,
    pub span: Option<Span>,
}

impl AnalysisResults {
    pub fn new(kind: AnalysisError, span: Option<Span>) -> (r: AnalysisResults)
        ensures
            r.kind == kind && r.span == span,
    {
        AnalysisResults { kind, span }
    }

    /// The heading of the finding's report.
    pub fn show(&self) -> (r: String)
        ensures
            r@ == self.kind.spec_name() + " in statement :"@,
    {
        let mut s = self.kind.name().to_string();
        s.append(" in statement :");
        s
    }
}

/// The analyzer: walks a program with an abstract environment, unrolling,
/// widening and narrowing at loops, and collects its findings.
pub struct MonotonicFixpointIterator<V> {
    program: Program,
    unroll: u32,
    delay: u32,
    findings: Vec<AnalysisResults>,
    printed: Vec<String>,
    marker: core::marker::PhantomData<V>,
}

impl<V: ValueDomain> MonotonicFixpointIterator<V> {
    /// An analyzer of `program` that unrolls each loop `unroll` times and
    /// delays widening by `delay` steps.
    pub fn new(program: Program, unroll: u32, delay: u32) -> (r: Self)
        ensures
            r.program() == program@,
            r.unroll() == unroll,
            r.delay() == delay,
            r.findings().len() == 0,
    {
        MonotonicFixpointIterator {
            program,
            unroll,
            delay,
            findings: Vec::new(),
            printed: Vec::new(),
            marker: core::marker::PhantomData,
        }
    }

    /// The program under analysis.
    pub closed spec fn program(&self) -> Seq<TNode> {
        self.program@
    }

    pub closed spec fn unroll(&self) -> u32 {
        self.unroll
    }

    pub closed spec fn delay(&self) -> u32 {
        self.delay
    }

    /// The findings so far, in the order they were made.
    pub closed spec fn findings(&self) -> Seq<AnalysisResults> {
        self.findings@
    }

    /// The findings so far.
    pub fn results(&self) -> (r: &Vec<AnalysisResults>)
        ensures
            r@ == self.findings(),
    {
        &self.findings
    }

    /// The lines that `print` statements produced so far, in order.
    pub closed spec fn output(&self) -> Seq<Seq<char>> {
        self.printed@.map_values(|l: String| l@)
    }

    /// The lines that `print` statements produced, in order.
    pub fn printed(&self) -> (r: &Vec<String>)
        ensures
            r@.map_values(|l: String| l@) == self.output(),
    {
        &self.printed
    }

    /// Records a finding, once.
    fn report(&mut self, kind: AnalysisError, span: Option<Span>)
        ensures
            final(self).findings().contains(AnalysisResults { kind, span }),
            forall|f: AnalysisResults| old(self).findings().contains(f) ==> final(self).findings().contains(f),
            forall|f: AnalysisResults|
                #[trigger] final(self).findings().contains(f) <==> (old(self).findings().contains(f) || f == AnalysisResults {
                    kind,
                    span,
                }),
            final(self).unroll == old(self).unroll,
            final(self).delay == old(self).delay,
            keeps(old(self).findings(), final(self).findings()),
    {
        let f = AnalysisResults { kind, span };
        let mut i: usize = 0;
        while i < self.findings.len()
            invariant
                i <= self.findings@.len(),
                f == (AnalysisResults { kind, span }),
                forall|j: int| 0 <= j < i ==> self.findings@[j] != f,
            decreases self.findings@.len() - i,
        {
            let same_span = match (self.findings[i].span, span) {
                (Some(a), Some(b)) => a.start == b.start && a.end == b.end,
                (None, None) => true,
                _ => false,
            };
            if self.findings[i].kind == kind && same_span {
                assert(self.findings@[i as int] == f);
                assert(self.findings@.contains(f));
                return;
            }
            i = i + 1;
        }
        self.findings.push(f);
        proof {
            assert(self.findings@[self.findings@.len() - 1] == f);
            assert forall|g: AnalysisResults| old(self).findings().contains(g) implies self.findings().contains(g) by {
                let j = choose|j: int| 0 <= j < old(self).findings@.len() && old(self).findings@[j] == g;
                assert(self.findings@[j] == g);
            }
        }
    }

    /// The environment refined by `cond == sat`; a condition that cannot be
    /// evaluated is reported, and the statement it guards is unreachable.
    fn filter(&mut self, cond: &BoolExpr, sat: bool, env: &Env<V>) -> (r: Env<V>)
        requires
            env.wf(),
        ensures
            r.wf(),
            r.scope() == env.scope(),
            forall|st: State, pick: Picks|
                env.admits(st) && #[trigger] truth_of(*cond, st, pick) == Some(sat) ==> r.admits(st),
            forall|st: State| r.admits(st) ==> env.admits(st),
            env.unreachable() ==> r.unreachable(),
            same_shape(r.shape(), filter_shape(env.shape(), *cond, sat)),
            forall|f: AnalysisResults|
                #[trigger] final(self).findings().contains(f) <==> (old(self).findings().contains(f) || (guard_shape(
                    env.shape(),
                    *cond,
                    sat,
                ) matches Err(x) && f == AnalysisResults { kind: x, span: Some(cond.span()) })),
            final(self).unroll == old(self).unroll,
            final(self).delay == old(self).delay,
            keeps(old(self).findings(), final(self).findings()),
    {
        match env.guard(cond, sat) {
            Ok(g) => g,
            Err(kind) => {
                self.report(kind, Some(*cond.get_span()));
                env.bottom_of()
            },
        }
    }

    /// The environment after `stmt`, from `env`.
    fn eval_stmt(&mut self, stmt: &TNode, env: Env<V>) -> (r: Env<V>)
        requires
            env.wf(),
        ensures
            r.wf(),
            r.scope() == env.scope(),
            loop_free(*stmt) ==> forall|st: State, pick: Picks, init: Inits|
                env.admits(st) && #[trigger] run(*stmt, st, pick, init) is Some ==> r.admits(
                    run(*stmt, st, pick, init)->0,
                ),
            final(self).unroll == old(self).unroll,
            final(self).delay == old(self).delay,
            keeps(old(self).findings(), final(self).findings()),
            *stmt is Halt ==> r == env,
            *stmt matches TNode::If { cond, then, otherwise } ==> branch_join(env, cond, *then, otherwise, r),
            *stmt matches TNode::While { cond, body } ==> loop_exit(env, cond, *body, r),
            *stmt is Print ==> r == env,
            *stmt matches TNode::Print { vars } ==> final(self).output() == if env.unreachable() {
                old(self).output()
            } else {
                old(self).output().push(print_line(vars@, env, vars@.len()))
            },
            *stmt matches TNode::Assign { lhs, rhs } ==> assigned(env, lhs, rhs, r, final(self).findings()),
            *stmt matches TNode::Assert { cond } ==> same_shape(r.shape(), filter_shape(env.shape(), cond, true)) && (
            final(self).findings().contains(
                AnalysisResults { kind: AnalysisError::FailedAssert, span: Some(cond.span()) },
            ) <==> (old(self).findings().contains(
                AnalysisResults { kind: AnalysisError::FailedAssert, span: Some(cond.span()) },
            ) || (r.unreachable() && !env.unreachable()))),
            env.unreachable() && (*stmt is Assign || *stmt is Assert || *stmt is Halt) ==> r.unreachable(),
            stmt_effect(*stmt, env, r, old(self).findings(), final(self).findings()),
        decreases *stmt, 1nat,
    {
        match stmt {
            TNode::Assign { lhs, rhs } => {
                let mut next = env.duplicate();
                match next.assign(lhs, rhs) {
                    Ok(()) => {
                        proof {
                            assert forall|st: State, pick: Picks, init: Inits|
                                env.admits(st) && #[trigger] run(*stmt, st, pick, init) is Some implies next.admits(
                                run(*stmt, st, pick, init)->0,
                            ) by {
                                assert(value_of(*rhs, st, pick) is Some);
                            }
                        }
                        next
                    },
                    Err(AnalysisError::UnknownVariable) => {
                        self.report(AnalysisError::UnknownVariable, Some(*rhs.get_span()));
                        proof {
                            assert forall|st: State, pick: Picks, init: Inits|
                                env.admits(st) && #[trigger] run(*stmt, st, pick, init) is Some implies env.admits(
                                run(*stmt, st, pick, init)->0,
                            ) by {
                                if known(*rhs, env.scope()) {
                                    assert(!st.contains_key(lhs.key()));
                                } else {
                                    crate::env::lemma_unknown_no_value(*rhs, st, pick);
                                }
                            }
                        }
                        env
                    },
                    Err(kind) => {
                        self.report(kind, Some(*rhs.get_span()));
                        proof {
                            assert forall|st: State, pick: Picks, init: Inits|
                                env.admits(st) && #[trigger] run(*stmt, st, pick, init) is Some implies next.admits(
                                run(*stmt, st, pick, init)->0,
                            ) by {
                                assert(value_of(*rhs, st, pick) is None);
                            }
                        }
                        next
                    },
                }
            },
            TNode::Block { .. } => self.eval_block(stmt, env),
            TNode::If { cond, then, otherwise } => {
                let then_env = self.filter(cond, true, &env);
                let else_env = self.filter(cond, false, &env);
                let ghost else_in = else_env;
                let then_out = self.eval_stmt(then, then_env);
                let else_out = match otherwise {
                    Some(o) => self.eval_stmt(o, else_env),
                    None => else_env,
                };
                let r = then_out.join(&else_out);
                proof {
                    assert(then_out.shape() == then_out.shape() && else_out.shape() == else_out.shape());
                    if loop_free(**then) {
                        assert forall|st: State, pick: Picks, init: Inits|
                            env.admits(st) && truth_of(*cond, st, pick) == Some(true) && #[trigger] run(**then, st, pick, init) is Some
                            implies then_out.admits(run(**then, st, pick, init)->0) by {
                            assert(then_env.admits(st));
                        }
                    }
                    match otherwise {
                        Some(o) => {
                            if loop_free(**o) {
                                assert forall|st: State, pick: Picks, init: Inits|
                                    env.admits(st) && truth_of(*cond, st, pick) == Some(false) && #[trigger] run(**o, st, pick, init) is Some
                                    implies else_out.admits(run(**o, st, pick, init)->0) by {
                                    assert(else_in.admits(st));
                                }
                            }
                        },
                        None => {},
                    }
                }
                proof {
                    if loop_free(*stmt) {
                        assert forall|st: State, pick: Picks, init: Inits|
                            env.admits(st) && #[trigger] run(*stmt, st, pick, init) is Some implies r.admits(
                            run(*stmt, st, pick, init)->0,
                        ) by {
                            if truth_of(*cond, st, pick) == Some(true) {
                                assert(then_env.admits(st));
                                assert(then_out.admits(run(**then, st, pick, init)->0));
                            } else {
                                assert(truth_of(*cond, st, pick) == Some(false));
                                assert(else_in.admits(st));
                                match otherwise {
                                    Some(o) => {
                                        assert(else_out.admits(run(**o, st, pick, init)->0));
                                    },
                                    None => {},
                                }
                            }
                        }
                    }
                }
                r
            },
            TNode::While { .. } => self.eval_while(stmt, env),
            TNode::Halt => env,
            TNode::Assert { cond } => {
                let ghost f0 = self.findings();
                let refined = self.filter(cond, true, &env);
                let ghost fa = AnalysisResults { kind: AnalysisError::FailedAssert, span: Some(cond.span()) };
                proof {
                    match guard_shape(env.shape(), *cond, true) {
                        Ok(_) => {},
                        Err(x) => {
                            crate::env::lemma_guard_error_kind(env.shape(), *cond, true);
                        },
                    }
                    assert(self.findings().contains(fa) == f0.contains(fa));
                }
                if refined.is_bottom() && !env.is_bottom() {
                    self.report(AnalysisError::FailedAssert, Some(*cond.get_span()));
                }
                proof {
                    assert forall|st: State, pick: Picks, init: Inits|
                        env.admits(st) && #[trigger] run(*stmt, st, pick, init) is Some implies refined.admits(
                        run(*stmt, st, pick, init)->0,
                    ) by {
                        assert(truth_of(*cond, st, pick) == Some(true));
                    }
                }
                refined
            },
            TNode::Print { vars } => {
                if !env.is_bottom() {
                    proof {
                        reveal_strlit(", ");
                        reveal_strlit(" : ");
                    }
                    let mut line = String::new();
                    let mut i: usize = 0;
                    while i < vars.len()
                        invariant
                            env.wf(),
                            i <= vars@.len(),
                            line@ == print_line(vars@, env, i as nat),
                        decreases vars@.len() - i,
                    {
                        if i > 0 {
                            line.append(", ");
                        }
                        line.append(vars[i].get_name());
                        line.append(" : ");
                        let text = env.print(&vars[i]);
                        line.append(text.as_str());
                        i = i + 1;
                        proof {
                            assert(line@ =~= print_line(vars@, env, i as nat));
                        }
                    }
                    let ghost before = self.printed@;
                    self.printed.push(line);
                    proof {
                        assert(self.output() =~= old(self).output().push(print_line(vars@, env, vars@.len())));
                    }
                }
                env
            },
        }
    }

    /// A block: its declarations enter the scope, its statements run in
    /// order, and the declarations leave the scope at its end. A name that is
    /// already in scope is not declared again. Where the scope cannot grow,
    /// every variable of the enclosing scope may hold any value afterwards.
    fn eval_block(&mut self, stmt: &TNode, env: Env<V>) -> (r: Env<V>)
        requires
            env.wf(),
            stmt is Block,
        ensures
            r.wf(),
            r.scope() == env.scope(),
            final(self).unroll == old(self).unroll,
            final(self).delay == old(self).delay,
            keeps(old(self).findings(), final(self).findings()),
            loop_free(*stmt) ==> forall|st: State, pick: Picks, init: Inits|
                env.admits(st) && #[trigger] run(*stmt, st, pick, init) is Some ==> r.admits(
                    run(*stmt, st, pick, init)->0,
                ),
        decreases *stmt, 0nat,
    {
        let (decl, body) = match stmt {
            TNode::Block { decl, stmt: body } => (decl, body),
            _ => {
                return env;
            },
        };
        proof {
            assert(decreases_to!(*stmt => *body));
            assert(decreases_to!(*body => body@));
        }
        let ghost outer = env.scope();
        let ghost env0 = env;
        let fallback = env.top_of();
        let mut inner = env;
        let mut added: Vec<&Symbol> = Vec::new();
        let mut i: usize = 0;
        while i < decl.len()
            invariant
                inner.wf(),
                env0 == env,
                env0.wf(),
                env0.scope() == outer,
                fallback.wf(),
                fallback.scope() == outer,
                forall|st: State| st.dom() == outer ==> fallback.admits(st),
                i <= decl@.len(),
                forall|j: int| 0 <= j < added@.len() ==> !outer.contains(#[trigger] added@[j].key()),
                forall|j: int, k: int| 0 <= j < k < added@.len() ==> #[trigger] added@[j].key() != #[trigger] added@[k].key(),
                forall|q: Seq<u8>| #[trigger] inner.scope().contains(q) <==> (outer.contains(q) || exists|j: int|
                    0 <= j < added@.len() && added@[j].key() == q),
                forall|st: State, init: Inits|
                    env0.admits(st) ==> inner.admits(#[trigger] declared(decl@, i as nat, st, init)),
                self.unroll == old(self).unroll,
                self.delay == old(self).delay,
                keeps(old(self).findings(), self.findings()),
            decreases decl@.len() - i,
        {
            let d = &decl[i];
            let ghost before = inner.scope();
            let ghost inner0 = inner;
            let ghost i0 = i;
            if !inner.declares(d) {
                match inner.add_variable(d) {
                    Ok(()) => {
                        let ghost prev = added@;
                        added.push(d);
                        proof {
                            let n = added@.len() - 1;
                            assert(added@[n] == d);
                            assert forall|q: Seq<u8>| #[trigger] inner.scope().contains(q) <==> (outer.contains(q) || exists|j: int|
                                0 <= j < added@.len() && added@[j].key() == q) by {
                                if q == d.key() {
                                    assert(added@[n].key() == q);
                                } else if inner.scope().contains(q) {
                                    assert(before.contains(q));
                                    if !outer.contains(q) {
                                        let j = choose|j: int| 0 <= j < prev.len() && prev[j].key() == q;
                                        assert(added@[j] == prev[j]);
                                    }
                                } else {
                                    if exists|j: int| 0 <= j < added@.len() && added@[j].key() == q {
                                        let j = choose|j: int| 0 <= j < added@.len() && added@[j].key() == q;
                                        assert(j < n);
                                        assert(before.contains(q));
                                    }
                                }
                            }
                            assert forall|st: State, init: Inits|
                                env0.admits(st) implies inner.admits(#[trigger] declared(decl@, (i + 1) as nat, st, init)) by {
                                let prevst = declared(decl@, i as nat, st, init);
                                assert(inner0.admits(prevst));
                                assert(!prevst.contains_key(d.key()));
                                let st1 = prevst.insert(d.key(), init(d.key()));
                                assert(declared(decl@, (i + 1) as nat, st, init) == st1);
                                assert(st1.dom() =~= inner.scope());
                                assert forall|k: Seq<u8>| #[trigger] st1.contains_key(k) implies inner.values()[k].contains(st1[k]) by {
                                    if k != d.key() {
                                        assert(prevst.contains_key(k));
                                    }
                                }
                            }
                        }
                    },
                    Err(_) => {
                        proof {
                            assert forall|st: State, pick: Picks, init: Inits|
                                env0.admits(st) && #[trigger] run(*stmt, st, pick, init) is Some implies fallback.admits(
                                run(*stmt, st, pick, init)->0,
                            ) by {
                                lemma_run_dom(*stmt, st, pick, init);
                            }
                        }
                        return fallback;
                    },
                }
            } else {
                proof {
                    assert forall|st: State, init: Inits|
                        env0.admits(st) implies inner.admits(#[trigger] declared(decl@, (i + 1) as nat, st, init)) by {
                        let prevst = declared(decl@, i as nat, st, init);
                        assert(inner0.admits(prevst));
                        assert(prevst.contains_key(d.key()));
                    }
                }
            }
            i = i + 1;
            proof {
                assert forall|st: State, init: Inits|
                    env0.admits(st) implies inner.admits(#[trigger] declared(decl@, i as nat, st, init)) by {
                    assert(inner.admits(declared(decl@, (i0 + 1) as nat, st, init)));
                }
            }
        }
        let ghost inner_end = inner;
        let mut out = self.eval_stmt_list(body, inner);
        let ghost out0 = out;
        let mut k: usize = 0;
        proof {
            assert forall|st2: State| out0.admits(st2) implies out.admits(st2.restrict(out.scope())) by {
                assert(st2.restrict(out.scope()) =~= st2);
            }
        }
        while k < added.len()
            invariant
                out.wf(),
                k <= added@.len(),
                out.unreachable() == out0.unreachable(),
                forall|j: int| 0 <= j < added@.len() ==> !outer.contains(#[trigger] added@[j].key()),
                forall|j: int, m: int| 0 <= j < m < added@.len() ==> #[trigger] added@[j].key() != #[trigger] added@[m].key(),
                forall|q: Seq<u8>| #[trigger] out.scope().contains(q) <==> (outer.contains(q) || exists|j: int|
                    k <= j < added@.len() && added@[j].key() == q),
                forall|q: Seq<u8>| #[trigger] out.scope().contains(q) ==> out0.scope().contains(q) && out.values()[q] == out0.values()[q],
            decreases added@.len() - k,
        {
            let ghost before = out.scope();
            out.remove_variable(added[k]);
            proof {
                assert forall|q: Seq<u8>| #[trigger] out.scope().contains(q) <==> (outer.contains(q) || exists|j: int|
                    k + 1 <= j < added@.len() && added@[j].key() == q) by {
                    if q != added@[k as int].key() && before.contains(q) && !outer.contains(q) {
                        let j = choose|j: int| k <= j < added@.len() && added@[j].key() == q;
                        assert(j != k);
                    }
                    if exists|j: int| k + 1 <= j < added@.len() && added@[j].key() == q {
                        let j = choose|j: int| k + 1 <= j < added@.len() && added@[j].key() == q;
                        assert(added@[k as int].key() != added@[j].key());
                    }
                }
            }
            k = k + 1;
        }
        proof {
            assert(out.scope() =~= outer);
        }
        proof {
            if loop_free(*stmt) {
            assert(list_loop_free(body@, 0));
            assert forall|st: State, pick: Picks, init: Inits|
                env0.admits(st) && #[trigger] run(*stmt, st, pick, init) is Some implies out.admits(
                run(*stmt, st, pick, init)->0,
            ) by {
                let st1 = declared(decl@, decl@.len(), st, init);
                assert(inner_end.admits(st1));
                let st2 = run_list(body@, 0, st1, pick, init)->0;
                assert(out0.admits(st2));
                let res = st2.restrict(st.dom());
                assert(res == run(*stmt, st, pick, init)->0);
                assert(res.dom() =~= outer);
                assert forall|q: Seq<u8>| #[trigger] res.contains_key(q) implies out.values()[q].contains(res[q]) by {
                    assert(st2.contains_key(q));
                }
            }
            }
        }
        out
    }

    /// The statements of a list in order. After a `halt`, or once the
    /// environment of a list that was entered reachable becomes unreachable,
    /// the rest of the list cannot run: its first statement is reported as
    /// dead code.
    fn eval_stmt_list(&mut self, stmts: &Vec<TNode>, env: Env<V>) -> (r: Env<V>)
        requires
            env.wf(),
        ensures
            r.wf(),
            r.scope() == env.scope(),
            final(self).unroll == old(self).unroll,
            final(self).delay == old(self).delay,
            keeps(old(self).findings(), final(self).findings()),
            list_loop_free(stmts@, 0) ==> forall|st: State, pick: Picks, init: Inits|
                env.admits(st) && #[trigger] run_list(stmts@, 0, st, pick, init) is Some ==> r.admits(
                    run_list(stmts@, 0, st, pick, init)->0,
                ),
            (exists|i: int| 0 <= i && i + 1 < stmts@.len() && #[trigger] stmts@[i] is Halt) ==> exists|j: int|
                0 < j < stmts@.len() && #[trigger] final(self).findings().contains(
                    AnalysisResults { kind: AnalysisError::DeadCode, span: stmts@[j].span() },
                ),
            (exists|i: int| 0 <= i < stmts@.len() && #[trigger] stmts@[i] is Halt) ==> r.unreachable(),
            list_outcome(stmts@, env, r, old(self).findings(), final(self).findings()),
        decreases stmts@, 0nat,
    {
        let ghost scope = env.scope();
        let ghost env0 = env;
        let ghost free = list_loop_free(stmts@, 0);
        proof {
            if free {
                lemma_list_loop_free(stmts@, 0);
            }
        }
        let entered = !env.is_bottom();
        let ghost mut es: Seq<Env<V>> = seq![env];
        let ghost mut fs: Seq<Seq<AnalysisResults>> = seq![self.findings()];
        let mut cur = env;
        let mut i: usize = 0;
        while i < stmts.len()
            invariant
                cur.wf(),
                cur.scope() == scope,
                env0 == env,
                scope == env0.scope(),
                i <= stmts@.len(),
                self.unroll == old(self).unroll,
                self.delay == old(self).delay,
                keeps(old(self).findings(), self.findings()),
                free == list_loop_free(stmts@, 0),
                free ==> forall|j: int| 0 <= j < stmts@.len() ==> loop_free(#[trigger] stmts@[j]),
                forall|j: int| 0 <= j < i ==> !(#[trigger] stmts@[j] is Halt),
                entered == !env0.unreachable(),
                i == 0 ==> cur.unreachable() == env0.unreachable(),
                chain(stmts@, es, fs, i as int),
                es[i as int] == cur,
                fs[i as int] == self.findings(),
                es[0] == env0,
                fs[0] == old(self).findings(),
                free ==> forall|st: State, pick: Picks, init: Inits|
                    env0.admits(st) && #[trigger] run_list(stmts@, 0, st, pick, init) is Some ==> exists|si: State|
                        cur.admits(si) && run_list(stmts@, i as int, si, pick, init) == run_list(stmts@, 0, st, pick, init),
            decreases stmts@.len() - i,
        {
            let s = &stmts[i];
            proof {
                assert(decreases_to!(stmts@ => stmts@[i as int]));
            }
            if let TNode::Halt = s {
                let ghost cur0 = cur;
                cur = cur.bottom_of();
                assert(cur.scope() == scope);
                if i + 1 < stmts.len() {
                    let span = match stmts[i + 1].get_span() {
                        Some(sp) => Some(*sp),
                        None => None,
                    };
                    self.report(AnalysisError::DeadCode, span);
                }
                proof {
                    if free {
                        assert forall|st: State, pick: Picks, init: Inits|
                            env0.admits(st) && #[trigger] run_list(stmts@, 0, st, pick, init) is Some implies cur.admits(
                            run_list(stmts@, 0, st, pick, init)->0,
                        ) by {
                            let si = choose|si: State|
                                cur0.admits(si) && run_list(stmts@, i as int, si, pick, init) == run_list(stmts@, 0, st, pick, init);
                            assert(run(stmts@[i as int], si, pick, init) is None);
                        }
                    }
                }
                assert(cur.scope() == env0.scope());
                proof {
                    assert(chain(stmts@, es, fs, i as int) && es[0] == env && fs[0] == old(self).findings() && keeps(
                        fs[i as int],
                        self.findings(),
                    ) && (stmts@[i as int] is Halt || es[i as int].unreachable()) && cur.unreachable()
                        && cur.values() == es[i as int].values());
                }
                return cur;
            }
            if entered && cur.is_bottom() {
                let span = match s.get_span() {
                    Some(sp) => Some(*sp),
                    None => None,
                };
                self.report(AnalysisError::DeadCode, span);
                proof {
                    if free {
                        assert forall|st: State, pick: Picks, init: Inits|
                            env0.admits(st) && #[trigger] run_list(stmts@, 0, st, pick, init) is Some implies cur.admits(
                            run_list(stmts@, 0, st, pick, init)->0,
                        ) by {
                            let si = choose|si: State|
                                cur.admits(si) && run_list(stmts@, i as int, si, pick, init) == run_list(stmts@, 0, st, pick, init);
                        }
                    }
                    assert(chain(stmts@, es, fs, i as int) && es[0] == env && fs[0] == old(self).findings() && keeps(
                        fs[i as int],
                        self.findings(),
                    ) && (stmts@[i as int] is Halt || es[i as int].unreachable()) && cur.unreachable()
                        && cur.values() == es[i as int].values());
                }
                return cur;
            }
            let ghost cur0 = cur;
            let ghost f_before = self.findings();
            cur = self.eval_stmt(s, cur);
            proof {
                let es2 = es.push(cur);
                let fs2 = fs.push(self.findings());
                assert forall|j: int| 0 <= j < i + 1 implies stmt_effect(#[trigger] stmts@[j], es2[j], es2[j + 1], fs2[j], fs2[j + 1]) by {
                    if j < i {
                        assert(stmt_effect(stmts@[j], es[j], es[j + 1], fs[j], fs[j + 1]));
                    }
                }
                es = es2;
                fs = fs2;
                if free {
                    assert forall|st: State, pick: Picks, init: Inits|
                        env0.admits(st) && #[trigger] run_list(stmts@, 0, st, pick, init) is Some implies exists|si: State|
                        cur.admits(si) && run_list(stmts@, i + 1, si, pick, init) == run_list(stmts@, 0, st, pick, init) by {
                        let si = choose|si: State|
                            cur0.admits(si) && run_list(stmts@, i as int, si, pick, init) == run_list(stmts@, 0, st, pick, init);
                        let s1 = run(stmts@[i as int], si, pick, init)->0;
                        assert(run(stmts@[i as int], si, pick, init) is Some);
                        assert(cur.admits(s1));
                        assert(run_list(stmts@, i + 1, s1, pick, init) == run_list(stmts@, 0, st, pick, init));
                    }
                }
            }
            i = i + 1;
        }
        proof {
            if free {
                assert forall|st: State, pick: Picks, init: Inits|
                    env0.admits(st) && #[trigger] run_list(stmts@, 0, st, pick, init) is Some implies cur.admits(
                    run_list(stmts@, 0, st, pick, init)->0,
                ) by {
                    let si = choose|si: State|
                        cur.admits(si) && run_list(stmts@, i as int, si, pick, init) == run_list(stmts@, 0, st, pick, init);
                }
            }
            assert(chain(stmts@, es, fs, i as int) && es[0] == env && fs[0] == old(self).findings() && keeps(
                fs[i as int],
                self.findings(),
            ) && cur == es[i as int]);
        }
        cur
    }

    /// A loop: unrolling, then an ascending phase with delayed widening up
    /// to a post-fixpoint, then a few narrowing steps; the loop is left in
    /// the states where its condition fails.
    fn eval_while(&mut self, stmt: &TNode, env: Env<V>) -> (r: Env<V>)
        requires
            env.wf(),
        ensures
            r.wf(),
            r.scope() == env.scope(),
            final(self).unroll == old(self).unroll,
            final(self).delay == old(self).delay,
            keeps(old(self).findings(), final(self).findings()),
            *stmt matches TNode::While { cond, body } ==> loop_exit(env, cond, *body, r),
        decreases *stmt, 0nat,
    {
        let (cond, body) = match stmt {
            TNode::While { cond, body } => (cond, body),
            _ => {
                return env;
            },
        };
        proof {
            assert(decreases_to!(*stmt => **body));
        }
        let ghost scope = env.scope();
        let mut head = env.duplicate();
        let mut i: u32 = 0;
        while i < self.unroll
            invariant
                head.wf(),
                head.scope() == scope,
                env.wf(),
                env.scope() == scope,
                self.unroll == old(self).unroll,
                self.delay == old(self).delay,
                keeps(old(self).findings(), self.findings()),
                decreases_to!(*stmt => **body),
                forall|st: State| env.admits(st) ==> head.admits(st),
            decreases self.unroll - i,
        {
            let inside = self.filter(cond, true, &head);
            let after = self.eval_stmt(body, inside);
            head = head.join(&after);
            i = i + 1;
        }
        let mut k: u32 = 0;
        let mut stable = false;
        let mut forced = false;
        while !stable && k < MAX_ASCENDING_STEPS
            invariant
                stable ==> post_fixpoint(head, *cond, **body),
                head.wf(),
                head.scope() == scope,
                env.wf(),
                env.scope() == scope,
                self.unroll == old(self).unroll,
                self.delay == old(self).delay,
                keeps(old(self).findings(), self.findings()),
                decreases_to!(*stmt => **body),
                forall|st: State| env.admits(st) ==> head.admits(st),
            decreases (if forced { 0int } else { 1int }), MAX_ASCENDING_STEPS - k,
        {
            let inside = self.filter(cond, true, &head);
            let after = self.eval_stmt(body, inside);
            let next = if k < self.delay {
                head.join(&after)
            } else {
                head.widen(&after)
            };
            if next.subset(&head) {
                stable = true;
                proof {
                    if loop_free(**body) {
                        assert forall|st: State, pick: Picks, init: Inits|
                            head.admits(st) && truth_of(*cond, st, pick) == Some(true) && #[trigger] run(**body, st, pick, init) is Some
                            implies head.admits(run(**body, st, pick, init)->0) by {
                            assert(inside.admits(st));
                            assert(after.admits(run(**body, st, pick, init)->0));
                            assert(next.admits(run(**body, st, pick, init)->0));
                        }
                    }
                }
            } else if k + 1 == MAX_ASCENDING_STEPS && !forced {
                head = head.widen_changed(&next);
                forced = true;
                k = 0;
            } else {
                head = next;
            }
            k = k + 1;
        }
        if !stable {
            head = head.top_of();
            proof {
                assert forall|st: State, pick: Picks, init: Inits|
                    head.admits(st) && truth_of(*cond, st, pick) == Some(true) && #[trigger] run(**body, st, pick, init) is Some
                    implies head.admits(run(**body, st, pick, init)->0) by {
                    lemma_run_dom(**body, st, pick, init);
                }
            }
        }
        let mut n: u32 = 0;
        while n < NARROWING_STEPS
            invariant
                head.wf(),
                head.scope() == scope,
                env.wf(),
                env.scope() == scope,
                self.unroll == old(self).unroll,
                self.delay == old(self).delay,
                keeps(old(self).findings(), self.findings()),
                decreases_to!(*stmt => **body),
                forall|st: State| env.admits(st) ==> head.admits(st),
                post_fixpoint(head, *cond, **body),
            decreases NARROWING_STEPS - n,
        {
            let inside = self.filter(cond, true, &head);
            let after = self.eval_stmt(body, inside);
            let next = head.narrow(&env.join(&after));
            let inside2 = self.filter(cond, true, &next);
            let after2 = self.eval_stmt(body, inside2);
            let closed = env.join(&after2).subset(&next);
            if head.subset(&next) || !closed {
                n = NARROWING_STEPS;
            } else {
                proof {
                    if loop_free(**body) {
                        assert forall|st: State, pick: Picks, init: Inits|
                            next.admits(st) && truth_of(*cond, st, pick) == Some(true) && #[trigger] run(**body, st, pick, init) is Some
                            implies next.admits(run(**body, st, pick, init)->0) by {
                            assert(inside2.admits(st));
                            assert(after2.admits(run(**body, st, pick, init)->0));
                        }
                    }
                    assert forall|st: State| env.admits(st) implies next.admits(st) by {}
                }
                head = next;
                n = n + 1;
            }
        }
        let r = self.filter(cond, false, &head);
        proof {
            assert(head.wf() && head.scope() == env.scope() && (forall|st: State| env.admits(st) ==> head.admits(st))
                && post_fixpoint(head, *cond, **body) && same_shape(r.shape(), filter_shape(head.shape(), *cond, false)));
            assert(forall|st: State, pick: Picks|
                head.admits(st) && #[trigger] truth_of(*cond, st, pick) == Some(false) ==> r.admits(st));
        }
        r
    }

    /// Analyzes the program from the empty environment and gives the
    /// environment at its end; the findings are collected on the way.
    ///
    /// For a program without loops the result is sound: every run of the
    /// program from no variables, whatever `rand` draws and whatever values
    /// fresh declarations start with, ends in a state that it admits.
    pub fn eval_prog(&mut self) -> (r: Env<V>)
        ensures
            r.wf(),
            final(self).program() == old(self).program(),
            final(self).unroll() == old(self).unroll(),
            final(self).delay() == old(self).delay(),
            keeps(old(self).findings(), final(self).findings()),
            (exists|i: int| 0 <= i && i + 1 < old(self).program().len() && #[trigger] old(self).program()[i] is Halt)
                ==> exists|j: int|
                0 < j < old(self).program().len() && #[trigger] final(self).findings().contains(
                    AnalysisResults { kind: AnalysisError::DeadCode, span: old(self).program()[j].span() },
                ),
            exists|e0: Env<V>|
                #![trigger e0.shape()]
                e0.wf() && e0.shape() == (false, Map::<Seq<u8>, V>::empty()) && list_outcome(
                    old(self).program(),
                    e0,
                    r,
                    old(self).findings(),
                    final(self).findings(),
                ),
            list_loop_free(old(self).program(), 0) ==> forall|pick: Picks, init: Inits|
                #[trigger] run_list(old(self).program(), 0, Map::empty(), pick, init) is Some ==> r.admits(
                    run_list(old(self).program(), 0, Map::empty(), pick, init)->0,
                ),
    {
        let mut program: Program = Vec::new();
        core::mem::swap(&mut program, &mut self.program);
        let start: Env<V> = Env::new();
        proof {
            assert(start.admits(Map::empty())) by {
                assert(Map::<Seq<u8>, int>::empty().dom() =~= start.scope());
            }
        }
        let ghost e0 = start;
        let r = self.eval_stmt_list(&program, start);
        proof {
            assert(e0.shape() =~= (false, Map::<Seq<u8>, V>::empty()));
        }
        core::mem::swap(&mut program, &mut self.program);
        r
    }
}

} // verus!
