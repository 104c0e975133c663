//! The constraint system: an append-only sequence of rows (constraints,
//! assignments, hints) with an incremental scheduler that derives an
//! evaluation order, and a worklist solver that computes a concrete witness.
use vstd::prelude::*;
use num_bigint::BigUint;

use crate::bigint::{big, big_clone, big_eq, big_from_u64};
use crate::expr::{
    eq_holds, eval_in, expr_vars, first_unassigned, isolate, mentions, Equation, ExprVal, Gate,
    Node, SymExpr,
};
use crate::varmap::{seq_names, names_contain, clone_names, VarMap};
use crate::CircuitError;

verus! {

/// One scheduled row: a recorded constraint, a derived assignment of an
/// expression to a variable, or a hint filled in by an external computation.
pub enum Row {
    Constraint(Equation),
    Assignment(String, Node),
    Hint(String, String, Vec<String>),
}

/// The mathematical reading of a row.
pub enum RowView {
    Constraint(SymExpr, SymExpr),
    Assignment(Seq<char>, SymExpr),
    Hint(Seq<char>, Seq<char>, Seq<Seq<char>>),
}

impl View for Row {
    type V = RowView;

    open spec fn view(&self) -> RowView {
        match self {
            Row::Constraint(eq) => RowView::Constraint(eq.lhs@, eq.rhs@),
            Row::Assignment(name, e) => RowView::Assignment(name@, e@),
            Row::Hint(name, comp, args) => RowView::Hint(name@, comp@, seq_names(args@)),
        }
    }
}

impl Clone for Row {
    /// A structural copy with the same mathematical reading.
    fn clone(&self) -> (r: Self)
        ensures
            r@ == self@,
    {
        match self {
            Row::Constraint(eq) => Row::Constraint(eq.clone()),
            Row::Assignment(name, e) => Row::Assignment(name.clone(), e.clone()),
            Row::Hint(name, comp, args) => {
                let mut out: Vec<String> = Vec::new();
                let n = args.len();
                let mut i: usize = 0;
                while i < n
                    invariant
                        0 <= i <= n,
                        n == args.len(),
                        out@.len() == i,
                        forall|j: int| 0 <= j < i ==> out@[j]@ == args@[j]@,
                    decreases n - i,
                {
                    out.push(args[i].clone());
                    i = i + 1;
                }
                proof {
                    assert(seq_names(out@) =~= seq_names(args@));
                }
                Row::Hint(name.clone(), comp.clone(), out)
            },
        }
    }
}

/// A registry of named external computations, consulted when the solver
/// reaches a hint row.  An implementation receives the hint's name and the
/// bindings of its arguments and returns the computed integer, or `None` when
/// it cannot produce one.  Nothing is assumed of the result: the solver
/// states what holds whatever comes back.
pub trait HintOracle {
    fn compute(&mut self, name: &String, args: &VarMap) -> Option<BigUint>;
}

/// An oracle with no computations: every hint fails.
pub struct NoHints;

impl HintOracle for NoHints {
    fn compute(&mut self, _name: &String, _args: &VarMap) -> Option<BigUint> {
        None
    }
}

/// The swap convention: when the right side is a bare variable or constant
/// and the left side is not a bare variable, the sides are exchanged so that
/// the simplest side is on the right.
pub open spec fn orient(l: SymExpr, r: SymExpr) -> (SymExpr, SymExpr) {
    if (r is Var || r is Lit) && !(l is Var) {
        (r, l)
    } else {
        (l, r)
    }
}

/// The assignment row that `add_constraint` derives from the oriented
/// equation `l = r`, if any: a bare unassigned variable on the left is
/// defined by the right side; otherwise the first unassigned variable of the
/// left side is isolated, and an isolation failure derives nothing.
pub open spec fn derived_assignment(l: SymExpr, r: SymExpr, assigned: Set<Seq<char>>) -> Option<
    (Seq<char>, SymExpr),
> {
    match l {
        SymExpr::Var(n) => if !assigned.contains(n) {
            Some((n, r))
        } else {
            None
        },
        _ => match first_unassigned(l, assigned) {
            Some(n) => match isolate(l, n, r) {
                Some(e) => Some((n, e)),
                None => None,
            },
            None => None,
        },
    }
}

/// Fold a list of variable names into a registry, keeping first occurrences
/// in order and dropping names already present.
pub open spec fn add_names(acc: Seq<Seq<char>>, vs: Seq<Seq<char>>) -> Seq<Seq<char>>
    decreases vs.len(),
{
    if vs.len() == 0 {
        acc
    } else {
        add_names(
            if acc.contains(vs[0]) {
                acc
            } else {
                acc.push(vs[0])
            },
            vs.drop_first(),
        )
    }
}

/// Registering one list after another is registering their concatenation.
pub proof fn lemma_add_names_concat(acc: Seq<Seq<char>>, v1: Seq<Seq<char>>, v2: Seq<Seq<char>>)
    ensures
        add_names(add_names(acc, v1), v2) == add_names(acc, v1 + v2),
    decreases v1.len(),
{
    if v1.len() == 0 {
        assert(v1 + v2 =~= v2);
    } else {
        let acc2 = if acc.contains(v1[0]) {
            acc
        } else {
            acc.push(v1[0])
        };
        assert((v1 + v2)[0] == v1[0]);
        assert((v1 + v2).drop_first() =~= v1.drop_first() + v2);
        lemma_add_names_concat(acc2, v1.drop_first(), v2);
    }
}

/// Pushing a name extends the set of names by it.
pub proof fn lemma_push_to_set(s: Seq<Seq<char>>, x: Seq<char>)
    ensures
        s.push(x).to_set() =~= s.to_set().insert(x),
{
    assert forall|y: Seq<char>| s.push(x).contains(y) implies s.contains(y) || y == x by {
        let i = choose|i: int| 0 <= i < s.push(x).len() && s.push(x)[i] == y;
        if i < s.len() {
            assert(s[i] == y);
        }
    }
    assert forall|y: Seq<char>| s.contains(y) implies s.push(x).contains(y) by {
        let i = choose|i: int| 0 <= i < s.len() && s[i] == y;
        assert(s.push(x)[i] == y);
    }
    assert(s.push(x)[s.len() as int] == x);
}

/// The mathematical reading of each queued row.
pub open spec fn qviews(q: Seq<Row>) -> Seq<RowView> {
    q.map_values(|row: Row| row@)
}

/// Count the names without a binding, and find the first.  The second result
/// is the index of the first unknown name, meaningful when the count is
/// positive.
fn count_unknowns(vs: &Vec<String>, env: &VarMap) -> (r: (usize, usize))
    ensures
        r.0 == unknowns_of(seq_names(vs@), env@.dom()).len(),
        r.0 > 0 ==> r.1 < vs@.len() && seq_names(vs@)[r.1 as int] == unknowns_of(
            seq_names(vs@),
            env@.dom(),
        )[0] && !env@.dom().contains(seq_names(vs@)[r.1 as int]),
{
    let ghost allv = seq_names(vs@);
    let ghost known = env@.dom();
    let m = vs.len();
    let mut cnt: usize = 0;
    let mut first_idx: usize = 0;
    let mut j: usize = 0;
    proof {
        assert(allv.take(0) =~= Seq::<Seq<char>>::empty());
        assert(unknowns_of(allv.take(0), known) =~= Seq::<Seq<char>>::empty());
    }
    while j < m
        invariant
            0 <= j <= m,
            m == vs@.len(),
            cnt <= j,
            cnt == unknowns_of(allv.take(j as int), known).len(),
            cnt > 0 ==> first_idx < j && allv[first_idx as int] == unknowns_of(
                allv.take(j as int),
                known,
            )[0] && !known.contains(allv[first_idx as int]),
            allv == seq_names(vs@),
            known == env@.dom(),
        decreases m - j,
    {
        let ghost pre = unknowns_of(allv.take(j as int), known);
        proof {
            reveal_with_fuel(Seq::filter, 2);
            assert(allv.take(j + 1).drop_last() =~= allv.take(j as int));
            assert(allv.take(j + 1).last() == allv[j as int]);
        }
        if !env.contains(&vs[j]) {
            proof {
                assert(unknowns_of(allv.take(j + 1), known) == pre.push(allv[j as int]));
                if cnt == 0 {
                    assert(pre.push(allv[j as int])[0] == allv[j as int]);
                }
            }
            if cnt == 0 {
                first_idx = j;
            }
            cnt = cnt + 1;
        } else {
            proof {
                assert(unknowns_of(allv.take(j + 1), known) == pre);
            }
        }
        j = j + 1;
    }
    proof {
        assert(allv.take(m as int) =~= allv);
    }
    (cnt, first_idx)
}

/// Collect the bindings a hint's computation receives: each argument name
/// the environment binds, with its value.
fn hint_bindings(args: &Vec<String>, env: &VarMap) -> (r: VarMap)
    requires
        env.wf(),
    ensures
        r.wf(),
        r@ == bindings_of(seq_names(args@), env@),
{
    let ghost names = seq_names(args@);
    let mut out = VarMap::new();
    proof {
        assert(names.take(0) =~= Seq::<Seq<char>>::empty());
    }
    let m = args.len();
    let mut t: usize = 0;
    while t < m
        invariant
            0 <= t <= m,
            m == args@.len(),
            env.wf(),
            out.wf(),
            names == seq_names(args@),
            out@ == bindings_of(names.take(t as int), env@),
        decreases m - t,
    {
        proof {
            assert(names.take(t + 1).drop_last() =~= names.take(t as int));
            assert(names.take(t + 1).last() == names[t as int]);
        }
        match env.get(&args[t]) {
            Some(v) => {
                if !out.contains(&args[t]) {
                    out.insert(args[t].clone(), big_clone(v));
                }
            },
            None => {},
        }
        t = t + 1;
    }
    proof {
        assert(names.take(m as int) =~= names);
    }
    out
}

/// Extending the environment with a fresh binding keeps every constraint that
/// already held, and every constraint still queued stays queued.
proof fn preserve_constraints(
    rows0: Seq<RowView>,
    q: Seq<RowView>,
    env: Map<Seq<char>, nat>,
    k: Seq<char>,
    v: nat,
    p: nat,
)
    requires
        !env.dom().contains(k),
        forall|l2: SymExpr, r2: SymExpr| #[trigger]
            rows0.contains(RowView::Constraint(l2, r2)) ==> q.contains(RowView::Constraint(l2, r2))
                || eq_holds(l2, r2, env, p),
    ensures
        forall|l2: SymExpr, r2: SymExpr| #[trigger]
            rows0.contains(RowView::Constraint(l2, r2)) ==> q.contains(RowView::Constraint(l2, r2))
                || eq_holds(l2, r2, env.insert(k, v), p),
{
    assert forall|l2: SymExpr, r2: SymExpr| #[trigger]
        rows0.contains(RowView::Constraint(l2, r2)) implies q.contains(RowView::Constraint(l2, r2))
        || eq_holds(l2, r2, env.insert(k, v), p) by {
        if !q.contains(RowView::Constraint(l2, r2)) {
            assert(eq_holds(l2, r2, env, p));
            lemma_eval_insert(l2, env, k, v, p);
            lemma_eval_insert(r2, env, k, v, p);
        }
    }
}

/// Requeueing the popped row keeps exactly the same row views in the queue.
proof fn requeue_membership(rows0: Seq<RowView>, qv_pre: Seq<RowView>, newq: Seq<RowView>)
    requires
        qv_pre.len() > 0,
        newq == qv_pre.drop_first().push(qv_pre[0]),
    ensures
        forall|v: RowView| #[trigger] qv_pre.contains(v) ==> newq.contains(v),
        forall|v: RowView| #[trigger] newq.contains(v) ==> qv_pre.contains(v),
{
    assert forall|v: RowView| #[trigger] qv_pre.contains(v) implies newq.contains(v) by {
        let i = choose|i: int| 0 <= i < qv_pre.len() && qv_pre[i] == v;
        if i == 0 {
            assert(newq[newq.len() - 1] == v);
        } else {
            assert(newq[i - 1] == v);
        }
    }
    assert forall|v: RowView| #[trigger] newq.contains(v) implies qv_pre.contains(v) by {
        let i = choose|i: int| 0 <= i < newq.len() && newq[i] == v;
        if i == newq.len() - 1 {
            assert(qv_pre[0] == v);
        } else {
            assert(qv_pre[i + 1] == v);
        }
    }
}

/// The variables of the constraint `l = r` that are not yet evaluated, in
/// evaluation order and with duplicates kept.
pub open spec fn unknowns_of(vs: Seq<Seq<char>>, known: Set<Seq<char>>) -> Seq<Seq<char>> {
    vs.filter(|n: Seq<char>| !known.contains(n))
}

/// A variable list with no unknowns is bound throughout.
proof fn lemma_no_unknowns(vs: Seq<Seq<char>>, known: Set<Seq<char>>)
    requires
        unknowns_of(vs, known).len() == 0,
    ensures
        forall|i: int| 0 <= i < vs.len() ==> known.contains(#[trigger] vs[i]),
    decreases vs.len(),
{
    reveal_with_fuel(Seq::filter, 2);
    if vs.len() == 0 {
    } else {
        if !known.contains(vs.last()) {
            assert(unknowns_of(vs, known).len() > 0);
        }
        assert(unknowns_of(vs.drop_last(), known).len() == 0);
        lemma_no_unknowns(vs.drop_last(), known);
        assert(forall|i: int| 0 <= i < vs.len() - 1 ==> vs.drop_last()[i] == vs[i]);
    }
}

/// An expression whose variables are all bound never evaluates to a missing
/// variable.
proof fn lemma_bound_expr_no_missing(
    e: SymExpr,
    vs: Seq<Seq<char>>,
    env: Map<Seq<char>, nat>,
    p: nat,
)
    requires
        unknowns_of(vs, env.dom()).len() == 0,
        forall|n: Seq<char>| expr_vars(e).contains(n) ==> #[trigger] vs.contains(n),
    ensures
        eval_in(e, env, p) != ExprVal::MissingVar,
{
    lemma_no_unknowns(vs, env.dom());
    assert forall|n: Seq<char>| #[trigger]
        crate::expr::mentions(e, n) implies env.dom().contains(n) by {
        crate::expr::lemma_mentions_vars(e, n);
        assert(vs.contains(n));
        let i = choose|i: int| 0 <= i < vs.len() && vs[i] == n;
    }
    crate::expr::lemma_eval_no_missing(e, env, p);
}

/// The outcome of running the solver's worklist to completion.
pub enum RunOutcome {
    /// The queue drained; the environment holds every evaluated variable.
    Finished(Map<Seq<char>, nat>),
    /// The run aborted with an error.
    Failed(CircuitError),
}

/// Whether a row sequence contains no hint rows.
pub open spec fn no_hints(rows: Seq<RowView>) -> bool {
    forall|i: int| 0 <= i < rows.len() ==> !(#[trigger] rows[i] is Hint)
}

/// The solver's worklist fixpoint.  Rows are taken from the front.  A
/// constraint with no unknown variable is checked and dropped; with exactly
/// one unknown it is isolated and, when the isolated expression evaluates,
/// the unknown is stored — and the row is requeued either way, so its
/// equality check still runs once fully known; with more unknowns it is
/// requeued unchanged.  An assignment whose expression is fully known is
/// computed and stored, otherwise requeued.  A hint whose arguments are all
/// known consumes the next of `replies` — the values the external
/// computations returned, in call order — failing when the reply is `None`;
/// with unknown arguments it is requeued.  The fuel bounds the retries: a run
/// that exhausts it reports non-termination.
pub open spec fn run_rows(
    queue: Seq<RowView>,
    env: Map<Seq<char>, nat>,
    p: nat,
    fuel: nat,
    replies: Seq<Option<nat>>,
) -> RunOutcome
    decreases fuel,
{
    if queue.len() == 0 {
        RunOutcome::Finished(env)
    } else if fuel == 0 {
        RunOutcome::Failed(CircuitError::EvaluationNonTermination)
    } else {
        let rest = queue.drop_first();
        match queue[0] {
            RowView::Constraint(l, r) => {
                let u = unknowns_of(expr_vars(l) + expr_vars(r), env.dom());
                if u.len() == 0 {
                    match eval_in(l, env, p) {
                        ExprVal::MissingVar => RunOutcome::Failed(CircuitError::MissingVariable),
                        ExprVal::NoInverse => RunOutcome::Failed(CircuitError::NonInvertible),
                        ExprVal::Known(a) => match eval_in(r, env, p) {
                            ExprVal::MissingVar => RunOutcome::Failed(
                                CircuitError::MissingVariable,
                            ),
                            ExprVal::NoInverse => RunOutcome::Failed(CircuitError::NonInvertible),
                            ExprVal::Known(b) => if a == b {
                                run_rows(rest, env, p, (fuel - 1) as nat, replies)
                            } else {
                                RunOutcome::Failed(CircuitError::ConstraintViolation)
                            },
                        },
                    }
                } else if u.len() == 1 {
                    let n = u[0];
                    let iso = if mentions(l, n) {
                        isolate(l, n, r)
                    } else {
                        isolate(r, n, l)
                    };
                    let env2 = match iso {
                        Some(ex) => match eval_in(ex, env, p) {
                            ExprVal::Known(v) => env.insert(n, v),
                            _ => env,
                        },
                        None => env,
                    };
                    run_rows(rest.push(queue[0]), env2, p, (fuel - 1) as nat, replies)
                } else {
                    run_rows(rest.push(queue[0]), env, p, (fuel - 1) as nat, replies)
                }
            },
            RowView::Assignment(n, ex) => {
                if unknowns_of(expr_vars(ex), env.dom()).len() == 0 {
                    match eval_in(ex, env, p) {
                        ExprVal::MissingVar => RunOutcome::Failed(CircuitError::MissingVariable),
                        ExprVal::NoInverse => RunOutcome::Failed(CircuitError::NonInvertible),
                        ExprVal::Known(v) => run_rows(
                            rest,
                            if env.dom().contains(n) {
                                env
                            } else {
                                env.insert(n, v)
                            },
                            p,
                            (fuel - 1) as nat,
                            replies,
                        ),
                    }
                } else {
                    run_rows(rest.push(queue[0]), env, p, (fuel - 1) as nat, replies)
                }
            },
            RowView::Hint(n, _, args) => {
                if unknowns_of(args, env.dom()).len() == 0 {
                    if replies.len() == 0 {
                        RunOutcome::Failed(CircuitError::HintTypeError)
                    } else {
                        match replies[0] {
                            None => RunOutcome::Failed(CircuitError::HintTypeError),
                            Some(v) => run_rows(
                                rest,
                                if env.dom().contains(n) {
                                    env
                                } else {
                                    env.insert(n, v)
                                },
                                p,
                                (fuel - 1) as nat,
                                replies.drop_first(),
                            ),
                        }
                    }
                } else {
                    run_rows(rest.push(queue[0]), env, p, (fuel - 1) as nat, replies)
                }
            },
        }
    }
}

/// Seed the environment with the declared inputs, in declaration order; a
/// missing binding for any declared input is fatal.
pub open spec fn seed_inputs(
    names: Seq<Seq<char>>,
    inputs: Map<Seq<char>, nat>,
    acc: Map<Seq<char>, nat>,
) -> Option<Map<Seq<char>, nat>>
    decreases names.len(),
{
    if names.len() == 0 {
        Some(acc)
    } else if !inputs.dom().contains(names[0]) {
        None
    } else {
        seed_inputs(
            names.drop_first(),
            inputs,
            if acc.dom().contains(names[0]) {
                acc
            } else {
                acc.insert(names[0], inputs[names[0]])
            },
        )
    }
}

/// Bind every registered variable the run never evaluated to zero.
pub open spec fn fill_zero(env: Map<Seq<char>, nat>, names: Seq<Seq<char>>) -> Map<Seq<char>, nat>
    decreases names.len(),
{
    if names.len() == 0 {
        env
    } else {
        fill_zero(
            if env.dom().contains(names[0]) {
                env
            } else {
                env.insert(names[0], 0)
            },
            names.drop_first(),
        )
    }
}

/// The retry budget: proportional to the number of rows.
pub open spec fn fuel_for(rows: Seq<RowView>) -> nat {
    rows.len() * 256
}

/// What `solve` returns, as a function of the system's rows, its declared
/// inputs, its variable registry, the modulus, the given input bindings, and
/// the replies of the external hint computations in call order.  A hint-free
/// system consumes no reply, so there the outcome depends on the system and
/// the inputs alone.
pub open spec fn solve_model(
    rows: Seq<RowView>,
    input_names: Seq<Seq<char>>,
    var_names: Seq<Seq<char>>,
    inputs: Map<Seq<char>, nat>,
    p: nat,
    replies: Seq<Option<nat>>,
) -> Result<Map<Seq<char>, nat>, CircuitError> {
    match seed_inputs(input_names, inputs, Map::empty()) {
        None => Err(CircuitError::MissingVariable),
        Some(env0) => match run_rows(rows, env0, p, fuel_for(rows), replies) {
            RunOutcome::Failed(e) => Err(e),
            RunOutcome::Finished(env) => Ok(fill_zero(env, var_names)),
        },
    }
}

/// The bindings handed to a hint's computation: each argument name that the
/// environment binds, mapped to its value.
pub open spec fn bindings_of(names: Seq<Seq<char>>, env: Map<Seq<char>, nat>) -> Map<
    Seq<char>,
    nat,
>
    decreases names.len(),
{
    if names.len() == 0 {
        Map::empty()
    } else {
        let prev = bindings_of(names.drop_last(), env);
        if env.dom().contains(names.last()) && !prev.dom().contains(names.last()) {
            prev.insert(names.last(), env[names.last()])
        } else {
            prev
        }
    }
}

/// Extending the environment with a fresh binding does not change the value
/// of an expression that already evaluates.
pub proof fn lemma_eval_insert(e: SymExpr, env: Map<Seq<char>, nat>, k: Seq<char>, v: nat, p: nat)
    requires
        !env.dom().contains(k),
        eval_in(e, env, p) is Known,
    ensures
        eval_in(e, env.insert(k, v), p) == eval_in(e, env, p),
    decreases e,
{
    let env2 = env.insert(k, v);
    match e {
        SymExpr::Var(n) => {
            assert(env.dom().contains(n));
            assert(n != k);
        },
        SymExpr::Lit(_) => {},
        SymExpr::Plus(l, r) => {
            lemma_eval_insert(*l, env, k, v, p);
            lemma_eval_insert(*r, env, k, v, p);
        },
        SymExpr::Minus(l, r) => {
            lemma_eval_insert(*l, env, k, v, p);
            lemma_eval_insert(*r, env, k, v, p);
        },
        SymExpr::Times(l, r) => {
            lemma_eval_insert(*l, env, k, v, p);
            lemma_eval_insert(*r, env, k, v, p);
        },
        SymExpr::Ratio(l, r) => {
            lemma_eval_insert(*r, env, k, v, p);
            lemma_eval_insert(*l, env, k, v, p);
        },
        SymExpr::Negate(x) => {
            lemma_eval_insert(*x, env, k, v, p);
        },
    }
}

/// Membership survives dropping the head, for the items of the tail.
pub proof fn lemma_contains_tail(s: Seq<RowView>, x: RowView)
    requires
        s.len() > 0,
        s.drop_first().contains(x),
    ensures
        s.contains(x),
{
    let i = choose|i: int| 0 <= i < s.drop_first().len() && s.drop_first()[i] == x;
    assert(s[i + 1] == x);
}

/// Membership in a sequence is membership in its head or its tail.
pub proof fn lemma_contains_split(s: Seq<RowView>, x: RowView)
    requires
        s.len() > 0,
        s.contains(x),
    ensures
        x == s[0] || s.drop_first().contains(x),
{
    let i = choose|i: int| 0 <= i < s.len() && s[i] == x;
    if i > 0 {
        assert(s.drop_first()[i - 1] == x);
    }
}

/// Every recorded constraint occurs as a constraint row.
pub proof fn lemma_constraints_of_member(rows: Seq<RowView>, i: int)
    requires
        0 <= i < constraints_of(rows).len(),
    ensures
        rows.contains(
            RowView::Constraint(constraints_of(rows)[i].0, constraints_of(rows)[i].1),
        ),
    decreases rows.len(),
{
    if rows.len() == 0 {
    } else {
        let pre = constraints_of(rows.drop_last());
        if i < pre.len() {
            lemma_constraints_of_member(rows.drop_last(), i);
            let x = RowView::Constraint(pre[i].0, pre[i].1);
            let j = choose|j: int| 0 <= j < rows.drop_last().len() && rows.drop_last()[j] == x;
            assert(rows[j] == x);
        } else {
            assert(rows.last() is Constraint);
            assert(rows[rows.len() - 1] == RowView::Constraint(
                constraints_of(rows)[i].0,
                constraints_of(rows)[i].1,
            ));
        }
    }
}

/// The constraints recorded among a row sequence, in order.
pub open spec fn constraints_of(rows: Seq<RowView>) -> Seq<(SymExpr, SymExpr)>
    decreases rows.len(),
{
    if rows.len() == 0 {
        Seq::empty()
    } else {
        constraints_of(rows.drop_last()) + (match rows.last() {
            RowView::Constraint(l, r) => seq![(l, r)],
            _ => Seq::empty(),
        })
    }
}

/// A system of constraints over one prime modulus: the declared inputs and
/// outputs, the registered variables, the append-only row sequence that the
/// solver follows, and the recorded constraint list the compilers read.
pub struct ConstraintSystem {
    constraints: Vec<Equation>,
    var_names: Vec<String>,
    modulus: BigUint,
    public_vars: Vec<String>,
    sequence: Vec<Row>,
    assigned: Vec<String>,
    inputs: Vec<String>,
    outputs: Vec<String>,
}

impl ConstraintSystem {
    /// The modulus, as a natural number.
    pub closed spec fn modulus_val(self) -> nat {
        big(self.modulus)
    }

    /// The scheduled rows, in order.
    pub closed spec fn row_views(self) -> Seq<RowView> {
        self.sequence@.map_values(|r: Row| r@)
    }

    /// The recorded constraints, in order.
    pub closed spec fn constraint_views(self) -> Seq<(SymExpr, SymExpr)> {
        self.constraints@.map_values(|e: Equation| (e.lhs@, e.rhs@))
    }

    /// Every registered variable name, in registration order.
    pub closed spec fn var_name_views(self) -> Seq<Seq<char>> {
        seq_names(self.var_names@)
    }

    /// The names already scheduled for derivation.
    pub closed spec fn assigned_set(self) -> Set<Seq<char>> {
        seq_names(self.assigned@).to_set()
    }

    /// The declared input names, in order.
    pub closed spec fn input_names(self) -> Seq<Seq<char>> {
        seq_names(self.inputs@)
    }

    /// The declared output names, in order.
    pub closed spec fn output_names(self) -> Seq<Seq<char>> {
        seq_names(self.outputs@)
    }

    /// The names marked public, in order.
    pub closed spec fn public_names(self) -> Seq<Seq<char>> {
        seq_names(self.public_vars@)
    }

    /// The system's invariant: a positive modulus, a duplicate-free variable
    /// registry, and a constraint list that is exactly the constraint rows of
    /// the sequence.
    pub closed spec fn wf(self) -> bool {
        big(self.modulus) > 0 && seq_names(self.var_names@).no_duplicates() && constraints_of(
            self.row_views(),
        ) == self.constraint_views()
    }

    /// Create a system with declared input and output names and a modulus.
    /// The inputs are pre-marked as assigned: they are never derived.
    pub fn new(inputs: Vec<String>, outputs: Vec<String>, modulus: BigUint) -> (r: Self)
        requires
            big(modulus) > 0,
        ensures
            r.wf(),
            r.modulus_val() == big(modulus),
            r.row_views() == Seq::<RowView>::empty(),
            r.constraint_views() == Seq::<(SymExpr, SymExpr)>::empty(),
            r.var_name_views() == Seq::<Seq<char>>::empty(),
            r.public_names() == Seq::<Seq<char>>::empty(),
            r.input_names() == seq_names(inputs@),
            r.output_names() == seq_names(outputs@),
            r.assigned_set() == seq_names(inputs@).to_set(),
    {
        let assigned = clone_names(&inputs);
        let r = ConstraintSystem {
            constraints: Vec::new(),
            var_names: Vec::new(),
            modulus,
            public_vars: Vec::new(),
            sequence: Vec::new(),
            assigned,
            inputs,
            outputs,
        };
        proof {
            assert(r.row_views() =~= Seq::<RowView>::empty());
            assert(r.constraint_views() =~= Seq::<(SymExpr, SymExpr)>::empty());
            assert(r.var_name_views() =~= Seq::<Seq<char>>::empty());
            assert(r.public_names() =~= Seq::<Seq<char>>::empty());
            assert(seq_names(r.assigned@).to_set() =~= seq_names(r.inputs@).to_set());
        }
        r
    }

    /// How many constraints are recorded.
    pub fn num_constraints(&self) -> (r: usize)
        ensures
            r == self.constraint_views().len(),
    {
        self.constraints.len()
    }

    /// How many variables are registered.
    pub fn num_witness(&self) -> (r: usize)
        ensures
            r == self.var_name_views().len(),
    {
        self.var_names.len()
    }

    /// The names marked public, in marking order.
    pub fn public_vars(&self) -> (r: Vec<String>)
        ensures
            seq_names(r@) == self.public_names(),
    {
        clone_names(&self.public_vars)
    }

    /// Mark a name as publicly disclosed.
    pub fn set_public(&mut self, name: String)
        ensures
            final(self).public_names() == old(self).public_names().push(name@),
            unchanged_but_public(*old(self), *final(self)),
    {
        proof {
            let pre = seq_names(self.public_vars@);
            assert(seq_names(self.public_vars@.push(name)) =~= pre.push(name@));
        }
        self.public_vars.push(name);
    }

    /// Mark a variable expression as publicly disclosed; only a bare variable
    /// can be public.
    pub fn set_public_var(&mut self, var: &Node) -> (r: Result<(), CircuitError>)
        ensures
            match r {
                Ok(()) => var@ is Var && final(self).public_names() == old(self).public_names().push(var@->Var_0) && unchanged_but_public(
                    *old(self),
                    *final(self),
                ),
                Err(e) => e == CircuitError::UnsupportedGateShape && !(var@ is Var) && *final(self)
                    == *old(self),
            },
    {
        match &var.gate {
            Gate::Input(name) => {
                assert(var@ == SymExpr::Var(name@));
                let n = name.clone();
                proof {
                    let pre = seq_names(self.public_vars@);
                    assert(seq_names(self.public_vars@.push(n)) =~= pre.push(n@));
                }
                self.public_vars.push(n);
                Ok(())
            },
            _ => Err(CircuitError::UnsupportedGateShape),
        }
    }

    /// Register every variable of an expression, first occurrences in order.
    fn add_var(&mut self, node: &Node)
        requires
            old(self).wf(),
        ensures
            final(self).wf(),
            final(self).var_name_views() == add_names(
                old(self).var_name_views(),
                expr_vars(node@),
            ),
            unchanged_but_vars(*old(self), *final(self)),
    {
        let mut vs: Vec<String> = Vec::new();
        node.extract_vars(&mut vs);
        proof {
            assert(Seq::<String>::empty().map_values(|s: String| s@) =~= Seq::<Seq<char>>::empty());
            assert(seq_names(vs@) == expr_vars(node@));
        }
        let ghost all = seq_names(vs@);
        let ghost start = seq_names(self.var_names@);
        proof {
            assert(all.skip(0) =~= all);
        }
        let n = vs.len();
        let mut i: usize = 0;
        while i < n
            invariant
                0 <= i <= n,
                n == vs@.len(),
                all == seq_names(vs@),
                self.wf(),
                add_names(start, all) == add_names(seq_names(self.var_names@), all.skip(i as int)),
                unchanged_but_vars(*old(self), *self),
                self.modulus == old(self).modulus,
            decreases n - i,
        {
            let ghost cur = seq_names(self.var_names@);
            let ghost rest = all.skip(i as int);
            proof {
                assert(rest[0] == all[i as int]);
                assert(rest.drop_first() =~= all.skip(i as int + 1));
            }
            if !names_contain(&self.var_names, &vs[i]) {
                let ghost pre = seq_names(self.var_names@);
                self.var_names.push(vs[i].clone());
                proof {
                    assert(seq_names(self.var_names@) =~= pre.push(all[i as int]));
                    assert(seq_names(self.var_names@).no_duplicates()) by {
                        assert(forall|j: int| 0 <= j < pre.len() ==> seq_names(self.var_names@)[j]
                            == pre[j]);
                    }
                }
            }
            i = i + 1;
        }
        proof {
            assert(all.skip(n as int) =~= Seq::<Seq<char>>::empty());
        }
    }

    /// Register every variable of an expression without constraining it.
    pub fn add_variable(&mut self, var: &Node)
        requires
            old(self).wf(),
        ensures
            final(self).wf(),
            final(self).var_name_views() == add_names(old(self).var_name_views(), expr_vars(var@)),
            unchanged_but_vars(*old(self), *final(self)),
    {
        self.add_var(var);
    }

    /// The first not-yet-assigned variable of an expression.
    fn find_unassigned(&self, node: &Node) -> (r: Option<String>)
        ensures
            match r {
                Some(n) => first_unassigned(node@, self.assigned_set()) == Some(n@),
                None => first_unassigned(node@, self.assigned_set()) is None,
            },
        decreases node,
    {
        match &node.gate {
            Gate::Input(name) => {
                assert(node@ == SymExpr::Var(name@));
                if names_contain(&self.assigned, name) {
                    None
                } else {
                    Some(name.clone())
                }
            },
            Gate::Const(_) => None,
            Gate::Add(l, r) => {
                assert(node@ == SymExpr::Plus(Box::new(l@), Box::new(r@)));
                match self.find_unassigned(l) {
                    Some(n) => Some(n),
                    None => self.find_unassigned(r),
                }
            },
            Gate::Sub(l, r) => {
                assert(node@ == SymExpr::Minus(Box::new(l@), Box::new(r@)));
                match self.find_unassigned(l) {
                    Some(n) => Some(n),
                    None => self.find_unassigned(r),
                }
            },
            Gate::Mul(l, r) => {
                assert(node@ == SymExpr::Times(Box::new(l@), Box::new(r@)));
                match self.find_unassigned(l) {
                    Some(n) => Some(n),
                    None => self.find_unassigned(r),
                }
            },
            Gate::Div(l, r) => {
                assert(node@ == SymExpr::Ratio(Box::new(l@), Box::new(r@)));
                match self.find_unassigned(l) {
                    Some(n) => Some(n),
                    None => self.find_unassigned(r),
                }
            },
            Gate::Neg(x) => {
                assert(node@ == SymExpr::Negate(Box::new(x@)));
                self.find_unassigned(x)
            },
        }
    }

    /// Run the worklist over this system's rows, starting from the seeded
    /// environment.  On success the returned bindings satisfy every recorded
    /// constraint, extend the seeded bindings unchanged, and — when the rows
    /// hold no hints — are exactly what the worklist model computes.
    #[verifier::loop_isolation(false)]
    fn run_worklist<O: HintOracle>(&self, seeded: VarMap, oracle: &mut O) -> (r: Result<
        VarMap,
        CircuitError,
    >)
        requires
            self.wf(),
            seeded.wf(),
        ensures
            match r {
                Ok(w) => w.wf() && (no_hints(self.row_views()) ==> run_rows(
                    self.row_views(),
                    seeded@,
                    self.modulus_val(),
                    fuel_for(self.row_views()),
                    Seq::empty(),
                ) == RunOutcome::Finished(w@)) && (forall|l: SymExpr, rr: SymExpr|
                    #[trigger] self.row_views().contains(RowView::Constraint(l, rr)) ==> eq_holds(
                        l,
                        rr,
                        w@,
                        self.modulus_val(),
                    )) && (forall|k: Seq<char>| #[trigger]
                    seeded@.dom().contains(k) ==> w@.dom().contains(k) && w@[k] == seeded@[k]),
                Err(e) => no_hints(self.row_views()) ==> run_rows(
                    self.row_views(),
                    seeded@,
                    self.modulus_val(),
                    fuel_for(self.row_views()),
                    Seq::empty(),
                ) == RunOutcome::Failed(e),
            },
            exists|rs: Seq<Option<nat>>|
                #[trigger] run_rows(
                    self.row_views(),
                    seeded@,
                    self.modulus_val(),
                    fuel_for(self.row_views()),
                    rs,
                ) == (match r {
                    Ok(w) => RunOutcome::Finished(w@),
                    Err(e) => RunOutcome::Failed(e),
                }),
            !(r == Err::<VarMap, CircuitError>(CircuitError::MissingVariable)),
    {
        let ghost rows0 = self.row_views();
        let ghost p = self.modulus_val();
        let mut env = seeded;
        let ghost seeded_view = env@;

        let mut queue: Vec<Row> = Vec::new();
        let n = self.sequence.len();
        let mut i: usize = 0;
        while i < n
            invariant
                0 <= i <= n,
                queue@.len() == i,
                forall|j: int| 0 <= j < i ==> queue@[j]@ == self.sequence@[j]@,
            decreases n - i,
        {
            queue.push(self.sequence[i].clone());
            i = i + 1;
        }
        proof {
            assert(qviews(queue@) =~= rows0);
        }

        let mut fuel: u128 = (n as u128) * 256;
        proof {
            assert(rows0.len() == n);
            assert(fuel as nat == fuel_for(rows0));
        }
        let ghost target = run_rows(rows0, seeded_view, p, fuel_for(rows0), Seq::empty());
        let ghost mut log = Seq::<Option<nat>>::empty();
        proof {
            assert forall|s: Seq<Option<nat>>|
                run_rows(qviews(queue@), env@, p, fuel as nat, s) == #[trigger] run_rows(
                    rows0,
                    seeded_view,
                    p,
                    fuel_for(rows0),
                    log + s,
                ) by {
                assert(log + s =~= s);
            }
        }

        while queue.len() != 0
            invariant
                env.wf(),
                no_hints(rows0) ==> run_rows(qviews(queue@), env@, p, fuel as nat, Seq::empty())
                    == target,
                forall|s: Seq<Option<nat>>|
                    run_rows(qviews(queue@), env@, p, fuel as nat, s) == #[trigger] run_rows(
                        rows0,
                        seeded_view,
                        p,
                        fuel_for(rows0),
                        log + s,
                    ),
                forall|v: RowView| #[trigger] qviews(queue@).contains(v) ==> rows0.contains(v),
                forall|l: SymExpr, rr: SymExpr| #[trigger]
                    rows0.contains(RowView::Constraint(l, rr)) ==> qviews(queue@).contains(
                        RowView::Constraint(l, rr),
                    ) || eq_holds(l, rr, env@, p),
                forall|k: Seq<char>| #[trigger]
                    seeded_view.dom().contains(k) ==> env@.dom().contains(k) && env@[k]
                        == seeded_view[k],
            decreases fuel,
        {
            let ghost qv_pre = qviews(queue@);
            let ghost env_pre = env@;
            if fuel == 0 {
                proof {
                    assert(qv_pre.len() > 0);
                    assert(log + Seq::<Option<nat>>::empty() =~= log);
                    assert(run_rows(qv_pre, env_pre, p, fuel as nat, Seq::<Option<nat>>::empty())
                        == run_rows(
                        rows0,
                        seeded_view,
                        p,
                        fuel_for(rows0),
                        log + Seq::<Option<nat>>::empty(),
                    ));
                    assert(run_rows(rows0, seeded_view, p, fuel_for(rows0), log)
                        == RunOutcome::Failed(CircuitError::EvaluationNonTermination));
                }
                return Err(CircuitError::EvaluationNonTermination);
            }
            let ghost fe = fuel as nat;
            fuel = fuel - 1;
            let ghost q_pre = queue@;
            let row = queue.remove(0);
            proof {
                assert(queue@ =~= q_pre.drop_first());
                assert(qviews(queue@) =~= qv_pre.drop_first());
                assert(row@ == qv_pre[0]);
            }
            let ghost rest = qv_pre.drop_first();
            proof {
                assert forall|v: RowView| #[trigger] rest.contains(v) implies qv_pre.contains(
                    v,
                ) by {
                    lemma_contains_tail(qv_pre, v);
                }
            }
            match &row {
                Row::Constraint(eq) => {
                    let ghost l = eq.lhs@;
                    let ghost rr = eq.rhs@;
                    proof {
                        assert(row@ == RowView::Constraint(l, rr));
                    }
                    let mut vs: Vec<String> = Vec::new();
                    eq.lhs.extract_vars(&mut vs);
                    eq.rhs.extract_vars(&mut vs);
                    proof {
                        assert(Seq::<String>::empty().map_values(|s: String| s@) =~= Seq::<
                            Seq<char>,
                        >::empty());
                        assert(seq_names(vs@) =~= expr_vars(l) + expr_vars(rr));
                    }
                    let ghost allv = seq_names(vs@);
                    let (cnt, first_idx) = count_unknowns(&vs, &env);
                    let ghost u = unknowns_of(allv, env@.dom());
                    if cnt == 0 {
                        proof {
                            assert forall|n: Seq<char>|
                                expr_vars(l).contains(n) implies #[trigger] allv.contains(n) by {
                                crate::expr::lemma_concat_contains(expr_vars(l), expr_vars(rr), n);
                            }
                            assert forall|n: Seq<char>|
                                expr_vars(rr).contains(n) implies #[trigger] allv.contains(n) by {
                                crate::expr::lemma_concat_contains(expr_vars(l), expr_vars(rr), n);
                            }
                            lemma_bound_expr_no_missing(l, allv, env@, p);
                            lemma_bound_expr_no_missing(rr, allv, env@, p);
                        }
                        match eq.lhs.evaluate(&env, &self.modulus) {
                            Err(e) => {
                                proof {
                                    assert(log + Seq::<Option<nat>>::empty() =~= log);
                                    assert(run_rows(
                                        qv_pre,
                                        env_pre,
                                        p,
                                        fe,
                                        Seq::<Option<nat>>::empty(),
                                    ) == run_rows(
                                        rows0,
                                        seeded_view,
                                        p,
                                        fuel_for(rows0),
                                        log + Seq::<Option<nat>>::empty(),
                                    ));
                                }
                                return Err(e);
                            },
                            Ok(a) => {
                                match eq.rhs.evaluate(&env, &self.modulus) {
                                    Err(e) => {
                                proof {
                                    assert(log + Seq::<Option<nat>>::empty() =~= log);
                                    assert(run_rows(
                                        qv_pre,
                                        env_pre,
                                        p,
                                        fe,
                                        Seq::<Option<nat>>::empty(),
                                    ) == run_rows(
                                        rows0,
                                        seeded_view,
                                        p,
                                        fuel_for(rows0),
                                        log + Seq::<Option<nat>>::empty(),
                                    ));
                                }
                                        return Err(e);
                                    },
                                    Ok(b) => {
                                        if big_eq(&a, &b) {
                                            proof {
                                                assert(eq_holds(l, rr, env@, p));
                                                assert forall|l2: SymExpr, r2: SymExpr| #[trigger]
                                                    rows0.contains(
                                                        RowView::Constraint(l2, r2),
                                                    ) implies qviews(queue@).contains(
                                                    RowView::Constraint(l2, r2),
                                                ) || eq_holds(l2, r2, env@, p) by {
                                                    let c = RowView::Constraint(l2, r2);
                                                    if qv_pre.contains(c) {
                                                        lemma_contains_split(qv_pre, c);
                                                    }
                                                }
                                            }
                                        } else {
                                proof {
                                    assert(log + Seq::<Option<nat>>::empty() =~= log);
                                    assert(run_rows(
                                        qv_pre,
                                        env_pre,
                                        p,
                                        fe,
                                        Seq::<Option<nat>>::empty(),
                                    ) == run_rows(
                                        rows0,
                                        seeded_view,
                                        p,
                                        fuel_for(rows0),
                                        log + Seq::<Option<nat>>::empty(),
                                    ));
                                }
                                            return Err(CircuitError::ConstraintViolation);
                                        }
                                    },
                                }
                            },
                        }
                    } else if cnt == 1 {
                        let uname = vs[first_idx].clone();
                        proof {
                            assert(u[0] == allv[first_idx as int]);
                            assert(!env@.dom().contains(uname@));
                        }
                        let on_left = eq.lhs.contains_target(&uname);
                        let iso = if on_left {
                            eq.lhs.isolate_term(&uname, &eq.rhs)
                        } else {
                            eq.rhs.isolate_term(&uname, &eq.lhs)
                        };
                        match iso {
                            Ok(ex) => {
                                match ex.evaluate(&env, &self.modulus) {
                                    Ok(v) => {
                                        proof {
                                            preserve_constraints(rows0, qv_pre, env@, uname@, big(v), p);
                                        }
                                        env.insert(uname, v);
                                    },
                                    Err(_) => {},
                                }
                            },
                            Err(_) => {},
                        }
                        queue.push(row.clone());
                        proof {
                            assert(qviews(queue@) =~= rest.push(qv_pre[0]));
                            requeue_membership(rows0, qv_pre, qviews(queue@));
                        }
                    } else {
                        queue.push(row.clone());
                        proof {
                            assert(qviews(queue@) =~= rest.push(qv_pre[0]));
                            requeue_membership(rows0, qv_pre, qviews(queue@));
                        }
                    }
                },
                Row::Assignment(name, ex_node) => {
                    proof {
                        assert(row@ == RowView::Assignment(name@, ex_node@));
                    }
                    let mut vs: Vec<String> = Vec::new();
                    ex_node.extract_vars(&mut vs);
                    proof {
                        assert(Seq::<String>::empty().map_values(|s: String| s@) =~= Seq::<
                            Seq<char>,
                        >::empty());
                        assert(seq_names(vs@) =~= expr_vars(ex_node@));
                    }
                    let (cnt, _) = count_unknowns(&vs, &env);
                    if cnt == 0 {
                        proof {
                            lemma_bound_expr_no_missing(ex_node@, seq_names(vs@), env@, p);
                        }
                        match ex_node.evaluate(&env, &self.modulus) {
                            Err(e) => {
                                proof {
                                    assert(log + Seq::<Option<nat>>::empty() =~= log);
                                    assert(run_rows(
                                        qv_pre,
                                        env_pre,
                                        p,
                                        fe,
                                        Seq::<Option<nat>>::empty(),
                                    ) == run_rows(
                                        rows0,
                                        seeded_view,
                                        p,
                                        fuel_for(rows0),
                                        log + Seq::<Option<nat>>::empty(),
                                    ));
                                }
                                return Err(e);
                            },
                            Ok(v) => {
                                if !env.contains(name) {
                                    proof {
                                        preserve_constraints(rows0, qv_pre, env@, name@, big(v), p);
                                    }
                                    env.insert(name.clone(), v);
                                }
                                proof {
                                    assert forall|l2: SymExpr, r2: SymExpr| #[trigger]
                                        rows0.contains(RowView::Constraint(l2, r2)) implies qviews(
                                        queue@,
                                    ).contains(RowView::Constraint(l2, r2)) || eq_holds(
                                        l2,
                                        r2,
                                        env@,
                                        p,
                                    ) by {
                                        let c = RowView::Constraint(l2, r2);
                                        if qv_pre.contains(c) {
                                            lemma_contains_split(qv_pre, c);
                                        }
                                    }
                                }
                            },
                        }
                    } else {
                        queue.push(row.clone());
                        proof {
                            assert(qviews(queue@) =~= rest.push(qv_pre[0]));
                            requeue_membership(rows0, qv_pre, qviews(queue@));
                        }
                    }
                },
                Row::Hint(name, comp, args) => {
                    proof {
                        assert(row@ == RowView::Hint(name@, comp@, seq_names(args@)));
                        assert(qv_pre.contains(qv_pre[0]));
                        assert(rows0.contains(qv_pre[0]));
                        if no_hints(rows0) {
                            let k = choose|k: int| 0 <= k < rows0.len() && rows0[k] == qv_pre[0];
                            assert(!(rows0[k] is Hint));
                            assert(false);
                        }
                    }
                    let (cnt, _) = count_unknowns(args, &env);
                    if cnt == 0 {
                        let bindings = hint_bindings(args, &env);
                        let reply = oracle.compute(comp, &bindings);
                        match reply {
                            None => {
                                proof {
                                    let pre_log = log;
                                    log = log + seq![Option::<nat>::None];
                                    let s2 = seq![Option::<nat>::None];
                                    assert(run_rows(qv_pre, env_pre, p, fe, s2) == run_rows(
                                        rows0,
                                        seeded_view,
                                        p,
                                        fuel_for(rows0),
                                        pre_log + s2,
                                    ));
                                    assert(s2[0] is None);
                                    assert(pre_log + s2 =~= log);
                                    assert(log + Seq::<Option<nat>>::empty() =~= log);
                                    assert(run_rows(
                                        rows0,
                                        seeded_view,
                                        p,
                                        fuel_for(rows0),
                                        log,
                                    ) == RunOutcome::Failed(CircuitError::HintTypeError));
                                }
                                return Err(CircuitError::HintTypeError);
                            },
                            Some(v) => {
                                let ghost reply_v: Option<nat> = Some(big(v));
                                if !env.contains(name) {
                                    proof {
                                        preserve_constraints(rows0, qv_pre, env@, name@, big(v), p);
                                    }
                                    env.insert(name.clone(), v);
                                }
                                proof {
                                    let pre_log = log;
                                    log = log + seq![reply_v];
                                    assert forall|s: Seq<Option<nat>>|
                                        run_rows(qviews(queue@), env@, p, fuel as nat, s)
                                            == #[trigger] run_rows(
                                            rows0,
                                            seeded_view,
                                            p,
                                            fuel_for(rows0),
                                            log + s,
                                        ) by {
                                        let s2 = seq![reply_v] + s;
                                        assert(run_rows(qv_pre, env_pre, p, fe, s2) == run_rows(
                                            rows0,
                                            seeded_view,
                                            p,
                                            fuel_for(rows0),
                                            pre_log + s2,
                                        ));
                                        assert(pre_log + s2 =~= log + s);
                                        assert(s2[0] == reply_v);
                                        assert(s2.drop_first() =~= s);
                                    }
                                    assert forall|l2: SymExpr, r2: SymExpr| #[trigger]
                                        rows0.contains(RowView::Constraint(l2, r2)) implies qviews(
                                        queue@,
                                    ).contains(RowView::Constraint(l2, r2)) || eq_holds(
                                        l2,
                                        r2,
                                        env@,
                                        p,
                                    ) by {
                                        let c = RowView::Constraint(l2, r2);
                                        if qv_pre.contains(c) {
                                            lemma_contains_split(qv_pre, c);
                                        }
                                    }
                                }
                            },
                        }
                    } else {
                        queue.push(row.clone());
                        proof {
                            assert(qviews(queue@) =~= rest.push(qv_pre[0]));
                            requeue_membership(rows0, qv_pre, qviews(queue@));
                        }
                    }
                },
            }
        }
        proof {
            assert(qviews(queue@) =~= Seq::<RowView>::empty());
            assert(log + Seq::<Option<nat>>::empty() =~= log);
            assert(run_rows(qviews(queue@), env@, p, fuel as nat, Seq::<Option<nat>>::empty())
                == run_rows(rows0, seeded_view, p, fuel_for(rows0), log + Seq::<Option<nat>>::empty()));
            assert(run_rows(rows0, seeded_view, p, fuel_for(rows0), log) == RunOutcome::Finished(
                env@,
            ));
        }
        Ok(env)
    }

    /// Compute a witness from the given input bindings.  The call fails with
    /// `MissingVariable` exactly when some declared input is unbound.  On
    /// success the returned bindings satisfy every recorded constraint, agree
    /// with the given inputs on the declared input names, and bind every
    /// registered variable — a variable no row ever determined is zero.  The
    /// result always equals the worklist model's for some sequence of hint
    /// replies; for a system without hint rows no reply is consumed, so the
    /// result is a function of the system and the inputs alone.
    #[verifier::loop_isolation(false)]
    pub fn solve<O: HintOracle>(&self, inputs: &VarMap, oracle: &mut O) -> (r: Result<
        VarMap,
        CircuitError,
    >)
        requires
            self.wf(),
            inputs.wf(),
        ensures
            no_hints(self.row_views()) ==> ({
                let model = solve_model(
                    self.row_views(),
                    self.input_names(),
                    self.var_name_views(),
                    inputs@,
                    self.modulus_val(),
                    Seq::empty(),
                );
                match (r, model) {
                    (Ok(w), Ok(m)) => w@ == m,
                    (Err(e), Err(em)) => e == em,
                    _ => false,
                }
            }),
            match r {
                Ok(w) => w.wf() && (forall|i: int|
                    0 <= i < self.constraint_views().len() ==> eq_holds(
                        (#[trigger] self.constraint_views()[i]).0,
                        self.constraint_views()[i].1,
                        w@,
                        self.modulus_val(),
                    )) && (forall|k: Seq<char>|
                    #[trigger] self.input_names().contains(k) ==> inputs@.dom().contains(k)
                        && w@.dom().contains(k) && w@[k] == inputs@[k]) && (forall|k: Seq<char>|
                    #[trigger] self.var_name_views().contains(k) ==> w@.dom().contains(k)),
                Err(_) => true,
            },
            (r == Err::<VarMap, CircuitError>(CircuitError::MissingVariable)) <==> (exists|
                k: Seq<char>,
            |
                #[trigger] self.input_names().contains(k) && !inputs@.dom().contains(k)),
            exists|rs: Seq<Option<nat>>|
                #[trigger] solve_model(
                    self.row_views(),
                    self.input_names(),
                    self.var_name_views(),
                    inputs@,
                    self.modulus_val(),
                    rs,
                ) == (match r {
                    Ok(w) => Ok(w@),
                    Err(e) => Err(e),
                }),
    {
        let ghost p = self.modulus_val();
        let ghost inames = self.input_names();
        let ghost cv = self.constraint_views();
        let mut env0 = VarMap::new();
        proof {
            assert(inames.skip(0) =~= inames);
        }
        let ni = self.inputs.len();
        let mut i: usize = 0;
        while i < ni
            invariant
                0 <= i <= ni,
                env0.wf(),
                seed_inputs(inames, inputs@, Map::empty()) == seed_inputs(
                    inames.skip(i as int),
                    inputs@,
                    env0@,
                ),
                forall|k: Seq<char>| #[trigger]
                    env0@.dom().contains(k) ==> inputs@.dom().contains(k) && env0@[k] == inputs@[k],
                forall|t: int| 0 <= t < i ==> env0@.dom().contains(#[trigger] inames[t]),
                forall|t: int| 0 <= t < i ==> inputs@.dom().contains(#[trigger] inames[t]),
            decreases ni - i,
        {
            proof {
                assert(inames.skip(i as int)[0] == inames[i as int]);
                assert(inames.skip(i as int).drop_first() =~= inames.skip(i as int + 1));
            }
            match inputs.get(&self.inputs[i]) {
                None => {
                    proof {
                        assert(inames.contains(inames[i as int])) by {
                            assert(inames[i as int] == inames[i as int]);
                        }
                        assert(!inputs@.dom().contains(inames[i as int]));
                        assert(inames.skip(i as int)[0] == inames[i as int]);
                        assert(seed_inputs(inames, inputs@, Map::empty()) is None);
                        assert(solve_model(
                            self.row_views(),
                            inames,
                            self.var_name_views(),
                            inputs@,
                            p,
                            Seq::<Option<nat>>::empty(),
                        ) == Err::<Map<Seq<char>, nat>, CircuitError>(
                            CircuitError::MissingVariable,
                        ));
                    }
                    return Err(CircuitError::MissingVariable);
                },
                Some(v) => {
                    if !env0.contains(&self.inputs[i]) {
                        env0.insert(self.inputs[i].clone(), big_clone(v));
                    }
                },
            }
            i = i + 1;
        }
        proof {
            assert(inames.skip(ni as int) =~= Seq::<Seq<char>>::empty());
            assert forall|k: Seq<char>| #[trigger]
                inames.contains(k) implies inputs@.dom().contains(k) by {
                let t = choose|t: int| 0 <= t < inames.len() && inames[t] == k;
            }
        }
        let ghost seeded = env0@;
        proof {
            assert(seed_inputs(inames, inputs@, Map::empty()) == Some(seeded));
        }
        let res = self.run_worklist(env0, oracle);
        match res {
            Err(e) => {
                proof {
                    let rs = choose|rs: Seq<Option<nat>>|
                        #[trigger] run_rows(
                            self.row_views(),
                            seeded,
                            p,
                            fuel_for(self.row_views()),
                            rs,
                        ) == RunOutcome::Failed(e);
                    assert(solve_model(
                        self.row_views(),
                        inames,
                        self.var_name_views(),
                        inputs@,
                        p,
                        rs,
                    ) == Err::<Map<Seq<char>, nat>, CircuitError>(e));
                }
                Err(e)
            },
            Ok(w) => {
                let mut w = w;
                let ghost run_env = w@;
                let ghost vnames = self.var_name_views();
                proof {
                    assert(vnames.skip(0) =~= vnames);
                    assert forall|ii: int| 0 <= ii < cv.len() implies eq_holds(
                        (#[trigger] cv[ii]).0,
                        cv[ii].1,
                        w@,
                        p,
                    ) by {
                        lemma_constraints_of_member(self.row_views(), ii);
                    }
                }
                let nv = self.var_names.len();
                let mut k: usize = 0;
                while k < nv
                    invariant
                        0 <= k <= nv,
                        w.wf(),
                        fill_zero(run_env, vnames) == fill_zero(w@, vnames.skip(k as int)),
                        forall|ii: int|
                            0 <= ii < cv.len() ==> eq_holds(
                                (#[trigger] cv[ii]).0,
                                cv[ii].1,
                                w@,
                                p,
                            ),
                        forall|kk: Seq<char>| #[trigger]
                            seeded.dom().contains(kk) ==> w@.dom().contains(kk) && w@[kk]
                                == seeded[kk],
                        forall|t: int| 0 <= t < k ==> w@.dom().contains(#[trigger] vnames[t]),
                    decreases nv - k,
                {
                    proof {
                        assert(vnames.skip(k as int)[0] == vnames[k as int]);
                        assert(vnames.skip(k as int).drop_first() =~= vnames.skip(k as int + 1));
                    }
                    if !w.contains(&self.var_names[k]) {
                        let zero = big_from_u64(0);
                        proof {
                            assert forall|ii: int| 0 <= ii < cv.len() implies eq_holds(
                                (#[trigger] cv[ii]).0,
                                cv[ii].1,
                                w@.insert(vnames[k as int], 0),
                                p,
                            ) by {
                                lemma_eval_insert(cv[ii].0, w@, vnames[k as int], 0, p);
                                lemma_eval_insert(cv[ii].1, w@, vnames[k as int], 0, p);
                            }
                        }
                        w.insert(self.var_names[k].clone(), zero);
                    }
                    k = k + 1;
                }
                proof {
                    assert(vnames.skip(nv as int) =~= Seq::<Seq<char>>::empty());
                    assert forall|kk: Seq<char>| #[trigger]
                        vnames.contains(kk) implies w@.dom().contains(kk) by {
                        let t = choose|t: int| 0 <= t < vnames.len() && vnames[t] == kk;
                    }
                    assert forall|kk: Seq<char>| #[trigger]
                        inames.contains(kk) implies inputs@.dom().contains(kk) && w@.dom().contains(
                        kk,
                    ) && w@[kk] == inputs@[kk] by {
                        let t = choose|t: int| 0 <= t < inames.len() && inames[t] == kk;
                        assert(seeded.dom().contains(kk));
                    }
                    let rs = choose|rs: Seq<Option<nat>>|
                        #[trigger] run_rows(
                            self.row_views(),
                            seeded,
                            p,
                            fuel_for(self.row_views()),
                            rs,
                        ) == RunOutcome::Finished(run_env);
                    assert(solve_model(
                        self.row_views(),
                        inames,
                        self.var_name_views(),
                        inputs@,
                        p,
                        rs,
                    ) == Ok::<Map<Seq<char>, nat>, CircuitError>(fill_zero(run_env, vnames)));
                    assert(fill_zero(w@, vnames.skip(nv as int)) == w@);
                }
                Ok(w)
            },
        }
    }

    /// Run the scheduler to a witness: the same computation as `solve`.
    #[verifier::loop_isolation(false)]
    pub fn evaluate<O: HintOracle>(&self, inputs: &VarMap, oracle: &mut O) -> (r: Result<
        VarMap,
        CircuitError,
    >)
        requires
            self.wf(),
            inputs.wf(),
        ensures
            no_hints(self.row_views()) ==> ({
                let model = solve_model(
                    self.row_views(),
                    self.input_names(),
                    self.var_name_views(),
                    inputs@,
                    self.modulus_val(),
                    Seq::empty(),
                );
                match (r, model) {
                    (Ok(w), Ok(m)) => w@ == m,
                    (Err(e), Err(em)) => e == em,
                    _ => false,
                }
            }),
            match r {
                Ok(w) => w.wf() && (forall|i: int|
                    0 <= i < self.constraint_views().len() ==> eq_holds(
                        (#[trigger] self.constraint_views()[i]).0,
                        self.constraint_views()[i].1,
                        w@,
                        self.modulus_val(),
                    )),
                Err(_) => true,
            },
            (r == Err::<VarMap, CircuitError>(CircuitError::MissingVariable)) <==> (exists|
                k: Seq<char>,
            |
                #[trigger] self.input_names().contains(k) && !inputs@.dom().contains(k)),
            exists|rs: Seq<Option<nat>>|
                #[trigger] solve_model(
                    self.row_views(),
                    self.input_names(),
                    self.var_name_views(),
                    inputs@,
                    self.modulus_val(),
                    rs,
                ) == (match r {
                    Ok(w) => Ok(w@),
                    Err(e) => Err(e),
                }),
    {
        self.solve(inputs, oracle)
    }

    /// The recorded constraints, as fresh copies in recording order.
    pub fn constraints(&self) -> (r: Vec<Equation>)
        ensures
            r@.map_values(|e: Equation| (e.lhs@, e.rhs@)) == self.constraint_views(),
    {
        let n = self.constraints.len();
        let mut out: Vec<Equation> = Vec::new();
        let mut i: usize = 0;
        while i < n
            invariant
                0 <= i <= n,
                n == self.constraints@.len(),
                out@.len() == i,
                forall|j: int|
                    0 <= j < i ==> (#[trigger] out@[j]).lhs@ == self.constraints@[j].lhs@
                        && out@[j].rhs@ == self.constraints@[j].rhs@,
            decreases n - i,
        {
            out.push(self.constraints[i].clone());
            i = i + 1;
        }
        proof {
            assert(out@.map_values(|e: Equation| (e.lhs@, e.rhs@)) =~= self.constraint_views());
        }
        out
    }

    /// The fixed column ordering both compilers consume.
    pub fn get_witness_vector(&self) -> (r: Vec<String>)
        ensures
            seq_names(r@) == crate::r1cs::witness_order(
                self.var_name_views(),
                self.input_names(),
                self.output_names(),
                self.public_names(),
            ),
    {
        crate::r1cs::get_witness_vector(
            &self.var_names,
            &self.inputs,
            &self.outputs,
            &self.public_vars,
        )
    }

    /// Lower every recorded constraint into one R1CS row over the fixed
    /// witness ordering.  The pass is read-only; every literal must already
    /// be reduced below the modulus.
    pub fn compile_to_r1cs(&self) -> (r: Result<Vec<crate::r1cs::RowTriples>, CircuitError>)
        requires
            self.wf(),
            forall|i: int|
                0 <= i < self.constraint_views().len() ==> crate::r1cs::consts_reduced(
                    (#[trigger] self.constraint_views()[i]).0,
                    self.modulus_val(),
                ) && crate::r1cs::consts_reduced(
                    self.constraint_views()[i].1,
                    self.modulus_val(),
                ),
        ensures
            ({
                let wv = crate::r1cs::witness_order(
                    self.var_name_views(),
                    self.input_names(),
                    self.output_names(),
                    self.public_names(),
                );
                match r {
                    Ok(rows) => rows@.len() == self.constraint_views().len() && forall|i: int|
                        0 <= i < rows@.len() ==> crate::r1cs::consume_r1cs(
                            self.constraint_views()[i].0,
                            self.constraint_views()[i].1,
                            i,
                            wv,
                            self.modulus_val(),
                        ) == Some(
                            (
                                crate::r1cs::trips_view((#[trigger] rows@[i]).0@),
                                crate::r1cs::trips_view(rows@[i].1@),
                                crate::r1cs::trips_view(rows@[i].2@),
                            ),
                        ),
                    Err(e) => e == CircuitError::UnsupportedGateShape && exists|i: int|
                        0 <= i < self.constraint_views().len() && crate::r1cs::consume_r1cs(
                            (#[trigger] self.constraint_views()[i]).0,
                            self.constraint_views()[i].1,
                            i,
                            wv,
                            self.modulus_val(),
                        ) is None,
                }
            }),
    {
        let wmap = self.get_witness_vector();
        proof {
            assert forall|i: int| 0 <= i < self.constraints@.len() implies crate::r1cs::consts_reduced(
                (#[trigger] self.constraints@[i]).lhs@,
                big(self.modulus),
            ) && crate::r1cs::consts_reduced(self.constraints@[i].rhs@, big(self.modulus)) by {
                assert(self.constraint_views()[i] == (
                    self.constraints@[i].lhs@,
                    self.constraints@[i].rhs@,
                ));
            }
        }
        let result = crate::r1cs::compile(&self.constraints, &wmap, &self.modulus);
        proof {
            let p = self.modulus_val();
            let wv = crate::r1cs::witness_order(
                self.var_name_views(),
                self.input_names(),
                self.output_names(),
                self.public_names(),
            );
            match &result {
                Ok(rows) => {
                    assert forall|i: int| 0 <= i < rows@.len() implies crate::r1cs::consume_r1cs(
                        self.constraint_views()[i].0,
                        self.constraint_views()[i].1,
                        i,
                        wv,
                        p,
                    ) == Some(
                        (
                            crate::r1cs::trips_view((#[trigger] rows@[i]).0@),
                            crate::r1cs::trips_view(rows@[i].1@),
                            crate::r1cs::trips_view(rows@[i].2@),
                        ),
                    ) by {
                        assert(self.constraint_views()[i] == (
                            self.constraints@[i].lhs@,
                            self.constraints@[i].rhs@,
                        ));
                    }
                },
                Err(_) => {
                    let i = choose|i: int|
                        0 <= i < self.constraints@.len() && crate::r1cs::consume_r1cs(
                            (#[trigger] self.constraints@[i]).lhs@,
                            self.constraints@[i].rhs@,
                            i,
                            wv,
                            p,
                        ) is None;
                    assert(self.constraint_views()[i] == (
                        self.constraints@[i].lhs@,
                        self.constraints@[i].rhs@,
                    ));
                    assert(crate::r1cs::consume_r1cs(
                        (#[trigger] self.constraint_views()[i]).0,
                        self.constraint_views()[i].1,
                        i,
                        wv,
                        p,
                    ) is None);
                },
            }
        }
        result
    }

    /// Lower every recorded constraint into one Plonkish gate, and derive the
    /// copy-constraint permutation over the gates' wires.  The pass is
    /// read-only; every literal on a left side must already be reduced below
    /// the modulus.
    pub fn compile_to_plonkish(&self) -> (r: Result<
        (Vec<crate::plonkish::PlonkGate>, Vec<usize>),
        CircuitError,
    >)
        requires
            self.wf(),
            self.constraint_views().len() <= usize::MAX / 6,
            forall|i: int|
                0 <= i < self.constraint_views().len() ==> crate::r1cs::consts_reduced(
                    (#[trigger] self.constraint_views()[i]).0,
                    self.modulus_val(),
                ),
        ensures
            match r {
                Ok(pair) => {
                    let labels = crate::plonkish::col_major(
                        crate::plonkish::flat_wires(pair.0@),
                        crate::plonkish::pow2_at_least(self.constraint_views().len(), 1) as int,
                    );
                    let padded = 3 * crate::plonkish::pow2_at_least(
                        self.constraint_views().len(),
                        1,
                    );
                    &&& pair.0@.len() == self.constraint_views().len()
                    &&& forall|i: int|
                        0 <= i < pair.0@.len() ==> crate::plonkish::consume_plonk(
                            self.constraint_views()[i].0,
                            self.constraint_views()[i].1,
                            self.public_names(),
                            self.modulus_val(),
                        ) == Some(
                            (
                                big((#[trigger] pair.0@[i]).0),
                                big(pair.0@[i].1),
                                big(pair.0@[i].2),
                                big(pair.0@[i].3),
                                big(pair.0@[i].4),
                                crate::plonkish::wires_view(pair.0@[i].5),
                            ),
                        )
                    &&& pair.1@.len() == padded
                    &&& pair.1@ == crate::plonkish::apply_swaps(
                        Seq::new(padded, |k: int| k as usize),
                        crate::plonkish::swap_pairs(labels, 0, 3 * pair.0@.len() as int),
                    )
                    &&& forall|k: int| 0 <= k < padded ==> (#[trigger] pair.1@[k]) < padded
                    &&& forall|k1: int, k2: int|
                        0 <= k1 < k2 < padded ==> pair.1@[k1] != pair.1@[k2]
                    &&& forall|k: int|
                        0 <= k < padded ==> labels[(#[trigger] pair.1@[k]) as int] == labels[k]
                    &&& forall|k: int|
                        0 <= k < padded && labels[k] == Seq::<char>::empty() ==> (
                        #[trigger] pair.1@[k]) as int == k
                },
                Err(e) => e == CircuitError::UnsupportedGateShape && exists|i: int|
                    0 <= i < self.constraint_views().len() && crate::plonkish::consume_plonk(
                        (#[trigger] self.constraint_views()[i]).0,
                        self.constraint_views()[i].1,
                        self.public_names(),
                        self.modulus_val(),
                    ) is None,
            },
    {
        proof {
            assert forall|i: int|
                0 <= i < self.constraints@.len() implies crate::r1cs::consts_reduced(
                (#[trigger] self.constraints@[i]).lhs@,
                big(self.modulus),
            ) by {
                assert(self.constraint_views()[i] == (
                    self.constraints@[i].lhs@,
                    self.constraints@[i].rhs@,
                ));
            }
        }
        let result = crate::plonkish::compile(&self.constraints, &self.public_vars, &self.modulus);
        proof {
            let p = self.modulus_val();
            match &result {
                Ok(pair) => {
                    assert forall|i: int|
                        0 <= i < pair.0@.len() implies crate::plonkish::consume_plonk(
                        self.constraint_views()[i].0,
                        self.constraint_views()[i].1,
                        self.public_names(),
                        p,
                    ) == Some(
                        (
                            big((#[trigger] pair.0@[i]).0),
                            big(pair.0@[i].1),
                            big(pair.0@[i].2),
                            big(pair.0@[i].3),
                            big(pair.0@[i].4),
                            crate::plonkish::wires_view(pair.0@[i].5),
                        ),
                    ) by {
                        assert(self.constraint_views()[i] == (
                            self.constraints@[i].lhs@,
                            self.constraints@[i].rhs@,
                        ));
                    }
                },
                Err(_) => {
                    let i = choose|i: int|
                        0 <= i < self.constraints@.len() && crate::plonkish::consume_plonk(
                            (#[trigger] self.constraints@[i]).lhs@,
                            self.constraints@[i].rhs@,
                            self.public_names(),
                            p,
                        ) is None;
                    assert(self.constraint_views()[i] == (
                        self.constraints@[i].lhs@,
                        self.constraints@[i].rhs@,
                    ));
                    assert(crate::plonkish::consume_plonk(
                        (#[trigger] self.constraint_views()[i]).0,
                        self.constraint_views()[i].1,
                        self.public_names(),
                        p,
                    ) is None);
                },
            }
        }
        result
    }

    /// Record a constraint.  The sides are oriented by the swap convention;
    /// at most one assignment row is derived from it — for its first
    /// unassigned variable, when one exists and the left side is linear in it
    /// — and the raw equation is always recorded for the equality check.
    /// Every variable of either side is registered.
    pub fn add_constraint(&mut self, constraint: Equation)
        requires
            old(self).wf(),
        ensures
            final(self).wf(),
            ({
                let (l2, r2) = orient(constraint.lhs@, constraint.rhs@);
                final(self).constraint_views() == old(self).constraint_views().push((l2, r2))
                    && final(self).var_name_views() == add_names(
                    old(self).var_name_views(),
                    expr_vars(l2) + expr_vars(r2),
                ) && (match derived_assignment(l2, r2, old(self).assigned_set()) {
                    Some((n, e)) => final(self).row_views() == old(self).row_views().push(
                        RowView::Assignment(n, e),
                    ).push(RowView::Constraint(l2, r2)) && final(self).assigned_set() == old(self).assigned_set().insert(n),
                    None => final(self).row_views() == old(self).row_views().push(
                        RowView::Constraint(l2, r2),
                    ) && final(self).assigned_set() == old(self).assigned_set(),
                })
            }),
            final(self).modulus_val() == old(self).modulus_val(),
            final(self).input_names() == old(self).input_names(),
            final(self).output_names() == old(self).output_names(),
            final(self).public_names() == old(self).public_names(),
    {
        let mut constraint = constraint;
        let ghost l0 = constraint.lhs@;
        let ghost r0 = constraint.rhs@;
        if constraint.rhs.is_simple() && !constraint.lhs.is_var() {
            constraint.swap();
        }
        proof {
            assert((constraint.lhs@, constraint.rhs@) == orient(l0, r0));
        }
        let ghost l2 = constraint.lhs@;
        let ghost r2 = constraint.rhs@;
        match constraint.lhs.var_name() {
            Some(name) => {
                if !names_contain(&self.assigned, &name) {
                    let ghost pre_assigned = seq_names(self.assigned@);
                    let ghost pre_rows = self.row_views();
                    let row = Row::Assignment(name.clone(), constraint.rhs.clone());
                    self.assigned.push(name.clone());
                    self.sequence.push(row);
                    proof {
                        assert(seq_names(self.assigned@) =~= pre_assigned.push(name@));
                        lemma_push_to_set(pre_assigned, name@);
                        assert(self.row_views() =~= pre_rows.push(RowView::Assignment(name@, r2)));
                        lemma_constraints_of_push(
                            pre_rows,
                            RowView::Assignment(name@, r2),
                            self.row_views(),
                        );
                        assert(constraints_of(pre_rows) + Seq::<(SymExpr, SymExpr)>::empty()
                            =~= constraints_of(pre_rows));
                    }
                }
            },
            None => {
                let found = self.find_unassigned(&constraint.lhs);
                match found {
                    None => {},
                    Some(n) => {
                        match constraint.lhs.isolate_term(&n, &constraint.rhs) {
                            Err(_) => {},
                            Ok(e) => {
                                let ghost pre_assigned = seq_names(self.assigned@);
                                let ghost pre_rows = self.row_views();
                                let row = Row::Assignment(n.clone(), e);
                                self.assigned.push(n.clone());
                                self.sequence.push(row);
                                proof {
                                    assert(seq_names(self.assigned@) =~= pre_assigned.push(n@));
                                    lemma_push_to_set(pre_assigned, n@);
                                    assert(self.row_views() =~= pre_rows.push(
                                        RowView::Assignment(n@, isolate(l2, n@, r2)->Some_0),
                                    ));
                                    lemma_constraints_of_push(
                                        pre_rows,
                                        RowView::Assignment(n@, isolate(l2, n@, r2)->Some_0),
                                        self.row_views(),
                                    );
                                    assert(constraints_of(pre_rows) + Seq::<(
                                        SymExpr,
                                        SymExpr,
                                    )>::empty() =~= constraints_of(pre_rows));
                                }
                            },
                        }
                    },
                }
            },
        }
        self.add_var(&constraint.lhs);
        self.add_var(&constraint.rhs);
        proof {
            lemma_add_names_concat(
                old(self).var_name_views(),
                expr_vars(l2),
                expr_vars(r2),
            );
        }
        let ghost pre_rows = self.row_views();
        let ghost pre_constraints = self.constraint_views();
        let clone_of = constraint.clone();
        self.constraints.push(clone_of);
        self.sequence.push(Row::Constraint(constraint));
        proof {
            assert(self.constraint_views() =~= pre_constraints.push((l2, r2)));
            assert(self.row_views() =~= pre_rows.push(RowView::Constraint(l2, r2)));
            lemma_constraints_of_push(pre_rows, RowView::Constraint(l2, r2), self.row_views());
            assert(constraints_of(pre_rows) + seq![(l2, r2)] =~= constraints_of(pre_rows).push(
                (l2, r2),
            ));
        }
    }

    /// Register a hint row: `target` will be filled in at solve time by the
    /// named external computation, applied to the named arguments.  Only a
    /// bare variable can be a hint target.
    pub fn unsafe_assign(&mut self, target: &Node, computation: String, args: Vec<String>) -> (r:
        Result<(), CircuitError>)
        requires
            old(self).wf(),
        ensures
            final(self).wf(),
            match r {
                Ok(()) => target@ is Var && final(self).row_views() == old(self).row_views().push(
                    RowView::Hint(target@->Var_0, computation@, seq_names(args@)),
                ) && unchanged_but_rows(*old(self), *final(self)),
                Err(e) => e == CircuitError::UnsupportedGateShape && !(target@ is Var) && *final(self) == *old(self),
            },
    {
        match target.var_name() {
            Some(name) => {
                let ghost pre_rows = self.row_views();
                let ghost hint_view = RowView::Hint(name@, computation@, seq_names(args@));
                self.sequence.push(Row::Hint(name, computation, args));
                proof {
                    assert(self.row_views() =~= pre_rows.push(hint_view));
                    lemma_constraints_of_push(pre_rows, hint_view, self.row_views());
                    assert(constraints_of(pre_rows) + Seq::<(SymExpr, SymExpr)>::empty()
                        =~= constraints_of(pre_rows));
                }
                Ok(())
            },
            None => Err(CircuitError::UnsupportedGateShape),
        }
    }
}

/// Solving is deterministic.  `solve` pins its result to the worklist model,
/// a function of the system's rows, its declared input names, its variable
/// registry, the modulus, and the given input bindings alone — so two calls
/// on equal systems with equal inputs return equal outcomes, and nothing a
/// previous run left behind can influence a later one.
pub proof fn lemma_solve_deterministic(
    rows1: Seq<RowView>,
    rows2: Seq<RowView>,
    inputs1: Seq<Seq<char>>,
    inputs2: Seq<Seq<char>>,
    vars1: Seq<Seq<char>>,
    vars2: Seq<Seq<char>>,
    given1: Map<Seq<char>, nat>,
    given2: Map<Seq<char>, nat>,
    p1: nat,
    p2: nat,
    replies1: Seq<Option<nat>>,
    replies2: Seq<Option<nat>>,
)
    requires
        rows1 == rows2,
        inputs1 == inputs2,
        vars1 == vars2,
        given1 == given2,
        p1 == p2,
        replies1 == replies2,
    ensures
        solve_model(rows1, inputs1, vars1, given1, p1, replies1) == solve_model(
            rows2,
            inputs2,
            vars2,
            given2,
            p2,
            replies2,
        ),
{
}

/// Appending a row appends its constraint, if it is one.
proof fn lemma_constraints_of_push(rows: Seq<RowView>, row: RowView, pushed: Seq<RowView>)
    requires
        pushed == rows.push(row),
    ensures
        constraints_of(pushed) == constraints_of(rows) + (match row {
            RowView::Constraint(l, r) => seq![(l, r)],
            _ => Seq::<(SymExpr, SymExpr)>::empty(),
        }),
{
    assert(pushed.drop_last() =~= rows);
    assert(pushed.last() == row);
}

/// All parts of a system except the public names are the same.
pub open spec fn unchanged_but_public(a: ConstraintSystem, b: ConstraintSystem) -> bool {
    b.wf() == a.wf() && b.modulus_val() == a.modulus_val() && b.row_views() == a.row_views()
        && b.constraint_views() == a.constraint_views() && b.var_name_views() == a.var_name_views()
        && b.assigned_set() == a.assigned_set() && b.input_names() == a.input_names()
        && b.output_names() == a.output_names()
}

/// All parts of a system except the row sequence are the same.
pub open spec fn unchanged_but_rows(a: ConstraintSystem, b: ConstraintSystem) -> bool {
    b.modulus_val() == a.modulus_val() && b.constraint_views() == a.constraint_views()
        && b.var_name_views() == a.var_name_views() && b.assigned_set() == a.assigned_set()
        && b.input_names() == a.input_names() && b.output_names() == a.output_names()
        && b.public_names() == a.public_names()
}

/// All parts of a system except the variable registry are the same.
pub open spec fn unchanged_but_vars(a: ConstraintSystem, b: ConstraintSystem) -> bool {
    b.modulus_val() == a.modulus_val() && b.row_views() == a.row_views() && b.constraint_views()
        == a.constraint_views() && b.assigned_set() == a.assigned_set() && b.input_names()
        == a.input_names() && b.output_names() == a.output_names() && b.public_names()
        == a.public_names()
}

} // verus!
