//! The symbolic expression engine: a recursive gate tree over field values,
//! its mathematical model, evaluation, and algebraic term isolation.
use vstd::prelude::*;
use num_bigint::BigUint;

use crate::bigint::{big, is_inverse, big_add, big_clone, big_modinv, big_mul, big_rem, big_sub, big_lt};
use crate::CircuitError;
use crate::varmap::VarMap;

verus! {

/// The mathematical shape of an expression: variables named by character
/// sequences and literals that are natural numbers.  This is the view of the
/// executable tree, and every contract speaks in terms of it.
pub enum SymExpr {
    Var(Seq<char>),
    Lit(nat),
    Plus(Box<SymExpr>, Box<SymExpr>),
    Minus(Box<SymExpr>, Box<SymExpr>),
    Times(Box<SymExpr>, Box<SymExpr>),
    Ratio(Box<SymExpr>, Box<SymExpr>),
    Negate(Box<SymExpr>),
}

/// A symbolic gate: a free variable, a literal, or an arithmetic combination
/// of smaller expressions.  Children are owned exclusively by their parent.
pub enum Gate {
    Input(String),
    Const(BigUint),
    Add(Box<Node>, Box<Node>),
    Sub(Box<Node>, Box<Node>),
    Mul(Box<Node>, Box<Node>),
    Div(Box<Node>, Box<Node>),
    Neg(Box<Node>),
}

/// A node of the expression tree.  Values are never memoized inside the tree:
/// every evaluation happens against an explicit environment, so a tree can be
/// reused across solver runs without stale results.
pub struct Node {
    pub gate: Gate,
}

impl View for Gate {
    type V = SymExpr;

    open spec fn view(&self) -> SymExpr
        decreases self,
    {
        match self {
            Gate::Input(name) => SymExpr::Var(name@),
            Gate::Const(v) => SymExpr::Lit(big(*v)),
            Gate::Add(l, r) => SymExpr::Plus(Box::new(l.gate@), Box::new(r.gate@)),
            Gate::Sub(l, r) => SymExpr::Minus(Box::new(l.gate@), Box::new(r.gate@)),
            Gate::Mul(l, r) => SymExpr::Times(Box::new(l.gate@), Box::new(r.gate@)),
            Gate::Div(l, r) => SymExpr::Ratio(Box::new(l.gate@), Box::new(r.gate@)),
            Gate::Neg(x) => SymExpr::Negate(Box::new(x.gate@)),
        }
    }
}

impl View for Node {
    type V = SymExpr;

    open spec fn view(&self) -> SymExpr {
        self.gate@
    }
}

/// Addition in the field of integers modulo `p`.
pub open spec fn addm(a: nat, b: nat, p: nat) -> nat {
    (a + b) % p
}

/// Subtraction in the field: both arguments are expected reduced.
pub open spec fn subm(a: nat, b: nat, p: nat) -> nat
    recommends
        a < p,
        b < p,
{
    if a >= b {
        ((a - b) as nat) % p
    } else {
        ((p - ((b - a) as nat)) as nat) % p
    }
}

/// Multiplication in the field.
pub open spec fn mulm(a: nat, b: nat, p: nat) -> nat {
    (a * b) % p
}

/// Negation in the field: the argument is expected reduced.
pub open spec fn negm(a: nat, p: nat) -> nat
    recommends
        a <= p,
{
    ((p - a) as nat) % p
}

/// Whether `a` has a multiplicative inverse modulo `p`.
pub open spec fn has_inverse(a: nat, p: nat) -> bool {
    exists|w: nat| is_inverse(a, w, p)
}

/// The multiplicative inverse of `a` modulo `p`, when one exists.
pub open spec fn inverse_of(a: nat, p: nat) -> nat {
    choose|w: nat| is_inverse(a, w, p)
}

/// The outcome of evaluating an expression against an environment.
pub enum ExprVal {
    /// The value, reduced into `[0, p)`.
    Known(nat),
    /// Some variable of the expression has no binding.
    MissingVar,
    /// Some divisor has no multiplicative inverse modulo `p`.
    NoInverse,
}

/// The meaning of an expression: a recursive evaluation over an environment
/// that binds variable names to natural numbers, every result reduced modulo
/// `p`.  Operand order fixes which failure is reported: the left operand is
/// examined first, except for a quotient, whose divisor is examined first.
pub open spec fn eval_in(e: SymExpr, env: Map<Seq<char>, nat>, p: nat) -> ExprVal
    decreases e,
{
    match e {
        SymExpr::Var(name) => if env.dom().contains(name) {
            ExprVal::Known(env[name] % p)
        } else {
            ExprVal::MissingVar
        },
        SymExpr::Lit(v) => ExprVal::Known(v % p),
        SymExpr::Plus(l, r) => match eval_in(*l, env, p) {
            ExprVal::Known(a) => match eval_in(*r, env, p) {
                ExprVal::Known(b) => ExprVal::Known(addm(a, b, p)),
                err => err,
            },
            err => err,
        },
        SymExpr::Minus(l, r) => match eval_in(*l, env, p) {
            ExprVal::Known(a) => match eval_in(*r, env, p) {
                ExprVal::Known(b) => ExprVal::Known(subm(a, b, p)),
                err => err,
            },
            err => err,
        },
        SymExpr::Times(l, r) => match eval_in(*l, env, p) {
            ExprVal::Known(a) => match eval_in(*r, env, p) {
                ExprVal::Known(b) => ExprVal::Known(mulm(a, b, p)),
                err => err,
            },
            err => err,
        },
        SymExpr::Ratio(l, r) => match eval_in(*r, env, p) {
            ExprVal::Known(b) => if has_inverse(b, p) {
                match eval_in(*l, env, p) {
                    ExprVal::Known(a) => ExprVal::Known(mulm(a, inverse_of(b, p), p)),
                    err => err,
                }
            } else {
                ExprVal::NoInverse
            },
            err => err,
        },
        SymExpr::Negate(x) => match eval_in(*x, env, p) {
            ExprVal::Known(a) => ExprVal::Known(negm(a, p)),
            err => err,
        },
    }
}

/// A known evaluation result is always reduced into `[0, p)`.
pub proof fn lemma_eval_reduced(e: SymExpr, env: Map<Seq<char>, nat>, p: nat)
    requires
        p > 0,
    ensures
        forall|v: nat| eval_in(e, env, p) == ExprVal::Known(v) ==> v < p,
    decreases e,
{
    match e {
        SymExpr::Plus(l, r) => {
            lemma_eval_reduced(*l, env, p);
            lemma_eval_reduced(*r, env, p);
        },
        SymExpr::Minus(l, r) => {
            lemma_eval_reduced(*l, env, p);
            lemma_eval_reduced(*r, env, p);
        },
        SymExpr::Times(l, r) => {
            lemma_eval_reduced(*l, env, p);
            lemma_eval_reduced(*r, env, p);
        },
        SymExpr::Ratio(l, r) => {
            lemma_eval_reduced(*l, env, p);
            lemma_eval_reduced(*r, env, p);
        },
        SymExpr::Negate(x) => {
            lemma_eval_reduced(*x, env, p);
        },
        _ => {},
    }
}

/// Every variable name an expression touches, in evaluation order and with
/// duplicates kept.
pub open spec fn expr_vars(e: SymExpr) -> Seq<Seq<char>>
    decreases e,
{
    match e {
        SymExpr::Var(name) => seq![name],
        SymExpr::Lit(_) => Seq::empty(),
        SymExpr::Plus(l, r) => expr_vars(*l) + expr_vars(*r),
        SymExpr::Minus(l, r) => expr_vars(*l) + expr_vars(*r),
        SymExpr::Times(l, r) => expr_vars(*l) + expr_vars(*r),
        SymExpr::Ratio(l, r) => expr_vars(*l) + expr_vars(*r),
        SymExpr::Negate(x) => expr_vars(*x),
    }
}

/// Whether an expression is variable-free: a constant expression.
pub open spec fn no_vars(e: SymExpr) -> bool
    decreases e,
{
    match e {
        SymExpr::Var(_) => false,
        SymExpr::Lit(_) => true,
        SymExpr::Plus(l, r) => no_vars(*l) && no_vars(*r),
        SymExpr::Minus(l, r) => no_vars(*l) && no_vars(*r),
        SymExpr::Times(l, r) => no_vars(*l) && no_vars(*r),
        SymExpr::Ratio(l, r) => no_vars(*l) && no_vars(*r),
        SymExpr::Negate(x) => no_vars(*x),
    }
}

/// Whether an expression touches the variable `name`.
pub open spec fn mentions(e: SymExpr, name: Seq<char>) -> bool
    decreases e,
{
    match e {
        SymExpr::Var(n) => n == name,
        SymExpr::Lit(_) => false,
        SymExpr::Plus(l, r) => mentions(*l, name) || mentions(*r, name),
        SymExpr::Minus(l, r) => mentions(*l, name) || mentions(*r, name),
        SymExpr::Times(l, r) => mentions(*l, name) || mentions(*r, name),
        SymExpr::Ratio(l, r) => mentions(*l, name) || mentions(*r, name),
        SymExpr::Negate(x) => mentions(*x, name),
    }
}

/// The human-readable rendering of an expression: sums and differences
/// parenthesized, negation as a prefixed minus, literals in decimal.
pub open spec fn expr_text(e: SymExpr) -> Seq<char>
    decreases e,
{
    match e {
        SymExpr::Var(n) => n,
        SymExpr::Lit(v) => crate::bigint::dec_str(v),
        SymExpr::Plus(l, r) => seq!['('] + expr_text(*l) + seq![' ', '+', ' '] + expr_text(*r)
            + seq![')'],
        SymExpr::Minus(l, r) => seq!['('] + expr_text(*l) + seq![' ', '-', ' '] + expr_text(*r)
            + seq![')'],
        SymExpr::Times(l, r) => expr_text(*l) + seq![' ', '*', ' '] + expr_text(*r),
        SymExpr::Ratio(l, r) => expr_text(*l) + seq![' ', '/', ' '] + expr_text(*r),
        SymExpr::Negate(x) => seq!['-', '('] + expr_text(*x) + seq![')'],
    }
}

/// Membership in a concatenation is membership in either part.
pub proof fn lemma_concat_contains(a: Seq<Seq<char>>, b: Seq<Seq<char>>, x: Seq<char>)
    ensures
        (a + b).contains(x) <==> a.contains(x) || b.contains(x),
{
    if a.contains(x) {
        let i = choose|i: int| 0 <= i < a.len() && a[i] == x;
        assert((a + b)[i] == x);
    }
    if b.contains(x) {
        let i = choose|i: int| 0 <= i < b.len() && b[i] == x;
        assert((a + b)[a.len() + i] == x);
    }
    if (a + b).contains(x) {
        let i = choose|i: int| 0 <= i < (a + b).len() && (a + b)[i] == x;
        if i < a.len() {
            assert(a[i] == x);
        } else {
            assert(b[i - a.len()] == x);
        }
    }
}

/// `mentions` agrees with membership in the variable list.
pub proof fn lemma_mentions_vars(e: SymExpr, name: Seq<char>)
    ensures
        mentions(e, name) <==> expr_vars(e).contains(name),
    decreases e,
{
    match e {
        SymExpr::Var(n) => {
            if n == name {
                assert(expr_vars(e)[0] == name);
            }
        },
        SymExpr::Lit(_) => {},
        SymExpr::Plus(l, r) => {
            lemma_mentions_vars(*l, name);
            lemma_mentions_vars(*r, name);
            lemma_concat_contains(expr_vars(*l), expr_vars(*r), name);
        },
        SymExpr::Minus(l, r) => {
            lemma_mentions_vars(*l, name);
            lemma_mentions_vars(*r, name);
            lemma_concat_contains(expr_vars(*l), expr_vars(*r), name);
        },
        SymExpr::Times(l, r) => {
            lemma_mentions_vars(*l, name);
            lemma_mentions_vars(*r, name);
            lemma_concat_contains(expr_vars(*l), expr_vars(*r), name);
        },
        SymExpr::Ratio(l, r) => {
            lemma_mentions_vars(*l, name);
            lemma_mentions_vars(*r, name);
            lemma_concat_contains(expr_vars(*l), expr_vars(*r), name);
        },
        SymExpr::Negate(x) => {
            lemma_mentions_vars(*x, name);
        },
    }
}

/// If every variable of an expression is bound, evaluation never reports a
/// missing variable.
pub proof fn lemma_eval_no_missing(e: SymExpr, env: Map<Seq<char>, nat>, p: nat)
    requires
        forall|n: Seq<char>| #[trigger] mentions(e, n) ==> env.dom().contains(n),
    ensures
        eval_in(e, env, p) != ExprVal::MissingVar,
    decreases e,
{
    match e {
        SymExpr::Var(n) => {
            assert(mentions(e, n));
        },
        SymExpr::Lit(_) => {},
        SymExpr::Plus(l, r) => {
            assert(forall|n: Seq<char>| #[trigger] mentions(*l, n) ==> mentions(e, n));
            assert(forall|n: Seq<char>| #[trigger] mentions(*r, n) ==> mentions(e, n));
            lemma_eval_no_missing(*l, env, p);
            lemma_eval_no_missing(*r, env, p);
        },
        SymExpr::Minus(l, r) => {
            assert(forall|n: Seq<char>| #[trigger] mentions(*l, n) ==> mentions(e, n));
            assert(forall|n: Seq<char>| #[trigger] mentions(*r, n) ==> mentions(e, n));
            lemma_eval_no_missing(*l, env, p);
            lemma_eval_no_missing(*r, env, p);
        },
        SymExpr::Times(l, r) => {
            assert(forall|n: Seq<char>| #[trigger] mentions(*l, n) ==> mentions(e, n));
            assert(forall|n: Seq<char>| #[trigger] mentions(*r, n) ==> mentions(e, n));
            lemma_eval_no_missing(*l, env, p);
            lemma_eval_no_missing(*r, env, p);
        },
        SymExpr::Ratio(l, r) => {
            assert(forall|n: Seq<char>| #[trigger] mentions(*l, n) ==> mentions(e, n));
            assert(forall|n: Seq<char>| #[trigger] mentions(*r, n) ==> mentions(e, n));
            lemma_eval_no_missing(*l, env, p);
            lemma_eval_no_missing(*r, env, p);
        },
        SymExpr::Negate(x) => {
            assert(forall|n: Seq<char>| #[trigger] mentions(*x, n) ==> mentions(e, n));
            lemma_eval_no_missing(*x, env, p);
        },
    }
}

/// The first variable of `e`, in left-to-right order, that is not yet in
/// `assigned`.
pub open spec fn first_unassigned(e: SymExpr, assigned: Set<Seq<char>>) -> Option<Seq<char>>
    decreases e,
{
    match e {
        SymExpr::Var(n) => if assigned.contains(n) {
            None
        } else {
            Some(n)
        },
        SymExpr::Lit(_) => None,
        SymExpr::Plus(l, r) => match first_unassigned(*l, assigned) {
            Some(n) => Some(n),
            None => first_unassigned(*r, assigned),
        },
        SymExpr::Minus(l, r) => match first_unassigned(*l, assigned) {
            Some(n) => Some(n),
            None => first_unassigned(*r, assigned),
        },
        SymExpr::Times(l, r) => match first_unassigned(*l, assigned) {
            Some(n) => Some(n),
            None => first_unassigned(*r, assigned),
        },
        SymExpr::Ratio(l, r) => match first_unassigned(*l, assigned) {
            Some(n) => Some(n),
            None => first_unassigned(*r, assigned),
        },
        SymExpr::Negate(x) => first_unassigned(*x, assigned),
    }
}

/// Solve `e = acc` for `target`, assuming `e` is linear in `target`.  Each
/// step folds the side free of the target into the accumulator with the
/// inverse operation, keeping signs: the subtrahend of a difference folds
/// back by addition when the target is on the left, and the accumulator is
/// subtracted from the minuend when the target is on the right.  A product
/// splits only when one factor is free of the target; any other shape has no
/// linear rearrangement.
pub open spec fn isolate(e: SymExpr, target: Seq<char>, acc: SymExpr) -> Option<SymExpr>
    decreases e,
{
    match e {
        SymExpr::Var(n) => if n == target {
            Some(acc)
        } else {
            None
        },
        SymExpr::Lit(_) => None,
        SymExpr::Plus(l, r) => if mentions(*l, target) {
            isolate(*l, target, SymExpr::Minus(Box::new(acc), r))
        } else if mentions(*r, target) {
            isolate(*r, target, SymExpr::Minus(Box::new(acc), l))
        } else {
            None
        },
        SymExpr::Minus(l, r) => if mentions(*l, target) {
            isolate(*l, target, SymExpr::Plus(Box::new(acc), r))
        } else if mentions(*r, target) {
            isolate(*r, target, SymExpr::Minus(l, Box::new(acc)))
        } else {
            None
        },
        SymExpr::Times(l, r) => if mentions(*l, target) && mentions(*r, target) {
            None
        } else if mentions(*l, target) {
            isolate(*l, target, SymExpr::Ratio(Box::new(acc), r))
        } else if mentions(*r, target) {
            isolate(*r, target, SymExpr::Ratio(Box::new(acc), l))
        } else {
            None
        },
        SymExpr::Ratio(_, _) => None,
        SymExpr::Negate(_) => None,
    }
}

/// Any two inverses of the same value modulo `p` agree.
pub proof fn lemma_inverse_unique(a: nat, w1: nat, w2: nat, p: nat)
    requires
        p > 0,
        w1 < p,
        w2 < p,
        (a * w1) % p == 1nat % p,
        (a * w2) % p == 1nat % p,
    ensures
        w1 == w2,
{
    // w1 ≡ w1·(a·w2) ≡ w2·(a·w1) ≡ w2 (mod p)
    let ia = a as int;
    let i1 = w1 as int;
    let i2 = w2 as int;
    let ip = p as int;
    assert((i1 * (ia * i2)) % ip == i1 % ip) by {
        vstd::arithmetic::div_mod::lemma_mul_mod_noop_right(i1, ia * i2, ip);
        assert((ia * i2) % ip == 1int % ip);
        vstd::arithmetic::div_mod::lemma_mul_mod_noop_right(i1, 1int, ip);
        assert(i1 * 1int == i1) by {
            vstd::arithmetic::mul::lemma_mul_basics(i1);
        }
    }
    assert((i2 * (ia * i1)) % ip == i2 % ip) by {
        vstd::arithmetic::div_mod::lemma_mul_mod_noop_right(i2, ia * i1, ip);
        assert((ia * i1) % ip == 1int % ip);
        vstd::arithmetic::div_mod::lemma_mul_mod_noop_right(i2, 1int, ip);
        assert(i2 * 1int == i2) by {
            vstd::arithmetic::mul::lemma_mul_basics(i2);
        }
    }
    assert(i1 * (ia * i2) == i2 * (ia * i1)) by {
        vstd::arithmetic::mul::lemma_mul_is_associative(i1, ia, i2);
        vstd::arithmetic::mul::lemma_mul_is_associative(i2, ia, i1);
        vstd::arithmetic::mul::lemma_mul_is_commutative(i1, ia);
        vstd::arithmetic::mul::lemma_mul_is_commutative(i2, ia);
        vstd::arithmetic::mul::lemma_mul_is_commutative(i1 * ia, i2);
    }
    assert(i1 % ip == i1) by {
        vstd::arithmetic::div_mod::lemma_small_mod(w1, p);
    }
    assert(i2 % ip == i2) by {
        vstd::arithmetic::div_mod::lemma_small_mod(w2, p);
    }
}

impl Clone for Gate {
    /// A structural copy with the same mathematical reading.
    fn clone(&self) -> (r: Self)
        ensures
            r@ == self@,
        decreases self,
    {
        match self {
            Gate::Input(name) => Gate::Input(name.clone()),
            Gate::Const(v) => Gate::Const(big_clone(v)),
            Gate::Add(l, r) => Gate::Add(Box::new((**l).clone()), Box::new((**r).clone())),
            Gate::Sub(l, r) => Gate::Sub(Box::new((**l).clone()), Box::new((**r).clone())),
            Gate::Mul(l, r) => Gate::Mul(Box::new((**l).clone()), Box::new((**r).clone())),
            Gate::Div(l, r) => Gate::Div(Box::new((**l).clone()), Box::new((**r).clone())),
            Gate::Neg(x) => Gate::Neg(Box::new((**x).clone())),
        }
    }
}

impl Clone for Node {
    /// A structural copy with the same mathematical reading.
    fn clone(&self) -> (r: Self)
        ensures
            r@ == self@,
        decreases self,
    {
        Node { gate: self.gate.clone() }
    }
}

impl Node {
    /// Wrap a gate into a tree node.
    pub fn new(gate: Gate) -> (r: Self)
        ensures
            r@ == gate@,
    {
        Node { gate }
    }

    /// A free variable.
    pub fn input(name: String) -> (r: Self)
        ensures
            r@ == SymExpr::Var(name@),
    {
        Node { gate: Gate::Input(name) }
    }

    /// A literal field value.
    pub fn constant(v: BigUint) -> (r: Self)
        ensures
            r@ == SymExpr::Lit(big(v)),
    {
        Node { gate: Gate::Const(v) }
    }

    /// The sum of this expression and another.
    pub fn add(self, rhs: Node) -> (r: Self)
        ensures
            r@ == SymExpr::Plus(Box::new(self@), Box::new(rhs@)),
    {
        Node { gate: Gate::Add(Box::new(self), Box::new(rhs)) }
    }

    /// The difference of this expression and another.
    pub fn sub(self, rhs: Node) -> (r: Self)
        ensures
            r@ == SymExpr::Minus(Box::new(self@), Box::new(rhs@)),
    {
        Node { gate: Gate::Sub(Box::new(self), Box::new(rhs)) }
    }

    /// The product of this expression and another.
    pub fn mul(self, rhs: Node) -> (r: Self)
        ensures
            r@ == SymExpr::Times(Box::new(self@), Box::new(rhs@)),
    {
        Node { gate: Gate::Mul(Box::new(self), Box::new(rhs)) }
    }

    /// The quotient of this expression and another.
    pub fn div(self, rhs: Node) -> (r: Self)
        ensures
            r@ == SymExpr::Ratio(Box::new(self@), Box::new(rhs@)),
    {
        Node { gate: Gate::Div(Box::new(self), Box::new(rhs)) }
    }

    /// The negation of this expression.
    pub fn neg(self) -> (r: Self)
        ensures
            r@ == SymExpr::Negate(Box::new(self@)),
    {
        Node { gate: Gate::Neg(Box::new(self)) }
    }

    /// The variable name, when this expression is a bare variable.
    pub fn var_name(&self) -> (r: Option<String>)
        ensures
            match r {
                Some(n) => self@ == SymExpr::Var(n@),
                None => !(self@ is Var),
            },
    {
        match &self.gate {
            Gate::Input(name) => {
                assert(self@ == SymExpr::Var(name@));
                Some(name.clone())
            },
            Gate::Const(_) => None,
            Gate::Add(l, r) => {
                assert(self@ is Plus);
                None
            },
            Gate::Sub(l, r) => {
                assert(self@ is Minus);
                None
            },
            Gate::Mul(l, r) => {
                assert(self@ is Times);
                None
            },
            Gate::Div(l, r) => {
                assert(self@ is Ratio);
                None
            },
            Gate::Neg(x) => {
                assert(self@ is Negate);
                None
            },
        }
    }

    /// Whether this expression is a bare variable.
    pub fn is_var(&self) -> (r: bool)
        ensures
            r == (self@ is Var),
    {
        match &self.gate {
            Gate::Input(_) => {
                assert(self@ is Var);
                true
            },
            Gate::Const(_) => {
                assert(self@ is Lit);
                false
            },
            Gate::Add(l, r) => {
                assert(self@ is Plus);
                false
            },
            Gate::Sub(l, r) => {
                assert(self@ is Minus);
                false
            },
            Gate::Mul(l, r) => {
                assert(self@ is Times);
                false
            },
            Gate::Div(l, r) => {
                assert(self@ is Ratio);
                false
            },
            Gate::Neg(x) => {
                assert(self@ is Negate);
                false
            },
        }
    }

    /// Whether this expression is a bare variable or a bare constant.
    pub fn is_simple(&self) -> (r: bool)
        ensures
            r == (self@ is Var || self@ is Lit),
    {
        match &self.gate {
            Gate::Input(_) => {
                assert(self@ is Var);
                true
            },
            Gate::Const(_) => {
                assert(self@ is Lit);
                true
            },
            Gate::Add(l, r) => {
                assert(self@ is Plus);
                false
            },
            Gate::Sub(l, r) => {
                assert(self@ is Minus);
                false
            },
            Gate::Mul(l, r) => {
                assert(self@ is Times);
                false
            },
            Gate::Div(l, r) => {
                assert(self@ is Ratio);
                false
            },
            Gate::Neg(x) => {
                assert(self@ is Negate);
                false
            },
        }
    }

    /// Whether this expression is variable-free.
    pub fn vars_free(&self) -> (r: bool)
        ensures
            r == no_vars(self@),
        decreases self,
    {
        match &self.gate {
            Gate::Input(_) => {
                assert(self@ is Var);
                false
            },
            Gate::Const(_) => {
                assert(self@ is Lit);
                true
            },
            Gate::Add(l, r) => {
                assert(self@ == SymExpr::Plus(Box::new(l@), Box::new(r@)));
                l.vars_free() && r.vars_free()
            },
            Gate::Sub(l, r) => {
                assert(self@ == SymExpr::Minus(Box::new(l@), Box::new(r@)));
                l.vars_free() && r.vars_free()
            },
            Gate::Mul(l, r) => {
                assert(self@ == SymExpr::Times(Box::new(l@), Box::new(r@)));
                l.vars_free() && r.vars_free()
            },
            Gate::Div(l, r) => {
                assert(self@ == SymExpr::Ratio(Box::new(l@), Box::new(r@)));
                l.vars_free() && r.vars_free()
            },
            Gate::Neg(x) => {
                assert(self@ == SymExpr::Negate(Box::new(x@)));
                x.vars_free()
            },
        }
    }

    /// Whether the target variable occurs anywhere in this expression.
    pub fn contains_target(&self, target: &String) -> (r: bool)
        ensures
            r == mentions(self@, target@),
        decreases self,
    {
        match &self.gate {
            Gate::Input(name) => {
                assert(self@ == SymExpr::Var(name@));
                *name == *target
            },
            Gate::Const(_) => false,
            Gate::Add(l, r) => {
                assert(self@ == SymExpr::Plus(Box::new(l@), Box::new(r@)));
                l.contains_target(target) || r.contains_target(target)
            },
            Gate::Sub(l, r) => {
                assert(self@ == SymExpr::Minus(Box::new(l@), Box::new(r@)));
                l.contains_target(target) || r.contains_target(target)
            },
            Gate::Mul(l, r) => {
                assert(self@ == SymExpr::Times(Box::new(l@), Box::new(r@)));
                l.contains_target(target) || r.contains_target(target)
            },
            Gate::Div(l, r) => {
                assert(self@ == SymExpr::Ratio(Box::new(l@), Box::new(r@)));
                l.contains_target(target) || r.contains_target(target)
            },
            Gate::Neg(x) => {
                assert(self@ == SymExpr::Negate(Box::new(x@)));
                x.contains_target(target)
            },
        }
    }

    /// Evaluate this expression against an environment, reducing modulo
    /// `modulus`.  The result is exactly what the mathematical evaluation
    /// says, and each failure maps to its error: a variable without a binding
    /// to `MissingVariable`, a divisor without an inverse to `NonInvertible`.
    pub fn evaluate(&self, env: &VarMap, modulus: &BigUint) -> (r: Result<BigUint, CircuitError>)
        requires
            env.wf(),
            big(*modulus) > 0,
        ensures
            match r {
                Ok(v) => eval_in(self@, env@, big(*modulus)) == ExprVal::Known(big(v)),
                Err(e) => (e == CircuitError::MissingVariable && eval_in(self@, env@, big(*modulus))
                    == ExprVal::MissingVar) || (e == CircuitError::NonInvertible && eval_in(
                    self@,
                    env@,
                    big(*modulus),
                ) == ExprVal::NoInverse),
            },
        decreases self,
    {
        let ghost p = big(*modulus);
        match &self.gate {
            Gate::Input(name) => {
                assert(self@ == SymExpr::Var(name@));
                match env.get(name) {
                    Some(v) => Ok(big_rem(v, modulus)),
                    None => Err(CircuitError::MissingVariable),
                }
            },
            Gate::Const(v) => {
                assert(self@ == SymExpr::Lit(big(*v)));
                Ok(big_rem(v, modulus))
            },
            Gate::Add(l, r) => {
                assert(self@ == SymExpr::Plus(Box::new(l@), Box::new(r@)));
                match l.evaluate(env, modulus) {
                    Err(e) => Err(e),
                    Ok(a) => match r.evaluate(env, modulus) {
                        Err(e) => Err(e),
                        Ok(b) => Ok(big_rem(&big_add(&a, &b), modulus)),
                    },
                }
            },
            Gate::Sub(l, r) => {
                assert(self@ == SymExpr::Minus(Box::new(l@), Box::new(r@)));
                match l.evaluate(env, modulus) {
                    Err(e) => Err(e),
                    Ok(a) => match r.evaluate(env, modulus) {
                        Err(e) => Err(e),
                        Ok(b) => {
                            proof {
                                lemma_eval_reduced(l@, env@, p);
                                lemma_eval_reduced(r@, env@, p);
                            }
                            if big_lt(&a, &b) {
                                Ok(big_rem(&big_sub(modulus, &big_sub(&b, &a)), modulus))
                            } else {
                                Ok(big_rem(&big_sub(&a, &b), modulus))
                            }
                        },
                    },
                }
            },
            Gate::Mul(l, r) => {
                assert(self@ == SymExpr::Times(Box::new(l@), Box::new(r@)));
                match l.evaluate(env, modulus) {
                    Err(e) => Err(e),
                    Ok(a) => match r.evaluate(env, modulus) {
                        Err(e) => Err(e),
                        Ok(b) => Ok(big_rem(&big_mul(&a, &b), modulus)),
                    },
                }
            },
            Gate::Div(l, r) => {
                assert(self@ == SymExpr::Ratio(Box::new(l@), Box::new(r@)));
                match r.evaluate(env, modulus) {
                    Err(e) => Err(e),
                    Ok(b) => match big_modinv(&b, modulus) {
                        None => {
                            assert(!has_inverse(big(b), p));
                            Err(CircuitError::NonInvertible)
                        },
                        Some(w) => {
                            assert(has_inverse(big(b), p));
                            match l.evaluate(env, modulus) {
                                Err(e) => Err(e),
                                Ok(a) => {
                                    proof {
                                        lemma_inverse_unique(
                                            big(b),
                                            big(w),
                                            inverse_of(big(b), p),
                                            p,
                                        );
                                    }
                                    Ok(big_rem(&big_mul(&a, &w), modulus))
                                },
                            }
                        },
                    },
                }
            },
            Gate::Neg(x) => {
                assert(self@ == SymExpr::Negate(Box::new(x@)));
                match x.evaluate(env, modulus) {
                    Err(e) => Err(e),
                    Ok(a) => {
                        proof {
                            lemma_eval_reduced(x@, env@, p);
                        }
                        Ok(big_rem(&big_sub(modulus, &a), modulus))
                    },
                }
            },
        }
    }

    /// Render this expression for diagnostics: exactly its mathematical
    /// reading's text.
    pub fn to_expression(&self) -> (r: String)
        ensures
            r@ == expr_text(self@),
        decreases self,
    {
        proof {
            reveal_strlit("(");
            reveal_strlit(" + ");
            reveal_strlit(" - ");
            reveal_strlit(" * ");
            reveal_strlit(" / ");
            reveal_strlit(")");
            reveal_strlit("-(");
        }
        match &self.gate {
            Gate::Input(name) => {
                assert(self@ == SymExpr::Var(name@));
                name.clone()
            },
            Gate::Const(v) => {
                assert(self@ == SymExpr::Lit(big(*v)));
                crate::bigint::big_to_decimal(v)
            },
            Gate::Add(l, r) => {
                assert(self@ == SymExpr::Plus(Box::new(l@), Box::new(r@)));
                let mut s = String::from_str("(");
                let left = l.to_expression();
                let right = r.to_expression();
                s.append(left.as_str());
                s.append(" + ");
                s.append(right.as_str());
                s.append(")");
                proof {
                    assert(s@ =~= expr_text(self@));
                }
                s
            },
            Gate::Sub(l, r) => {
                assert(self@ == SymExpr::Minus(Box::new(l@), Box::new(r@)));
                let mut s = String::from_str("(");
                let left = l.to_expression();
                let right = r.to_expression();
                s.append(left.as_str());
                s.append(" - ");
                s.append(right.as_str());
                s.append(")");
                proof {
                    assert(s@ =~= expr_text(self@));
                }
                s
            },
            Gate::Mul(l, r) => {
                assert(self@ == SymExpr::Times(Box::new(l@), Box::new(r@)));
                let mut s = l.to_expression();
                let right = r.to_expression();
                s.append(" * ");
                s.append(right.as_str());
                proof {
                    assert(s@ =~= expr_text(self@));
                }
                s
            },
            Gate::Div(l, r) => {
                assert(self@ == SymExpr::Ratio(Box::new(l@), Box::new(r@)));
                let mut s = l.to_expression();
                let right = r.to_expression();
                s.append(" / ");
                s.append(right.as_str());
                proof {
                    assert(s@ =~= expr_text(self@));
                }
                s
            },
            Gate::Neg(x) => {
                assert(self@ == SymExpr::Negate(Box::new(x@)));
                let mut s = String::from_str("-(");
                let inner = x.to_expression();
                s.append(inner.as_str());
                s.append(")");
                proof {
                    assert(s@ =~= expr_text(self@));
                }
                s
            },
        }
    }

    /// Given `self = acc`, solve algebraically for `target`.  The result is
    /// exactly the expression the specification-level rearrangement gives;
    /// a target in a genuinely non-linear position is the only failure.
    pub fn isolate_term(&self, target: &String, acc: &Node) -> (res: Result<Node, CircuitError>)
        ensures
            match res {
                Ok(n) => isolate(self@, target@, acc@) == Some(n@),
                Err(e) => e == CircuitError::NonLinearRearrangement && isolate(
                    self@,
                    target@,
                    acc@,
                ) is None,
            },
        decreases self,
    {
        match &self.gate {
            Gate::Input(name) => {
                assert(self@ == SymExpr::Var(name@));
                if *name == *target {
                    Ok(acc.clone())
                } else {
                    Err(CircuitError::NonLinearRearrangement)
                }
            },
            Gate::Const(_) => Err(CircuitError::NonLinearRearrangement),
            Gate::Add(l, r) => {
                assert(self@ == SymExpr::Plus(Box::new(l@), Box::new(r@)));
                if l.contains_target(target) {
                    let folded = Node {
                        gate: Gate::Sub(Box::new(acc.clone()), Box::new((**r).clone())),
                    };
                    l.isolate_term(target, &folded)
                } else if r.contains_target(target) {
                    let folded = Node {
                        gate: Gate::Sub(Box::new(acc.clone()), Box::new((**l).clone())),
                    };
                    r.isolate_term(target, &folded)
                } else {
                    Err(CircuitError::NonLinearRearrangement)
                }
            },
            Gate::Sub(l, r) => {
                assert(self@ == SymExpr::Minus(Box::new(l@), Box::new(r@)));
                if l.contains_target(target) {
                    let folded = Node {
                        gate: Gate::Add(Box::new(acc.clone()), Box::new((**r).clone())),
                    };
                    l.isolate_term(target, &folded)
                } else if r.contains_target(target) {
                    let folded = Node {
                        gate: Gate::Sub(Box::new((**l).clone()), Box::new(acc.clone())),
                    };
                    r.isolate_term(target, &folded)
                } else {
                    Err(CircuitError::NonLinearRearrangement)
                }
            },
            Gate::Mul(l, r) => {
                assert(self@ == SymExpr::Times(Box::new(l@), Box::new(r@)));
                let in_l = l.contains_target(target);
                let in_r = r.contains_target(target);
                if in_l && in_r {
                    Err(CircuitError::NonLinearRearrangement)
                } else if in_l {
                    let folded = Node {
                        gate: Gate::Div(Box::new(acc.clone()), Box::new((**r).clone())),
                    };
                    l.isolate_term(target, &folded)
                } else if in_r {
                    let folded = Node {
                        gate: Gate::Div(Box::new(acc.clone()), Box::new((**l).clone())),
                    };
                    r.isolate_term(target, &folded)
                } else {
                    Err(CircuitError::NonLinearRearrangement)
                }
            },
            Gate::Div(_, _) => Err(CircuitError::NonLinearRearrangement),
            Gate::Neg(_) => Err(CircuitError::NonLinearRearrangement),
        }
    }

    /// Append every variable this expression touches, duplicates kept.
    pub fn extract_vars(&self, out: &mut Vec<String>)
        ensures
            final(out)@.map_values(|s: String| s@) == old(out)@.map_values(|s: String| s@)
                + expr_vars(self@),
        decreases self,
    {
        let ghost entry = out@;
        match &self.gate {
            Gate::Input(name) => {
                out.push(name.clone());
                proof {
                    assert(out@.map_values(|s: String| s@) =~= entry.map_values(|s: String| s@)
                        + expr_vars(self@));
                }
            },
            Gate::Const(_) => {
                proof {
                    assert(out@.map_values(|s: String| s@) =~= entry.map_values(|s: String| s@)
                        + expr_vars(self@));
                }
            },
            Gate::Add(l, r) => {
                l.extract_vars(out);
                r.extract_vars(out);
                proof {
                    assert(out@.map_values(|s: String| s@) =~= entry.map_values(|s: String| s@)
                        + expr_vars(self@));
                }
            },
            Gate::Sub(l, r) => {
                l.extract_vars(out);
                r.extract_vars(out);
                proof {
                    assert(out@.map_values(|s: String| s@) =~= entry.map_values(|s: String| s@)
                        + expr_vars(self@));
                }
            },
            Gate::Mul(l, r) => {
                l.extract_vars(out);
                r.extract_vars(out);
                proof {
                    assert(out@.map_values(|s: String| s@) =~= entry.map_values(|s: String| s@)
                        + expr_vars(self@));
                }
            },
            Gate::Div(l, r) => {
                l.extract_vars(out);
                r.extract_vars(out);
                proof {
                    assert(out@.map_values(|s: String| s@) =~= entry.map_values(|s: String| s@)
                        + expr_vars(self@));
                }
            },
            Gate::Neg(x) => {
                x.extract_vars(out);
                proof {
                    assert(out@.map_values(|s: String| s@) =~= entry.map_values(|s: String| s@)
                        + expr_vars(self@));
                }
            },
        }
    }
}

/// Whether the equation `l = r` is satisfied in `env`: both sides evaluate,
/// and to the same value.
pub open spec fn eq_holds(l: SymExpr, r: SymExpr, env: Map<Seq<char>, nat>, p: nat) -> bool {
    eval_in(l, env, p) is Known && eval_in(l, env, p) == eval_in(r, env, p)
}

/// One algebraic constraint: an ordered pair of expressions read as
/// `lhs = rhs`.
pub struct Equation {
    pub lhs: Node,
    pub rhs: Node,
}

impl Clone for Equation {
    /// A structural copy with the same mathematical reading of both sides.
    fn clone(&self) -> (r: Self)
        ensures
            r.lhs@ == self.lhs@,
            r.rhs@ == self.rhs@,
    {
        Equation { lhs: self.lhs.clone(), rhs: self.rhs.clone() }
    }
}

impl Equation {
    /// Pair two expressions into the constraint `lhs = rhs`.
    pub fn new(lhs: Node, rhs: Node) -> (r: Self)
        ensures
            r.lhs@ == lhs@,
            r.rhs@ == rhs@,
    {
        Equation { lhs, rhs }
    }

    /// Exchange the two sides.
    pub fn swap(&mut self)
        ensures
            final(self).lhs == old(self).rhs,
            final(self).rhs == old(self).lhs,
    {
        core::mem::swap(&mut self.lhs, &mut self.rhs);
    }

    /// Evaluate both sides, left side first.  A failure carries the error of
    /// the first side that fails: a variable without a binding gives
    /// `MissingVariable`, a divisor without an inverse `NonInvertible`.
    pub fn evaluate(&self, env: &VarMap, modulus: &BigUint) -> (r: Result<
        (BigUint, BigUint),
        CircuitError,
    >)
        requires
            env.wf(),
            big(*modulus) > 0,
        ensures
            ({
                let lv = eval_in(self.lhs@, env@, big(*modulus));
                let rv = eval_in(self.rhs@, env@, big(*modulus));
                match r {
                    Ok(pair) => lv == ExprVal::Known(big(pair.0)) && rv == ExprVal::Known(
                        big(pair.1),
                    ),
                    Err(e) => {
                        let first = if !(lv is Known) {
                            lv
                        } else {
                            rv
                        };
                        (first == ExprVal::MissingVar && e == CircuitError::MissingVariable) || (
                        first == ExprVal::NoInverse && e == CircuitError::NonInvertible)
                    },
                }
            }),
    {
        match self.lhs.evaluate(env, modulus) {
            Err(e) => Err(e),
            Ok(a) => match self.rhs.evaluate(env, modulus) {
                Err(e) => Err(e),
                Ok(b) => Ok((a, b)),
            },
        }
    }
}

} // verus!
