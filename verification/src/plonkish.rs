//! The Plonkish compiler: each recorded constraint becomes one gate with
//! selector coefficients `(ql, qr, qo, qm, qc)` and up to three wire labels,
//! and the wires of all gates are linked by a copy-constraint permutation.
use vstd::prelude::*;
use num_bigint::BigUint;
use rayon::iter::{IndexedParallelIterator, IntoParallelIterator, IntoParallelRefIterator, ParallelIterator};

use crate::bigint::{big, big_clone, big_eq, big_from_u64, big_mul, big_rem, big_sub};
use crate::expr::{
    addm, eq_holds, eval_in, expr_vars, mulm, negm, no_vars, Equation, ExprVal, Gate, Node,
    SymExpr,
};
use crate::r1cs::consts_reduced;
use crate::varmap::{names_contain, seq_names, VarMap};
use crate::CircuitError;

verus! {

/// One compiled gate: the five selectors and the three wire labels
/// (left, right, output); an unused wire is the empty label.
pub type PlonkGate = (BigUint, BigUint, BigUint, BigUint, BigUint, [String; 3]);

/// The mathematical reading of the three wire labels.
pub open spec fn wires_view(ws: [String; 3]) -> Seq<Seq<char>> {
    seq_names(ws@)
}

/// The running state of the shared traversal over one side of a gate: the
/// accumulated coefficient, the accumulated constant term, and the variables
/// touched so far, duplicates kept.
pub type PlonkAcc = (nat, nat, Seq<Seq<char>>);

/// The shared traversal: a variable is recorded; a constant folds into the
/// constant term, negated while under an odd number of subtractions or
/// negations; sums walk both operands; a difference walks its subtrahend with
/// the sign flipped; negation flips the sign and negates the coefficient.  A
/// variable-free product folds its evaluated value into the constant term; a
/// product scales the coefficient by its variable-free factor's value, and
/// has no gate encoding when its variable-bearing part carries constant
/// addends, since one shared constant term cannot scale.  A quotient has no
/// gate encoding.  All coefficients stay reduced modulo `p`.
pub open spec fn walk(e: SymExpr, acc: PlonkAcc, p: nat, neg: bool) -> Option<PlonkAcc>
    decreases e,
{
    match e {
        SymExpr::Var(n) => Some((acc.0, acc.1, acc.2.push(n))),
        SymExpr::Lit(c) => Some(
            (
                acc.0,
                if neg {
                    addm(acc.1, negm(c % p, p), p)
                } else {
                    addm(acc.1, c, p)
                },
                acc.2,
            ),
        ),
        SymExpr::Plus(l, r) => match walk(*l, acc, p, neg) {
            Some(acc1) => walk(*r, acc1, p, neg),
            None => None,
        },
        SymExpr::Minus(l, r) => match walk(*l, acc, p, neg) {
            Some(acc1) => walk(*r, acc1, p, !neg),
            None => None,
        },
        SymExpr::Times(l, r) => if no_vars(*l) && no_vars(*r) {
            match eval_in(e, Map::empty(), p) {
                ExprVal::Known(v) => Some(
                    (
                        acc.0,
                        if neg {
                            addm(acc.1, negm(v, p), p)
                        } else {
                            addm(acc.1, v, p)
                        },
                        acc.2,
                    ),
                ),
                _ => None,
            }
        } else if no_vars(*r) {
            match eval_in(*r, Map::empty(), p) {
                ExprVal::Known(c) => match walk(*l, acc, p, neg) {
                    Some(acc1) => if acc1.1 == acc.1 {
                        Some((mulm(acc1.0, c, p), acc1.1, acc1.2))
                    } else {
                        None
                    },
                    None => None,
                },
                _ => None,
            }
        } else if no_vars(*l) {
            match eval_in(*l, Map::empty(), p) {
                ExprVal::Known(c) => match walk(*r, (mulm(acc.0, c, p), acc.1, acc.2), p, neg) {
                    Some(acc1) => if acc1.1 == acc.1 {
                        Some(acc1)
                    } else {
                        None
                    },
                    None => None,
                },
                _ => None,
            }
        } else {
            match walk(*l, acc, p, neg) {
                Some(acc1) => match walk(*r, acc1, p, neg) {
                    Some(acc2) => if acc2.1 == acc.1 {
                        Some(acc2)
                    } else {
                        None
                    },
                    None => None,
                },
                None => None,
            }
        },
        SymExpr::Ratio(_, _) => None,
        SymExpr::Negate(x) => match walk(*x, acc, p, !neg) {
            Some(acc1) => Some((negm(acc1.0, p), acc1.1, acc1.2)),
            None => None,
        },
    }
}

/// The five selectors and three wires of one gate, from the oriented
/// constraint `l = r`.  The left side must be a bare variable or constant:
/// a variable not marked public binds the output wire with `qo = -1`; a
/// public one leaves `qo = 0`, bound instead by a separate public-input gate.
/// The right side dispatches on its shape, capped at two touched variable
/// occurrences — the running-coefficient walk cannot attribute more to two
/// wires.  A single variable's coefficient comes from the side that touched
/// it, negated for the subtrahend of a difference; a variable-free right
/// side, a constant product included, folds entirely into `qc`; a product
/// must be free of constant addends, since they cannot scale into one `qc`.
#[verifier::opaque]
pub open spec fn consume_plonk(l: SymExpr, r: SymExpr, pubs: Seq<Seq<char>>, p: nat) -> Option<
    (nat, nat, nat, nat, nat, Seq<Seq<char>>),
> {
    let base = match l {
        SymExpr::Lit(c) => Some((0nat, negm(c, p), Seq::<char>::empty())),
        SymExpr::Var(v) => Some(
            (
                if pubs.contains(v) {
                    0nat
                } else {
                    negm(1nat % p, p)
                },
                0nat,
                v,
            ),
        ),
        _ => None,
    };
    match base {
        None => None,
        Some((qo, qc0, w2)) => match r {
            SymExpr::Lit(c) => Some(
                (0nat, 0nat, qo, 0nat, addm(qc0, c, p), seq![Seq::<char>::empty(), Seq::<char>::empty(), w2]),
            ),
            SymExpr::Var(n) => Some(
                (1nat % p, 0nat, qo, 0nat, qc0, seq![n, Seq::<char>::empty(), w2]),
            ),
            SymExpr::Plus(a, b) => match walk(*a, (1nat % p, qc0, Seq::empty()), p, false) {
                None => None,
                Some(acc1) => match walk(*b, (1nat % p, acc1.1, acc1.2), p, false) {
                    None => None,
                    Some(acc2) => {
                        let ql = acc1.0;
                        let qr = acc2.0;
                        let qc = acc2.1;
                        let left_cnt = acc1.2.len();
                        let touched = acc2.2;
                        if touched.len() == 0 {
                            Some(
                                (0nat, 0nat, qo, 0nat, qc, seq![Seq::<char>::empty(), Seq::<char>::empty(), w2]),
                            )
                        } else if touched.len() == 1 {
                            Some(
                                (
                                    if left_cnt == 1 {
                                        ql
                                    } else {
                                        qr
                                    },
                                    0nat,
                                    qo,
                                    0nat,
                                    qc,
                                    seq![touched[0], Seq::<char>::empty(), w2],
                                ),
                            )
                        } else if touched.len() == 2 {
                            Some((ql, qr, qo, 0nat, qc, seq![touched[0], touched[1], w2]))
                        } else {
                            None
                        }
                    },
                },
            },
            SymExpr::Minus(a, b) => match walk(*a, (1nat % p, qc0, Seq::empty()), p, false) {
                None => None,
                Some(acc1) => match walk(*b, (1nat % p, acc1.1, acc1.2), p, true) {
                    None => None,
                    Some(acc2) => {
                        let ql = acc1.0;
                        let qr = acc2.0;
                        let qc = acc2.1;
                        let left_cnt = acc1.2.len();
                        let touched = acc2.2;
                        if touched.len() == 0 {
                            Some(
                                (0nat, 0nat, qo, 0nat, qc, seq![Seq::<char>::empty(), Seq::<char>::empty(), w2]),
                            )
                        } else if touched.len() == 1 {
                            Some(
                                (
                                    if left_cnt == 1 {
                                        ql
                                    } else if pubs.contains(touched[0]) {
                                        0nat
                                    } else {
                                        negm(qr, p)
                                    },
                                    0nat,
                                    qo,
                                    0nat,
                                    qc,
                                    seq![touched[0], Seq::<char>::empty(), w2],
                                ),
                            )
                        } else if touched.len() == 2 {
                            Some(
                                (
                                    ql,
                                    if pubs.contains(touched[1]) {
                                        0nat
                                    } else {
                                        negm(qr, p)
                                    },
                                    qo,
                                    0nat,
                                    qc,
                                    seq![touched[0], touched[1], w2],
                                ),
                            )
                        } else {
                            None
                        }
                    },
                },
            },
            SymExpr::Times(_, _) => match walk(r, (1nat % p, 0nat, Seq::empty()), p, false) {
                None => None,
                Some(acc) => {
                    let touched = acc.2;
                    if touched.len() == 0 {
                        Some(
                            (
                                0nat,
                                0nat,
                                qo,
                                0nat,
                                addm(qc0, acc.1, p),
                                seq![Seq::<char>::empty(), Seq::<char>::empty(), w2],
                            ),
                        )
                    } else if touched.len() == 1 {
                        Some(
                            (
                                acc.0,
                                0nat,
                                qo,
                                0nat,
                                addm(qc0, acc.1, p),
                                seq![touched[0], Seq::<char>::empty(), w2],
                            ),
                        )
                    } else if touched.len() == 2 {
                        Some(
                            (
                                0nat,
                                0nat,
                                qo,
                                acc.0,
                                addm(qc0, acc.1, p),
                                seq![touched[0], touched[1], w2],
                            ),
                        )
                    } else {
                        None
                    }
                },
            },
            SymExpr::Ratio(_, _) => None,
            SymExpr::Negate(a) => match walk(*a, (1nat % p, qc0, Seq::empty()), p, true) {
                None => None,
                Some(acc) => {
                    let touched = acc.2;
                    if touched.len() == 0 {
                        Some(
                            (0nat, 0nat, qo, 0nat, acc.1, seq![Seq::<char>::empty(), Seq::<char>::empty(), w2]),
                        )
                    } else {
                        Some(
                            (
                                if pubs.contains(touched[0]) {
                                    0nat
                                } else {
                                    negm(acc.0, p)
                                },
                                0nat,
                                qo,
                                0nat,
                                acc.1,
                                seq![touched[0], Seq::<char>::empty(), w2],
                            ),
                        )
                    }
                },
            },
        },
    }
}

/// Walk one side of a gate, accumulating coefficient, constant term and
/// touched variables.  Everything stays reduced modulo the modulus.
#[verifier::loop_isolation(false)]
fn walk_node(
    node: &Node,
    qv: &mut BigUint,
    qc: &mut BigUint,
    touched: &mut Vec<String>,
    modulus: &BigUint,
    is_neg: bool,
) -> (r: Result<(), CircuitError>)
    requires
        big(*modulus) > 0,
        big(*old(qv)) < big(*modulus),
        big(*old(qc)) < big(*modulus),
    ensures
        match r {
            Ok(()) => walk(
                node@,
                (big(*old(qv)), big(*old(qc)), seq_names(old(touched)@)),
                big(*modulus),
                is_neg,
            ) == Some((big(*final(qv)), big(*final(qc)), seq_names(final(touched)@))) && big(
                *final(qv),
            ) < big(*modulus) && big(*final(qc)) < big(*modulus),
            Err(e) => e == CircuitError::UnsupportedGateShape && walk(
                node@,
                (big(*old(qv)), big(*old(qc)), seq_names(old(touched)@)),
                big(*modulus),
                is_neg,
            ) is None,
        },
    decreases node,
{
    let ghost p = big(*modulus);
    match &node.gate {
        Gate::Input(name) => {
            assert(node@ == SymExpr::Var(name@));
            let ghost pre = seq_names(touched@);
            touched.push(name.clone());
            proof {
                assert(seq_names(touched@) =~= pre.push(name@));
            }
            Ok(())
        },
        Gate::Const(v) => {
            assert(node@ == SymExpr::Lit(big(*v)));
            if is_neg {
                let reduced = big_rem(v, modulus);
                let flipped = big_rem(&big_sub(modulus, &reduced), modulus);
                let sum = crate::bigint::big_add(qc, &flipped);
                *qc = big_rem(&sum, modulus);
            } else {
                let sum = crate::bigint::big_add(qc, v);
                *qc = big_rem(&sum, modulus);
            }
            Ok(())
        },
        Gate::Add(l, r) => {
            assert(node@ == SymExpr::Plus(Box::new(l@), Box::new(r@)));
            match walk_node(l, qv, qc, touched, modulus, is_neg) {
                Err(e) => Err(e),
                Ok(()) => walk_node(r, qv, qc, touched, modulus, is_neg),
            }
        },
        Gate::Sub(l, r) => {
            assert(node@ == SymExpr::Minus(Box::new(l@), Box::new(r@)));
            match walk_node(l, qv, qc, touched, modulus, is_neg) {
                Err(e) => Err(e),
                Ok(()) => walk_node(r, qv, qc, touched, modulus, !is_neg),
            }
        },
        Gate::Mul(l, r) => {
            assert(node@ == SymExpr::Times(Box::new(l@), Box::new(r@)));
            let lv = l.vars_free();
            let rv = r.vars_free();
            if lv && rv {
                let closed = VarMap::new();
                match node.evaluate(&closed, modulus) {
                    Err(_) => Err(CircuitError::UnsupportedGateShape),
                    Ok(v) => {
                        proof {
                            crate::expr::lemma_eval_reduced(node@, Map::empty(), p);
                        }
                        if is_neg {
                            let flipped = big_rem(&big_sub(modulus, &v), modulus);
                            let sum = crate::bigint::big_add(qc, &flipped);
                            *qc = big_rem(&sum, modulus);
                        } else {
                            let sum = crate::bigint::big_add(qc, &v);
                            *qc = big_rem(&sum, modulus);
                        }
                        Ok(())
                    },
                }
            } else if rv {
                let closed = VarMap::new();
                match r.evaluate(&closed, modulus) {
                    Err(_) => Err(CircuitError::UnsupportedGateShape),
                    Ok(c) => {
                        let qc_before = big_clone(qc);
                        match walk_node(l, qv, qc, touched, modulus, is_neg) {
                            Err(e) => Err(e),
                            Ok(()) => {
                                if big_eq(qc, &qc_before) {
                                    let prod = big_mul(qv, &c);
                                    *qv = big_rem(&prod, modulus);
                                    Ok(())
                                } else {
                                    Err(CircuitError::UnsupportedGateShape)
                                }
                            },
                        }
                    },
                }
            } else if lv {
                let closed = VarMap::new();
                match l.evaluate(&closed, modulus) {
                    Err(_) => Err(CircuitError::UnsupportedGateShape),
                    Ok(c) => {
                        let prod = big_mul(qv, &c);
                        *qv = big_rem(&prod, modulus);
                        let qc_before = big_clone(qc);
                        match walk_node(r, qv, qc, touched, modulus, is_neg) {
                            Err(e) => Err(e),
                            Ok(()) => {
                                if big_eq(qc, &qc_before) {
                                    Ok(())
                                } else {
                                    Err(CircuitError::UnsupportedGateShape)
                                }
                            },
                        }
                    },
                }
            } else {
                let qc_before = big_clone(qc);
                match walk_node(l, qv, qc, touched, modulus, is_neg) {
                    Err(e) => Err(e),
                    Ok(()) => {
                        match walk_node(r, qv, qc, touched, modulus, is_neg) {
                            Err(e) => Err(e),
                            Ok(()) => {
                                if big_eq(qc, &qc_before) {
                                    Ok(())
                                } else {
                                    Err(CircuitError::UnsupportedGateShape)
                                }
                            },
                        }
                    },
                }
            }
        },
        Gate::Div(_, _) => {
            assert(node@ is Ratio);
            Err(CircuitError::UnsupportedGateShape)
        },
        Gate::Neg(x) => {
            assert(node@ == SymExpr::Negate(Box::new(x@)));
            match walk_node(x, qv, qc, touched, modulus, !is_neg) {
                Err(e) => Err(e),
                Ok(()) => {
                    let diff = big_sub(modulus, qv);
                    *qv = big_rem(&diff, modulus);
                    Ok(())
                },
            }
        },
    }
}

/// Compile one oriented constraint into its gate.
#[verifier::loop_isolation(false)]
#[verifier::rlimit(60)]
fn consume_gate(eq: &Equation, public_vars: &Vec<String>, modulus: &BigUint) -> (r: Result<
    PlonkGate,
    CircuitError,
>)
    requires
        big(*modulus) > 0,
        consts_reduced(eq.lhs@, big(*modulus)),
    ensures
        match r {
            Ok(g) => consume_plonk(eq.lhs@, eq.rhs@, seq_names(public_vars@), big(*modulus))
                == Some((big(g.0), big(g.1), big(g.2), big(g.3), big(g.4), wires_view(g.5))),
            Err(e) => e == CircuitError::UnsupportedGateShape && consume_plonk(
                eq.lhs@,
                eq.rhs@,
                seq_names(public_vars@),
                big(*modulus),
            ) is None,
        },
{
    proof {
        reveal(consume_plonk);
    }
    let ghost p = big(*modulus);
    let ghost pubs = seq_names(public_vars@);
    let (qo, qc0, w2): (BigUint, BigUint, String) = match &eq.lhs.gate {
        Gate::Const(c) => {
            assert(eq.lhs@ == SymExpr::Lit(big(*c)));
            assert(big(*c) < p);
            (big_from_u64(0), big_rem(&big_sub(modulus, c), modulus), String::new())
        },
        Gate::Input(v) => {
            assert(eq.lhs@ == SymExpr::Var(v@));
            let qo = if names_contain(public_vars, v) {
                big_from_u64(0)
            } else {
                let one = big_rem(&big_from_u64(1), modulus);
                big_rem(&big_sub(modulus, &one), modulus)
            };
            (qo, big_from_u64(0), v.clone())
        },
        Gate::Add(_, _) => {
            assert(eq.lhs@ is Plus);
            return Err(CircuitError::UnsupportedGateShape);
        },
        Gate::Sub(_, _) => {
            assert(eq.lhs@ is Minus);
            return Err(CircuitError::UnsupportedGateShape);
        },
        Gate::Mul(_, _) => {
            assert(eq.lhs@ is Times);
            return Err(CircuitError::UnsupportedGateShape);
        },
        Gate::Div(_, _) => {
            assert(eq.lhs@ is Ratio);
            return Err(CircuitError::UnsupportedGateShape);
        },
        Gate::Neg(_) => {
            assert(eq.lhs@ is Negate);
            return Err(CircuitError::UnsupportedGateShape);
        },
    };
    let zero = big_from_u64(0);
    match &eq.rhs.gate {
        Gate::Const(c) => {
            assert(eq.rhs@ == SymExpr::Lit(big(*c)));
            let qc = big_rem(&crate::bigint::big_add(&qc0, c), modulus);
            let ws = [String::new(), String::new(), w2];
            proof {
                assert(wires_view(ws) =~= seq![Seq::<char>::empty(), Seq::<char>::empty(), ws[2]@]);
            }
            Ok((zero, big_from_u64(0), qo, big_from_u64(0), qc, ws))
        },
        Gate::Input(n) => {
            assert(eq.rhs@ == SymExpr::Var(n@));
            let ql = big_rem(&big_from_u64(1), modulus);
            let ws = [n.clone(), String::new(), w2];
            proof {
                assert(wires_view(ws) =~= seq![n@, Seq::<char>::empty(), ws[2]@]);
            }
            Ok((ql, zero, qo, big_from_u64(0), qc0, ws))
        },
        Gate::Add(a, b) => {
            assert(eq.rhs@ == SymExpr::Plus(Box::new(a@), Box::new(b@)));
            let mut ql = big_rem(&big_from_u64(1), modulus);
            let mut qc = qc0;
            let mut touched: Vec<String> = Vec::new();
            proof {
                assert(seq_names(touched@) =~= Seq::<Seq<char>>::empty());
            }
            match walk_node(a, &mut ql, &mut qc, &mut touched, modulus, false) {
                Err(e) => Err(e),
                Ok(()) => {
                    let left_cnt = touched.len();
                    let mut qr = big_rem(&big_from_u64(1), modulus);
                    match walk_node(b, &mut qr, &mut qc, &mut touched, modulus, false) {
                        Err(e) => Err(e),
                        Ok(()) => {
                            let m = touched.len();
                            if m == 0 {
                                let ws = [String::new(), String::new(), w2];
                                proof {
                                    assert(wires_view(ws) =~= seq![
                                        Seq::<char>::empty(),
                                        Seq::<char>::empty(),
                                        ws[2]@,
                                    ]);
                                }
                                Ok((zero, big_from_u64(0), qo, big_from_u64(0), qc, ws))
                            } else if m == 1 {
                                proof {
                                    assert(seq_names(touched@)[0] == touched@[0]@);
                                }
                                let coeff = if left_cnt == 1 {
                                    ql
                                } else {
                                    qr
                                };
                                let ws = [touched[0].clone(), String::new(), w2];
                                proof {
                                    assert(wires_view(ws) =~= seq![
                                        seq_names(touched@)[0],
                                        Seq::<char>::empty(),
                                        ws[2]@,
                                    ]);
                                }
                                Ok((coeff, zero, qo, big_from_u64(0), qc, ws))
                            } else if m == 2 {
                                let ws = [touched[0].clone(), touched[1].clone(), w2];
                                proof {
                                    assert(wires_view(ws) =~= seq![
                                        seq_names(touched@)[0],
                                        seq_names(touched@)[1],
                                        ws[2]@,
                                    ]);
                                }
                                Ok((ql, qr, qo, big_from_u64(0), qc, ws))
                            } else {
                                Err(CircuitError::UnsupportedGateShape)
                            }
                        },
                    }
                },
            }
        },
        Gate::Sub(a, b) => {
            assert(eq.rhs@ == SymExpr::Minus(Box::new(a@), Box::new(b@)));
            let mut ql = big_rem(&big_from_u64(1), modulus);
            let mut qc = qc0;
            let mut touched: Vec<String> = Vec::new();
            proof {
                assert(seq_names(touched@) =~= Seq::<Seq<char>>::empty());
            }
            match walk_node(a, &mut ql, &mut qc, &mut touched, modulus, false) {
                Err(e) => Err(e),
                Ok(()) => {
                    let left_cnt = touched.len();
                    let mut qr = big_rem(&big_from_u64(1), modulus);
                    match walk_node(b, &mut qr, &mut qc, &mut touched, modulus, true) {
                        Err(e) => Err(e),
                        Ok(()) => {
                            let m = touched.len();
                            if m == 0 {
                                let ws = [String::new(), String::new(), w2];
                                proof {
                                    assert(wires_view(ws) =~= seq![
                                        Seq::<char>::empty(),
                                        Seq::<char>::empty(),
                                        ws[2]@,
                                    ]);
                                }
                                Ok((zero, big_from_u64(0), qo, big_from_u64(0), qc, ws))
                            } else if m == 1 {
                                let coeff = if left_cnt == 1 {
                                    ql
                                } else if names_contain(public_vars, &touched[0]) {
                                    big_from_u64(0)
                                } else {
                                    big_rem(&big_sub(modulus, &qr), modulus)
                                };
                                let ws = [touched[0].clone(), String::new(), w2];
                                proof {
                                    assert(seq_names(touched@)[0] == touched@[0]@);
                                    assert(wires_view(ws) =~= seq![
                                        seq_names(touched@)[0],
                                        Seq::<char>::empty(),
                                        ws[2]@,
                                    ]);
                                }
                                Ok((coeff, zero, qo, big_from_u64(0), qc, ws))
                            } else if m == 2 {
                                let qr2 = if names_contain(public_vars, &touched[1]) {
                                    big_from_u64(0)
                                } else {
                                    big_rem(&big_sub(modulus, &qr), modulus)
                                };
                                let ws = [touched[0].clone(), touched[1].clone(), w2];
                                proof {
                                    assert(seq_names(touched@)[1] == touched@[1]@);
                                    assert(wires_view(ws) =~= seq![
                                        seq_names(touched@)[0],
                                        seq_names(touched@)[1],
                                        ws[2]@,
                                    ]);
                                }
                                Ok((ql, qr2, qo, big_from_u64(0), qc, ws))
                            } else {
                                Err(CircuitError::UnsupportedGateShape)
                            }
                        },
                    }
                },
            }
        },
        Gate::Mul(_, _) => {
            assert(eq.rhs@ is Times);
            let mut qv = big_rem(&big_from_u64(1), modulus);
            let mut qcm = big_from_u64(0);
            let mut touched: Vec<String> = Vec::new();
            proof {
                assert(seq_names(touched@) =~= Seq::<Seq<char>>::empty());
            }
            match walk_node(&eq.rhs, &mut qv, &mut qcm, &mut touched, modulus, false) {
                Err(e) => Err(e),
                Ok(()) => {
                    let m = touched.len();
                    let qc = big_rem(&crate::bigint::big_add(&qc0, &qcm), modulus);
                    if m == 0 {
                        let ws = [String::new(), String::new(), w2];
                        proof {
                            assert(wires_view(ws) =~= seq![
                                Seq::<char>::empty(),
                                Seq::<char>::empty(),
                                ws[2]@,
                            ]);
                        }
                        Ok((zero, big_from_u64(0), qo, big_from_u64(0), qc, ws))
                    } else if m == 1 {
                        let ws = [touched[0].clone(), String::new(), w2];
                        proof {
                            assert(wires_view(ws) =~= seq![
                                seq_names(touched@)[0],
                                Seq::<char>::empty(),
                                ws[2]@,
                            ]);
                        }
                        Ok((qv, zero, qo, big_from_u64(0), qc, ws))
                    } else if m == 2 {
                        let ws = [touched[0].clone(), touched[1].clone(), w2];
                        proof {
                            assert(wires_view(ws) =~= seq![
                                seq_names(touched@)[0],
                                seq_names(touched@)[1],
                                ws[2]@,
                            ]);
                        }
                        Ok((zero, big_from_u64(0), qo, qv, qc, ws))
                    } else {
                        Err(CircuitError::UnsupportedGateShape)
                    }
                },
            }
        },
        Gate::Div(_, _) => {
            assert(eq.rhs@ is Ratio);
            Err(CircuitError::UnsupportedGateShape)
        },
        Gate::Neg(a) => {
            assert(eq.rhs@ == SymExpr::Negate(Box::new(a@)));
            let mut ql = big_rem(&big_from_u64(1), modulus);
            let mut qc = qc0;
            let mut touched: Vec<String> = Vec::new();
            proof {
                assert(seq_names(touched@) =~= Seq::<Seq<char>>::empty());
            }
            match walk_node(a, &mut ql, &mut qc, &mut touched, modulus, true) {
                Err(e) => Err(e),
                Ok(()) => {
                    let m = touched.len();
                    if m == 0 {
                        let ws = [String::new(), String::new(), w2];
                        proof {
                            assert(wires_view(ws) =~= seq![
                                Seq::<char>::empty(),
                                Seq::<char>::empty(),
                                ws[2]@,
                            ]);
                        }
                        Ok((zero, big_from_u64(0), qo, big_from_u64(0), qc, ws))
                    } else {
                        let ql2 = if names_contain(public_vars, &touched[0]) {
                            big_from_u64(0)
                        } else {
                            big_rem(&big_sub(modulus, &ql), modulus)
                        };
                        let ws = [touched[0].clone(), String::new(), w2];
                        proof {
                            assert(seq_names(touched@)[0] == touched@[0]@);
                            assert(wires_view(ws) =~= seq![
                                seq_names(touched@)[0],
                                Seq::<char>::empty(),
                                ws[2]@,
                            ]);
                        }
                        Ok((ql2, zero, qo, big_from_u64(0), qc, ws))
                    }
                },
            }
        },
    }
}

/// The value a wire carries under an environment: zero for the empty label.
pub open spec fn wire_val(name: Seq<char>, env: Map<Seq<char>, nat>, p: nat) -> nat {
    if name == Seq::<char>::empty() {
        0
    } else if env.dom().contains(name) {
        env[name] % p
    } else {
        0
    }
}

/// A gate's selector identity: `ql·w0 + qr·w1 + qo·w2 + qm·w0·w1 + qc ≡ 0 (mod p)`.
pub open spec fn gate_eq_holds(
    g: (nat, nat, nat, nat, nat, Seq<Seq<char>>),
    env: Map<Seq<char>, nat>,
    p: nat,
) -> bool {
    let v0 = wire_val(g.5[0], env, p);
    let v1 = wire_val(g.5[1], env, p);
    let v2 = wire_val(g.5[2], env, p);
    ((g.0 * v0 + g.1 * v1 + g.2 * v2 + g.3 * (v0 * v1) + g.4) as int) % (p as int) == 0
}

/// Gate shapes whose lowering is faithful: the left side is one private
/// variable, and the right side is one constant, one variable, a sum or
/// difference of two variables or of a variable and a constant, a product of
/// two variables or of a variable and a constant, or a negated variable.  The subtrahend of a difference and
/// a negated variable must not be public, since a public wire's selector is
/// zeroed and its term dropped from the generic gate.  Variable names are
/// non-empty: the empty label is reserved for unused wires.
pub open spec fn plonk_faithful(l: SymExpr, r: SymExpr, pubs: Seq<Seq<char>>) -> bool {
    &&& l is Var
    &&& l->Var_0 != Seq::<char>::empty()
    &&& !pubs.contains(l->Var_0)
    &&& match r {
        SymExpr::Lit(_) => true,
        SymExpr::Var(n) => n != Seq::<char>::empty(),
        SymExpr::Plus(a, b) => (scaled_var(*a) && scaled_var(*b)) || (scaled_var(*a)
            && (*b) is Lit) || ((*a) is Lit && scaled_var(*b)),
        SymExpr::Minus(a, b) => (scaled_var(*a) && scaled_var(*b) && !pubs.contains(
            operand_var(*b),
        )) || (scaled_var(*a) && (*b) is Lit) || ((*a) is Lit && scaled_var(*b) && !pubs.contains(
            operand_var(*b),
        )),
        SymExpr::Times(a, b) => ((*a) is Var && (*a)->Var_0 != Seq::<char>::empty() && (*b) is Var
            && (*b)->Var_0 != Seq::<char>::empty()) || ((*a) is Var && (*a)->Var_0
            != Seq::<char>::empty() && (*b) is Lit) || ((*a) is Lit && (*b) is Var && (*b)->Var_0
            != Seq::<char>::empty()),
        SymExpr::Ratio(_, _) => false,
        SymExpr::Negate(x) => (*x) is Var && (*x)->Var_0 != Seq::<char>::empty() && !pubs.contains(
            (*x)->Var_0,
        ),
    }
}

/// A linear cancellation: a term congruent to the output value, plus the
/// output wire's `-1` selector times that value, vanishes modulo `p`.
proof fn lemma_cancel(t: int, vx: nat, p: nat)
    requires
        2 <= p,
        0 <= t,
        vx < p,
        t % (p as int) == vx as int,
    ensures
        (t + (p - 1) * vx) % (p as int) == 0,
{
    let ip = p as int;
    assert((p - 1) * vx == ip * vx - vx) by {
        vstd::arithmetic::mul::lemma_mul_is_distributive_sub_other_way(vx as int, ip, 1int);
        vstd::arithmetic::mul::lemma_mul_basics(vx as int);
    }
    assert((t + (p - 1) * vx) % ip == (t - vx) % ip) by {
        assert(t + (p - 1) * vx == ip * vx + (t - vx));
        vstd::arithmetic::div_mod::lemma_mod_multiples_vanish(vx as int, t - vx, ip);
    }
    assert((t - vx) % ip == 0) by {
        vstd::arithmetic::div_mod::lemma_sub_mod_noop(t, vx as int, ip);
        vstd::arithmetic::div_mod::lemma_small_mod(vx, p);
        assert((t % ip - vx as int % ip) % ip == 0int % ip) by {
            vstd::arithmetic::div_mod::lemma_mod_self_0(ip);
            vstd::arithmetic::div_mod::lemma_small_mod(0nat, p);
        }
    }
}

/// `subm` is congruent to integer subtraction.
proof fn lemma_subm_congruent(a: nat, b: nat, p: nat)
    requires
        0 < p,
        a < p,
        b < p,
    ensures
        crate::expr::subm(a, b, p) as int == (a - b) % (p as int),
{
    let ip = p as int;
    if a >= b {
        vstd::arithmetic::div_mod::lemma_small_mod((a - b) as nat, p);
    } else {
        assert(crate::expr::subm(a, b, p) == ((p - ((b - a) as nat)) as nat) % p);
        vstd::arithmetic::div_mod::lemma_small_mod((p - ((b - a) as nat)) as nat, p);
        assert((a - b) % ip == (ip + (a - b)) % ip) by {
            vstd::arithmetic::div_mod::lemma_mod_add_multiples_vanish(a - b, ip);
        }
        vstd::arithmetic::div_mod::lemma_small_mod((p + a - b) as nat, p);
    }
}

/// Assemble a gate's selector identity: when the non-output terms sum to a value
/// congruent to the output wire's value, the whole gate vanishes modulo `p`.
proof fn lemma_gate_sum(
    g: (nat, nat, nat, nat, nat, Seq<Seq<char>>),
    env: Map<Seq<char>, nat>,
    p: nat,
    t: int,
    vx: nat,
)
    requires
        2 <= p,
        vx < p,
        g.2 == (p - 1) as nat,
        wire_val(g.5[2], env, p) == vx,
        g.0 * wire_val(g.5[0], env, p) + g.1 * wire_val(g.5[1], env, p) + g.3 * (wire_val(
            g.5[0],
            env,
            p,
        ) * wire_val(g.5[1], env, p)) + g.4 == t,
        t % (p as int) == vx as int,
    ensures
        gate_eq_holds(g, env, p),
{
    lemma_cancel(t, vx, p);
}

/// The evaluations of a sum's operands, recovered from the sum's own.
proof fn lemma_eval_plus_parts(a: SymExpr, b: SymExpr, env: Map<Seq<char>, nat>, p: nat)
    requires
        eval_in(SymExpr::Plus(Box::new(a), Box::new(b)), env, p) is Known,
    ensures
        eval_in(a, env, p) is Known,
        eval_in(b, env, p) is Known,
        eval_in(SymExpr::Plus(Box::new(a), Box::new(b)), env, p) == ExprVal::Known(
            addm(
                eval_in(a, env, p)->Known_0,
                eval_in(b, env, p)->Known_0,
                p,
            ),
        ),
{
}

/// The evaluations of a difference's operands, recovered from its own.
proof fn lemma_eval_minus_parts(a: SymExpr, b: SymExpr, env: Map<Seq<char>, nat>, p: nat)
    requires
        eval_in(SymExpr::Minus(Box::new(a), Box::new(b)), env, p) is Known,
    ensures
        eval_in(a, env, p) is Known,
        eval_in(b, env, p) is Known,
        eval_in(SymExpr::Minus(Box::new(a), Box::new(b)), env, p) == ExprVal::Known(
            crate::expr::subm(
                eval_in(a, env, p)->Known_0,
                eval_in(b, env, p)->Known_0,
                p,
            ),
        ),
{
}

/// The evaluations of a product's operands, recovered from its own.
proof fn lemma_eval_times_parts(a: SymExpr, b: SymExpr, env: Map<Seq<char>, nat>, p: nat)
    requires
        eval_in(SymExpr::Times(Box::new(a), Box::new(b)), env, p) is Known,
    ensures
        eval_in(a, env, p) is Known,
        eval_in(b, env, p) is Known,
        eval_in(SymExpr::Times(Box::new(a), Box::new(b)), env, p) == ExprVal::Known(
            mulm(
                eval_in(a, env, p)->Known_0,
                eval_in(b, env, p)->Known_0,
                p,
            ),
        ),
{
}

/// The evaluation of a negation's operand, recovered from its own.
proof fn lemma_eval_negate_part(a: SymExpr, env: Map<Seq<char>, nat>, p: nat)
    requires
        eval_in(SymExpr::Negate(Box::new(a)), env, p) is Known,
    ensures
        eval_in(a, env, p) is Known,
        eval_in(SymExpr::Negate(Box::new(a)), env, p) == ExprVal::Known(
            negm(eval_in(a, env, p)->Known_0, p),
        ),
{
}

/// A sum or difference operand the walk lowers exactly: a bare variable, or
/// a variable scaled by one constant factor on either side.
pub open spec fn scaled_var(o: SymExpr) -> bool {
    ||| (o is Var && o->Var_0 != Seq::<char>::empty())
    ||| (o is Times && (*o->Times_0) is Var && (*o->Times_0)->Var_0 != Seq::<char>::empty()
        && (*o->Times_1) is Lit)
    ||| (o is Times && (*o->Times_0) is Lit && (*o->Times_1) is Var && (*o->Times_1)->Var_0
        != Seq::<char>::empty())
}

/// The variable of a scaled operand.
pub open spec fn operand_var(o: SymExpr) -> Seq<char> {
    if o is Var {
        o->Var_0
    } else if (*o->Times_0) is Var {
        (*o->Times_0)->Var_0
    } else {
        (*o->Times_1)->Var_0
    }
}

/// The reduced coefficient of a scaled operand.
pub open spec fn operand_coeff(o: SymExpr, p: nat) -> nat {
    if o is Var {
        1nat % p
    } else if (*o->Times_0) is Lit {
        (*o->Times_0)->Lit_0 % p
    } else {
        (*o->Times_1)->Lit_0 % p
    }
}

/// Walking a scaled operand records its variable, scales the side
/// coefficient by the operand's, and leaves the constant term alone; its
/// value is the variable's times the coefficient.
proof fn lemma_walk_scaled(
    o: SymExpr,
    q0: nat,
    qc: nat,
    t: Seq<Seq<char>>,
    env: Map<Seq<char>, nat>,
    p: nat,
    neg: bool,
)
    requires
        2 <= p,
        q0 == 1nat % p,
        scaled_var(o),
        eval_in(o, env, p) is Known,
    ensures
        env.dom().contains(operand_var(o)),
        walk(o, (q0, qc, t), p, neg) == Some(
            (operand_coeff(o, p), qc, t.push(operand_var(o))),
        ),
        eval_in(o, env, p) == ExprVal::Known(
            mulm(env[operand_var(o)] % p, operand_coeff(o, p), p),
        ),
        operand_coeff(o, p) < p,
{
    let ip = p as int;
    vstd::arithmetic::div_mod::lemma_small_mod(1nat, p);
    let y = operand_var(o);
    let m = operand_coeff(o, p);
    if o is Var {
        assert(o == SymExpr::Var(y));
        assert(env.dom().contains(y));
        let vy = env[y] % p;
        vstd::arithmetic::div_mod::lemma_mod_division_less_than_divisor(env[y] as int, ip);
        assert(mulm(vy, 1nat % p, p) == vy) by {
            vstd::arithmetic::mul::lemma_mul_basics(vy as int);
            vstd::arithmetic::div_mod::lemma_small_mod(vy, p);
        }
    } else if (*o->Times_0) is Var {
        let a = *o->Times_0;
        let b = *o->Times_1;
        let c = b->Lit_0;
        assert(o == SymExpr::Times(Box::new(a), Box::new(b)));
        assert(a == SymExpr::Var(y) && b == SymExpr::Lit(c));
        lemma_eval_times_parts(a, b, env, p);
        assert(env.dom().contains(y));
        let vy = env[y] % p;
        vstd::arithmetic::div_mod::lemma_mod_division_less_than_divisor(c as int, ip);
        assert(eval_in(b, Map::empty(), p) == ExprVal::Known(c % p));
        assert(walk(a, (q0, qc, t), p, neg) == Some((q0, qc, t.push(y))));
        assert(mulm(1nat % p, c % p, p) == c % p) by {
            vstd::arithmetic::mul::lemma_mul_basics((c % p) as int);
            vstd::arithmetic::div_mod::lemma_small_mod(c % p, p);
        }
        vstd::arithmetic::div_mod::lemma_mod_division_less_than_divisor((c * vy) as int, ip);
    } else {
        let a = *o->Times_0;
        let b = *o->Times_1;
        let c = a->Lit_0;
        assert(o == SymExpr::Times(Box::new(a), Box::new(b)));
        assert(a == SymExpr::Lit(c) && b == SymExpr::Var(y));
        lemma_eval_times_parts(a, b, env, p);
        assert(env.dom().contains(y));
        let vy = env[y] % p;
        vstd::arithmetic::div_mod::lemma_mod_division_less_than_divisor(c as int, ip);
        assert(eval_in(a, Map::empty(), p) == ExprVal::Known(c % p));
        assert(walk(b, (mulm(q0, c % p, p), qc, t), p, neg) == Some(
            (mulm(q0, c % p, p), qc, t.push(y)),
        ));
        assert(mulm(1nat % p, c % p, p) == c % p) by {
            vstd::arithmetic::mul::lemma_mul_basics((c % p) as int);
            vstd::arithmetic::div_mod::lemma_small_mod(c % p, p);
        }
        assert(mulm(c % p, vy, p) == mulm(vy, c % p, p)) by {
            vstd::arithmetic::mul::lemma_mul_is_commutative((c % p) as int, vy as int);
        }
    }
    vstd::arithmetic::div_mod::lemma_mod_division_less_than_divisor((1nat) as int, ip);
}

/// A negated coefficient times a wire value is the negated scaled value.
proof fn lemma_neg_scaled(m: nat, v: nat, p: nat)
    requires
        0 < p,
        m < p,
    ensures
        (negm(m, p) * v) % p == negm(mulm(v, m, p), p),
{
    let ip = p as int;
    if m == 0 {
        assert(negm(0, p) == 0) by {
            vstd::arithmetic::div_mod::lemma_mod_self_0(ip);
        }
        assert(0nat * v == 0 && v * 0nat == 0) by {
            vstd::arithmetic::mul::lemma_mul_basics(v as int);
        }
        vstd::arithmetic::div_mod::lemma_small_mod(0nat, p);
    } else {
        assert(negm(m, p) == (p - m) as nat) by {
            vstd::arithmetic::div_mod::lemma_small_mod((p - m) as nat, p);
        }
        crate::r1cs::lemma_neg_coeff(m, v, p);
        assert(m * v == v * m) by {
            vstd::arithmetic::mul::lemma_mul_is_commutative(m as int, v as int);
        }
    }
}

/// The left side of a faithful gate: its variable is bound, its value is the
/// environment's reduced value, and its selector is `-1`.
proof fn lemma_gate_lhs(l: SymExpr, env: Map<Seq<char>, nat>, p: nat)
    requires
        2 <= p,
        l is Var,
        eval_in(l, env, p) is Known,
    ensures
        env.dom().contains(l->Var_0),
        eval_in(l, env, p) == ExprVal::Known(env[l->Var_0] % p),
        env[l->Var_0] % p < p,
        1nat % p == 1,
        negm(1nat % p, p) == (p - 1) as nat,
{
    assert(l == SymExpr::Var(l->Var_0));
    vstd::arithmetic::div_mod::lemma_mod_division_less_than_divisor(env[l->Var_0] as int, p as int);
    vstd::arithmetic::div_mod::lemma_small_mod(1nat, p);
    vstd::arithmetic::div_mod::lemma_small_mod((p - 1) as nat, p);
}

/// One gate with a constant right side: `x = c`.
proof fn lemma_gate_sound_lit(
    l: SymExpr,
    r: SymExpr,
    pubs: Seq<Seq<char>>,
    p: nat,
    env: Map<Seq<char>, nat>,
    g: (nat, nat, nat, nat, nat, Seq<Seq<char>>),
)
    requires
        2 <= p,
        plonk_faithful(l, r, pubs),
        r is Lit,
        consume_plonk(l, r, pubs, p) == Some(g),
        eq_holds(l, r, env, p),
    ensures
        gate_eq_holds(g, env, p),
{
    reveal(consume_plonk);
    let ip = p as int;
    let x = l->Var_0;
    let c = r->Lit_0;
    lemma_gate_lhs(l, env, p);
    let vx = env[x] % p;
    assert(r == SymExpr::Lit(c));
    assert(vx == c % p);
    assert(g == (
        0nat,
        0nat,
        (p - 1) as nat,
        0nat,
        addm(0, c, p),
        seq![Seq::<char>::empty(), Seq::<char>::empty(), x],
    ));
    let v0 = wire_val(g.5[0], env, p);
    let v1 = wire_val(g.5[1], env, p);
    assert(v0 == 0 && v1 == 0);
    assert(wire_val(g.5[2], env, p) == vx);
    assert(g.0 * v0 == 0 && g.1 * v1 == 0 && g.3 * (v0 * v1) == 0) by {
        vstd::arithmetic::mul::lemma_mul_basics(v0 as int);
        vstd::arithmetic::mul::lemma_mul_basics(v1 as int);
        vstd::arithmetic::mul::lemma_mul_basics((v0 * v1) as int);
    }
    vstd::arithmetic::div_mod::lemma_mod_division_less_than_divisor(c as int, ip);
    vstd::arithmetic::div_mod::lemma_small_mod(c % p, p);
    lemma_gate_sum(g, env, p, (c % p) as int, vx);
}

/// One gate with a bare variable on the right: `x = y`.
proof fn lemma_gate_sound_var(
    l: SymExpr,
    r: SymExpr,
    pubs: Seq<Seq<char>>,
    p: nat,
    env: Map<Seq<char>, nat>,
    g: (nat, nat, nat, nat, nat, Seq<Seq<char>>),
)
    requires
        2 <= p,
        plonk_faithful(l, r, pubs),
        r is Var,
        consume_plonk(l, r, pubs, p) == Some(g),
        eq_holds(l, r, env, p),
    ensures
        gate_eq_holds(g, env, p),
{
    reveal(consume_plonk);
    let ip = p as int;
    let x = l->Var_0;
    let y = r->Var_0;
    lemma_gate_lhs(l, env, p);
    let vx = env[x] % p;
    assert(r == SymExpr::Var(y));
    assert(env.dom().contains(y));
    let vy = env[y] % p;
    assert(vx == vy);
    assert(g == (1nat % p, 0nat, (p - 1) as nat, 0nat, 0nat, seq![y, Seq::<char>::empty(), x]));
    let v0 = wire_val(g.5[0], env, p);
    let v1 = wire_val(g.5[1], env, p);
    assert(v0 == vy && v1 == 0);
    assert(wire_val(g.5[2], env, p) == vx);
    assert(g.0 * v0 == vy && g.1 * v1 == 0 && g.3 * (v0 * v1) == 0) by {
        vstd::arithmetic::div_mod::lemma_small_mod(1nat, p);
        vstd::arithmetic::mul::lemma_mul_basics(v0 as int);
        vstd::arithmetic::mul::lemma_mul_basics(v1 as int);
        vstd::arithmetic::mul::lemma_mul_basics((v0 * v1) as int);
    }
    vstd::arithmetic::div_mod::lemma_mod_division_less_than_divisor(env[y] as int, ip);
    vstd::arithmetic::div_mod::lemma_small_mod(vy, p);
    lemma_gate_sum(g, env, p, vy as int, vx);
}

/// One gate with a sum on the right: two variables, or a variable and a
/// constant on either side.
proof fn lemma_gate_sound_plus(
    l: SymExpr,
    r: SymExpr,
    pubs: Seq<Seq<char>>,
    p: nat,
    env: Map<Seq<char>, nat>,
    g: (nat, nat, nat, nat, nat, Seq<Seq<char>>),
)
    requires
        2 <= p,
        plonk_faithful(l, r, pubs),
        r is Plus,
        consume_plonk(l, r, pubs, p) == Some(g),
        eq_holds(l, r, env, p),
    ensures
        gate_eq_holds(g, env, p),
{
    reveal(consume_plonk);
    let ip = p as int;
    let x = l->Var_0;
    lemma_gate_lhs(l, env, p);
    let vx = env[x] % p;
    let a = *r->Plus_0;
    let b = *r->Plus_1;
    assert(r == SymExpr::Plus(Box::new(a), Box::new(b)));
    lemma_eval_plus_parts(a, b, env, p);
    vstd::arithmetic::div_mod::lemma_small_mod(0nat, p);
    vstd::arithmetic::div_mod::lemma_small_mod(1nat, p);
    if scaled_var(a) && scaled_var(b) {
        lemma_walk_scaled(a, 1nat % p, 0nat, Seq::empty(), env, p, false);
        let ya = operand_var(a);
        let ma = operand_coeff(a, p);
        let va = env[ya] % p;
        lemma_walk_scaled(b, 1nat % p, 0nat, Seq::<Seq<char>>::empty().push(ya), env, p, false);
        let yb = operand_var(b);
        let mb = operand_coeff(b, p);
        let vb = env[yb] % p;
        let sa = mulm(va, ma, p);
        let sb = mulm(vb, mb, p);
        assert(vx == addm(sa, sb, p));
        assert(Seq::<Seq<char>>::empty().push(ya).push(yb) =~= seq![ya, yb]);
        assert(g == (ma, mb, (p - 1) as nat, 0nat, 0nat, seq![ya, yb, x]));
        let v0 = wire_val(g.5[0], env, p);
        let v1 = wire_val(g.5[1], env, p);
        vstd::arithmetic::div_mod::lemma_mod_division_less_than_divisor(env[ya] as int, ip);
        vstd::arithmetic::div_mod::lemma_mod_division_less_than_divisor(env[yb] as int, ip);
        assert(v0 == va && v1 == vb);
        assert(wire_val(g.5[2], env, p) == vx);
        assert(g.3 * (v0 * v1) == 0) by {
            vstd::arithmetic::mul::lemma_mul_basics((v0 * v1) as int);
        }
        let t = (ma * va + mb * vb) as int;
        assert(g.0 * v0 + g.1 * v1 + g.3 * (v0 * v1) + g.4 == t);
        assert(t % ip == vx as int) by {
            assert(ma * va == va * ma && mb * vb == vb * mb) by {
                vstd::arithmetic::mul::lemma_mul_is_commutative(ma as int, va as int);
                vstd::arithmetic::mul::lemma_mul_is_commutative(mb as int, vb as int);
            }
            vstd::arithmetic::div_mod::lemma_add_mod_noop((ma * va) as int, (mb * vb) as int, ip);
            vstd::arithmetic::div_mod::lemma_mod_division_less_than_divisor((va * ma) as int, ip);
            vstd::arithmetic::div_mod::lemma_mod_division_less_than_divisor((vb * mb) as int, ip);
            vstd::arithmetic::div_mod::lemma_small_mod(sa, p);
            vstd::arithmetic::div_mod::lemma_small_mod(sb, p);
            vstd::arithmetic::div_mod::lemma_mod_division_less_than_divisor((sa + sb) as int, ip);
            vstd::arithmetic::div_mod::lemma_small_mod(vx, p);
        }
        assert(t >= 0) by {
            vstd::arithmetic::mul::lemma_mul_nonnegative(ma as int, va as int);
            vstd::arithmetic::mul::lemma_mul_nonnegative(mb as int, vb as int);
        }
        lemma_gate_sum(g, env, p, t, vx);
    } else if scaled_var(a) {
        let c = b->Lit_0;
        assert(b == SymExpr::Lit(c));
        lemma_walk_scaled(a, 1nat % p, 0nat, Seq::empty(), env, p, false);
        let ya = operand_var(a);
        let ma = operand_coeff(a, p);
        let va = env[ya] % p;
        let sa = mulm(va, ma, p);
        vstd::arithmetic::div_mod::lemma_mod_division_less_than_divisor(c as int, ip);
        assert(vx == addm(sa, c % p, p));
        assert(Seq::<Seq<char>>::empty().push(ya) =~= seq![ya]);
        assert(g == (ma, 0nat, (p - 1) as nat, 0nat, addm(0, c, p), seq![ya, Seq::<char>::empty(), x]));
        let v0 = wire_val(g.5[0], env, p);
        let v1 = wire_val(g.5[1], env, p);
        vstd::arithmetic::div_mod::lemma_mod_division_less_than_divisor(env[ya] as int, ip);
        assert(v0 == va && v1 == 0);
        assert(wire_val(g.5[2], env, p) == vx);
        assert(g.1 * v1 == 0 && g.3 * (v0 * v1) == 0) by {
            vstd::arithmetic::mul::lemma_mul_basics(v1 as int);
            vstd::arithmetic::mul::lemma_mul_basics((v0 * v1) as int);
        }
        let t = (ma * va + c % p) as int;
        assert(g.0 * v0 + g.1 * v1 + g.3 * (v0 * v1) + g.4 == t);
        assert(t % ip == vx as int) by {
            assert(ma * va == va * ma) by {
                vstd::arithmetic::mul::lemma_mul_is_commutative(ma as int, va as int);
            }
            vstd::arithmetic::div_mod::lemma_add_mod_noop((ma * va) as int, (c % p) as int, ip);
            vstd::arithmetic::div_mod::lemma_mod_division_less_than_divisor((va * ma) as int, ip);
            vstd::arithmetic::div_mod::lemma_small_mod(sa, p);
            vstd::arithmetic::div_mod::lemma_small_mod(c % p, p);
            vstd::arithmetic::div_mod::lemma_mod_division_less_than_divisor((sa + c % p) as int, ip);
            vstd::arithmetic::div_mod::lemma_small_mod(vx, p);
        }
        assert(t >= 0) by {
            vstd::arithmetic::mul::lemma_mul_nonnegative(ma as int, va as int);
        }
        lemma_gate_sum(g, env, p, t, vx);
    } else {
        let c = a->Lit_0;
        assert(a == SymExpr::Lit(c));
        vstd::arithmetic::div_mod::lemma_mod_division_less_than_divisor(c as int, ip);
        assert(walk(a, (1nat % p, 0nat, Seq::<Seq<char>>::empty()), p, false) == Some(
            (1nat % p, addm(0, c, p), Seq::<Seq<char>>::empty()),
        ));
        vstd::arithmetic::div_mod::lemma_small_mod(c % p, p);
        lemma_walk_scaled(b, 1nat % p, c % p, Seq::empty(), env, p, false);
        let yb = operand_var(b);
        let mb = operand_coeff(b, p);
        let vb = env[yb] % p;
        let sb = mulm(vb, mb, p);
        assert(vx == addm(c % p, sb, p));
        assert(Seq::<Seq<char>>::empty().push(yb) =~= seq![yb]);
        assert(g == (mb, 0nat, (p - 1) as nat, 0nat, addm(0, c, p), seq![yb, Seq::<char>::empty(), x]));
        let v0 = wire_val(g.5[0], env, p);
        let v1 = wire_val(g.5[1], env, p);
        vstd::arithmetic::div_mod::lemma_mod_division_less_than_divisor(env[yb] as int, ip);
        assert(v0 == vb && v1 == 0);
        assert(wire_val(g.5[2], env, p) == vx);
        assert(g.1 * v1 == 0 && g.3 * (v0 * v1) == 0) by {
            vstd::arithmetic::mul::lemma_mul_basics(v1 as int);
            vstd::arithmetic::mul::lemma_mul_basics((v0 * v1) as int);
        }
        let t = (mb * vb + c % p) as int;
        assert(g.0 * v0 + g.1 * v1 + g.3 * (v0 * v1) + g.4 == t);
        assert(t % ip == vx as int) by {
            assert(mb * vb == vb * mb) by {
                vstd::arithmetic::mul::lemma_mul_is_commutative(mb as int, vb as int);
            }
            vstd::arithmetic::div_mod::lemma_add_mod_noop((mb * vb) as int, (c % p) as int, ip);
            vstd::arithmetic::div_mod::lemma_mod_division_less_than_divisor((vb * mb) as int, ip);
            vstd::arithmetic::div_mod::lemma_small_mod(sb, p);
            vstd::arithmetic::div_mod::lemma_mod_division_less_than_divisor((sb + c % p) as int, ip);
            vstd::arithmetic::div_mod::lemma_small_mod(vx, p);
        }
        assert(t >= 0) by {
            vstd::arithmetic::mul::lemma_mul_nonnegative(mb as int, vb as int);
        }
        lemma_gate_sum(g, env, p, t, vx);
    }
}

/// One gate with a difference on the right: two variables, or a variable and
/// a constant on either side.
proof fn lemma_gate_sound_minus(
    l: SymExpr,
    r: SymExpr,
    pubs: Seq<Seq<char>>,
    p: nat,
    env: Map<Seq<char>, nat>,
    g: (nat, nat, nat, nat, nat, Seq<Seq<char>>),
)
    requires
        2 <= p,
        plonk_faithful(l, r, pubs),
        r is Minus,
        consume_plonk(l, r, pubs, p) == Some(g),
        eq_holds(l, r, env, p),
    ensures
        gate_eq_holds(g, env, p),
{
    reveal(consume_plonk);
    let ip = p as int;
    let x = l->Var_0;
    lemma_gate_lhs(l, env, p);
    let vx = env[x] % p;
    let a = *r->Minus_0;
    let b = *r->Minus_1;
    assert(r == SymExpr::Minus(Box::new(a), Box::new(b)));
    lemma_eval_minus_parts(a, b, env, p);
    vstd::arithmetic::div_mod::lemma_small_mod(0nat, p);
    vstd::arithmetic::div_mod::lemma_small_mod(1nat, p);
    if scaled_var(a) && scaled_var(b) {
        lemma_walk_scaled(a, 1nat % p, 0nat, Seq::empty(), env, p, false);
        let ya = operand_var(a);
        let ma = operand_coeff(a, p);
        let va = env[ya] % p;
        lemma_walk_scaled(b, 1nat % p, 0nat, Seq::<Seq<char>>::empty().push(ya), env, p, true);
        let yb = operand_var(b);
        let mb = operand_coeff(b, p);
        let vb = env[yb] % p;
        let sa = mulm(va, ma, p);
        let sb = mulm(vb, mb, p);
        vstd::arithmetic::div_mod::lemma_mod_division_less_than_divisor(env[ya] as int, ip);
        vstd::arithmetic::div_mod::lemma_mod_division_less_than_divisor(env[yb] as int, ip);
        vstd::arithmetic::div_mod::lemma_mod_division_less_than_divisor((va * ma) as int, ip);
        vstd::arithmetic::div_mod::lemma_mod_division_less_than_divisor((vb * mb) as int, ip);
        assert(vx == crate::expr::subm(sa, sb, p));
        assert(Seq::<Seq<char>>::empty().push(ya).push(yb) =~= seq![ya, yb]);
        assert(g == (ma, negm(mb, p), (p - 1) as nat, 0nat, 0nat, seq![ya, yb, x]));
        let v0 = wire_val(g.5[0], env, p);
        let v1 = wire_val(g.5[1], env, p);
        assert(v0 == va && v1 == vb);
        assert(wire_val(g.5[2], env, p) == vx);
        assert(g.3 * (v0 * v1) == 0) by {
            vstd::arithmetic::mul::lemma_mul_basics((v0 * v1) as int);
        }
        let t = (ma * va + negm(mb, p) * vb) as int;
        assert(g.0 * v0 + g.1 * v1 + g.3 * (v0 * v1) + g.4 == t);
        assert(t % ip == vx as int) by {
            lemma_neg_scaled(mb, vb, p);
            assert(ma * va == va * ma) by {
                vstd::arithmetic::mul::lemma_mul_is_commutative(ma as int, va as int);
            }
            vstd::arithmetic::div_mod::lemma_add_mod_noop(
                (ma * va) as int,
                (negm(mb, p) * vb) as int,
                ip,
            );
            vstd::arithmetic::div_mod::lemma_small_mod(sa, p);
            vstd::arithmetic::div_mod::lemma_small_mod(negm(sb, p), p);
            crate::r1cs::lemma_subm_is_add_neg(sa, sb, p);
            vstd::arithmetic::div_mod::lemma_small_mod(crate::expr::subm(sa, sb, p), p);
            assert(crate::expr::subm(sa, sb, p) < p) by {
                vstd::arithmetic::div_mod::lemma_mod_division_less_than_divisor(
                    (sa + negm(sb, p)) as int,
                    ip,
                );
            }
        }
        assert(t >= 0) by {
            vstd::arithmetic::mul::lemma_mul_nonnegative(ma as int, va as int);
            vstd::arithmetic::mul::lemma_mul_nonnegative(negm(mb, p) as int, vb as int);
        }
        lemma_gate_sum(g, env, p, t, vx);
    } else if scaled_var(a) {
        let c = b->Lit_0;
        assert(b == SymExpr::Lit(c));
        lemma_walk_scaled(a, 1nat % p, 0nat, Seq::empty(), env, p, false);
        let ya = operand_var(a);
        let ma = operand_coeff(a, p);
        let va = env[ya] % p;
        let sa = mulm(va, ma, p);
        vstd::arithmetic::div_mod::lemma_mod_division_less_than_divisor(c as int, ip);
        vstd::arithmetic::div_mod::lemma_small_mod(c % p, p);
        vstd::arithmetic::div_mod::lemma_mod_division_less_than_divisor(env[ya] as int, ip);
        vstd::arithmetic::div_mod::lemma_mod_division_less_than_divisor((va * ma) as int, ip);
        assert(vx == crate::expr::subm(sa, c % p, p));
        let qcv = addm(0, negm(c % p, p), p);
        assert(Seq::<Seq<char>>::empty().push(ya) =~= seq![ya]);
        assert(g == (ma, 0nat, (p - 1) as nat, 0nat, qcv, seq![ya, Seq::<char>::empty(), x]));
        crate::r1cs::lemma_negm_congruent(c % p, p);
        vstd::arithmetic::div_mod::lemma_small_mod(negm(c % p, p), p);
        assert(qcv == negm(c % p, p));
        let v0 = wire_val(g.5[0], env, p);
        let v1 = wire_val(g.5[1], env, p);
        assert(v0 == va && v1 == 0);
        assert(wire_val(g.5[2], env, p) == vx);
        assert(g.1 * v1 == 0 && g.3 * (v0 * v1) == 0) by {
            vstd::arithmetic::mul::lemma_mul_basics(v1 as int);
            vstd::arithmetic::mul::lemma_mul_basics((v0 * v1) as int);
        }
        let t = (ma * va + negm(c % p, p)) as int;
        assert(g.0 * v0 + g.1 * v1 + g.3 * (v0 * v1) + g.4 == t);
        assert(t % ip == vx as int) by {
            assert(ma * va == va * ma) by {
                vstd::arithmetic::mul::lemma_mul_is_commutative(ma as int, va as int);
            }
            vstd::arithmetic::div_mod::lemma_add_mod_noop(
                (ma * va) as int,
                negm(c % p, p) as int,
                ip,
            );
            vstd::arithmetic::div_mod::lemma_small_mod(sa, p);
            crate::r1cs::lemma_subm_is_add_neg(sa, c % p, p);
            vstd::arithmetic::div_mod::lemma_small_mod(crate::expr::subm(sa, c % p, p), p);
            assert(crate::expr::subm(sa, c % p, p) < p) by {
                vstd::arithmetic::div_mod::lemma_mod_division_less_than_divisor(
                    (sa + negm(c % p, p)) as int,
                    ip,
                );
            }
        }
        assert(t >= 0) by {
            vstd::arithmetic::mul::lemma_mul_nonnegative(ma as int, va as int);
        }
        lemma_gate_sum(g, env, p, t, vx);
    } else {
        let c = a->Lit_0;
        assert(a == SymExpr::Lit(c));
        vstd::arithmetic::div_mod::lemma_mod_division_less_than_divisor(c as int, ip);
        assert(walk(a, (1nat % p, 0nat, Seq::<Seq<char>>::empty()), p, false) == Some(
            (1nat % p, addm(0, c, p), Seq::<Seq<char>>::empty()),
        ));
        vstd::arithmetic::div_mod::lemma_small_mod(c % p, p);
        lemma_walk_scaled(b, 1nat % p, c % p, Seq::empty(), env, p, true);
        let yb = operand_var(b);
        let mb = operand_coeff(b, p);
        let vb = env[yb] % p;
        let sb = mulm(vb, mb, p);
        vstd::arithmetic::div_mod::lemma_mod_division_less_than_divisor(env[yb] as int, ip);
        vstd::arithmetic::div_mod::lemma_mod_division_less_than_divisor((vb * mb) as int, ip);
        assert(vx == crate::expr::subm(c % p, sb, p));
        assert(Seq::<Seq<char>>::empty().push(yb) =~= seq![yb]);
        assert(g == (
            negm(mb, p),
            0nat,
            (p - 1) as nat,
            0nat,
            addm(0, c, p),
            seq![yb, Seq::<char>::empty(), x],
        ));
        let v0 = wire_val(g.5[0], env, p);
        let v1 = wire_val(g.5[1], env, p);
        assert(v0 == vb && v1 == 0);
        assert(wire_val(g.5[2], env, p) == vx);
        assert(g.1 * v1 == 0 && g.3 * (v0 * v1) == 0) by {
            vstd::arithmetic::mul::lemma_mul_basics(v1 as int);
            vstd::arithmetic::mul::lemma_mul_basics((v0 * v1) as int);
        }
        let t = (negm(mb, p) * vb + c % p) as int;
        assert(g.0 * v0 + g.1 * v1 + g.3 * (v0 * v1) + g.4 == t);
        assert(t % ip == vx as int) by {
            lemma_neg_scaled(mb, vb, p);
            vstd::arithmetic::div_mod::lemma_add_mod_noop(
                (negm(mb, p) * vb) as int,
                (c % p) as int,
                ip,
            );
            vstd::arithmetic::div_mod::lemma_small_mod(negm(sb, p), p);
            crate::r1cs::lemma_subm_is_add_neg(c % p, sb, p);
            vstd::arithmetic::div_mod::lemma_small_mod(crate::expr::subm(c % p, sb, p), p);
            assert(crate::expr::subm(c % p, sb, p) < p) by {
                vstd::arithmetic::div_mod::lemma_mod_division_less_than_divisor(
                    (c % p + negm(sb, p)) as int,
                    ip,
                );
            }
        }
        assert(t >= 0) by {
            vstd::arithmetic::mul::lemma_mul_nonnegative(negm(mb, p) as int, vb as int);
        }
        lemma_gate_sum(g, env, p, t, vx);
    }
}

/// One gate with a product of two variables on the right: `x = y·z`.
proof fn lemma_gate_sound_times(
    l: SymExpr,
    r: SymExpr,
    pubs: Seq<Seq<char>>,
    p: nat,
    env: Map<Seq<char>, nat>,
    g: (nat, nat, nat, nat, nat, Seq<Seq<char>>),
)
    requires
        2 <= p,
        plonk_faithful(l, r, pubs),
        r is Times,
        consume_plonk(l, r, pubs, p) == Some(g),
        eq_holds(l, r, env, p),
    ensures
        gate_eq_holds(g, env, p),
{
    reveal(consume_plonk);
    let x = l->Var_0;
    lemma_gate_lhs(l, env, p);
    let vx = env[x] % p;
    let a = *r->Times_0;
    let b = *r->Times_1;
    assert(r == SymExpr::Times(Box::new(a), Box::new(b)));
    lemma_eval_times_parts(a, b, env, p);
    let ip = p as int;
    vstd::arithmetic::div_mod::lemma_small_mod(0nat, p);
    if a is Var && b is Var {
        let y = a->Var_0;
        let z = b->Var_0;
        assert(a == SymExpr::Var(y) && b == SymExpr::Var(z));
        assert(env.dom().contains(y) && env.dom().contains(z));
        let vy = env[y] % p;
        let vz = env[z] % p;
        assert(vx == mulm(vy, vz, p));
        assert(walk(a, (1nat % p, 0nat, Seq::<Seq<char>>::empty()), p, false) == Some(
            (1nat % p, 0nat, Seq::<Seq<char>>::empty().push(y)),
        ));
        assert(walk(b, (1nat % p, 0nat, Seq::<Seq<char>>::empty().push(y)), p, false) == Some(
            (1nat % p, 0nat, Seq::<Seq<char>>::empty().push(y).push(z)),
        ));
        assert(Seq::<Seq<char>>::empty().push(y).push(z) =~= seq![y, z]);
        assert(g == (0nat, 0nat, (p - 1) as nat, 1nat % p, 0nat, seq![y, z, x]));
        let v0 = wire_val(g.5[0], env, p);
        let v1 = wire_val(g.5[1], env, p);
        assert(v0 == vy && v1 == vz);
        assert(wire_val(g.5[2], env, p) == vx);
        assert(g.0 * v0 == 0 && g.1 * v1 == 0 && g.3 * (v0 * v1) == vy * vz) by {
            vstd::arithmetic::div_mod::lemma_small_mod(1nat, p);
            vstd::arithmetic::mul::lemma_mul_basics(v0 as int);
            vstd::arithmetic::mul::lemma_mul_basics(v1 as int);
            vstd::arithmetic::mul::lemma_mul_basics((v0 * v1) as int);
        }
        let t = (vy * vz) as int;
        assert(t >= 0) by {
            vstd::arithmetic::mul::lemma_mul_nonnegative(vy as int, vz as int);
        }
        lemma_gate_sum(g, env, p, t, vx);
    } else if a is Var {
        let y = a->Var_0;
        let c = b->Lit_0;
        assert(a == SymExpr::Var(y) && b == SymExpr::Lit(c));
        assert(env.dom().contains(y));
        let vy = env[y] % p;
        vstd::arithmetic::div_mod::lemma_mod_division_less_than_divisor(env[y] as int, ip);
        vstd::arithmetic::div_mod::lemma_mod_division_less_than_divisor(c as int, ip);
        assert(vx == mulm(vy, c % p, p));
        assert(eval_in(b, Map::empty(), p) == ExprVal::Known(c % p));
        assert(walk(a, (1nat % p, 0nat, Seq::<Seq<char>>::empty()), p, false) == Some(
            (1nat % p, 0nat, Seq::<Seq<char>>::empty().push(y)),
        ));
        let ghost ql = mulm(1nat % p, c % p, p);
        assert(Seq::<Seq<char>>::empty().push(y) =~= seq![y]);
        assert(g == (ql, 0nat, (p - 1) as nat, 0nat, addm(0, 0, p), seq![y, Seq::<char>::empty(), x]));
        assert(ql == c % p) by {
            vstd::arithmetic::div_mod::lemma_small_mod(1nat, p);
            vstd::arithmetic::mul::lemma_mul_basics((c % p) as int);
            vstd::arithmetic::div_mod::lemma_small_mod(c % p, p);
        }
        let v0 = wire_val(g.5[0], env, p);
        let v1 = wire_val(g.5[1], env, p);
        assert(v0 == vy && v1 == 0);
        assert(wire_val(g.5[2], env, p) == vx);
        assert(g.1 * v1 == 0 && g.3 * (v0 * v1) == 0) by {
            vstd::arithmetic::mul::lemma_mul_basics(v1 as int);
            vstd::arithmetic::mul::lemma_mul_basics((v0 * v1) as int);
        }
        let t = ((c % p) * vy) as int;
        assert(g.0 * v0 + g.1 * v1 + g.3 * (v0 * v1) + g.4 == t);
        assert(t % ip == vx as int) by {
            assert(vx == (vy * (c % p)) % p);
            assert((c % p) * vy == vy * (c % p)) by {
                vstd::arithmetic::mul::lemma_mul_is_commutative((c % p) as int, vy as int);
            }
            vstd::arithmetic::div_mod::lemma_small_mod(vx, p);
            vstd::arithmetic::div_mod::lemma_mod_twice((vy * (c % p)) as int, ip);
        }
        assert(t >= 0) by {
            vstd::arithmetic::mul::lemma_mul_nonnegative((c % p) as int, vy as int);
        }
        lemma_gate_sum(g, env, p, t, vx);
    } else {
        let c = a->Lit_0;
        let z = b->Var_0;
        assert(a == SymExpr::Lit(c) && b == SymExpr::Var(z));
        assert(env.dom().contains(z));
        let vz = env[z] % p;
        vstd::arithmetic::div_mod::lemma_mod_division_less_than_divisor(env[z] as int, ip);
        vstd::arithmetic::div_mod::lemma_mod_division_less_than_divisor(c as int, ip);
        assert(vx == mulm(c % p, vz, p));
        assert(eval_in(a, Map::empty(), p) == ExprVal::Known(c % p));
        let ghost qv0 = mulm(1nat % p, c % p, p);
        assert(walk(b, (qv0, 0nat, Seq::<Seq<char>>::empty()), p, false) == Some(
            (qv0, 0nat, Seq::<Seq<char>>::empty().push(z)),
        ));
        assert(Seq::<Seq<char>>::empty().push(z) =~= seq![z]);
        assert(g == (qv0, 0nat, (p - 1) as nat, 0nat, addm(0, 0, p), seq![z, Seq::<char>::empty(), x]));
        assert(qv0 == c % p) by {
            vstd::arithmetic::div_mod::lemma_small_mod(1nat, p);
            vstd::arithmetic::mul::lemma_mul_basics((c % p) as int);
            vstd::arithmetic::div_mod::lemma_small_mod(c % p, p);
        }
        let v0 = wire_val(g.5[0], env, p);
        let v1 = wire_val(g.5[1], env, p);
        assert(v0 == vz && v1 == 0);
        assert(wire_val(g.5[2], env, p) == vx);
        assert(g.1 * v1 == 0 && g.3 * (v0 * v1) == 0) by {
            vstd::arithmetic::mul::lemma_mul_basics(v1 as int);
            vstd::arithmetic::mul::lemma_mul_basics((v0 * v1) as int);
        }
        let t = ((c % p) * vz) as int;
        assert(g.0 * v0 + g.1 * v1 + g.3 * (v0 * v1) + g.4 == t);
        assert(t % ip == vx as int) by {
            assert(vx == ((c % p) * vz) % p);
            vstd::arithmetic::div_mod::lemma_small_mod(vx, p);
            vstd::arithmetic::div_mod::lemma_mod_twice(((c % p) * vz) as int, ip);
        }
        assert(t >= 0) by {
            vstd::arithmetic::mul::lemma_mul_nonnegative((c % p) as int, vz as int);
        }
        lemma_gate_sum(g, env, p, t, vx);
    }
}

/// One gate with a negated variable on the right: `x = -y`.
proof fn lemma_gate_sound_negate(
    l: SymExpr,
    r: SymExpr,
    pubs: Seq<Seq<char>>,
    p: nat,
    env: Map<Seq<char>, nat>,
    g: (nat, nat, nat, nat, nat, Seq<Seq<char>>),
)
    requires
        2 <= p,
        plonk_faithful(l, r, pubs),
        r is Negate,
        consume_plonk(l, r, pubs, p) == Some(g),
        eq_holds(l, r, env, p),
    ensures
        gate_eq_holds(g, env, p),
{
    reveal(consume_plonk);
    let ip = p as int;
    let x = l->Var_0;
    lemma_gate_lhs(l, env, p);
    let vx = env[x] % p;
    let a = *r->Negate_0;
    assert(r == SymExpr::Negate(Box::new(a)));
    lemma_eval_negate_part(a, env, p);
    let y = a->Var_0;
    assert(a == SymExpr::Var(y));
    assert(env.dom().contains(y));
    let vy = env[y] % p;
    vstd::arithmetic::div_mod::lemma_mod_division_less_than_divisor(env[y] as int, ip);
    assert(vx == negm(vy, p));
    assert(g == (
        negm(1nat % p, p),
        0nat,
        (p - 1) as nat,
        0nat,
        0nat,
        seq![y, Seq::<char>::empty(), x],
    ));
    let v0 = wire_val(g.5[0], env, p);
    let v1 = wire_val(g.5[1], env, p);
    assert(v0 == vy && v1 == 0);
    assert(wire_val(g.5[2], env, p) == vx);
    assert(g.1 * v1 == 0 && g.3 * (v0 * v1) == 0) by {
        vstd::arithmetic::mul::lemma_mul_basics(v1 as int);
        vstd::arithmetic::mul::lemma_mul_basics((v0 * v1) as int);
    }
    let t = ((p - 1) as nat * vy) as int;
    assert(g.0 * v0 + g.1 * v1 + g.3 * (v0 * v1) + g.4 == t);
    assert(t % ip == vx as int) by {
        crate::r1cs::lemma_neg_coeff(1nat, vy, p);
        assert(1nat * vy == vy) by {
            vstd::arithmetic::mul::lemma_mul_basics(vy as int);
        }
        vstd::arithmetic::div_mod::lemma_small_mod(vy, p);
    }
    assert(t >= 0) by {
        vstd::arithmetic::mul::lemma_mul_nonnegative((p - 1) as int, vy as int);
    }
    lemma_gate_sum(g, env, p, t, vx);
}

/// Soundness of one faithful gate: for any environment that satisfies the
/// constraint `l = r`, the compiled gate's equation holds.
pub proof fn lemma_plonk_gate_sound(
    l: SymExpr,
    r: SymExpr,
    pubs: Seq<Seq<char>>,
    p: nat,
    env: Map<Seq<char>, nat>,
    g: (nat, nat, nat, nat, nat, Seq<Seq<char>>),
)
    requires
        2 <= p,
        plonk_faithful(l, r, pubs),
        consume_plonk(l, r, pubs, p) == Some(g),
        eq_holds(l, r, env, p),
    ensures
        gate_eq_holds(g, env, p),
{
    match r {
        SymExpr::Lit(_) => lemma_gate_sound_lit(l, r, pubs, p, env, g),
        SymExpr::Var(_) => lemma_gate_sound_var(l, r, pubs, p, env, g),
        SymExpr::Plus(_, _) => lemma_gate_sound_plus(l, r, pubs, p, env, g),
        SymExpr::Minus(_, _) => lemma_gate_sound_minus(l, r, pubs, p, env, g),
        SymExpr::Times(_, _) => lemma_gate_sound_times(l, r, pubs, p, env, g),
        SymExpr::Ratio(_, _) => {
            assert(false);
        },
        SymExpr::Negate(_) => lemma_gate_sound_negate(l, r, pubs, p, env, g),
    }
}

/// The least power of two that is at least `n`, grown from `m`.
pub open spec fn pow2_at_least(n: nat, m: nat) -> nat
    decreases (if m < n { (n - m) as nat } else { 0nat }),
    when m >= 1
{
    if m >= n {
        m
    } else {
        pow2_at_least(n, 2 * m)
    }
}

/// The wire labels laid out column-major into three equal columns of length
/// `m`, slots beyond the real wires left empty.
pub open spec fn col_major(ws: Seq<Seq<char>>, m: int) -> Seq<Seq<char>> {
    Seq::new(
        (3 * m) as nat,
        |j: int|
            if 3 * (j % m) + j / m < ws.len() {
                ws[3 * (j % m) + j / m]
            } else {
                Seq::<char>::empty()
            },
    )
}

/// The first wire after `s`, before `size`, carrying the same label as wire
/// `i`.
pub open spec fn next_match(labels: Seq<Seq<char>>, i: int, s: int, size: int) -> Option<int>
    decreases size - s,
{
    if s >= size {
        None
    } else if labels[s] == labels[i] {
        Some(s)
    } else {
        next_match(labels, i, s + 1, size)
    }
}

/// A found match is in range and carries the label.
proof fn lemma_next_match_props(labels: Seq<Seq<char>>, i: int, s: int, size: int)
    ensures
        match next_match(labels, i, s, size) {
            Some(j) => s <= j < size && labels[j] == labels[i],
            None => true,
        },
    decreases size - s,
{
    if s >= size {
    } else if labels[s] == labels[i] {
    } else {
        lemma_next_match_props(labels, i, s + 1, size);
    }
}

/// A first hit is what the specification-level search finds.
proof fn lemma_next_match_first(labels: Seq<Seq<char>>, i: int, s: int, j: int, size: int)
    requires
        s <= j < size,
        labels[j] == labels[i],
        forall|t: int| s <= t < j ==> labels[t] != labels[i],
    ensures
        next_match(labels, i, s, size) == Some(j),
    decreases j - s,
{
    if s == j {
    } else {
        lemma_next_match_first(labels, i, s + 1, j, size);
    }
}

/// A search over labels all different from wire `i`'s finds nothing.
proof fn lemma_next_match_none(labels: Seq<Seq<char>>, i: int, s: int, size: int)
    requires
        forall|t: int| s <= t < size ==> labels[t] != labels[i],
    ensures
        next_match(labels, i, s, size) is None,
    decreases size - s,
{
    if s >= size {
    } else {
        lemma_next_match_none(labels, i, s + 1, size);
    }
}

/// The swaps the match search produces, in wire order: for each wire `i`
/// below `size` with a non-empty label and a later matching wire `j`, the
/// pair `(i, j)`.
pub open spec fn swap_pairs(labels: Seq<Seq<char>>, s: int, size: int) -> Seq<(int, int)>
    decreases size - s,
{
    if s >= size {
        Seq::empty()
    } else {
        let rest = swap_pairs(labels, s + 1, size);
        if labels[s] != Seq::<char>::empty() {
            match next_match(labels, s, s + 1, size) {
                Some(j) => seq![(s, j)] + rest,
                None => rest,
            }
        } else {
            rest
        }
    }
}

/// Every produced pair is ordered, within range, and links two wires that
/// share one non-empty label.
proof fn lemma_swap_pairs_props(labels: Seq<Seq<char>>, s: int, size: int)
    requires
        size <= labels.len(),
    ensures
        forall|t: int|
            0 <= t < swap_pairs(labels, s, size).len() ==> {
                let pr = #[trigger] swap_pairs(labels, s, size)[t];
                s <= pr.0 < pr.1 < size && labels[pr.0] == labels[pr.1] && labels[pr.0]
                    != Seq::<char>::empty()
            },
    decreases size - s,
{
    if s >= size {
    } else {
        lemma_swap_pairs_props(labels, s + 1, size);
        let rest = swap_pairs(labels, s + 1, size);
        if labels[s] != Seq::<char>::empty() {
            match next_match(labels, s, s + 1, size) {
                Some(j) => {
                    lemma_next_match_props(labels, s, s + 1, size);
                    assert(forall|t: int|
                        0 <= t < rest.len() ==> (seq![(s, j)] + rest)[t + 1] == rest[t]);
                },
                None => {},
            }
        }
    }
}

/// Applying the swaps, in order, to a permutation array.
pub open spec fn apply_swaps(perm: Seq<usize>, sw: Seq<(int, int)>) -> Seq<usize>
    decreases sw.len(),
{
    if sw.len() == 0 {
        perm
    } else {
        let a = sw[0].0;
        let b = sw[0].1;
        apply_swaps(perm.update(a, perm[b]).update(b, perm[a]), sw.drop_first())
    }
}

/// One wire slot's match, for the parallel search phase.
#[verifier::loop_isolation(false)]
fn match_for(labels: &Vec<String>, i: usize, size: usize) -> (r: Option<(usize, usize)>)
    requires
        i < size,
        size <= labels@.len(),
    ensures
        match r {
            Some(pr) => pr.0 == i && seq_names(labels@)[i as int] != Seq::<char>::empty()
                && next_match(seq_names(labels@), i as int, i as int + 1, size as int) == Some(
                pr.1 as int,
            ),
            None => seq_names(labels@)[i as int] == Seq::<char>::empty() || next_match(
                seq_names(labels@),
                i as int,
                i as int + 1,
                size as int,
            ) is None,
        },
{
    let ghost lv = seq_names(labels@);
    let empty = String::new();
    if labels[i] == empty {
        return None;
    }
    let mut j: usize = i + 1;
    while j < size
        invariant
            i + 1 <= j <= size,
            size <= labels@.len(),
            lv == seq_names(labels@),
            forall|t: int| i + 1 <= t < j ==> lv[t] != lv[i as int],
        decreases size - j,
    {
        if labels[j] == labels[i] {
            proof {
                lemma_next_match_first(lv, i as int, i as int + 1, j as int, size as int);
            }
            return Some((i, j));
        }
        j = j + 1;
    }
    proof {
        lemma_next_match_none(lv, i as int, i as int + 1, size as int);
    }
    None
}

/// Relies on rayon's `into_par_iter().filter_map(..).collect()` over a range:
/// the closure runs once per wire index, the `None` results are dropped, and
/// the remaining pairs are collected in index order.
#[verifier::external_body]
fn par_find_matches(labels: &Vec<String>, size: usize) -> (r: Vec<(usize, usize)>)
    requires
        size <= labels@.len(),
    ensures
        r@.map_values(|pr: (usize, usize)| (pr.0 as int, pr.1 as int)) == swap_pairs(
            seq_names(labels@),
            0,
            size as int,
        ),
{
    (0..size).into_par_iter().filter_map(|i| match_for(labels, i, size)).collect()
}

/// Derive the copy-constraint permutation from the flattened wire labels.
/// Wires are laid out column-major into three columns padded to the next
/// power of two of the row count; every wire is linked to the next later
/// wire carrying the same variable name by swapping their positions in the
/// identity permutation.  The result only links positions that share one
/// non-empty label, and unused or padding positions map to themselves.
#[verifier::loop_isolation(false)]
pub fn copy_constraint(num_constraint: usize, witness: &Vec<String>) -> (r: Vec<usize>)
    requires
        witness@.len() == 3 * num_constraint,
        num_constraint <= usize::MAX / 6,
    ensures
        ({
            let m = pow2_at_least(num_constraint as nat, 1);
            let labels = col_major(seq_names(witness@), m as int);
            let padded = 3 * m;
            &&& r@.len() == padded
            &&& r@ == apply_swaps(
                Seq::new(padded, |k: int| k as usize),
                swap_pairs(labels, 0, witness@.len() as int),
            )
            &&& forall|k: int| 0 <= k < padded ==> (#[trigger] r@[k]) < padded
            &&& forall|k1: int, k2: int| 0 <= k1 < k2 < padded ==> r@[k1] != r@[k2]
            &&& forall|k: int| 0 <= k < padded ==> labels[(#[trigger] r@[k]) as int] == labels[k]
            &&& forall|k: int|
                0 <= k < padded && labels[k] == Seq::<char>::empty() ==> (#[trigger] r@[k]) as int
                    == k
        }),
{
    let ghost nc = num_constraint as nat;
    let size = witness.len();
    let mut m: usize = 1;
    while m < num_constraint
        invariant
            1 <= m,
            m == 1 || m <= 2 * num_constraint,
            pow2_at_least(nc, m as nat) == pow2_at_least(nc, 1),
        decreases 2 * num_constraint - m,
    {
        m = m * 2;
    }
    assert(m as nat == pow2_at_least(nc, 1));
    let padded_size = 3 * m;
    let ghost lv = col_major(seq_names(witness@), m as int);

    // lay the wires out column-major, padding with empty labels
    let mut cm: Vec<String> = Vec::new();
    let mut j: usize = 0;
    while j < padded_size
        invariant
            0 <= j <= padded_size,
            cm@.len() == j,
            forall|t: int| 0 <= t < j ==> seq_names(cm@)[t] == lv[t],
        decreases padded_size - j,
    {
        proof {
            vstd::arithmetic::div_mod::lemma_mod_division_less_than_divisor(j as int, m as int);
            assert(j / m <= 2) by {
                vstd::arithmetic::div_mod::lemma_multiply_divide_lt(j as int, m as int, 3int);
            }
        }
        let idx = 3 * (j % m) + j / m;
        if idx < size {
            cm.push(witness[idx].clone());
        } else {
            cm.push(String::new());
        }
        j = j + 1;
    }
    proof {
        assert(seq_names(cm@) =~= lv);
    }

    // the independent match search, in parallel
    let swaps = par_find_matches(&cm, size);
    let ghost sw = swaps@.map_values(|pr: (usize, usize)| (pr.0 as int, pr.1 as int));
    proof {
        lemma_swap_pairs_props(lv, 0, size as int);
        assert(sw == swap_pairs(lv, 0, size as int));
    }

    // the identity permutation
    let mut perm: Vec<usize> = Vec::new();
    let mut k: usize = 0;
    while k < padded_size
        invariant
            0 <= k <= padded_size,
            perm@.len() == k,
            forall|t: int| 0 <= t < k ==> perm@[t] == t as usize,
        decreases padded_size - k,
    {
        perm.push(k);
        k = k + 1;
    }
    let ghost ident = Seq::new((padded_size) as nat, |t: int| t as usize);
    proof {
        assert(perm@ =~= ident);
        assert(sw.skip(0) =~= sw);
    }

    // apply the swaps sequentially onto the one shared array
    let n_swaps = swaps.len();
    let mut t: usize = 0;
    while t < n_swaps
        invariant
            0 <= t <= n_swaps,
            n_swaps == swaps@.len(),
            perm@.len() == padded_size,
            apply_swaps(ident, sw) == apply_swaps(perm@, sw.skip(t as int)),
            forall|k2: int| 0 <= k2 < padded_size ==> (#[trigger] perm@[k2]) < padded_size,
            forall|k1: int, k2: int|
                0 <= k1 < k2 < padded_size ==> perm@[k1] != perm@[k2],
            forall|k2: int|
                0 <= k2 < padded_size ==> lv[(#[trigger] perm@[k2]) as int] == lv[k2],
            forall|k2: int|
                0 <= k2 < padded_size && lv[k2] == Seq::<char>::empty() ==> (#[trigger] perm@[k2]) as int == k2,
        decreases n_swaps - t,
    {
        proof {
            assert(sw[t as int] == (swaps@[t as int].0 as int, swaps@[t as int].1 as int));
            assert(sw.skip(t as int)[0] == sw[t as int]);
            assert(sw.skip(t as int).drop_first() =~= sw.skip(t as int + 1));
        }
        let (a, b) = swaps[t];
        proof {
            assert(0 <= a < b < size);
            assert(lv[a as int] == lv[b as int]);
            assert(lv[a as int] != Seq::<char>::empty());
        }
        let ghost pre = perm@;
        let pa = perm[a];
        let pb = perm[b];
        perm.set(a, pb);
        perm.set(b, pa);
        proof {
            assert(perm@ =~= pre.update(a as int, pre[b as int]).update(b as int, pre[a as int]));
            assert forall|k1: int, k2: int|
                0 <= k1 < k2 < padded_size implies perm@[k1] != perm@[k2] by {
                if k1 != a as int && k1 != b as int && k2 != a as int && k2 != b as int {
                } else {
                }
            }
        }
        t = t + 1;
    }
    proof {
        assert(sw.skip(n_swaps as int) =~= Seq::<(int, int)>::empty());
    }
    perm
}

/// Relies on rayon's `par_iter().map(..).collect()`: the closure runs once
/// per constraint and the results are collected in row order.
#[verifier::external_body]
fn par_consume_gates(
    constraints: &Vec<Equation>,
    public_vars: &Vec<String>,
    modulus: &BigUint,
) -> (r: Vec<Result<PlonkGate, CircuitError>>)
    requires
        big(*modulus) > 0,
        forall|i: int|
            0 <= i < constraints@.len() ==> consts_reduced(
                (#[trigger] constraints@[i]).lhs@,
                big(*modulus),
            ),
    ensures
        r@.len() == constraints@.len(),
        forall|i: int|
            0 <= i < r@.len() ==> match #[trigger] r@[i] {
                Ok(g) => consume_plonk(
                    constraints@[i].lhs@,
                    constraints@[i].rhs@,
                    seq_names(public_vars@),
                    big(*modulus),
                ) == Some((big(g.0), big(g.1), big(g.2), big(g.3), big(g.4), wires_view(g.5))),
                Err(e) => e == CircuitError::UnsupportedGateShape && consume_plonk(
                    constraints@[i].lhs@,
                    constraints@[i].rhs@,
                    seq_names(public_vars@),
                    big(*modulus),
                ) is None,
            },
{
    constraints.par_iter().map(|eq| consume_gate(eq, public_vars, modulus)).collect()
}

/// The flattened wire labels of a gate list, three per gate.
pub open spec fn flat_wires(gates: Seq<PlonkGate>) -> Seq<Seq<char>> {
    Seq::new(3 * gates.len(), |j: int| wires_view(gates[j / 3].5)[j % 3])
}

/// Lower every recorded constraint into one gate and derive the wire-equality
/// permutation.  Gates are independent and compiled in parallel, in row
/// order; the permutation's swaps are searched in parallel and applied
/// sequentially.
#[verifier::loop_isolation(false)]
pub fn compile(constraints: &Vec<Equation>, public_vars: &Vec<String>, modulus: &BigUint) -> (r:
    Result<(Vec<PlonkGate>, Vec<usize>), CircuitError>)
    requires
        big(*modulus) > 0,
        constraints@.len() <= usize::MAX / 6,
        forall|i: int|
            0 <= i < constraints@.len() ==> consts_reduced(
                (#[trigger] constraints@[i]).lhs@,
                big(*modulus),
            ),
    ensures
        match r {
            Ok(pair) => {
                let labels = col_major(
                    flat_wires(pair.0@),
                    pow2_at_least(constraints@.len(), 1) as int,
                );
                let padded = 3 * pow2_at_least(constraints@.len(), 1);
                &&& pair.0@.len() == constraints@.len()
                &&& forall|i: int|
                    0 <= i < pair.0@.len() ==> consume_plonk(
                        constraints@[i].lhs@,
                        constraints@[i].rhs@,
                        seq_names(public_vars@),
                        big(*modulus),
                    ) == Some(
                        (
                            big((#[trigger] pair.0@[i]).0),
                            big(pair.0@[i].1),
                            big(pair.0@[i].2),
                            big(pair.0@[i].3),
                            big(pair.0@[i].4),
                            wires_view(pair.0@[i].5),
                        ),
                    )
                &&& pair.1@.len() == padded
                &&& pair.1@ == apply_swaps(
                    Seq::new(padded, |k: int| k as usize),
                    swap_pairs(labels, 0, 3 * pair.0@.len() as int),
                )
                &&& forall|k: int| 0 <= k < padded ==> (#[trigger] pair.1@[k]) < padded
                &&& forall|k1: int, k2: int|
                    0 <= k1 < k2 < padded ==> pair.1@[k1] != pair.1@[k2]
                &&& forall|k: int|
                    0 <= k < padded ==> labels[(#[trigger] pair.1@[k]) as int] == labels[k]
                &&& forall|k: int|
                    0 <= k < padded && labels[k] == Seq::<char>::empty() ==> (
                    #[trigger] pair.1@[k]) as int == k
            },
            Err(e) => e == CircuitError::UnsupportedGateShape && exists|i: int|
                0 <= i < constraints@.len() && consume_plonk(
                    (#[trigger] constraints@[i]).lhs@,
                    constraints@[i].rhs@,
                    seq_names(public_vars@),
                    big(*modulus),
                ) is None,
        },
{
    let mut results = par_consume_gates(constraints, public_vars, modulus);
    let ghost all = results@;
    let mut gates: Vec<PlonkGate> = Vec::new();
    let n = constraints.len();
    let mut i: usize = 0;
    while i < n
        invariant
            0 <= i <= n,
            all.len() == n,
            results@ =~= all.skip(i as int),
            gates@.len() == i,
            forall|j: int|
                0 <= j < i ==> consume_plonk(
                    constraints@[j].lhs@,
                    constraints@[j].rhs@,
                    seq_names(public_vars@),
                    big(*modulus),
                ) == Some(
                    (
                        big((#[trigger] gates@[j]).0),
                        big(gates@[j].1),
                        big(gates@[j].2),
                        big(gates@[j].3),
                        big(gates@[j].4),
                        wires_view(gates@[j].5),
                    ),
                ),
        decreases n - i,
    {
        proof {
            assert(results@[0] == all[i as int]);
        }
        let ghost res_pre = results@;
        let item = results.remove(0);
        proof {
            assert(results@ =~= res_pre.drop_first());
            assert(results@ =~= all.skip(i as int + 1));
        }
        match item {
            Err(e) => {
                return Err(e);
            },
            Ok(g) => {
                gates.push(g);
            },
        }
        i = i + 1;
    }

    // collect the wires of every gate, in row order
    let mut witness: Vec<String> = Vec::new();
    let mut t: usize = 0;
    while t < n
        invariant
            0 <= t <= n,
            gates@.len() == n,
            witness@.len() == 3 * t,
            forall|j: int|
                0 <= j < 3 * t ==> seq_names(witness@)[j] == flat_wires(gates@)[j],
        decreases n - t,
    {
        witness.push(gates[t].5[0].clone());
        witness.push(gates[t].5[1].clone());
        witness.push(gates[t].5[2].clone());
        t = t + 1;
    }
    let permutation = copy_constraint(n, &witness);
    proof {
        assert(seq_names(witness@) =~= flat_wires(gates@));
    }
    Ok((gates, permutation))
}

} // verus!
