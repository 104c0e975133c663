//! The R1CS compiler: each recorded constraint becomes one row of three
//! sparse coefficient lists `(A, B, C)` such that a satisfying witness `w`
//! obeys `(A·w) ∘ (B·w) = C·w` modulo the system's prime.
use vstd::prelude::*;
use num_bigint::BigUint;
use rayon::iter::{IndexedParallelIterator, IntoParallelRefIterator, ParallelIterator};

use crate::bigint::{big, big_clone, big_from_u64, big_lt, big_sub};
use crate::expr::{
    eq_holds, eval_in, expr_vars, lemma_eval_reduced, mentions, mulm, negm, Equation, ExprVal,
    Gate, Node, SymExpr,
};
use crate::varmap::{names_contain, seq_names};
use crate::CircuitError;

verus! {

/// One sparse entry: row, column, coefficient.
pub type Triplet = (usize, usize, BigUint);

/// The mathematical reading of a sparse coefficient list.
pub open spec fn trips_view(v: Seq<Triplet>) -> Seq<(int, int, nat)> {
    v.map_values(|t: Triplet| (t.0 as int, t.1 as int, big(t.2)))
}

/// The column of the first occurrence of a name in the witness ordering.
pub open spec fn name_index(wmap: Seq<Seq<char>>, x: Seq<char>) -> Option<int>
    decreases wmap.len(),
{
    if wmap.len() == 0 {
        None
    } else if wmap[0] == x {
        Some(0int)
    } else {
        match name_index(wmap.drop_first(), x) {
            Some(i) => Some(i + 1),
            None => None,
        }
    }
}

/// A found index is in range and holds the name.
pub proof fn lemma_name_index(wmap: Seq<Seq<char>>, x: Seq<char>)
    ensures
        match name_index(wmap, x) {
            Some(i) => 0 <= i < wmap.len() && wmap[i] == x,
            None => !wmap.contains(x),
        },
    decreases wmap.len(),
{
    if wmap.len() == 0 {
    } else if wmap[0] == x {
    } else {
        lemma_name_index(wmap.drop_first(), x);
        if name_index(wmap.drop_first(), x) is None {
            if wmap.contains(x) {
                let i = choose|i: int| 0 <= i < wmap.len() && wmap[i] == x;
                assert(wmap.drop_first()[i - 1] == x);
            }
        }
    }
}

/// Every literal of the expression is reduced below `p`.
pub open spec fn consts_reduced(e: SymExpr, p: nat) -> bool
    decreases e,
{
    match e {
        SymExpr::Var(_) => true,
        SymExpr::Lit(c) => c < p,
        SymExpr::Plus(l, r) => consts_reduced(*l, p) && consts_reduced(*r, p),
        SymExpr::Minus(l, r) => consts_reduced(*l, p) && consts_reduced(*r, p),
        SymExpr::Times(l, r) => consts_reduced(*l, p) && consts_reduced(*r, p),
        SymExpr::Ratio(l, r) => consts_reduced(*l, p) && consts_reduced(*r, p),
        SymExpr::Negate(x) => consts_reduced(*x, p),
    }
}

/// The sparse entries that encode a linear expression, signs applied modulo
/// `p`: a constant lands in the constant-one column, a variable in its own
/// column, a sum concatenates its parts, subtraction and negation flip the
/// sign of what they apply to, and a product is legal only between a variable
/// and a constant.  Any other shape has no linear encoding.
pub open spec fn lin_terms(
    e: SymExpr,
    row: int,
    wmap: Seq<Seq<char>>,
    p: nat,
    neg: bool,
) -> Option<Seq<(int, int, nat)>>
    decreases e,
{
    match e {
        SymExpr::Lit(c) => Some(
            seq![
                (
                    row,
                    0int,
                    if neg {
                        (p - c) as nat
                    } else {
                        c
                    },
                ),
            ],
        ),
        SymExpr::Var(n) => match name_index(wmap, n) {
            Some(i) => Some(
                seq![
                    (
                        row,
                        i,
                        if neg {
                            (p - 1) as nat
                        } else {
                            1nat
                        },
                    ),
                ],
            ),
            None => None,
        },
        SymExpr::Plus(l, r) => match (lin_terms(*l, row, wmap, p, neg), lin_terms(
            *r,
            row,
            wmap,
            p,
            neg,
        )) {
            (Some(a), Some(b)) => Some(a + b),
            _ => None,
        },
        SymExpr::Minus(l, r) => match (lin_terms(*l, row, wmap, p, neg), lin_terms(
            *r,
            row,
            wmap,
            p,
            !neg,
        )) {
            (Some(a), Some(b)) => Some(a + b),
            _ => None,
        },
        SymExpr::Times(l, r) => match (*l, *r) {
            (SymExpr::Var(n), SymExpr::Lit(c)) => match name_index(wmap, n) {
                Some(i) => Some(
                    seq![
                        (
                            row,
                            i,
                            if neg {
                                (p - c) as nat
                            } else {
                                c
                            },
                        ),
                    ],
                ),
                None => None,
            },
            (SymExpr::Lit(c), SymExpr::Var(n)) => match name_index(wmap, n) {
                Some(i) => Some(
                    seq![
                        (
                            row,
                            i,
                            if neg {
                                (p - c) as nat
                            } else {
                                c
                            },
                        ),
                    ],
                ),
                None => None,
            },
            _ => None,
        },
        SymExpr::Ratio(_, _) => None,
        SymExpr::Negate(x) => lin_terms(*x, row, wmap, p, !neg),
    }
}

/// The `(A, B, C)` encoding of the oriented constraint `l = r`, dispatched on
/// the shape of the right side.  A product becomes the one true rank-1 row; a
/// quotient `l = a / b` is rearranged to `l·b = a`; every other legal shape
/// puts the right side in `A` against the constant row `B = [1]`.
pub open spec fn consume_r1cs(
    l: SymExpr,
    r: SymExpr,
    row: int,
    wmap: Seq<Seq<char>>,
    p: nat,
) -> Option<(Seq<(int, int, nat)>, Seq<(int, int, nat)>, Seq<(int, int, nat)>)> {
    match r {
        SymExpr::Times(rl, rr) => match (lin_terms(*rl, row, wmap, p, false), lin_terms(
            *rr,
            row,
            wmap,
            p,
            false,
        ), lin_terms(l, row, wmap, p, false)) {
            (Some(a), Some(b), Some(c)) => Some((a, b, c)),
            _ => None,
        },
        SymExpr::Ratio(rl, rr) => match (lin_terms(l, row, wmap, p, false), lin_terms(
            *rr,
            row,
            wmap,
            p,
            false,
        ), lin_terms(*rl, row, wmap, p, false)) {
            (Some(a), Some(b), Some(c)) => Some((a, b, c)),
            _ => None,
        },
        _ => match (lin_terms(r, row, wmap, p, false), lin_terms(l, row, wmap, p, false)) {
            (Some(a), Some(c)) => Some((a, seq![(row, 0int, 1nat)], c)),
            _ => None,
        },
    }
}

/// Whether a registered variable is a public input.
pub open spec fn is_public_input(v: Seq<char>, ins: Seq<Seq<char>>, pubs: Seq<Seq<char>>) -> bool {
    pubs.contains(v) && ins.contains(v)
}

/// Whether a registered variable is a private input.
pub open spec fn is_private_input(v: Seq<char>, ins: Seq<Seq<char>>, pubs: Seq<Seq<char>>) -> bool {
    ins.contains(v) && !pubs.contains(v)
}

/// Whether a registered variable is an intermediate: neither an input nor an
/// output.
pub open spec fn is_intermediate(
    v: Seq<char>,
    ins: Seq<Seq<char>>,
    outs: Seq<Seq<char>>,
    pubs: Seq<Seq<char>>,
) -> bool {
    !is_public_input(v, ins, pubs) && !is_private_input(v, ins, pubs) && !outs.contains(v)
}

/// The fixed column ordering both compilers consume: the constant-one slot,
/// then the outputs, the public inputs, the private inputs, and the remaining
/// intermediate variables, each class in registration order.
pub open spec fn witness_order(
    vars: Seq<Seq<char>>,
    ins: Seq<Seq<char>>,
    outs: Seq<Seq<char>>,
    pubs: Seq<Seq<char>>,
) -> Seq<Seq<char>> {
    seq!["0"@] + outs + vars.filter(|v: Seq<char>| is_public_input(v, ins, pubs)) + vars.filter(
        |v: Seq<char>| is_private_input(v, ins, pubs),
    ) + vars.filter(|v: Seq<char>| is_intermediate(v, ins, outs, pubs))
}

/// Arrange the registered variable names into the fixed column ordering.
#[verifier::loop_isolation(false)]
pub fn get_witness_vector(
    vars: &Vec<String>,
    inputs: &Vec<String>,
    outputs: &Vec<String>,
    public_vars: &Vec<String>,
) -> (r: Vec<String>)
    ensures
        seq_names(r@) == witness_order(
            seq_names(vars@),
            seq_names(inputs@),
            seq_names(outputs@),
            seq_names(public_vars@),
        ),
{
    let ghost vs = seq_names(vars@);
    let ghost ins = seq_names(inputs@);
    let ghost outs = seq_names(outputs@);
    let ghost pubs = seq_names(public_vars@);
    let mut public_input: Vec<String> = Vec::new();
    let mut private_input: Vec<String> = Vec::new();
    let mut intermediate: Vec<String> = Vec::new();
    proof {
        assert(vs.take(0) =~= Seq::<Seq<char>>::empty());
        assert(seq_names(public_input@) =~= Seq::<Seq<char>>::empty());
        assert(vs.take(0).filter(|v: Seq<char>| is_public_input(v, ins, pubs)) =~= Seq::<
            Seq<char>,
        >::empty());
        assert(vs.take(0).filter(|v: Seq<char>| is_private_input(v, ins, pubs)) =~= Seq::<
            Seq<char>,
        >::empty());
        assert(vs.take(0).filter(|v: Seq<char>| is_intermediate(v, ins, outs, pubs)) =~= Seq::<
            Seq<char>,
        >::empty());
    }
    let n = vars.len();
    let mut i: usize = 0;
    while i < n
        invariant
            0 <= i <= n,
            seq_names(public_input@) == vs.take(i as int).filter(
                |v: Seq<char>| is_public_input(v, ins, pubs),
            ),
            seq_names(private_input@) == vs.take(i as int).filter(
                |v: Seq<char>| is_private_input(v, ins, pubs),
            ),
            seq_names(intermediate@) == vs.take(i as int).filter(
                |v: Seq<char>| is_intermediate(v, ins, outs, pubs),
            ),
        decreases n - i,
    {
        proof {
            reveal_with_fuel(Seq::filter, 2);
            assert(vs.take(i + 1).drop_last() =~= vs.take(i as int));
            assert(vs.take(i + 1).last() == vs[i as int]);
        }
        let is_pub = names_contain(public_vars, &vars[i]);
        let is_in = names_contain(inputs, &vars[i]);
        let is_out = names_contain(outputs, &vars[i]);
        let ghost pre_pub = seq_names(public_input@);
        let ghost pre_priv = seq_names(private_input@);
        let ghost pre_int = seq_names(intermediate@);
        if is_pub && is_in {
            public_input.push(vars[i].clone());
            proof {
                assert(seq_names(public_input@) =~= pre_pub.push(vs[i as int]));
            }
        } else if is_in && !is_pub {
            private_input.push(vars[i].clone());
            proof {
                assert(seq_names(private_input@) =~= pre_priv.push(vs[i as int]));
            }
        } else if !is_out {
            intermediate.push(vars[i].clone());
            proof {
                assert(seq_names(intermediate@) =~= pre_int.push(vs[i as int]));
            }
        }
        i = i + 1;
    }
    proof {
        assert(vs.take(n as int) =~= vs);
    }
    let mut witness: Vec<String> = Vec::new();
    witness.push(String::from_str("0"));
    proof {
        assert(seq_names(witness@) =~= seq!["0"@]);
    }
    crate::varmap::extend_names(&mut witness, outputs);
    crate::varmap::extend_names(&mut witness, &public_input);
    crate::varmap::extend_names(&mut witness, &private_input);
    crate::varmap::extend_names(&mut witness, &intermediate);
    proof {
        assert(seq_names(witness@) =~= witness_order(vs, ins, outs, pubs));
    }
    witness
}

/// The dot product of a sparse coefficient list with a witness vector: the
/// sum of each coefficient times the witness entry in its column.
pub open spec fn dotsum(ts: Seq<(int, int, nat)>, w: Seq<nat>) -> int
    decreases ts.len(),
{
    if ts.len() == 0 {
        0
    } else {
        dotsum(ts.drop_last(), w) + ts.last().2 * w[ts.last().1]
    }
}

/// The dot product distributes over concatenation.
pub proof fn lemma_dotsum_concat(a: Seq<(int, int, nat)>, b: Seq<(int, int, nat)>, w: Seq<nat>)
    ensures
        dotsum(a + b, w) == dotsum(a, w) + dotsum(b, w),
    decreases b.len(),
{
    if b.len() == 0 {
        assert(a + b =~= a);
    } else {
        assert((a + b).drop_last() =~= a + b.drop_last());
        assert((a + b).last() == b.last());
        lemma_dotsum_concat(a, b.drop_last(), w);
    }
}

/// The witness agrees with the environment: every name of the ordering is
/// bound, to the value in its column.
pub open spec fn witness_matches(
    wmap: Seq<Seq<char>>,
    w: Seq<nat>,
    env: Map<Seq<char>, nat>,
) -> bool {
    w.len() == wmap.len() && forall|j: int|
        0 <= j < wmap.len() ==> env.dom().contains(#[trigger] wmap[j]) && env[wmap[j]] == w[j]
}

/// A negated coefficient scales a column to the negated product, modulo `p`.
pub proof fn lemma_neg_coeff(c: nat, x: nat, p: nat)
    requires
        0 < p,
        c <= p,
    ensures
        (((p - c) as nat * x) as int % p as int) as nat == negm(((c * x) % p as nat), p),
{
    let ip = p as int;
    let ic = c as int;
    let ix = x as int;
    assert(((p - c) as nat * x) == (ip - ic) * ix) by {
        vstd::arithmetic::mul::lemma_mul_is_distributive_sub_other_way(ix, ip, ic);
    }
    // (p - c)·x = p·x - c·x ≡ -(c·x)  (mod p)
    assert(((ip - ic) * ix) % ip == (-(ic * ix)) % ip) by {
        assert((ip - ic) * ix == ip * ix + (-(ic * ix))) by {
            vstd::arithmetic::mul::lemma_mul_is_distributive_sub_other_way(ix, ip, ic);
        }
        vstd::arithmetic::div_mod::lemma_mod_multiples_vanish(ix, -(ic * ix), ip);
    }
    // negm(m, p) = (p - m) % p ≡ -m  (mod p), for m = (c·x) % p
    let m = (c * x) % p;
    assert(m < p) by {
        vstd::arithmetic::div_mod::lemma_mod_division_less_than_divisor((ic * ix), ip);
    }
    assert(((p - m) as nat) % p == ((ip - m) % ip) as nat);
    assert((ip - m) % ip == (-(m as int)) % ip) by {
        vstd::arithmetic::div_mod::lemma_mod_multiples_vanish(1, -(m as int), ip);
    }
    assert((-(m as int)) % ip == (-(ic * ix)) % ip) by {
        assert(m as int % ip == (ic * ix) % ip) by {
            vstd::arithmetic::div_mod::lemma_mod_twice(ic * ix, ip);
        }
        vstd::arithmetic::div_mod::lemma_sub_mod_noop(0, m as int, ip);
        vstd::arithmetic::div_mod::lemma_sub_mod_noop(0, ic * ix, ip);
        assert((0int - m as int) % ip == (0int % ip - m as int % ip) % ip);
        assert((0int - ic * ix) % ip == (0int % ip - (ic * ix) % ip) % ip);
    }
}

/// Negation in the field is an involution on reduced values.
proof fn lemma_negm_involutive(v: nat, p: nat)
    requires
        0 < p,
        v < p,
    ensures
        negm(negm(v, p), p) == v,
{
    if v == 0 {
        assert(negm(0, p) == (p - 0) as nat % p);
        vstd::arithmetic::div_mod::lemma_mod_self_0(p as int);
        assert(negm(0, p) == 0);
    } else {
        assert(((p - v) as nat) < p);
        vstd::arithmetic::div_mod::lemma_small_mod((p - v) as nat, p);
        assert(negm(v, p) == (p - v) as nat);
        vstd::arithmetic::div_mod::lemma_small_mod(v, p);
        assert(negm((p - v) as nat, p) == ((p - (p - v)) as nat) % p);
    }
}

/// Soundness of the linear encoding: for any witness that matches the
/// environment, the dot product of the emitted entries equals the value of
/// the expression, with the sign applied, modulo `p`.
proof fn lemma_lin_terms_sound(
    e: SymExpr,
    row: int,
    wmap: Seq<Seq<char>>,
    p: nat,
    neg: bool,
    env: Map<Seq<char>, nat>,
    w: Seq<nat>,
)
    requires
        0 < p,
        consts_reduced(e, p),
        witness_matches(wmap, w, env),
        w.len() > 0,
        w[0] == 1,
        lin_terms(e, row, wmap, p, neg) is Some,
    ensures
        eval_in(e, env, p) is Known,
        ({
            let v = eval_in(e, env, p)->Known_0;
            dotsum(lin_terms(e, row, wmap, p, neg)->Some_0, w) % p as int == (if neg {
                negm(v, p)
            } else {
                v
            }) as int
        }),
    decreases e,
{
    let ip = p as int;
    lemma_eval_reduced(e, env, p);
    match e {
        SymExpr::Lit(c) => {
            let ts = lin_terms(e, row, wmap, p, neg)->Some_0;
            assert(ts.drop_last() =~= Seq::<(int, int, nat)>::empty());
            assert(dotsum(ts, w) == dotsum(ts.drop_last(), w) + ts.last().2 * w[0]);
            assert(ts.last().2 * w[0] == ts.last().2) by {
                vstd::arithmetic::mul::lemma_mul_basics(ts.last().2 as int);
            }
            vstd::arithmetic::div_mod::lemma_small_mod(c, p);
            if neg {
                assert(dotsum(ts, w) == (p - c) as nat);
            } else {
                assert(dotsum(ts, w) == c);
            }
        },
        SymExpr::Var(n) => {
            lemma_name_index(wmap, n);
            let i = name_index(wmap, n)->Some_0;
            let ts = lin_terms(e, row, wmap, p, neg)->Some_0;
            assert(ts.drop_last() =~= Seq::<(int, int, nat)>::empty());
            assert(env.dom().contains(n) && env[n] == w[i]);
            assert(dotsum(ts, w) == dotsum(ts.drop_last(), w) + ts.last().2 * w[i]);
            assert(1nat * w[i] == w[i]) by {
                vstd::arithmetic::mul::lemma_mul_basics(w[i] as int);
            }
            if neg {
                assert(dotsum(ts, w) == (p - 1) as nat * w[i]);
                lemma_neg_coeff(1, w[i], p);
                assert(mulm(1, w[i], p) == w[i] % p);
            } else {
                assert(dotsum(ts, w) == w[i]);
            }
        },
        SymExpr::Plus(l, r) => {
            lemma_lin_terms_sound(*l, row, wmap, p, neg, env, w);
            lemma_lin_terms_sound(*r, row, wmap, p, neg, env, w);
            let ta = lin_terms(*l, row, wmap, p, neg)->Some_0;
            let tb = lin_terms(*r, row, wmap, p, neg)->Some_0;
            lemma_dotsum_concat(ta, tb, w);
            let va = eval_in(*l, env, p)->Known_0;
            let vb = eval_in(*r, env, p)->Known_0;
            lemma_eval_reduced(*l, env, p);
            lemma_eval_reduced(*r, env, p);
            vstd::arithmetic::div_mod::lemma_add_mod_noop(dotsum(ta, w), dotsum(tb, w), ip);
            if neg {
                lemma_negm_add(va, vb, p);
                vstd::arithmetic::div_mod::lemma_small_mod(negm(va, p), p);
                vstd::arithmetic::div_mod::lemma_small_mod(negm(vb, p), p);
            } else {
                vstd::arithmetic::div_mod::lemma_small_mod(va, p);
                vstd::arithmetic::div_mod::lemma_small_mod(vb, p);
                vstd::arithmetic::div_mod::lemma_small_mod((va + vb) as nat % p, p);
                vstd::arithmetic::div_mod::lemma_mod_twice((va + vb) as int, ip);
            }
        },
        SymExpr::Minus(l, r) => {
            lemma_lin_terms_sound(*l, row, wmap, p, neg, env, w);
            lemma_lin_terms_sound(*r, row, wmap, p, !neg, env, w);
            let ta = lin_terms(*l, row, wmap, p, neg)->Some_0;
            let tb = lin_terms(*r, row, wmap, p, !neg)->Some_0;
            lemma_dotsum_concat(ta, tb, w);
            let va = eval_in(*l, env, p)->Known_0;
            let vb = eval_in(*r, env, p)->Known_0;
            lemma_eval_reduced(*l, env, p);
            lemma_eval_reduced(*r, env, p);
            vstd::arithmetic::div_mod::lemma_add_mod_noop(dotsum(ta, w), dotsum(tb, w), ip);
            lemma_subm_is_add_neg(va, vb, p);
            if neg {
                lemma_negm_add(va, negm(vb, p), p);
                lemma_negm_involutive(vb, p);
                lemma_negm_add_flip(va, vb, p);
                vstd::arithmetic::div_mod::lemma_small_mod(negm(va, p), p);
                vstd::arithmetic::div_mod::lemma_small_mod(vb, p);
            } else {
                vstd::arithmetic::div_mod::lemma_small_mod(va, p);
                vstd::arithmetic::div_mod::lemma_small_mod(negm(vb, p), p);
            }
        },
        SymExpr::Times(l, r) => {
            match (*l, *r) {
                (SymExpr::Var(n), SymExpr::Lit(c)) => {
                    lemma_name_index(wmap, n);
                    let i = name_index(wmap, n)->Some_0;
                    let ts = lin_terms(e, row, wmap, p, neg)->Some_0;
                    assert(ts.drop_last() =~= Seq::<(int, int, nat)>::empty());
                    assert(dotsum(ts, w) == dotsum(ts.drop_last(), w) + ts.last().2 * w[i]);
                    assert(env[n] == w[i]);
                    assert(*r == SymExpr::Lit(c));
                    assert(consts_reduced(*r, p));
                    assert(c < p);
                    let vn = env[n] % p;
                    vstd::arithmetic::div_mod::lemma_small_mod(c, p);
                    assert(*l == SymExpr::Var(n));
                    assert(eval_in(*l, env, p) == ExprVal::Known(vn));
                    assert(eval_in(*r, env, p) == ExprVal::Known(c));
                    assert(eval_in(e, env, p) == ExprVal::Known(mulm(vn, c, p)));
                    lemma_times_coeff(c, w[i], p, neg);
                },
                (SymExpr::Lit(c), SymExpr::Var(n)) => {
                    lemma_name_index(wmap, n);
                    let i = name_index(wmap, n)->Some_0;
                    let ts = lin_terms(e, row, wmap, p, neg)->Some_0;
                    assert(ts.drop_last() =~= Seq::<(int, int, nat)>::empty());
                    assert(dotsum(ts, w) == dotsum(ts.drop_last(), w) + ts.last().2 * w[i]);
                    assert(env[n] == w[i]);
                    assert(*l == SymExpr::Lit(c));
                    assert(consts_reduced(*l, p));
                    assert(c < p);
                    let vn = env[n] % p;
                    vstd::arithmetic::div_mod::lemma_small_mod(c, p);
                    assert(*r == SymExpr::Var(n));
                    assert(eval_in(*r, env, p) == ExprVal::Known(vn));
                    assert(eval_in(*l, env, p) == ExprVal::Known(c));
                    assert(eval_in(e, env, p) == ExprVal::Known(mulm(c, vn, p)));
                    lemma_times_coeff(c, w[i], p, neg);
                    assert(mulm(c, vn, p) == mulm(vn, c, p)) by {
                        vstd::arithmetic::mul::lemma_mul_is_commutative(c as int, vn as int);
                    }
                },
                _ => {
                    assert(false);
                },
            }
        },
        SymExpr::Ratio(_, _) => {
            assert(false);
        },
        SymExpr::Negate(x) => {
            lemma_lin_terms_sound(*x, row, wmap, p, !neg, env, w);
            let vx = eval_in(*x, env, p)->Known_0;
            lemma_eval_reduced(*x, env, p);
            if neg {
                lemma_negm_involutive(vx, p);
            }
        },
    }
}

/// Soundness of one compiled row: for every witness that matches the
/// environment and satisfies the constraint `l = r`, the three emitted
/// coefficient lists obey the rank-1 equation `(A·w)·(B·w) ≡ C·w (mod p)`.
pub proof fn lemma_r1cs_row_sound(
    l: SymExpr,
    r: SymExpr,
    row: int,
    wmap: Seq<Seq<char>>,
    p: nat,
    env: Map<Seq<char>, nat>,
    w: Seq<nat>,
    a: Seq<(int, int, nat)>,
    b: Seq<(int, int, nat)>,
    c: Seq<(int, int, nat)>,
)
    requires
        0 < p,
        consts_reduced(l, p),
        consts_reduced(r, p),
        witness_matches(wmap, w, env),
        w.len() > 0,
        w[0] == 1,
        consume_r1cs(l, r, row, wmap, p) == Some((a, b, c)),
        eq_holds(l, r, env, p),
    ensures
        (dotsum(a, w) * dotsum(b, w)) % (p as int) == dotsum(c, w) % (p as int),
{
    let ip = p as int;
    if p == 1 {
        vstd::arithmetic::div_mod::lemma_mod_division_less_than_divisor(
            dotsum(a, w) * dotsum(b, w),
            1,
        );
        vstd::arithmetic::div_mod::lemma_mod_division_less_than_divisor(dotsum(c, w), 1);
    } else {
        match r {
            SymExpr::Times(rl, rr) => {
                lemma_lin_terms_sound(*rl, row, wmap, p, false, env, w);
                lemma_lin_terms_sound(*rr, row, wmap, p, false, env, w);
                lemma_lin_terms_sound(l, row, wmap, p, false, env, w);
                let va = eval_in(*rl, env, p)->Known_0;
                let vb = eval_in(*rr, env, p)->Known_0;
                let vc = eval_in(l, env, p)->Known_0;
                assert(eval_in(r, env, p) == ExprVal::Known(mulm(va, vb, p)));
                assert(vc == mulm(va, vb, p));
                vstd::arithmetic::div_mod::lemma_mul_mod_noop_general(
                    dotsum(a, w),
                    dotsum(b, w),
                    ip,
                );
                lemma_eval_reduced(l, env, p);
                vstd::arithmetic::div_mod::lemma_small_mod(vc, p);
                vstd::arithmetic::div_mod::lemma_mod_twice((va * vb) as int, ip);
                assert((dotsum(a, w) * dotsum(b, w)) % (p as int) == dotsum(c, w) % (p as int));
            },
            SymExpr::Ratio(rl, rr) => {
                lemma_lin_terms_sound(l, row, wmap, p, false, env, w);
                lemma_lin_terms_sound(*rr, row, wmap, p, false, env, w);
                lemma_lin_terms_sound(*rl, row, wmap, p, false, env, w);
                let vrl = eval_in(*rl, env, p)->Known_0;
                let vrr = eval_in(*rr, env, p)->Known_0;
                let vl = eval_in(l, env, p)->Known_0;
                assert(crate::expr::has_inverse(vrr, p));
                let iv = crate::expr::inverse_of(vrr, p);
                assert(crate::bigint::is_inverse(vrr, iv, p));
                assert(eval_in(r, env, p) == ExprVal::Known(mulm(vrl, iv, p)));
                assert(vl == mulm(vrl, iv, p));
                // (A·w)·(B·w) ≡ vl·vrr ≡ vrl·(iv·vrr) ≡ vrl·1 ≡ C·w  (mod p)
                lemma_eval_reduced(*rl, env, p);
                assert((dotsum(a, w) * dotsum(b, w)) % ip == (vl as int * vrr as int) % ip) by {
                    vstd::arithmetic::div_mod::lemma_mul_mod_noop_general(
                        dotsum(a, w),
                        dotsum(b, w),
                        ip,
                    );
                }
                assert((vl as int * vrr as int) % ip == ((vrl * iv) as int * vrr as int) % ip)
                    by {
                    assert(vl as int == ((vrl * iv) as int) % ip);
                    vstd::arithmetic::div_mod::lemma_mul_mod_noop_left(
                        (vrl * iv) as int,
                        vrr as int,
                        ip,
                    );
                }
                assert(((vrl * iv) as int * vrr as int) % ip == (vrl as int * ((iv * vrr) as int))
                    % ip) by {
                    vstd::arithmetic::mul::lemma_mul_is_associative(
                        vrl as int,
                        iv as int,
                        vrr as int,
                    );
                }
                assert((vrl as int * ((iv * vrr) as int)) % ip == (vrl as int) % ip) by {
                    vstd::arithmetic::div_mod::lemma_mul_mod_noop_right(
                        vrl as int,
                        (iv * vrr) as int,
                        ip,
                    );
                    assert((iv * vrr) % p == 1nat % p) by {
                        vstd::arithmetic::mul::lemma_mul_is_commutative(iv as int, vrr as int);
                    }
                    vstd::arithmetic::div_mod::lemma_small_mod(1nat, p);
                    vstd::arithmetic::div_mod::lemma_mul_mod_noop_right(vrl as int, 1int, ip);
                    assert(vrl as int * 1int == vrl as int) by {
                        vstd::arithmetic::mul::lemma_mul_basics(vrl as int);
                    }
                }
                lemma_eval_reduced(*rl, env, p);
                vstd::arithmetic::div_mod::lemma_small_mod(vrl, p);
                assert((dotsum(a, w) * dotsum(b, w)) % (p as int) == dotsum(c, w) % (p as int));
            },
            _ => {
                lemma_lin_terms_sound(r, row, wmap, p, false, env, w);
                lemma_lin_terms_sound(l, row, wmap, p, false, env, w);
                let vr = eval_in(r, env, p)->Known_0;
                let vl = eval_in(l, env, p)->Known_0;
                assert(b.drop_last() =~= Seq::<(int, int, nat)>::empty());
                assert(dotsum(b, w) == dotsum(b.drop_last(), w) + b.last().2 * w[0]);
                assert(1nat * w[0] == w[0]) by {
                    vstd::arithmetic::mul::lemma_mul_basics(w[0] as int);
                }
                assert(dotsum(b, w) == 1);
                assert(dotsum(a, w) * 1int == dotsum(a, w)) by {
                    vstd::arithmetic::mul::lemma_mul_basics(dotsum(a, w));
                }
                assert((dotsum(a, w) * dotsum(b, w)) % (p as int) == dotsum(c, w) % (p as int));
            },
        }
    }
}

/// A first hit at index `i` is what the specification-level search finds.
proof fn lemma_name_index_first(s: Seq<Seq<char>>, x: Seq<char>, i: int)
    requires
        0 <= i < s.len(),
        s[i] == x,
        forall|j: int| 0 <= j < i ==> s[j] != x,
    ensures
        name_index(s, x) == Some(i),
    decreases s.len(),
{
    if s[0] == x {
        if i > 0 {
            assert(s[0] != x);
        }
    } else {
        assert(forall|j: int| 0 <= j < i - 1 ==> s.drop_first()[j] == s[j + 1]);
        assert(s.drop_first()[i - 1] == x);
        lemma_name_index_first(s.drop_first(), x, i - 1);
    }
}

/// The column of a name in the witness ordering, scanning from the front.
fn find_index(wmap: &Vec<String>, name: &String) -> (r: Option<usize>)
    ensures
        match r {
            Some(i) => name_index(seq_names(wmap@), name@) == Some(i as int),
            None => name_index(seq_names(wmap@), name@) is None,
        },
{
    let n = wmap.len();
    let mut i: usize = 0;
    while i < n
        invariant
            0 <= i <= n,
            n == wmap@.len(),
            forall|j: int| 0 <= j < i ==> seq_names(wmap@)[j] != name@,
        decreases n - i,
    {
        if wmap[i] == *name {
            proof {
                assert(seq_names(wmap@)[i as int] == name@);
                lemma_name_index_first(seq_names(wmap@), name@, i as int);
            }
            return Some(i);
        }
        i = i + 1;
    }
    proof {
        assert(!seq_names(wmap@).contains(name@));
        lemma_name_index(seq_names(wmap@), name@);
    }
    None
}

/// Append the sparse entries that encode one linear expression, the sign
/// carried down the tree.  A shape with no linear encoding is the error.
#[verifier::loop_isolation(false)]
fn transform(
    row: usize,
    node: &Node,
    wmap: &Vec<String>,
    out: &mut Vec<Triplet>,
    modulus: &BigUint,
    is_neg: bool,
) -> (r: Result<(), CircuitError>)
    requires
        big(*modulus) > 0,
        consts_reduced(node@, big(*modulus)),
    ensures
        match r {
            Ok(()) => lin_terms(node@, row as int, seq_names(wmap@), big(*modulus), is_neg)
                is Some && trips_view(final(out)@) == trips_view(old(out)@) + lin_terms(
                node@,
                row as int,
                seq_names(wmap@),
                big(*modulus),
                is_neg,
            )->Some_0,
            Err(e) => e == CircuitError::UnsupportedGateShape && lin_terms(
                node@,
                row as int,
                seq_names(wmap@),
                big(*modulus),
                is_neg,
            ) is None,
        },
    decreases node,
{
    let ghost p = big(*modulus);
    let ghost wv = seq_names(wmap@);
    let ghost entry = trips_view(out@);
    match &node.gate {
        Gate::Const(v) => {
            assert(node@ == SymExpr::Lit(big(*v)));
            let coeff = if is_neg {
                big_sub(modulus, v)
            } else {
                big_clone(v)
            };
            out.push((row, 0, coeff));
            proof {
                assert(trips_view(out@) =~= entry + lin_terms(node@, row as int, wv, p, is_neg)->Some_0);
            }
            Ok(())
        },
        Gate::Input(name) => {
            assert(node@ == SymExpr::Var(name@));
            match find_index(wmap, name) {
                None => Err(CircuitError::UnsupportedGateShape),
                Some(i) => {
                    let one = big_from_u64(1);
                    let coeff = if is_neg {
                        big_sub(modulus, &one)
                    } else {
                        one
                    };
                    out.push((row, i, coeff));
                    proof {
                        assert(trips_view(out@) =~= entry + lin_terms(
                            node@,
                            row as int,
                            wv,
                            p,
                            is_neg,
                        )->Some_0);
                    }
                    Ok(())
                },
            }
        },
        Gate::Add(l, r) => {
            assert(node@ == SymExpr::Plus(Box::new(l@), Box::new(r@)));
            match transform(row, l, wmap, out, modulus, is_neg) {
                Err(e) => Err(e),
                Ok(()) => {
                    match transform(row, r, wmap, out, modulus, is_neg) {
                        Err(e) => Err(e),
                        Ok(()) => {
                            proof {
                                assert(trips_view(out@) =~= entry + (lin_terms(
                                    l@,
                                    row as int,
                                    wv,
                                    p,
                                    is_neg,
                                )->Some_0 + lin_terms(r@, row as int, wv, p, is_neg)->Some_0));
                            }
                            Ok(())
                        },
                    }
                },
            }
        },
        Gate::Sub(l, r) => {
            assert(node@ == SymExpr::Minus(Box::new(l@), Box::new(r@)));
            match transform(row, l, wmap, out, modulus, is_neg) {
                Err(e) => Err(e),
                Ok(()) => {
                    match transform(row, r, wmap, out, modulus, !is_neg) {
                        Err(e) => Err(e),
                        Ok(()) => {
                            proof {
                                assert(trips_view(out@) =~= entry + (lin_terms(
                                    l@,
                                    row as int,
                                    wv,
                                    p,
                                    is_neg,
                                )->Some_0 + lin_terms(r@, row as int, wv, p, !is_neg)->Some_0));
                            }
                            Ok(())
                        },
                    }
                },
            }
        },
        Gate::Mul(l, r) => {
            assert(node@ == SymExpr::Times(Box::new(l@), Box::new(r@)));
            match (&l.gate, &r.gate) {
                (Gate::Input(name), Gate::Const(v)) => {
                    assert(l@ == SymExpr::Var(name@));
                    assert(r@ == SymExpr::Lit(big(*v)));
                    assert(consts_reduced(r@, p));
                    assert(big(*v) < p);
                    match find_index(wmap, name) {
                        None => Err(CircuitError::UnsupportedGateShape),
                        Some(i) => {
                            let coeff = if is_neg {
                                big_sub(modulus, v)
                            } else {
                                big_clone(v)
                            };
                            out.push((row, i, coeff));
                            proof {
                                assert(trips_view(out@) =~= entry + lin_terms(
                                    node@,
                                    row as int,
                                    wv,
                                    p,
                                    is_neg,
                                )->Some_0);
                            }
                            Ok(())
                        },
                    }
                },
                (Gate::Const(v), Gate::Input(name)) => {
                    assert(l@ == SymExpr::Lit(big(*v)));
                    assert(r@ == SymExpr::Var(name@));
                    assert(consts_reduced(l@, p));
                    assert(big(*v) < p);
                    match find_index(wmap, name) {
                        None => Err(CircuitError::UnsupportedGateShape),
                        Some(i) => {
                            let coeff = if is_neg {
                                big_sub(modulus, v)
                            } else {
                                big_clone(v)
                            };
                            out.push((row, i, coeff));
                            proof {
                                assert(trips_view(out@) =~= entry + lin_terms(
                                    node@,
                                    row as int,
                                    wv,
                                    p,
                                    is_neg,
                                )->Some_0);
                            }
                            Ok(())
                        },
                    }
                },
                _ => {
                    proof {
                        lemma_shape_views(l, r);
                    }
                    Err(CircuitError::UnsupportedGateShape)
                },
            }
        },
        Gate::Div(_, _) => {
            assert(node@ is Ratio);
            Err(CircuitError::UnsupportedGateShape)
        },
        Gate::Neg(x) => {
            assert(node@ == SymExpr::Negate(Box::new(x@)));
            transform(row, x, wmap, out, modulus, !is_neg)
        },
    }
}

/// In a product that is neither variable-times-constant nor
/// constant-times-variable, the views are likewise not such a pair.
proof fn lemma_shape_views(l: &Node, r: &Node)
    requires
        !(l.gate is Input && r.gate is Const),
        !(l.gate is Const && r.gate is Input),
    ensures
        !(l@ is Var && r@ is Lit),
        !(l@ is Lit && r@ is Var),
{
    lemma_gate_view_shape(l);
    lemma_gate_view_shape(r);
}

/// A node and its mathematical reading always have matching outermost shapes.
pub proof fn lemma_gate_view_shape(n: &Node)
    ensures
        (n@ is Var) == (n.gate is Input),
        (n@ is Lit) == (n.gate is Const),
        (n@ is Plus) == (n.gate is Add),
        (n@ is Minus) == (n.gate is Sub),
        (n@ is Times) == (n.gate is Mul),
        (n@ is Ratio) == (n.gate is Div),
        (n@ is Negate) == (n.gate is Neg),
{
}

/// One compiled row: the three sparse coefficient lists.
pub type RowTriples = (Vec<Triplet>, Vec<Triplet>, Vec<Triplet>);

/// Compile a constraint whose right side is neither a product nor a
/// quotient: the right side against the constant row `B = [1]`.
fn simple_row(eq: &Equation, row: usize, wmap: &Vec<String>, modulus: &BigUint) -> (r: Result<
    RowTriples,
    CircuitError,
>)
    requires
        big(*modulus) > 0,
        consts_reduced(eq.lhs@, big(*modulus)),
        consts_reduced(eq.rhs@, big(*modulus)),
        !(eq.rhs@ is Times),
        !(eq.rhs@ is Ratio),
    ensures
        match r {
            Ok(t) => consume_r1cs(eq.lhs@, eq.rhs@, row as int, seq_names(wmap@), big(*modulus))
                == Some((trips_view(t.0@), trips_view(t.1@), trips_view(t.2@))),
            Err(e) => e == CircuitError::UnsupportedGateShape && consume_r1cs(
                eq.lhs@,
                eq.rhs@,
                row as int,
                seq_names(wmap@),
                big(*modulus),
            ) is None,
        },
{
    let mut a: Vec<Triplet> = Vec::new();
    let mut b: Vec<Triplet> = Vec::new();
    let mut c: Vec<Triplet> = Vec::new();
    proof {
        assert(trips_view(a@) =~= Seq::<(int, int, nat)>::empty());
    }
    match transform(row, &eq.rhs, wmap, &mut a, modulus, false) {
        Err(e) => Err(e),
        Ok(()) => {
            b.push((row, 0, big_from_u64(1)));
            proof {
                assert(trips_view(b@) =~= seq![(row as int, 0int, 1nat)]);
                assert(trips_view(c@) =~= Seq::<(int, int, nat)>::empty());
            }
            match transform(row, &eq.lhs, wmap, &mut c, modulus, false) {
                Err(e) => Err(e),
                Ok(()) => {
                    proof {
                        let p = big(*modulus);
                        let wv = seq_names(wmap@);
                        assert(trips_view(a@) =~= lin_terms(
                            eq.rhs@,
                            row as int,
                            wv,
                            p,
                            false,
                        )->Some_0);
                        assert(trips_view(c@) =~= lin_terms(
                            eq.lhs@,
                            row as int,
                            wv,
                            p,
                            false,
                        )->Some_0);
                    }
                    Ok((a, b, c))
                },
            }
        },
    }
}

/// Compile one constraint into its `(A, B, C)` row.
fn consume_row(eq: &Equation, row: usize, wmap: &Vec<String>, modulus: &BigUint) -> (r: Result<
    RowTriples,
    CircuitError,
>)
    requires
        big(*modulus) > 0,
        consts_reduced(eq.lhs@, big(*modulus)),
        consts_reduced(eq.rhs@, big(*modulus)),
    ensures
        match r {
            Ok(t) => consume_r1cs(eq.lhs@, eq.rhs@, row as int, seq_names(wmap@), big(*modulus))
                == Some((trips_view(t.0@), trips_view(t.1@), trips_view(t.2@))),
            Err(e) => e == CircuitError::UnsupportedGateShape && consume_r1cs(
                eq.lhs@,
                eq.rhs@,
                row as int,
                seq_names(wmap@),
                big(*modulus),
            ) is None,
        },
{
    let ghost p = big(*modulus);
    let ghost wv = seq_names(wmap@);
    match &eq.rhs.gate {
        Gate::Mul(rl, rr) => {
            assert(eq.rhs@ == SymExpr::Times(Box::new(rl@), Box::new(rr@)));
            assert(consts_reduced(rl@, p) && consts_reduced(rr@, p));
            let mut a: Vec<Triplet> = Vec::new();
            let mut b: Vec<Triplet> = Vec::new();
            let mut c: Vec<Triplet> = Vec::new();
            proof {
                assert(trips_view(a@) =~= Seq::<(int, int, nat)>::empty());
            }
            match transform(row, rl, wmap, &mut a, modulus, false) {
                Err(e) => Err(e),
                Ok(()) => {
                    proof {
                        assert(trips_view(b@) =~= Seq::<(int, int, nat)>::empty());
                    }
                    match transform(row, rr, wmap, &mut b, modulus, false) {
                        Err(e) => Err(e),
                        Ok(()) => {
                            proof {
                                assert(trips_view(c@) =~= Seq::<(int, int, nat)>::empty());
                            }
                            match transform(row, &eq.lhs, wmap, &mut c, modulus, false) {
                                Err(e) => Err(e),
                                Ok(()) => {
                                    proof {
                                        assert(trips_view(a@) =~= lin_terms(
                                            rl@,
                                            row as int,
                                            wv,
                                            p,
                                            false,
                                        )->Some_0);
                                        assert(trips_view(b@) =~= lin_terms(
                                            rr@,
                                            row as int,
                                            wv,
                                            p,
                                            false,
                                        )->Some_0);
                                        assert(trips_view(c@) =~= lin_terms(
                                            eq.lhs@,
                                            row as int,
                                            wv,
                                            p,
                                            false,
                                        )->Some_0);
                                    }
                                    Ok((a, b, c))
                                },
                            }
                        },
                    }
                },
            }
        },
        Gate::Div(rl, rr) => {
            assert(eq.rhs@ == SymExpr::Ratio(Box::new(rl@), Box::new(rr@)));
            assert(consts_reduced(rl@, p) && consts_reduced(rr@, p));
            let mut a: Vec<Triplet> = Vec::new();
            let mut b: Vec<Triplet> = Vec::new();
            let mut c: Vec<Triplet> = Vec::new();
            proof {
                assert(trips_view(a@) =~= Seq::<(int, int, nat)>::empty());
            }
            match transform(row, &eq.lhs, wmap, &mut a, modulus, false) {
                Err(e) => Err(e),
                Ok(()) => {
                    proof {
                        assert(trips_view(b@) =~= Seq::<(int, int, nat)>::empty());
                    }
                    match transform(row, rr, wmap, &mut b, modulus, false) {
                        Err(e) => Err(e),
                        Ok(()) => {
                            proof {
                                assert(trips_view(c@) =~= Seq::<(int, int, nat)>::empty());
                            }
                            match transform(row, rl, wmap, &mut c, modulus, false) {
                                Err(e) => Err(e),
                                Ok(()) => {
                                    proof {
                                        assert(trips_view(a@) =~= lin_terms(
                                            eq.lhs@,
                                            row as int,
                                            wv,
                                            p,
                                            false,
                                        )->Some_0);
                                        assert(trips_view(b@) =~= lin_terms(
                                            rr@,
                                            row as int,
                                            wv,
                                            p,
                                            false,
                                        )->Some_0);
                                        assert(trips_view(c@) =~= lin_terms(
                                            rl@,
                                            row as int,
                                            wv,
                                            p,
                                            false,
                                        )->Some_0);
                                    }
                                    Ok((a, b, c))
                                },
                            }
                        },
                    }
                },
            }
        },
        Gate::Input(_) => {
            assert(eq.rhs@ is Var);
            simple_row(eq, row, wmap, modulus)
        },
        Gate::Const(_) => {
            assert(eq.rhs@ is Lit);
            simple_row(eq, row, wmap, modulus)
        },
        Gate::Add(_, _) => {
            assert(eq.rhs@ is Plus);
            simple_row(eq, row, wmap, modulus)
        },
        Gate::Sub(_, _) => {
            assert(eq.rhs@ is Minus);
            simple_row(eq, row, wmap, modulus)
        },
        Gate::Neg(_) => {
            assert(eq.rhs@ is Negate);
            simple_row(eq, row, wmap, modulus)
        },
    }
}

/// Relies on rayon's `par_iter().enumerate().map(..).collect()`: the closure
/// runs once per constraint, and the results are collected in row order.
#[verifier::external_body]
fn par_consume_rows(constraints: &Vec<Equation>, wmap: &Vec<String>, modulus: &BigUint) -> (r: Vec<
    Result<RowTriples, CircuitError>,
>)
    requires
        big(*modulus) > 0,
        forall|i: int|
            0 <= i < constraints@.len() ==> consts_reduced(
                (#[trigger] constraints@[i]).lhs@,
                big(*modulus),
            ) && consts_reduced(constraints@[i].rhs@, big(*modulus)),
    ensures
        r@.len() == constraints@.len(),
        forall|i: int|
            0 <= i < r@.len() ==> match #[trigger] r@[i] {
                Ok(t) => consume_r1cs(
                    constraints@[i].lhs@,
                    constraints@[i].rhs@,
                    i,
                    seq_names(wmap@),
                    big(*modulus),
                ) == Some((trips_view(t.0@), trips_view(t.1@), trips_view(t.2@))),
                Err(e) => e == CircuitError::UnsupportedGateShape && consume_r1cs(
                    constraints@[i].lhs@,
                    constraints@[i].rhs@,
                    i,
                    seq_names(wmap@),
                    big(*modulus),
                ) is None,
            },
{
    constraints.par_iter().enumerate().map(|(row, eq)| consume_row(eq, row, wmap, modulus)).collect()
}

/// Lower every recorded constraint into one `(A, B, C)` row.  Rows are
/// independent and compiled in parallel; the results keep row order.  One
/// constraint whose shape no row can represent fails the whole compilation.
pub fn compile(constraints: &Vec<Equation>, witness_map: &Vec<String>, modulus: &BigUint) -> (r:
    Result<Vec<RowTriples>, CircuitError>)
    requires
        big(*modulus) > 0,
        forall|i: int|
            0 <= i < constraints@.len() ==> consts_reduced(
                (#[trigger] constraints@[i]).lhs@,
                big(*modulus),
            ) && consts_reduced(constraints@[i].rhs@, big(*modulus)),
    ensures
        match r {
            Ok(rows) => rows@.len() == constraints@.len() && forall|i: int|
                0 <= i < rows@.len() ==> consume_r1cs(
                    constraints@[i].lhs@,
                    constraints@[i].rhs@,
                    i,
                    seq_names(witness_map@),
                    big(*modulus),
                ) == Some(
                    (
                        trips_view((#[trigger] rows@[i]).0@),
                        trips_view(rows@[i].1@),
                        trips_view(rows@[i].2@),
                    ),
                ),
            Err(e) => e == CircuitError::UnsupportedGateShape && exists|i: int|
                0 <= i < constraints@.len() && consume_r1cs(
                    (#[trigger] constraints@[i]).lhs@,
                    constraints@[i].rhs@,
                    i,
                    seq_names(witness_map@),
                    big(*modulus),
                ) is None,
        },
{
    let mut results = par_consume_rows(constraints, witness_map, modulus);
    let ghost all = results@;
    let mut out: Vec<RowTriples> = Vec::new();
    let n = constraints.len();
    let mut i: usize = 0;
    while i < n
        invariant
            0 <= i <= n,
            n == constraints@.len(),
            all.len() == n,
            results@ =~= all.skip(i as int),
            out@.len() == i,
            forall|j: int|
                0 <= j < all.len() ==> match #[trigger] all[j] {
                    Ok(t) => consume_r1cs(
                        constraints@[j].lhs@,
                        constraints@[j].rhs@,
                        j,
                        seq_names(witness_map@),
                        big(*modulus),
                    ) == Some((trips_view(t.0@), trips_view(t.1@), trips_view(t.2@))),
                    Err(e) => e == CircuitError::UnsupportedGateShape && consume_r1cs(
                        constraints@[j].lhs@,
                        constraints@[j].rhs@,
                        j,
                        seq_names(witness_map@),
                        big(*modulus),
                    ) is None,
                },
            forall|j: int|
                0 <= j < i ==> consume_r1cs(
                    constraints@[j].lhs@,
                    constraints@[j].rhs@,
                    j,
                    seq_names(witness_map@),
                    big(*modulus),
                ) == Some(
                    (
                        trips_view((#[trigger] out@[j]).0@),
                        trips_view(out@[j].1@),
                        trips_view(out@[j].2@),
                    ),
                ),
        decreases n - i,
    {
        proof {
            assert(results@[0] == all[i as int]);
        }
        let ghost res_pre = results@;
        let item = results.remove(0);
        proof {
            assert(results@ =~= res_pre.drop_first());
            assert(results@ =~= all.skip(i as int + 1));
        }
        match item {
            Err(e) => {
                return Err(e);
            },
            Ok(t) => {
                out.push(t);
            },
        }
        i = i + 1;
    }
    Ok(out)
}

/// `c·x mod p` equals the field product of the reduced factors.
proof fn lemma_value_mod(c: nat, x: nat, p: nat)
    requires
        0 < p,
    ensures
        ((c * x) as int % p as int) as nat == mulm(c % p, x % p, p),
        c < p ==> ((c * x) as int % p as int) as nat == mulm(c, x % p, p),
        mulm(c % p, x % p, p) == mulm(x % p, c % p, p),
{
    let ip = p as int;
    vstd::arithmetic::div_mod::lemma_mul_mod_noop_general(c as int, x as int, ip);
    if c < p {
        vstd::arithmetic::div_mod::lemma_small_mod(c, p);
    }
    vstd::arithmetic::mul::lemma_mul_is_commutative((c % p) as int, (x % p) as int);
}

/// The scaled-column identity for a product gate, with and without a sign.
proof fn lemma_times_coeff(c: nat, x: nat, p: nat, neg: bool)
    requires
        0 < p,
        c < p,
    ensures
        !neg ==> (c * x) as int % p as int == mulm(x % p, c, p) as int,
        neg ==> ((p - c) as nat * x) as int % p as int == negm(mulm(x % p, c, p), p) as int,
{
    lemma_value_mod(c, x, p);
    vstd::arithmetic::div_mod::lemma_small_mod(c, p);
    assert(mulm(c, x % p, p) == mulm(x % p, c, p)) by {
        vstd::arithmetic::mul::lemma_mul_is_commutative(c as int, (x % p) as int);
    }
    if neg {
        lemma_neg_coeff(c, x, p);
    }
}

/// `a - b` in the field equals `a + (-b)`.
pub proof fn lemma_subm_is_add_neg(a: nat, b: nat, p: nat)
    requires
        0 < p,
        a < p,
        b < p,
    ensures
        crate::expr::subm(a, b, p) == (a + negm(b, p)) as nat % p,
{
    let ip = p as int;
    if b == 0 {
        vstd::arithmetic::div_mod::lemma_mod_self_0(ip);
        vstd::arithmetic::div_mod::lemma_small_mod(a, p);
        assert(negm(0, p) == 0) by {
            vstd::arithmetic::div_mod::lemma_mod_self_0(ip);
        }
    } else {
        assert(negm(b, p) == (p - b) as nat) by {
            vstd::arithmetic::div_mod::lemma_small_mod((p - b) as nat, p);
        }
        if a >= b {
            assert(((a + (p - b)) as int) == (a - b) + p);
            vstd::arithmetic::div_mod::lemma_mod_add_multiples_vanish((a - b) as int, ip);
            vstd::arithmetic::div_mod::lemma_small_mod((a - b) as nat, p);
        } else {
            assert(((a + (p - b)) as nat) == ((p - (b - a)) as nat));
            vstd::arithmetic::div_mod::lemma_small_mod((p - (b - a)) as nat, p);
        }
    }
}

/// Negation distributes over field addition of reduced values.
proof fn lemma_negm_add(a: nat, b: nat, p: nat)
    requires
        0 < p,
        a < p,
        b < p,
    ensures
        (negm(a, p) + negm(b, p)) as nat % p == negm((a + b) as nat % p, p),
{
    let ip = p as int;
    let s = (a + b) as nat % p;
    vstd::arithmetic::div_mod::lemma_mod_division_less_than_divisor((a + b) as int, ip);
    // both sides are congruent to -(a + b) modulo p
    assert((negm(a, p) + negm(b, p)) as int % ip == (-(a as int) - (b as int)) % ip) by {
        assert(negm(a, p) as int % ip == (-(a as int)) % ip) by {
            lemma_negm_congruent(a, p);
        }
        assert(negm(b, p) as int % ip == (-(b as int)) % ip) by {
            lemma_negm_congruent(b, p);
        }
        vstd::arithmetic::div_mod::lemma_add_mod_noop(-(a as int), -(b as int), ip);
        vstd::arithmetic::div_mod::lemma_add_mod_noop(negm(a, p) as int, negm(b, p) as int, ip);
        vstd::arithmetic::div_mod::lemma_small_mod(negm(a, p), p);
        vstd::arithmetic::div_mod::lemma_small_mod(negm(b, p), p);
    }
    assert(negm(s, p) as int % ip == (-(a as int) - (b as int)) % ip) by {
        lemma_negm_congruent(s, p);
        assert((-(s as int)) % ip == (-((a + b) as int)) % ip) by {
            vstd::arithmetic::div_mod::lemma_mod_twice((a + b) as int, ip);
            vstd::arithmetic::div_mod::lemma_sub_mod_noop(0, s as int, ip);
            vstd::arithmetic::div_mod::lemma_sub_mod_noop(0, (a + b) as int, ip);
        }
    }
    vstd::arithmetic::div_mod::lemma_small_mod(negm(s, p), p);
    vstd::arithmetic::div_mod::lemma_mod_division_less_than_divisor(
        (negm(a, p) + negm(b, p)) as int,
        ip,
    );
}

/// `-(a + (-b)) = (-a) + b` in the field, for reduced values.
proof fn lemma_negm_add_flip(a: nat, b: nat, p: nat)
    requires
        0 < p,
        a < p,
        b < p,
    ensures
        negm((a + negm(b, p)) as nat % p, p) == (negm(a, p) + b) as nat % p,
{
    let ip = p as int;
    let inner = (a + negm(b, p)) as nat % p;
    vstd::arithmetic::div_mod::lemma_mod_division_less_than_divisor((a + negm(b, p)) as int, ip);
    // left side ≡ -(a - b), right side ≡ -a + b
    assert(negm(inner, p) as int % ip == (-(a as int) + b as int) % ip) by {
        lemma_negm_congruent(inner, p);
        assert((-(inner as int)) % ip == (-(a as int) + b as int) % ip) by {
            assert(inner as int % ip == (a as int + negm(b, p) as int) % ip) by {
                vstd::arithmetic::div_mod::lemma_mod_twice((a + negm(b, p)) as int, ip);
            }
            assert((a as int + negm(b, p) as int) % ip == (a as int - b as int) % ip) by {
                lemma_negm_congruent(b, p);
                vstd::arithmetic::div_mod::lemma_add_mod_noop(a as int, negm(b, p) as int, ip);
                vstd::arithmetic::div_mod::lemma_add_mod_noop(a as int, -(b as int), ip);
                vstd::arithmetic::div_mod::lemma_small_mod(a, p);
                vstd::arithmetic::div_mod::lemma_small_mod(negm(b, p), p);
            }
            vstd::arithmetic::div_mod::lemma_sub_mod_noop(0, inner as int, ip);
            vstd::arithmetic::div_mod::lemma_sub_mod_noop(0, a as int - b as int, ip);
        }
    }
    assert((negm(a, p) + b) as int % ip == (-(a as int) + b as int) % ip) by {
        lemma_negm_congruent(a, p);
        vstd::arithmetic::div_mod::lemma_add_mod_noop(negm(a, p) as int, b as int, ip);
        vstd::arithmetic::div_mod::lemma_add_mod_noop(-(a as int), b as int, ip);
        vstd::arithmetic::div_mod::lemma_small_mod(negm(a, p), p);
        vstd::arithmetic::div_mod::lemma_small_mod(b, p);
    }
    vstd::arithmetic::div_mod::lemma_small_mod(negm(inner, p), p);
    vstd::arithmetic::div_mod::lemma_mod_division_less_than_divisor((negm(a, p) + b) as int, ip);
}

/// `negm(v, p)` is congruent to `-v` modulo `p`.
pub proof fn lemma_negm_congruent(v: nat, p: nat)
    requires
        0 < p,
        v <= p,
    ensures
        negm(v, p) as int % p as int == (-(v as int)) % p as int,
        negm(v, p) < p,
{
    let ip = p as int;
    assert(negm(v, p) == ((p - v) as int % ip) as nat);
    vstd::arithmetic::div_mod::lemma_mod_division_less_than_divisor((p - v) as int, ip);
    assert((p - v) as int % ip == (-(v as int)) % ip) by {
        vstd::arithmetic::div_mod::lemma_mod_add_multiples_vanish(-(v as int), ip);
    }
    vstd::arithmetic::div_mod::lemma_mod_twice((p - v) as int, ip);
}

} // verus!
