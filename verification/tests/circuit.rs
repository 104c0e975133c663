use arithmetization::expr::{Equation, Node};
use arithmetization::system::{ConstraintSystem, HintOracle, NoHints};
use arithmetization::varmap::VarMap;
use arithmetization::CircuitError;
use num_bigint::BigUint;

fn b(x: u64) -> BigUint {
    BigUint::from(x)
}

fn var(n: &str) -> Node {
    Node::input(n.to_string())
}

fn cn(x: u64) -> Node {
    Node::constant(b(x))
}

fn bind(vm: &mut VarMap, n: &str, x: u64) {
    if !vm.contains(&n.to_string()) {
        vm.insert(n.to_string(), b(x));
    }
}

fn value(vm: &VarMap, n: &str) -> BigUint {
    vm.get(&n.to_string()).expect("variable must be bound").clone()
}

#[test]
fn internal_constants_sum_of_squares() {
    let mut cs = ConstraintSystem::new(vec![], vec![], b(101));
    cs.add_constraint(Equation::new(var("x"), cn(3)));
    cs.add_constraint(Equation::new(var("y"), cn(4)));
    cs.add_constraint(Equation::new(
        var("z"),
        var("x").mul(var("x")).add(var("y").mul(var("y"))),
    ));
    let w = cs.solve(&VarMap::new(), &mut NoHints).expect("solvable");
    assert_eq!(value(&w, "z"), b(25));
    assert_eq!(value(&w, "x"), b(3));
    assert_eq!(value(&w, "y"), b(4));
}

#[test]
fn declared_inputs_and_output() {
    let mut cs = ConstraintSystem::new(
        vec!["a".to_string(), "b".to_string()],
        vec!["c".to_string()],
        b(17),
    );
    cs.add_constraint(Equation::new(var("c"), var("a").add(var("b"))));
    let mut inputs = VarMap::new();
    bind(&mut inputs, "a", 2);
    bind(&mut inputs, "b", 5);
    let w = cs.solve(&inputs, &mut NoHints).expect("solvable");
    assert_eq!(value(&w, "a"), b(2));
    assert_eq!(value(&w, "b"), b(5));
    assert_eq!(value(&w, "c"), b(7));
}

#[test]
fn division_by_invertible_value() {
    let mut cs = ConstraintSystem::new(
        vec!["a".to_string(), "b".to_string()],
        vec![],
        b(7),
    );
    cs.add_constraint(Equation::new(var("z"), var("a").div(var("b"))));
    let mut inputs = VarMap::new();
    bind(&mut inputs, "a", 6);
    bind(&mut inputs, "b", 3);
    let w = cs.solve(&inputs, &mut NoHints).expect("solvable");
    assert_eq!(value(&w, "z"), b(2));
}

#[test]
fn division_by_zero_is_non_invertible() {
    let mut cs = ConstraintSystem::new(
        vec!["a".to_string(), "b".to_string()],
        vec![],
        b(7),
    );
    cs.add_constraint(Equation::new(var("z"), var("a").div(var("b"))));
    let mut inputs = VarMap::new();
    bind(&mut inputs, "a", 6);
    bind(&mut inputs, "b", 0);
    let r = cs.solve(&inputs, &mut NoHints);
    assert!(matches!(r, Err(CircuitError::NonInvertible)));
}

#[test]
fn isolating_a_subtrahend_keeps_the_sign() {
    // 0 - x = 5 at p = 7: the unique solution is x = 0 - 5 = 2
    let mut cs = ConstraintSystem::new(vec![], vec![], b(7));
    cs.add_constraint(Equation::new(cn(0).sub(var("x")), cn(5)));
    let w = cs.solve(&VarMap::new(), &mut NoHints).expect("solvable");
    assert_eq!(value(&w, "x"), b(2));

    // the isolated expression evaluates to the minuend minus the accumulator
    let lhs = cn(0).sub(var("x"));
    let isolated = lhs
        .isolate_term(&"x".to_string(), &cn(5))
        .expect("linear in x");
    let v = isolated.evaluate(&VarMap::new(), &b(7)).expect("closed");
    assert_eq!(v, b(2));
}

#[test]
fn plonkish_subtracted_constant_enters_qc_negated() {
    // z = a - 3 at p = 17: gate 1·a - z - 3 ≡ 0
    let p = 17u64;
    let mut cs = ConstraintSystem::new(vec!["a".to_string()], vec![], b(p));
    cs.add_constraint(Equation::new(var("z"), var("a").sub(cn(3))));
    let (gates, _) = cs.compile_to_plonkish().expect("representable");
    let (ql, qr, qo, qm, qc, w) = &gates[0];
    assert_eq!(*ql, b(1));
    assert_eq!(*qr, b(0));
    assert_eq!(*qo, b(p - 1));
    assert_eq!(*qm, b(0));
    assert_eq!(*qc, b(p - 3));
    assert_eq!(w[0], "a");
    assert_eq!(w[2], "z");
    // at the satisfying witness a = 2, z = 16 the identity vanishes
    let gate = ql * 2u32 + qo * 16u32 + qc;
    assert_eq!(gate % b(p), b(0));
}

#[test]
fn plonkish_variable_subtrahend_is_negated() {
    // z = 3 - a at p = 17: gate -a - z + 3 ≡ 0
    let p = 17u64;
    let mut cs = ConstraintSystem::new(vec!["a".to_string()], vec![], b(p));
    cs.add_constraint(Equation::new(var("z"), cn(3).sub(var("a"))));
    let mut inputs = VarMap::new();
    bind(&mut inputs, "a", 2);
    let w = cs.solve(&inputs, &mut NoHints).expect("solvable");
    assert_eq!(value(&w, "z"), b(1));
    let (gates, _) = cs.compile_to_plonkish().expect("representable");
    let (ql, _, qo, _, qc, ws) = &gates[0];
    assert_eq!(*ql, b(p - 1));
    assert_eq!(*qo, b(p - 1));
    assert_eq!(*qc, b(3));
    assert_eq!(ws[0], "a");
    let gate = ql * 2u32 + qo * 1u32 + qc;
    assert_eq!(gate % b(p), b(0));
}

#[test]
fn plonkish_folds_constant_products_into_qc() {
    // z = 2*3 at p = 17: the constant-only product folds by value into qc
    let p = 17u64;
    let mut cs = ConstraintSystem::new(vec![], vec![], b(p));
    cs.add_constraint(Equation::new(var("z"), cn(2).mul(cn(3))));
    let w = cs.solve(&VarMap::new(), &mut NoHints).expect("solvable");
    assert_eq!(value(&w, "z"), b(6));
    let (gates, _) = cs.compile_to_plonkish().expect("representable");
    let (ql, qr, qo, qm, qc, ws) = &gates[0];
    assert_eq!(*ql, b(0));
    assert_eq!(*qr, b(0));
    assert_eq!(*qo, b(p - 1));
    assert_eq!(*qm, b(0));
    assert_eq!(*qc, b(6));
    assert_eq!(ws[2], "z");
    // identity at the solved witness: -z + 6 ≡ 0
    let gate = qo * 6u32 + qc;
    assert_eq!(gate % b(p), b(0));
}

#[test]
fn plonkish_folds_constant_product_inside_a_sum() {
    // z = a + 2*3 at p = 17: the product contributes 6 to qc, scaled by value
    let p = 17u64;
    let mut cs = ConstraintSystem::new(vec!["a".to_string()], vec![], b(p));
    cs.add_constraint(Equation::new(var("z"), var("a").add(cn(2).mul(cn(3)))));
    let mut inputs = VarMap::new();
    bind(&mut inputs, "a", 2);
    let w = cs.solve(&inputs, &mut NoHints).expect("solvable");
    assert_eq!(value(&w, "z"), b(8));
    let (gates, _) = cs.compile_to_plonkish().expect("representable");
    let (ql, _, qo, _, qc, ws) = &gates[0];
    assert_eq!(*ql, b(1));
    assert_eq!(*qo, b(p - 1));
    assert_eq!(*qc, b(6));
    assert_eq!(ws[0], "a");
    let gate = ql * 2u32 + qo * 8u32 + qc;
    assert_eq!(gate % b(p), b(0));
}

#[test]
fn plonkish_scaled_variable_gate() {
    // z = 2*y at p = 17: the constant factor scales ql
    let p = 17u64;
    let mut cs = ConstraintSystem::new(vec!["y".to_string()], vec![], b(p));
    cs.add_constraint(Equation::new(var("z"), cn(2).mul(var("y"))));
    let mut inputs = VarMap::new();
    bind(&mut inputs, "y", 5);
    let w = cs.solve(&inputs, &mut NoHints).expect("solvable");
    assert_eq!(value(&w, "z"), b(10));
    let (gates, _) = cs.compile_to_plonkish().expect("representable");
    let (ql, _, qo, qm, qc, ws) = &gates[0];
    assert_eq!(*ql, b(2));
    assert_eq!(*qo, b(p - 1));
    assert_eq!(*qm, b(0));
    assert_eq!(*qc, b(0));
    assert_eq!(ws[0], "y");
    let gate = ql * 5u32 + qo * 10u32 + qc;
    assert_eq!(gate % b(p), b(0));
}

#[test]
fn plonkish_scaled_sum_gate() {
    // z = 2*a - 3*e at p = 17: each operand's factor scales its selector,
    // the subtrahend's negated
    let p = 17u64;
    let mut cs = ConstraintSystem::new(
        vec!["a".to_string(), "e".to_string()],
        vec![],
        b(p),
    );
    cs.add_constraint(Equation::new(
        var("z"),
        cn(2).mul(var("a")).sub(var("e").mul(cn(3))),
    ));
    let mut inputs = VarMap::new();
    bind(&mut inputs, "a", 5);
    bind(&mut inputs, "e", 2);
    let w = cs.solve(&inputs, &mut NoHints).expect("solvable");
    assert_eq!(value(&w, "z"), b(4));
    let (gates, _) = cs.compile_to_plonkish().expect("representable");
    let (ql, qr, qo, _, qc, ws) = &gates[0];
    assert_eq!(*ql, b(2));
    assert_eq!(*qr, b(p - 3));
    assert_eq!(*qo, b(p - 1));
    assert_eq!(*qc, b(0));
    assert_eq!(ws[0], "a");
    assert_eq!(ws[1], "e");
    let gate = ql * 5u32 + qr * 2u32 + qo * 4u32 + qc;
    assert_eq!(gate % b(p), b(0));
}

#[test]
fn plonkish_matching_constants_cancel_in_qc() {
    // 6 = 2*3: a constant left side enters qc negated, so qc vanishes
    let mut cs = ConstraintSystem::new(vec![], vec![], b(17));
    cs.add_constraint(Equation::new(cn(6), cn(2).mul(cn(3))));
    let (gates, _) = cs.compile_to_plonkish().expect("representable");
    let (ql, qr, qo, qm, qc, _) = &gates[0];
    assert_eq!(*ql, b(0));
    assert_eq!(*qr, b(0));
    assert_eq!(*qo, b(0));
    assert_eq!(*qm, b(0));
    assert_eq!(*qc, b(0));
}

#[test]
fn plonkish_rejects_constant_addends_inside_products() {
    // (a + 2) * 3: the addend cannot scale into one shared constant term
    let mut cs = ConstraintSystem::new(vec!["a".to_string()], vec![], b(17));
    cs.add_constraint(Equation::new(var("z"), var("a").add(cn(2)).mul(cn(3))));
    let r = cs.compile_to_plonkish();
    assert!(matches!(r, Err(CircuitError::UnsupportedGateShape)));
}

#[test]
fn isolating_a_square_is_non_linear() {
    let lhs = var("x").mul(var("x"));
    let r = lhs.isolate_term(&"x".to_string(), &cn(9));
    assert!(matches!(r, Err(CircuitError::NonLinearRearrangement)));
}

#[test]
fn underdetermined_square_does_not_terminate() {
    let mut cs = ConstraintSystem::new(vec![], vec![], b(101));
    cs.add_constraint(Equation::new(var("x").mul(var("x")), cn(9)));
    let r = cs.solve(&VarMap::new(), &mut NoHints);
    assert!(matches!(r, Err(CircuitError::EvaluationNonTermination)));
}

#[test]
fn constraint_order_does_not_change_witness() {
    let p = 101u64;
    let mut one = ConstraintSystem::new(vec![], vec![], b(p));
    one.add_constraint(Equation::new(var("x"), cn(3)));
    one.add_constraint(Equation::new(var("z"), var("x").add(var("y"))));
    one.add_constraint(Equation::new(var("y"), cn(4)));
    let w1 = one.solve(&VarMap::new(), &mut NoHints).expect("solvable");

    let mut two = ConstraintSystem::new(vec![], vec![], b(p));
    two.add_constraint(Equation::new(var("y"), cn(4)));
    two.add_constraint(Equation::new(var("x"), cn(3)));
    two.add_constraint(Equation::new(var("z"), var("x").add(var("y"))));
    let w2 = two.solve(&VarMap::new(), &mut NoHints).expect("solvable");

    for n in ["x", "y", "z"] {
        assert_eq!(value(&w1, n), value(&w2, n));
    }
    assert_eq!(value(&w1, "z"), b(7));
}

#[test]
fn solving_twice_gives_identical_witness() {
    let mut cs = ConstraintSystem::new(vec!["a".to_string()], vec![], b(13));
    cs.add_constraint(Equation::new(var("t"), var("a").mul(var("a"))));
    let mut inputs = VarMap::new();
    bind(&mut inputs, "a", 5);
    let w1 = cs.solve(&inputs, &mut NoHints).expect("solvable");
    let w2 = cs.solve(&inputs, &mut NoHints).expect("solvable");
    assert_eq!(value(&w1, "t"), value(&w2, "t"));
    assert_eq!(value(&w1, "t"), b(12));
}

#[test]
fn conflicting_constraints_violate() {
    let mut cs = ConstraintSystem::new(vec![], vec![], b(101));
    cs.add_constraint(Equation::new(var("x"), cn(3)));
    cs.add_constraint(Equation::new(var("x"), cn(4)));
    let r = cs.solve(&VarMap::new(), &mut NoHints);
    assert!(matches!(r, Err(CircuitError::ConstraintViolation)));
}

#[test]
fn missing_declared_input_is_fatal() {
    let mut cs = ConstraintSystem::new(vec!["a".to_string()], vec![], b(7));
    cs.add_constraint(Equation::new(var("z"), var("a").add(cn(1))));
    let r = cs.solve(&VarMap::new(), &mut NoHints);
    assert!(matches!(r, Err(CircuitError::MissingVariable)));
}

struct Doubling;

impl HintOracle for Doubling {
    fn compute(&mut self, name: &String, args: &VarMap) -> Option<BigUint> {
        if name == "double" {
            args.get(&"a".to_string()).map(|v| v * 2u32)
        } else {
            None
        }
    }
}

#[test]
fn hints_feed_later_rows() {
    let mut cs = ConstraintSystem::new(vec!["a".to_string()], vec![], b(101));
    cs.unsafe_assign(&var("h"), "double".to_string(), vec!["a".to_string()])
        .expect("hint target is a variable");
    cs.add_constraint(Equation::new(var("z"), var("h").add(cn(1))));
    let mut inputs = VarMap::new();
    bind(&mut inputs, "a", 5);
    let w = cs.solve(&inputs, &mut Doubling).expect("solvable");
    assert_eq!(value(&w, "h"), b(10));
    assert_eq!(value(&w, "z"), b(11));
}

#[test]
fn unknown_hint_computation_fails() {
    let mut cs = ConstraintSystem::new(vec!["a".to_string()], vec![], b(101));
    cs.unsafe_assign(&var("h"), "double".to_string(), vec!["a".to_string()])
        .expect("hint target is a variable");
    let mut inputs = VarMap::new();
    bind(&mut inputs, "a", 5);
    let r = cs.solve(&inputs, &mut NoHints);
    assert!(matches!(r, Err(CircuitError::HintTypeError)));
}

#[test]
fn hint_target_must_be_a_variable() {
    let mut cs = ConstraintSystem::new(vec![], vec![], b(101));
    let r = cs.unsafe_assign(&cn(4), "f".to_string(), vec![]);
    assert!(matches!(r, Err(CircuitError::UnsupportedGateShape)));
}

#[test]
fn witness_vector_is_ordered_by_role() {
    let mut cs = ConstraintSystem::new(
        vec!["a".to_string(), "b".to_string()],
        vec!["c".to_string()],
        b(17),
    );
    cs.set_public("a".to_string());
    cs.add_constraint(Equation::new(var("c"), var("t").add(var("b"))));
    cs.add_constraint(Equation::new(var("t"), var("a").mul(var("a"))));
    // constant-one slot, outputs, public inputs, private inputs, intermediates
    let order = cs.get_witness_vector();
    assert_eq!(
        order,
        vec![
            "0".to_string(),
            "c".to_string(),
            "a".to_string(),
            "b".to_string(),
            "t".to_string(),
        ]
    );
}

#[test]
fn r1cs_product_row() {
    let mut cs = ConstraintSystem::new(
        vec!["a".to_string(), "b".to_string()],
        vec!["c".to_string()],
        b(17),
    );
    cs.add_constraint(Equation::new(var("c"), var("a").mul(var("b"))));
    // witness order: ["0", "c", "a", "b"]
    let rows = cs.compile_to_r1cs().expect("representable");
    assert_eq!(rows.len(), 1);
    let (a, bm, c) = &rows[0];
    assert_eq!(a.as_slice(), &[(0usize, 2usize, b(1))]);
    assert_eq!(bm.as_slice(), &[(0usize, 3usize, b(1))]);
    assert_eq!(c.as_slice(), &[(0usize, 1usize, b(1))]);
}

#[test]
fn r1cs_sum_rows_satisfied_by_witness() {
    let p = 17u64;
    let mut cs = ConstraintSystem::new(
        vec!["a".to_string(), "b".to_string()],
        vec!["c".to_string()],
        b(p),
    );
    cs.add_constraint(Equation::new(var("c"), var("a").add(var("b").mul(cn(3)))));
    let mut inputs = VarMap::new();
    bind(&mut inputs, "a", 2);
    bind(&mut inputs, "b", 4);
    let w = cs.solve(&inputs, &mut NoHints).expect("solvable");
    let order = cs.get_witness_vector();
    let mut witness: Vec<BigUint> = Vec::new();
    for name in &order {
        if name == "0" {
            witness.push(b(1));
        } else {
            witness.push(value(&w, name));
        }
    }
    let rows = cs.compile_to_r1cs().expect("representable");
    for (a, bm, c) in &rows {
        let dot = |ts: &Vec<(usize, usize, BigUint)>| -> BigUint {
            let mut acc = b(0);
            for (_, col, coeff) in ts {
                acc += coeff * &witness[*col];
            }
            acc
        };
        assert_eq!((dot(a) * dot(bm)) % b(p), dot(c) % b(p));
    }
}

#[test]
fn r1cs_rejects_nested_products() {
    let mut cs = ConstraintSystem::new(
        vec!["a".to_string(), "b".to_string(), "c".to_string()],
        vec![],
        b(17),
    );
    cs.add_constraint(Equation::new(var("z"), var("a").mul(var("b")).mul(var("c"))));
    let r = cs.compile_to_r1cs();
    assert!(matches!(r, Err(CircuitError::UnsupportedGateShape)));
}

#[test]
fn plonkish_sum_gate_selectors() {
    let p = 17u64;
    let mut cs = ConstraintSystem::new(
        vec!["a".to_string(), "b".to_string()],
        vec!["c".to_string()],
        b(p),
    );
    cs.add_constraint(Equation::new(var("c"), var("a").add(var("b"))));
    let (gates, _) = cs.compile_to_plonkish().expect("representable");
    assert_eq!(gates.len(), 1);
    let (ql, qr, qo, qm, qc, w) = &gates[0];
    assert_eq!(*ql, b(1));
    assert_eq!(*qr, b(1));
    assert_eq!(*qo, b(p - 1));
    assert_eq!(*qm, b(0));
    assert_eq!(*qc, b(0));
    assert_eq!(w[0], "a");
    assert_eq!(w[1], "b");
    assert_eq!(w[2], "c");
    // with a=2, b=5, c=7 the selector identity vanishes modulo p
    let gate = ql * 2u32 + qr * 5u32 + qo * 7u32 + qm * 10u32 + qc;
    assert_eq!(gate % b(p), b(0));
}

#[test]
fn plonkish_rejects_division() {
    let mut cs = ConstraintSystem::new(
        vec!["a".to_string(), "b".to_string()],
        vec![],
        b(17),
    );
    cs.add_constraint(Equation::new(var("z"), var("a").div(var("b"))));
    let r = cs.compile_to_plonkish();
    assert!(matches!(r, Err(CircuitError::UnsupportedGateShape)));
}

#[test]
fn permutation_links_only_shared_names() {
    let p = 17u64;
    let mut cs = ConstraintSystem::new(
        vec!["a".to_string(), "b".to_string()],
        vec![],
        b(p),
    );
    cs.add_constraint(Equation::new(var("t"), var("a").mul(var("b"))));
    cs.add_constraint(Equation::new(var("z"), var("t").add(var("a"))));
    let (gates, perm) = cs.compile_to_plonkish().expect("representable");
    // rebuild the column-major wire layout the permutation refers to
    let n = gates.len();
    let mut m = 1usize;
    while m < n {
        m *= 2;
    }
    let padded = 3 * m;
    let mut flat: Vec<String> = Vec::new();
    for g in &gates {
        flat.push(g.5[0].clone());
        flat.push(g.5[1].clone());
        flat.push(g.5[2].clone());
    }
    flat.resize(padded, String::new());
    let mut labels: Vec<String> = Vec::new();
    for j in 0..padded {
        labels.push(flat[3 * (j % m) + j / m].clone());
    }
    assert_eq!(perm.len(), padded);
    // a permutation of the slots
    let mut seen = vec![false; padded];
    for &x in &perm {
        assert!(x < padded);
        assert!(!seen[x]);
        seen[x] = true;
    }
    // links only positions sharing one name; empty slots stay fixed
    let mut moved = 0usize;
    for j in 0..padded {
        assert_eq!(labels[perm[j]], labels[j]);
        if labels[j].is_empty() {
            assert_eq!(perm[j], j);
        }
        if perm[j] != j {
            moved += 1;
        }
    }
    // the two wires carrying `a` and the two carrying `t` are linked
    assert!(moved >= 4);
}

#[test]
fn evaluation_is_reduced_modulo_p() {
    let e = cn(9).add(cn(9));
    let env = VarMap::new();
    let v = e.evaluate(&env, &b(7)).expect("closed expression");
    assert_eq!(v, b(4));
}

#[test]
fn subtraction_wraps_into_the_field() {
    let e = cn(2).sub(cn(5));
    let env = VarMap::new();
    let v = e.evaluate(&env, &b(7)).expect("closed expression");
    assert_eq!(v, b(4));
}

#[test]
fn expressions_render_for_diagnostics() {
    let e = var("x").mul(var("x")).add(cn(25));
    assert_eq!(e.to_expression(), "(x * x + 25)");
    assert_eq!(cn(0).sub(var("v")).to_expression(), "(0 - v)");
    assert_eq!(var("a").div(var("b")).to_expression(), "a / b");
    assert_eq!(var("y").neg().to_expression(), "-(y)");
    assert_eq!(cn(1234).to_expression(), "1234");
}

#[test]
fn swap_exchanges_sides() {
    let mut eq = Equation::new(var("x"), cn(3));
    eq.swap();
    let env = VarMap::new();
    let v = eq.lhs.evaluate(&env, &b(7)).expect("constant side");
    assert_eq!(v, b(3));
}
