use tensor_calc::{
    calculate_christoffel_symbols, calculate_einstein_tensor, calculate_metric_inverse,
    calculate_ricci_scalar, calculate_ricci_tensor, calculate_riemann_tensor,
    parse_metric_tensor, SymbolicExpr, TensorError,
};

fn coords(names: &[&str]) -> Vec<String> {
    names.iter().map(|s| s.to_string()).collect()
}

fn metric_of(rows: &[&[&str]]) -> Vec<Vec<String>> {
    rows.iter()
        .map(|r| r.iter().map(|s| s.to_string()).collect())
        .collect()
}

#[test]
fn test_jagged_metric_is_rejected() {
    let cs = coords(&["t", "x"]);
    let bad = metric_of(&[&["1", "0"], &["0"]]);
    match parse_metric_tensor(bad, &cs) {
        Err(TensorError::InvalidMetric(msg)) => {
            assert_eq!(msg, "Metric tensor must be square");
        }
        _ => panic!("a jagged metric must be rejected"),
    }
}

#[test]
fn test_flat_two_dimensional_metric_is_flat() {
    let cs = coords(&["t", "x"]);
    let m = parse_metric_tensor(metric_of(&[&["-1", "0"], &["0", "1"]]), &cs).unwrap();
    let christoffel = calculate_christoffel_symbols(&m, &cs).unwrap();
    assert_eq!(christoffel.dimension, 2);
    assert!(christoffel.symbols.is_empty());
    let riemann = calculate_riemann_tensor(&m, &cs).unwrap();
    assert!(riemann.components.is_empty());
    let ricci = calculate_ricci_tensor(&m, &cs).unwrap();
    assert!(ricci.components.is_empty());
    let scalar = calculate_ricci_scalar(&m, &cs).unwrap();
    assert!(scalar.indices.is_empty());
    assert_eq!(scalar.expression, "0");
    let einstein = calculate_einstein_tensor(&m, &cs).unwrap();
    assert!(einstein.components.is_empty());
}

#[test]
fn test_constant_metric_any_dimension_is_flat() {
    let cs = coords(&["t", "x", "y"]);
    let m = parse_metric_tensor(
        metric_of(&[&["2", "0", "0"], &["0", "3", "0"], &["0", "0", "5"]]),
        &cs,
    )
    .unwrap();
    assert!(calculate_christoffel_symbols(&m, &cs).unwrap().symbols.is_empty());
    assert!(calculate_ricci_tensor(&m, &cs).unwrap().components.is_empty());
    assert_eq!(calculate_ricci_scalar(&m, &cs).unwrap().expression, "0");
}

#[test]
fn test_invert_two_by_two_diagonal() {
    let cs = coords(&["u", "v"]);
    let m = parse_metric_tensor(metric_of(&[&["a", "0"], &["0", "b"]]), &cs).unwrap();
    let inv = calculate_metric_inverse(&m).unwrap();
    // the off-diagonal cofactors simplify away entirely
    assert!(inv[0][1].simplify().is_zero());
    assert!(inv[1][0].simplify().is_zero());
    // the diagonal entries are the reciprocal values: the simplifier does
    // no cancellation, so they keep the cofactor-over-determinant shape
    assert_eq!(inv[0][0].simplify().render(), "((1 / (a * b)) * b)");
    assert_eq!(inv[1][1].simplify().render(), "((1 / (a * b)) * a)");
}

#[test]
fn test_invert_identity_is_identity() {
    let cs = coords(&["u", "v"]);
    let m = parse_metric_tensor(metric_of(&[&["1", "0"], &["0", "1"]]), &cs).unwrap();
    let inv = calculate_metric_inverse(&m).unwrap();
    assert_eq!(inv[0][0].simplify(), SymbolicExpr::One);
    assert_eq!(inv[1][1].simplify(), SymbolicExpr::One);
    assert!(inv[0][1].simplify().is_zero());
    assert!(inv[1][0].simplify().is_zero());
}

#[test]
fn test_invert_placeholder_above_two() {
    // for any size other than two the inverse is the identity placeholder
    let cs = coords(&["t", "r", "theta"]);
    let m = parse_metric_tensor(
        metric_of(&[&["f", "0", "0"], &["0", "g", "0"], &["0", "0", "h"]]),
        &cs,
    )
    .unwrap();
    let inv = calculate_metric_inverse(&m).unwrap();
    for i in 0..3 {
        for j in 0..3 {
            if i == j {
                assert_eq!(inv[i][j], SymbolicExpr::One);
            } else {
                assert_eq!(inv[i][j], SymbolicExpr::Zero);
            }
        }
    }
}

#[test]
fn test_christoffel_of_radial_metric() {
    // diag(1, r^2) with coordinates [r, phi]: the derivative of r^2 feeds
    // nonzero connection coefficients through the true two-by-two inverse
    let cs = coords(&["r", "phi"]);
    let m = parse_metric_tensor(metric_of(&[&["1", "0"], &["0", "r^2"]]), &cs).unwrap();
    let christoffel = calculate_christoffel_symbols(&m, &cs).unwrap();
    assert_eq!(christoffel.dimension, 2);
    assert!(!christoffel.symbols.is_empty());
    for comp in &christoffel.symbols {
        assert_eq!(comp.indices.len(), 3);
        assert!(comp.indices.iter().all(|&i| i < 2));
        assert!(!SymbolicExpr::parse(&comp.expression).unwrap().is_zero());
    }
}

#[test]
fn test_schwarzschild_pipeline_uses_placeholder_inverse() {
    // with four coordinates the inverse is the identity placeholder, so
    // the computed Ricci scalar does not reduce to the physical value 0;
    // this documents the known limitation rather than asserting physics
    let cs = coords(&["t", "r", "theta", "phi"]);
    let m = parse_metric_tensor(
        metric_of(&[
            &["-(1 - 2*M/r)", "0", "0", "0"],
            &["0", "1/(1 - 2*M/r)", "0", "0"],
            &["0", "0", "r^2", "0"],
            &["0", "0", "0", "r^2 * sin(theta)^2"],
        ]),
        &cs,
    )
    .unwrap();
    let scalar = calculate_ricci_scalar(&m, &cs).unwrap();
    assert!(scalar.indices.is_empty());
    assert_ne!(scalar.expression, "0");
}

#[test]
fn test_ricci_scalar_component_emitted_even_when_zero() {
    let cs = coords(&["t", "x"]);
    let m = parse_metric_tensor(metric_of(&[&["1", "0"], &["0", "1"]]), &cs).unwrap();
    let scalar = calculate_ricci_scalar(&m, &cs).unwrap();
    assert!(scalar.indices.is_empty());
    assert_eq!(scalar.expression, "0");
}
