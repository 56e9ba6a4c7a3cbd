use tensor_calc::{
    construct_einstein_field_equations, solve_einstein_constraint_equations, solve_flrw_universe,
    solve_spherically_symmetric_vacuum, solve_vacuum_einstein_equations, verify_einstein_solution,
    SymbolicExpr, TensorError,
};

fn coords4() -> Vec<String> {
    vec![
        "t".to_string(),
        "r".to_string(),
        "theta".to_string(),
        "phi".to_string(),
    ]
}

#[test]
fn test_schwarzschild_solution() {
    let coords = coords4();
    let boundary_conditions = vec![];

    let solutions = solve_spherically_symmetric_vacuum(&coords, &boundary_conditions).unwrap();

    assert!(!solutions.is_empty());
    assert_eq!(solutions[0].solution_type, "exact");
    assert_eq!(solutions[0].coordinates, coords);
}

#[test]
fn test_flrw_solution() {
    let coords = coords4();
    let boundary_conditions = vec![];

    let solutions = solve_flrw_universe(&coords, &boundary_conditions).unwrap();

    assert!(!solutions.is_empty());
    assert_eq!(solutions[0].solution_type, "exact");
    assert!(solutions[0]
        .physical_parameters
        .iter()
        .any(|p| p.0 == "H"));
}

#[test]
fn test_solve_vacuum_dispatch() {
    let coords = coords4();
    let spherical = solve_vacuum_einstein_equations(&coords, "spherical", &[]).unwrap();
    assert_eq!(spherical.len(), 2);
    assert_eq!(spherical[0].solution_type, "exact");
    assert_eq!(
        spherical[0].metric_tensor[0][0],
        SymbolicExpr::Variable("-(1 - 2*M/r)".to_string())
    );
    assert_eq!(spherical[1].solution_domain, "r > M + sqrt(M^2 - Q^2)");
    let cosmological = solve_vacuum_einstein_equations(&coords, "cosmological", &[]).unwrap();
    assert_eq!(cosmological.len(), 2);
    let axisymmetric = solve_vacuum_einstein_equations(&coords, "axisymmetric", &[]).unwrap();
    assert_eq!(axisymmetric.len(), 1);
    match solve_vacuum_einstein_equations(&coords, "cylindrical", &[]) {
        Err(TensorError::ComputationError(msg)) => {
            assert_eq!(msg, "Unknown symmetry ansatz: cylindrical");
        }
        _ => panic!("an unknown tag must be rejected"),
    }
}

#[test]
fn test_spherical_requires_four_coordinates() {
    let three = vec!["t".to_string(), "r".to_string(), "theta".to_string()];
    match solve_spherically_symmetric_vacuum(&three, &[]) {
        Err(TensorError::ComputationError(msg)) => {
            assert_eq!(msg, "Spherical symmetry requires 4D coordinates [t, r, theta, phi]");
        }
        _ => panic!("three coordinates must be rejected"),
    }
}

#[test]
fn test_schwarzschild_metric_cells() {
    let solutions = solve_spherically_symmetric_vacuum(&coords4(), &[]).unwrap();
    let m = &solutions[0].metric_tensor;
    assert_eq!(m.len(), 4);
    assert_eq!(
        m[0][0],
        SymbolicExpr::Variable("-(1 - 2*M/r)".to_string())
    );
    match &m[2][2] {
        SymbolicExpr::Power(_, _) => {}
        other => panic!("expected a power cell, found {:?}", other),
    }
    assert_eq!(m[0][1], SymbolicExpr::Zero);
    assert_eq!(solutions[0].solution_domain, "r > 2M");
}

#[test]
fn test_verify_solution_stub() {
    let solutions = solve_spherically_symmetric_vacuum(&coords4(), &[]).unwrap();
    // the vacuum check is a stub that reports success unconditionally
    assert!(verify_einstein_solution(&solutions[0], None, None).unwrap());
}

#[test]
fn test_constraint_equations_text() {
    let cs = vec!["t".to_string(), "x".to_string()];
    let m = tensor_calc::parse_metric_tensor(
        vec![
            vec!["1".to_string(), "0".to_string()],
            vec!["0".to_string(), "1".to_string()],
        ],
        &cs,
    )
    .unwrap();
    let constraints = solve_einstein_constraint_equations(&m, &cs).unwrap();
    assert_eq!(constraints.len(), 2);
    assert!(constraints[0].indices.is_empty());
    assert_eq!(
        constraints[0].expression,
        "R + K^2 - K_ij * K^ij - 16 * pi * rho"
    );
    assert_eq!(constraints[1].indices, vec![0]);
    assert_eq!(
        constraints[1].expression,
        "D_j(K^0j - gamma^0j * K) - 8 * pi * j^0"
    );
}

#[test]
fn test_field_equation_text() {
    let stress = tensor_calc::StressEnergyTensor {
        components: vec![vec![SymbolicExpr::Zero]],
        tensor_type: "vacuum".to_string(),
        parameters: Vec::new(),
    };
    let cs = vec!["t".to_string()];
    let sys = construct_einstein_field_equations(&stress, &cs, None).unwrap();
    assert_eq!(sys.field_equations.len(), 1);
    assert_eq!(
        sys.field_equations[0].expression,
        "G_0_0 + 0 * g_0_0 - 8 * pi * T_0_0"
    );
    assert_eq!(sys.field_equations[0].indices, vec![0, 0]);
    assert_eq!(sys.unknowns, vec!["g_0_0".to_string()]);
    assert!(sys.constraint_equations.is_empty());
    assert!(sys.gauge_conditions.is_empty());
}
