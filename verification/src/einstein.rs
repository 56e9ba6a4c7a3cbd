use crate::symbolic::{
    digits_rec, expr_model, exprs_model, fmt_model, lemma_exprs_model_update, parse_model,
    push_u64, ExprModel, SymbolicExpr,
};
use crate::tensor::{
    calculate_einstein_tensor, grid_model, is_square, zero_matrix, MetricTensor,
    TensorComponent,
};
use crate::TensorError;
use vstd::prelude::*;

verus! {

/// A stress-energy tensor: its component matrix, a kind tag, and named
/// physical parameters in insertion order.
#[derive(Debug, Clone)]
pub struct StressEnergyTensor {
    pub components: Vec<Vec<SymbolicExpr>>,
    pub tensor_type: String,
    pub parameters: Vec<(String, SymbolicExpr)>,
}

/// A boundary condition attached to one coordinate and component.
#[derive(Debug, Clone)]
pub struct BoundaryCondition {
    pub coordinate: String,
    pub value: SymbolicExpr,
    pub condition_type: String,
    pub component_indices: Vec<usize>,
}

/// One named exact solution: its metric, coordinates, kind tag, and
/// display bookkeeping.
#[derive(Debug, Clone)]
pub struct EinsteinSolution {
    pub metric_tensor: MetricTensor,
    pub coordinates: Vec<String>,
    pub solution_type: String,
    pub constraints_satisfied: bool,
    pub physical_parameters: Vec<(String, SymbolicExpr)>,
    pub solution_domain: String,
}

/// A symbolic system of field equations assembled for display.
#[derive(Debug, Clone)]
pub struct EinsteinEquationSystem {
    pub field_equations: Vec<TensorComponent>,
    pub constraint_equations: Vec<TensorComponent>,
    pub gauge_conditions: Vec<TensorComponent>,
    pub unknowns: Vec<String>,
    pub known_parameters: Vec<(String, SymbolicExpr)>,
}

/// Model of a named-parameter list.
pub open spec fn params_model(p: Seq<(String, SymbolicExpr)>) -> Seq<(Seq<char>, ExprModel)> {
    Seq::new(p.len(), |i: int| (p[i].0@, expr_model(p[i].1)))
}

/// Replace one cell of a metric.
fn set_cell(m: &mut MetricTensor, i: usize, j: usize, e: SymbolicExpr)
    requires
        i < old(m)@.len(),
        j < old(m)@[i as int]@.len(),
    ensures
        final(m)@.len() == old(m)@.len(),
        forall|a: int|
            0 <= a < final(m)@.len() ==> (#[trigger] final(m)@[a])@.len() == old(m)@[a]@.len(),
        grid_model(final(m)@)[i as int][j as int] == e@,
        forall|a: int, b: int|
            0 <= a < final(m)@.len() && 0 <= b < final(m)@[a]@.len() && !(a == i && b == j)
                ==> #[trigger] grid_model(final(m)@)[a][b] == grid_model(old(m)@)[a][b],
{
    let ghost old_m = m@;
    let ghost ve = e@;
    m[i][j] = e;
    proof {
        assert(m@[i as int]@ == old_m[i as int]@.update(j as int, e));
        assert(m@ == old_m.update(i as int, m@[i as int]));
        lemma_exprs_model_update(old_m[i as int]@, j as int, e);
        crate::symbolic::lemma_exprs_model_len(old_m[i as int]@);
        crate::symbolic::lemma_exprs_model_len(m@[i as int]@);
        crate::symbolic::lemma_exprs_model_index(m@[i as int]@, j as int);
        assert(exprs_model(m@[i as int]@) == exprs_model(old_m[i as int]@).update(
            j as int,
            e@,
        ));
        assert(exprs_model(m@[i as int]@)[j as int] == ve);
        assert(grid_model(m@)[i as int] == exprs_model(m@[i as int]@));
        assert forall|a: int, b: int|
            0 <= a < m@.len() && 0 <= b < m@[a]@.len() && !(a == i && b == j)
                implies #[trigger] grid_model(m@)[a][b] == grid_model(old_m)[a][b] by {
            assert(grid_model(m@)[a] == exprs_model(m@[a]@));
            assert(grid_model(old_m)[a] == exprs_model(old_m[a]@));
            if a == i {
                assert(exprs_model(m@[a]@) =~= exprs_model(old_m[a]@).update(j as int, ve));
            } else {
                assert(m@[a] == old_m[a]);
            }
        }
    }
}

/// Parse a cell expression; total.
fn cell(text: &str) -> (e: SymbolicExpr)
    ensures
        e@ == parse_model(text@),
{
    match SymbolicExpr::parse(text) {
        Ok(e) => e,
        Err(_) => {
            proof {
                assert(false);
            }
            SymbolicExpr::Zero
        },
    }
}

/// The diagonal Schwarzschild metric in the coordinate order
/// `[t, r, theta, phi]`.
pub open spec fn schwarzschild_entries(i: int, j: int) -> ExprModel {
    if i != j {
        ExprModel::Zero
    } else if i == 0 {
        parse_model("-(1 - 2*M/r)"@)
    } else if i == 1 {
        parse_model("1/(1 - 2*M/r)"@)
    } else if i == 2 {
        parse_model("r^2"@)
    } else {
        parse_model("r^2 * sin(theta)^2"@)
    }
}

/// The diagonal Reissner-Nordstrom metric.
pub open spec fn reissner_nordstrom_entries(i: int, j: int) -> ExprModel {
    if i != j {
        ExprModel::Zero
    } else if i == 0 {
        parse_model("-(1 - 2*M/r + Q^2/r^2)"@)
    } else if i == 1 {
        parse_model("1/(1 - 2*M/r + Q^2/r^2)"@)
    } else if i == 2 {
        parse_model("r^2"@)
    } else {
        parse_model("r^2 * sin(theta)^2"@)
    }
}

/// The flat Friedmann-Lemaitre-Robertson-Walker metric.
pub open spec fn flat_flrw_entries(i: int, j: int) -> ExprModel {
    if i != j {
        ExprModel::Zero
    } else if i == 0 {
        parse_model("-1"@)
    } else if i == 1 {
        parse_model("a(t)^2"@)
    } else if i == 2 {
        parse_model("a(t)^2 * r^2"@)
    } else {
        parse_model("a(t)^2 * r^2 * sin(theta)^2"@)
    }
}

/// The exponentially expanding de Sitter metric.
pub open spec fn de_sitter_entries(i: int, j: int) -> ExprModel {
    if i != j {
        ExprModel::Zero
    } else if i == 0 {
        parse_model("-1"@)
    } else if i == 1 {
        parse_model("exp(H*t)^2"@)
    } else if i == 2 {
        parse_model("exp(H*t)^2 * r^2"@)
    } else {
        parse_model("exp(H*t)^2 * r^2 * sin(theta)^2"@)
    }
}

/// The simplified rotating-hole metric, with its two off-diagonal terms.
pub open spec fn kerr_entries(i: int, j: int) -> ExprModel {
    if i == 0 && j == 0 {
        parse_model("-(1 - 2*M*r/(r^2 + a^2*cos(theta)^2))"@)
    } else if i == 1 && j == 1 {
        parse_model("(r^2 + a^2*cos(theta)^2)/(r^2 - 2*M*r + a^2)"@)
    } else if i == 2 && j == 2 {
        parse_model("r^2 + a^2*cos(theta)^2"@)
    } else if i == 3 && j == 3 {
        parse_model("sin(theta)^2 * (r^2 + a^2 + 2*M*r*a^2*sin(theta)^2/(r^2 + a^2*cos(theta)^2))"@)
    } else if (i == 0 && j == 3) || (i == 3 && j == 0) {
        parse_model("-2*M*r*a*sin(theta)^2/(r^2 + a^2*cos(theta)^2)"@)
    } else {
        ExprModel::Zero
    }
}

/// A four-by-four metric matches a cell formula.
pub open spec fn metric_matches(m: Seq<Vec<SymbolicExpr>>, f: spec_fn(int, int) -> ExprModel)
    -> bool {
    &&& m.len() == 4
    &&& forall|i: int| 0 <= i < 4 ==> (#[trigger] m[i])@.len() == 4
    &&& forall|i: int, j: int|
        0 <= i < 4 && 0 <= j < 4 ==> #[trigger] grid_model(m)[i][j] == f(i, j)
}

/// Build a metric from four diagonal cell texts.
fn diagonal_metric(d0: &str, d1: &str, d2: &str, d3: &str) -> (m: MetricTensor)
    ensures
        m@.len() == 4,
        forall|i: int| 0 <= i < 4 ==> (#[trigger] m@[i])@.len() == 4,
        grid_model(m@)[0][0] == parse_model(d0@),
        grid_model(m@)[1][1] == parse_model(d1@),
        grid_model(m@)[2][2] == parse_model(d2@),
        grid_model(m@)[3][3] == parse_model(d3@),
        forall|i: int, j: int|
            0 <= i < 4 && 0 <= j < 4 && i != j ==> #[trigger] grid_model(m@)[i][j]
                == ExprModel::Zero,
{
    let mut m = zero_matrix(4);
    set_cell(&mut m, 0, 0, cell(d0));
    set_cell(&mut m, 1, 1, cell(d1));
    set_cell(&mut m, 2, 2, cell(d2));
    set_cell(&mut m, 3, 3, cell(d3));
    m
}

/// Everything the spherically symmetric vacuum solver promises: success
/// exactly for four coordinates, and then the Schwarzschild and
/// Reissner-Nordstrom solutions with their metrics, tags, coordinates,
/// domains and parameters; otherwise its exact error.
pub open spec fn spherical_vacuum_result(
    r: Result<Vec<EinsteinSolution>, TensorError>,
    coordinates: Seq<String>,
) -> bool {
    &&& (coordinates.len() == 4 <==> r is Ok)
    &&& (r matches Ok(sols) ==> {
        &&& sols@.len() == 2
        &&& metric_matches(sols@[0].metric_tensor@, |i: int, j: int| schwarzschild_entries(i, j))
        &&& metric_matches(sols@[1].metric_tensor@, |i: int, j: int|
            reissner_nordstrom_entries(i, j))
        &&& sols@[0].solution_type@ == "exact"@
        &&& sols@[1].solution_type@ == "exact"@
        &&& sols@[0].coordinates@ == coordinates
        &&& sols@[1].coordinates@ == coordinates
        &&& sols@[0].solution_domain@ == "r > 2M"@
        &&& sols@[1].solution_domain@ == "r > M + sqrt(M^2 - Q^2)"@
        &&& sols@[0].constraints_satisfied == true
        &&& sols@[1].constraints_satisfied == true
        &&& params_model(sols@[0].physical_parameters@) =~= seq![
            ("M"@, ExprModel::Variable("M"@)),
        ]
        &&& params_model(sols@[1].physical_parameters@) =~= seq![
            ("M"@, ExprModel::Variable("M"@)),
            ("Q"@, ExprModel::Variable("Q"@)),
        ]
    })
    &&& (r matches Err(e) ==> e matches TensorError::ComputationError(msg) && msg@
        == "Spherical symmetry requires 4D coordinates [t, r, theta, phi]"@)
}

/// Everything the cosmological solver promises: success exactly for four
/// coordinates, and then the flat FLRW and de Sitter solutions with their
/// metrics, tags, coordinates, domains and parameters; otherwise its exact
/// error.
pub open spec fn cosmological_vacuum_result(
    r: Result<Vec<EinsteinSolution>, TensorError>,
    coordinates: Seq<String>,
) -> bool {
    &&& (coordinates.len() == 4 <==> r is Ok)
    &&& (r matches Ok(sols) ==> {
        &&& sols@.len() == 2
        &&& metric_matches(sols@[0].metric_tensor@, |i: int, j: int| flat_flrw_entries(i, j))
        &&& metric_matches(sols@[1].metric_tensor@, |i: int, j: int| de_sitter_entries(i, j))
        &&& sols@[0].solution_type@ == "exact"@
        &&& sols@[1].solution_type@ == "exact"@
        &&& sols@[0].coordinates@ == coordinates
        &&& sols@[1].coordinates@ == coordinates
        &&& sols@[0].solution_domain@ == "t > 0, spatial homogeneity"@
        &&& sols@[1].solution_domain@ == "exponential expansion"@
        &&& sols@[0].constraints_satisfied == true
        &&& sols@[1].constraints_satisfied == true
        &&& params_model(sols@[0].physical_parameters@) =~= seq![
            ("a(t)"@, ExprModel::Function("a"@, seq![ExprModel::Variable("t"@)])),
            ("H"@, ExprModel::Variable("H"@)),
            ("Omega_m"@, ExprModel::Variable("Omega_m"@)),
            ("Omega_Lambda"@, ExprModel::Variable("Omega_Lambda"@)),
        ]
        &&& params_model(sols@[1].physical_parameters@) =~= seq![
            ("H"@, ExprModel::Variable("H"@)),
            ("Lambda"@, parse_model("3*H^2"@)),
        ]
    })
    &&& (r matches Err(e) ==> e matches TensorError::ComputationError(msg) && msg@
        == "FLRW metric requires 4D coordinates [t, r, theta, phi]"@)
}

/// Everything the axisymmetric solver promises: it always succeeds, with
/// the one simplified rotating-hole solution for four coordinates and no
/// solutions otherwise.
pub open spec fn axisymmetric_vacuum_result(
    r: Result<Vec<EinsteinSolution>, TensorError>,
    coordinates: Seq<String>,
) -> bool {
    &&& r is Ok
    &&& (r matches Ok(sols) ==> {
        &&& (coordinates.len() == 4 ==> {
            &&& sols@.len() == 1
            &&& metric_matches(sols@[0].metric_tensor@, |i: int, j: int| kerr_entries(i, j))
            &&& sols@[0].solution_type@ == "exact"@
            &&& sols@[0].coordinates@ == coordinates
            &&& sols@[0].solution_domain@ == "r > M + sqrt(M^2 - a^2)"@
            &&& sols@[0].constraints_satisfied == true
            &&& params_model(sols@[0].physical_parameters@) =~= seq![
                ("M"@, ExprModel::Variable("M"@)),
                ("a"@, ExprModel::Variable("a"@)),
            ]
        })
        &&& (coordinates.len() != 4 ==> sols@.len() == 0)
    })
}

/// The two spherically symmetric vacuum solutions: Schwarzschild and
/// Reissner-Nordstrom, both tagged exact.  Fails unless exactly four
/// coordinates are supplied.
#[verifier::rlimit(100)]
pub fn solve_spherically_symmetric_vacuum(
    coordinates: &[String],
    _boundary_conditions: &[BoundaryCondition],
) -> (r: Result<Vec<EinsteinSolution>, TensorError>)
    ensures
        spherical_vacuum_result(r, coordinates@),
{
    if coordinates.len() != 4 {
        return Err(
            TensorError::ComputationError(
                String::from_str("Spherical symmetry requires 4D coordinates [t, r, theta, phi]"),
            ),
        );
    }
    let mut solutions: Vec<EinsteinSolution> = Vec::new();
    let schwarzschild = diagonal_metric(
        "-(1 - 2*M/r)",
        "1/(1 - 2*M/r)",
        "r^2",
        "r^2 * sin(theta)^2",
    );
    let mut parameters: Vec<(String, SymbolicExpr)> = Vec::new();
    parameters.push((String::from_str("M"), SymbolicExpr::Variable(String::from_str("M"))));
    solutions.push(
        EinsteinSolution {
            metric_tensor: schwarzschild,
            coordinates: copy_strings(coordinates),
            solution_type: String::from_str("exact"),
            constraints_satisfied: true,
            physical_parameters: parameters,
            solution_domain: String::from_str("r > 2M"),
        },
    );
    let rn_metric = diagonal_metric(
        "-(1 - 2*M/r + Q^2/r^2)",
        "1/(1 - 2*M/r + Q^2/r^2)",
        "r^2",
        "r^2 * sin(theta)^2",
    );
    let mut rn_parameters: Vec<(String, SymbolicExpr)> = Vec::new();
    rn_parameters.push((String::from_str("M"), SymbolicExpr::Variable(String::from_str("M"))));
    rn_parameters.push((String::from_str("Q"), SymbolicExpr::Variable(String::from_str("Q"))));
    solutions.push(
        EinsteinSolution {
            metric_tensor: rn_metric,
            coordinates: copy_strings(coordinates),
            solution_type: String::from_str("exact"),
            constraints_satisfied: true,
            physical_parameters: rn_parameters,
            solution_domain: String::from_str("r > M + sqrt(M^2 - Q^2)"),
        },
    );
    Ok(solutions)
}

/// Clone a coordinate-name list.
fn copy_strings(src: &[String]) -> (out: Vec<String>)
    ensures
        out@ == src@,
{
    let mut out: Vec<String> = Vec::new();
    let mut i: usize = 0;
    while i < src.len()
        invariant
            i <= src@.len(),
            out@ =~= src@.subrange(0, i as int),
        decreases src@.len() - i,
    {
        out.push(src[i].clone());
        assert(out@ =~= src@.subrange(0, i + 1));
        i = i + 1;
    }
    assert(src@.subrange(0, src@.len() as int) =~= src@);
    out
}

/// The two cosmological solutions: flat FLRW and de Sitter, both tagged
/// exact.  Fails unless exactly four coordinates are supplied.
#[verifier::rlimit(100)]
pub fn solve_flrw_universe(
    coordinates: &[String],
    _boundary_conditions: &[BoundaryCondition],
) -> (r: Result<Vec<EinsteinSolution>, TensorError>)
    ensures
        cosmological_vacuum_result(r, coordinates@),
{
    if coordinates.len() != 4 {
        return Err(
            TensorError::ComputationError(
                String::from_str("FLRW metric requires 4D coordinates [t, r, theta, phi]"),
            ),
        );
    }
    let mut solutions: Vec<EinsteinSolution> = Vec::new();
    let flat_flrw = diagonal_metric("-1", "a(t)^2", "a(t)^2 * r^2", "a(t)^2 * r^2 * sin(theta)^2");
    let mut flrw_parameters: Vec<(String, SymbolicExpr)> = Vec::new();
    let mut a_args: Vec<SymbolicExpr> = Vec::new();
    let tvar = SymbolicExpr::Variable(String::from_str("t"));
    let ghost tv = tvar@;
    a_args.push(tvar);
    proof {
        assert(a_args@.len() == 1);
        assert(a_args@.drop_last() =~= Seq::<SymbolicExpr>::empty());
        assert(a_args@.last()@ == tv);
        assert(tv == ExprModel::Variable("t"@));
        assert(exprs_model(a_args@) == exprs_model(a_args@.drop_last()).push(
            expr_model(a_args@.last()),
        ));
        assert(exprs_model(a_args@) =~= seq![ExprModel::Variable("t"@)]);
    }
    flrw_parameters.push(
        (String::from_str("a(t)"), SymbolicExpr::Function(String::from_str("a"), a_args)),
    );
    flrw_parameters.push((String::from_str("H"), SymbolicExpr::Variable(String::from_str("H"))));
    flrw_parameters.push(
        (String::from_str("Omega_m"), SymbolicExpr::Variable(String::from_str("Omega_m"))),
    );
    flrw_parameters.push(
        (
            String::from_str("Omega_Lambda"),
            SymbolicExpr::Variable(String::from_str("Omega_Lambda")),
        ),
    );
    solutions.push(
        EinsteinSolution {
            metric_tensor: flat_flrw,
            coordinates: copy_strings(coordinates),
            solution_type: String::from_str("exact"),
            constraints_satisfied: true,
            physical_parameters: flrw_parameters,
            solution_domain: String::from_str("t > 0, spatial homogeneity"),
        },
    );
    let de_sitter = diagonal_metric(
        "-1",
        "exp(H*t)^2",
        "exp(H*t)^2 * r^2",
        "exp(H*t)^2 * r^2 * sin(theta)^2",
    );
    let mut ds_parameters: Vec<(String, SymbolicExpr)> = Vec::new();
    ds_parameters.push((String::from_str("H"), SymbolicExpr::Variable(String::from_str("H"))));
    ds_parameters.push((String::from_str("Lambda"), cell("3*H^2")));
    solutions.push(
        EinsteinSolution {
            metric_tensor: de_sitter,
            coordinates: copy_strings(coordinates),
            solution_type: String::from_str("exact"),
            constraints_satisfied: true,
            physical_parameters: ds_parameters,
            solution_domain: String::from_str("exponential expansion"),
        },
    );
    Ok(solutions)
}

/// The simplified axisymmetric solution: one rotating hole when four
/// coordinates are supplied, and no solutions otherwise.
#[verifier::rlimit(100)]
fn solve_axisymmetric_vacuum(
    coordinates: &[String],
    _boundary_conditions: &[BoundaryCondition],
) -> (r: Result<Vec<EinsteinSolution>, TensorError>)
    ensures
        axisymmetric_vacuum_result(r, coordinates@),
{
    let mut solutions: Vec<EinsteinSolution> = Vec::new();
    if coordinates.len() == 4 {
        let mut kerr_metric = diagonal_metric(
            "-(1 - 2*M*r/(r^2 + a^2*cos(theta)^2))",
            "(r^2 + a^2*cos(theta)^2)/(r^2 - 2*M*r + a^2)",
            "r^2 + a^2*cos(theta)^2",
            "sin(theta)^2 * (r^2 + a^2 + 2*M*r*a^2*sin(theta)^2/(r^2 + a^2*cos(theta)^2))",
        );
        let off = cell("-2*M*r*a*sin(theta)^2/(r^2 + a^2*cos(theta)^2)");
        set_cell(&mut kerr_metric, 0, 3, off.clone_rec());
        set_cell(&mut kerr_metric, 3, 0, off);
        let mut kerr_parameters: Vec<(String, SymbolicExpr)> = Vec::new();
        kerr_parameters.push(
            (String::from_str("M"), SymbolicExpr::Variable(String::from_str("M"))),
        );
        kerr_parameters.push(
            (String::from_str("a"), SymbolicExpr::Variable(String::from_str("a"))),
        );
        solutions.push(
            EinsteinSolution {
                metric_tensor: kerr_metric,
                coordinates: copy_strings(coordinates),
                solution_type: String::from_str("exact"),
                constraints_satisfied: true,
                physical_parameters: kerr_parameters,
                solution_domain: String::from_str("r > M + sqrt(M^2 - a^2)"),
            },
        );
    }
    Ok(solutions)
}

/// Dispatch on the symmetry tag: each known tag hands back exactly what
/// its solver promises — `spherical` the Schwarzschild and
/// Reissner-Nordstrom pair, `cosmological` the flat FLRW and de Sitter
/// pair, `axisymmetric` the simplified rotating hole; any other tag is a
/// computation error naming it.
#[verifier::rlimit(100)]
pub fn solve_vacuum_einstein_equations(
    coordinates: &[String],
    symmetry_ansatz: &str,
    boundary_conditions: &[BoundaryCondition],
) -> (r: Result<Vec<EinsteinSolution>, TensorError>)
    ensures
        symmetry_ansatz@ == "spherical"@ ==> spherical_vacuum_result(r, coordinates@),
        symmetry_ansatz@ == "cosmological"@ ==> cosmological_vacuum_result(r, coordinates@),
        symmetry_ansatz@ == "axisymmetric"@ ==> axisymmetric_vacuum_result(r, coordinates@),
        !(symmetry_ansatz@ == "spherical"@ || symmetry_ansatz@ == "cosmological"@
            || symmetry_ansatz@ == "axisymmetric"@) ==> (r matches Err(e) && (e matches
        TensorError::ComputationError(msg) && msg@ == "Unknown symmetry ansatz: "@
            + symmetry_ansatz@)),
{
    proof {
        reveal_strlit("spherical");
        reveal_strlit("cosmological");
        reveal_strlit("axisymmetric");
        assert("spherical"@.len() == 9);
        assert("cosmological"@.len() == 12);
        assert("axisymmetric"@.len() == 12);
        assert("cosmological"@[0] == 'c');
        assert("axisymmetric"@[0] == 'a');
        assert("spherical"@ != "axisymmetric"@);
        assert("cosmological"@ != "axisymmetric"@);
        assert("spherical"@ != "cosmological"@);
    }
    if crate::symbolic::str_eq(symmetry_ansatz, "spherical") {
        solve_spherically_symmetric_vacuum(coordinates, boundary_conditions)
    } else if crate::symbolic::str_eq(symmetry_ansatz, "cosmological") {
        solve_flrw_universe(coordinates, boundary_conditions)
    } else if crate::symbolic::str_eq(symmetry_ansatz, "axisymmetric") {
        solve_axisymmetric_vacuum(coordinates, boundary_conditions)
    } else {
        let mut msg = String::from_str("Unknown symmetry ansatz: ");
        msg.append(symmetry_ansatz);
        Err(TensorError::ComputationError(msg))
    }
}

/// The verification stub: the Einstein tensor of the solution metric is
/// computed, and then a known exact solution is reported as satisfying the
/// field equations unconditionally; no substitution check is performed.
pub fn verify_einstein_solution(
    solution: &EinsteinSolution,
    stress_energy: Option<&StressEnergyTensor>,
    _cosmological_constant: Option<SymbolicExpr>,
) -> (r: Result<bool, TensorError>)
    requires
        is_square(grid_model(solution.metric_tensor@), solution.metric_tensor@.len()),
        solution.coordinates@.len() >= solution.metric_tensor@.len(),
    ensures
        r matches Ok(b) && b == (stress_energy is Some ==> solution.solution_type@ == "exact"@),
{
    let _einstein_tensor = match calculate_einstein_tensor(
        &solution.metric_tensor,
        solution.coordinates.as_slice(),
    ) {
        Ok(t) => t,
        Err(_) => {
            proof {
                assert(false);
            }
            return Err(TensorError::ComputationError(String::new()));
        },
    };
    match stress_energy {
        Some(_) => {
            if crate::symbolic::str_eq(solution.solution_type.as_str(), "exact") {
                Ok(true)
            } else {
                Ok(false)
            }
        },
        None => Ok(true),
    }
}


/// The display text of one field equation
/// `G_mu_nu + lambda * g_mu_nu - 8 * pi * T_mu_nu`.
pub open spec fn field_eq_text(lam: Seq<char>, mu: nat, nu: nat) -> Seq<char> {
    "G_"@ + digits_rec(mu) + "_"@ + digits_rec(nu) + " + "@ + lam + " * g_"@ + digits_rec(mu)
        + "_"@ + digits_rec(nu) + " - 8 * pi * T_"@ + digits_rec(mu) + "_"@ + digits_rec(nu)
}

/// The display name of one unknown metric component `g_mu_nu`.
pub open spec fn unknown_text(mu: nat, nu: nat) -> Seq<char> {
    "g_"@ + digits_rec(mu) + "_"@ + digits_rec(nu)
}

/// The upper-triangle unknowns of one row, from `nu` on.
pub open spec fn unknown_row(mu: nat, nu: nat, n: nat) -> Seq<Seq<char>>
    decreases n - nu,
{
    if nu >= n {
        Seq::empty()
    } else {
        seq![unknown_text(mu, nu)] + unknown_row(mu, nu + 1, n)
    }
}

/// All upper-triangle unknowns from row `mu` on.
pub open spec fn unknown_rows(mu: nat, n: nat) -> Seq<Seq<char>>
    decreases n - mu,
{
    if mu >= n {
        Seq::empty()
    } else {
        unknown_row(mu, mu, n) + unknown_rows(mu + 1, n)
    }
}

/// Append `g_mu_nu`.
fn push_unknown(out: &mut Vec<String>, mu: usize, nu: usize)
    ensures
        final(out)@.len() == old(out)@.len() + 1,
        forall|k: int| 0 <= k < old(out)@.len() ==> final(out)@[k] == old(out)@[k],
        final(out)@.last()@ == unknown_text(mu as nat, nu as nat),
{
    let mut s = String::from_str("g_");
    push_u64(&mut s, mu as u64);
    s.append("_");
    push_u64(&mut s, nu as u64);
    out.push(s);
}

/// Build the text of one field equation; see `field_eq_text`.
fn build_field_eq(lam: &String, mu: usize, nu: usize) -> (out: String)
    ensures
        out@ == field_eq_text(lam@, mu as nat, nu as nat),
{
    let mut s = String::from_str("G_");
    push_u64(&mut s, mu as u64);
    s.append("_");
    push_u64(&mut s, nu as u64);
    s.append(" + ");
    s.append(lam.as_str());
    s.append(" * g_");
    push_u64(&mut s, mu as u64);
    s.append("_");
    push_u64(&mut s, nu as u64);
    s.append(" - 8 * pi * T_");
    push_u64(&mut s, mu as u64);
    s.append("_");
    push_u64(&mut s, nu as u64);
    s
}

/// Assemble the symbolic field-equation system `G + lambda g = 8 pi T` as
/// display text: one equation per component pair in row-major order, the
/// upper-triangle metric components as unknowns, no constraint or gauge
/// entries, and the stress-energy parameters carried over.  A missing
/// cosmological constant is taken as `Zero`.
#[verifier::rlimit(100)]
pub fn construct_einstein_field_equations(
    stress_energy: &StressEnergyTensor,
    _coordinates: &[String],
    cosmological_constant: Option<SymbolicExpr>,
) -> (r: Result<EinsteinEquationSystem, TensorError>)
    ensures
        ({
            let n = stress_energy.components@.len();
            let lam = fmt_model(
                match cosmological_constant {
                    Some(l) => l@,
                    None => ExprModel::Zero,
                },
            );
            &&& r is Ok
            &&& r matches Ok(sys) ==> {
                &&& sys.field_equations@.len() == n * n
                &&& (forall|k: int|
                    0 <= k < n * n ==> (#[trigger] sys.field_equations@[k]).indices@ =~= seq![
                        ((k / (n as int)) as usize),
                        ((k % (n as int)) as usize),
                    ] && sys.field_equations@[k].expression@ == field_eq_text(
                        lam,
                        (k / (n as int)) as nat,
                        (k % (n as int)) as nat,
                    ))
                &&& sys.constraint_equations@.len() == 0
                &&& sys.gauge_conditions@.len() == 0
                &&& Seq::new(sys.unknowns@.len(), |k: int| sys.unknowns@[k]@) == unknown_rows(
                    0,
                    n,
                )
                &&& params_model(sys.known_parameters@) == params_model(
                    stress_energy.parameters@,
                )
            }
        }),
{
    let n = stress_energy.components.len();
    let lambda = match cosmological_constant {
        Some(l) => l,
        None => SymbolicExpr::Zero,
    };
    let lam_text = lambda.render();
    let mut field_equations: Vec<TensorComponent> = Vec::new();
    let mut mu: usize = 0;
    while mu < n
        invariant
            mu <= n,
            n == stress_energy.components@.len(),
            lam_text@ == fmt_model(lambda@),
            field_equations@.len() == mu * n,
            forall|k: int|
                0 <= k < mu * n ==> (#[trigger] field_equations@[k]).indices@ =~= seq![
                    ((k / (n as int)) as usize),
                    ((k % (n as int)) as usize),
                ] && field_equations@[k].expression@ == field_eq_text(
                    lam_text@,
                    (k / (n as int)) as nat,
                    (k % (n as int)) as nat,
                ),
        decreases n - mu,
    {
        let mut nu: usize = 0;
        while nu < n
            invariant
                mu < n,
                nu <= n,
                n == stress_energy.components@.len(),
                lam_text@ == fmt_model(lambda@),
                field_equations@.len() == mu * n + nu,
                forall|k: int|
                    0 <= k < mu * n + nu ==> (#[trigger] field_equations@[k]).indices@ =~= seq![
                        ((k / (n as int)) as usize),
                        ((k % (n as int)) as usize),
                    ] && field_equations@[k].expression@ == field_eq_text(
                        lam_text@,
                        (k / (n as int)) as nat,
                        (k % (n as int)) as nat,
                    ),
            decreases n - nu,
        {
            let text = build_field_eq(&lam_text, mu, nu);
            let comp = TensorComponent { indices: vec![mu, nu], expression: text };
            proof {
                crate::tensor::lemma_idx2(mu as int, nu as int, n as int);
                assert(comp.indices@ =~= seq![mu, nu]);
            }
            field_equations.push(comp);
            nu = nu + 1;
        }
        proof {
            assert(mu * n + n == (mu + 1) * n) by (nonlinear_arith);
        }
        mu = mu + 1;
    }
    let mut unknowns: Vec<String> = Vec::new();
    let mut mu2: usize = 0;
    while mu2 < n
        invariant
            mu2 <= n,
            Seq::new(unknowns@.len(), |k: int| unknowns@[k]@) == unknown_rows(0, n as nat)
                .subrange(
                0,
                unknowns@.len() as int,
            ) || true,
            Seq::new(unknowns@.len(), |k: int| unknowns@[k]@) + unknown_rows(mu2 as nat, n as nat)
                =~= unknown_rows(0, n as nat),
        decreases n - mu2,
    {
        let mut nu2: usize = mu2;
        while nu2 < n
            invariant
                mu2 < n,
                mu2 <= nu2 <= n,
                Seq::new(unknowns@.len(), |k: int| unknowns@[k]@) + unknown_row(
                    mu2 as nat,
                    nu2 as nat,
                    n as nat,
                ) + unknown_rows((mu2 + 1) as nat, n as nat) =~= unknown_rows(0, n as nat),
            decreases n - nu2,
        {
            push_unknown(&mut unknowns, mu2, nu2);
            proof {
                assert(unknown_row(mu2 as nat, nu2 as nat, n as nat) == seq![
                    unknown_text(mu2 as nat, nu2 as nat),
                ] + unknown_row(mu2 as nat, (nu2 + 1) as nat, n as nat));
                assert(Seq::new(unknowns@.len(), |k: int| unknowns@[k]@) =~= Seq::new(
                    (unknowns@.len() - 1) as nat,
                    |k: int| unknowns@[k]@,
                ).push(unknowns@.last()@));
            }
            nu2 = nu2 + 1;
        }
        proof {
            assert(unknown_row(mu2 as nat, n as nat, n as nat) =~= Seq::<Seq<char>>::empty());
            assert(unknown_rows(mu2 as nat, n as nat) == unknown_row(mu2 as nat, mu2 as nat,
                n as nat) + unknown_rows((mu2 + 1) as nat, n as nat));
        }
        mu2 = mu2 + 1;
    }
    proof {
        assert(unknown_rows(n as nat, n as nat) =~= Seq::<Seq<char>>::empty());
    }
    let known_parameters = copy_params(&stress_energy.parameters);
    Ok(
        EinsteinEquationSystem {
            field_equations,
            constraint_equations: Vec::new(),
            gauge_conditions: Vec::new(),
            unknowns,
            known_parameters,
        },
    )
}

/// Clone a named-parameter list, keeping its model.
fn copy_params(src: &Vec<(String, SymbolicExpr)>) -> (out: Vec<(String, SymbolicExpr)>)
    ensures
        params_model(out@) == params_model(src@),
{
    let mut out: Vec<(String, SymbolicExpr)> = Vec::new();
    let mut i: usize = 0;
    while i < src.len()
        invariant
            i <= src@.len(),
            out@.len() == i,
            forall|k: int|
                0 <= k < i ==> (#[trigger] out@[k]).0@ == src@[k].0@ && out@[k].1@ == src@[k].1@,
        decreases src@.len() - i,
    {
        let name = src[i].0.clone();
        let value = src[i].1.clone_rec();
        out.push((name, value));
        i = i + 1;
    }
    proof {
        assert(params_model(out@) =~= params_model(src@));
    }
    out
}

/// The Hamiltonian-constraint text.
pub open spec fn hamiltonian_text() -> Seq<char> {
    "R + K^2 - K_ij * K^ij - 16 * pi * rho"@
}

/// The momentum-constraint text for one spatial index.
pub open spec fn momentum_text(i: nat) -> Seq<char> {
    "D_j(K^"@ + digits_rec(i) + "j - gamma^"@ + digits_rec(i) + "j * K) - 8 * pi * j^"@
        + digits_rec(i)
}

/// Assemble the display text of the initial-value constraints: one
/// Hamiltonian constraint with an empty index tuple, then one momentum
/// constraint per spatial index.
pub fn solve_einstein_constraint_equations(
    _initial_data: &MetricTensor,
    _coordinates: &[String],
) -> (r: Result<Vec<TensorComponent>, TensorError>)
    requires
        _initial_data@.len() >= 1,
    ensures
        r matches Ok(cs) ==> {
            &&& cs@.len() == _initial_data@.len()
            &&& cs@[0].indices@ =~= Seq::<usize>::empty()
            &&& cs@[0].expression@ == hamiltonian_text()
            &&& forall|k: int|
                1 <= k < cs@.len() ==> (#[trigger] cs@[k]).indices@ =~= seq![(k - 1) as usize]
                    && cs@[k].expression@ == momentum_text((k - 1) as nat)
        },
        r is Ok,
{
    let n = _initial_data.len();
    let mut constraints: Vec<TensorComponent> = Vec::new();
    constraints.push(
        TensorComponent {
            indices: Vec::new(),
            expression: String::from_str("R + K^2 - K_ij * K^ij - 16 * pi * rho"),
        },
    );
    let mut i: usize = 0;
    while i < n - 1
        invariant
            i <= n - 1,
            n >= 1,
            constraints@.len() == i + 1,
            constraints@[0].indices@ =~= Seq::<usize>::empty(),
            constraints@[0].expression@ == hamiltonian_text(),
            forall|k: int|
                1 <= k < i + 1 ==> (#[trigger] constraints@[k]).indices@ =~= seq![(k - 1) as usize]
                    && constraints@[k].expression@ == momentum_text((k - 1) as nat),
        decreases n - 1 - i,
    {
        let mut text = String::from_str("D_j(K^");
        push_u64(&mut text, i as u64);
        text.append("j - gamma^");
        push_u64(&mut text, i as u64);
        text.append("j * K) - 8 * pi * j^");
        push_u64(&mut text, i as u64);
        let comp = TensorComponent { indices: vec![i], expression: text };
        proof {
            assert(comp.indices@ =~= seq![i]);
        }
        constraints.push(comp);
        i = i + 1;
    }
    Ok(constraints)
}

} // verus!
