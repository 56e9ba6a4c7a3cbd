pub mod einstein;
pub mod scalar;
pub mod symbolic;
pub mod tensor;

pub use einstein::{
    construct_einstein_field_equations, solve_einstein_constraint_equations,
    solve_flrw_universe, solve_spherically_symmetric_vacuum, solve_vacuum_einstein_equations,
    verify_einstein_solution, BoundaryCondition, EinsteinEquationSystem, EinsteinSolution,
    StressEnergyTensor,
};
pub use scalar::Scalar;
pub use symbolic::SymbolicExpr;
pub use tensor::{
    calculate_christoffel_symbols, calculate_einstein_tensor, calculate_metric_inverse,
    calculate_ricci_scalar, calculate_ricci_tensor, calculate_riemann_tensor,
    parse_metric_tensor, ChristoffelResult, ChristoffelSymbols, MetricTensor, RiemannResult,
    RiemannTensor, TensorComponent,
};

use vstd::prelude::*;

verus! {

/// How an operation of this library fails.
#[derive(Debug, Clone, PartialEq)]
pub enum TensorError {
    /// The metric input is rejected, e.g. the matrix is not square.
    InvalidMetric(String),
    /// A computation cannot be carried out, e.g. an unknown symmetry tag.
    ComputationError(String),
}

impl TensorError {
    /// A human-readable description of the failure.
    pub fn message(&self) -> (r: &String)
        ensures
            r@ == self.text(),
    {
        match self {
            TensorError::InvalidMetric(s) => s,
            TensorError::ComputationError(s) => s,
        }
    }

    pub open spec fn text(&self) -> Seq<char> {
        match self {
            TensorError::InvalidMetric(s) => s@,
            TensorError::ComputationError(s) => s@,
        }
    }
}

} // verus!
