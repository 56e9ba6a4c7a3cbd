use crate::scalar::Scalar;
use crate::symbolic::{
    deriv_model, exprs_model, expr_model, fmt_model, is_ws_char, is_zero_model,
    lemma_exprs_model_index, lemma_exprs_model_len, parse_model, simp_model, trim_back,
    trim_front, trim_ws, ExprModel, SymbolicExpr,
};
use crate::TensorError;
use vstd::prelude::*;

verus! {

/// A metric: an `n` by `n` matrix of symbolic expressions.
pub type MetricTensor = Vec<Vec<SymbolicExpr>>;

/// Dense rank-3 connection coefficients.
pub type ChristoffelSymbols = Vec<Vec<Vec<SymbolicExpr>>>;

/// Dense rank-4 curvature components.
pub type RiemannTensor = Vec<Vec<Vec<Vec<SymbolicExpr>>>>;

/// One sparse tensor entry: its index tuple and its expression, rendered
/// as text.
#[derive(Debug, Clone, PartialEq)]
pub struct TensorComponent {
    pub indices: Vec<usize>,
    pub expression: String,
}

/// The nonzero Christoffel symbols of a metric.
#[derive(Debug, Clone, PartialEq)]
pub struct ChristoffelResult {
    pub symbols: Vec<TensorComponent>,
    pub dimension: usize,
}

/// A sparse list of tensor components with its dimension.
#[derive(Debug, Clone, PartialEq)]
pub struct RiemannResult {
    pub components: Vec<TensorComponent>,
    pub dimension: usize,
}

/// Model of one sparse component.
pub struct CompModel {
    pub indices: Seq<usize>,
    pub text: Seq<char>,
}

/// Model of a component list.
pub open spec fn comps_model(s: Seq<TensorComponent>) -> Seq<CompModel> {
    Seq::new(s.len(), |i: int| CompModel { indices: s[i].indices@, text: s[i].expression@ })
}

/// Model of a matrix of expressions.
pub open spec fn grid_model(m: Seq<Vec<SymbolicExpr>>) -> Seq<Seq<ExprModel>> {
    Seq::new(m.len(), |i: int| exprs_model(m[i]@))
}

/// Model of a coordinate-name list.
pub open spec fn coords_model(c: Seq<String>) -> Seq<Seq<char>> {
    Seq::new(c.len(), |i: int| c[i]@)
}

/// A square matrix of side `n`.
pub open spec fn is_square(g: Seq<Seq<ExprModel>>, n: nat) -> bool {
    g.len() == n && forall|i: int| 0 <= i < n ==> #[trigger] g[i].len() == n
}

/// The `n` by `n` identity, from the sentinels.
pub open spec fn identity_model(n: nat) -> Seq<Seq<ExprModel>> {
    Seq::new(n, |i: int| Seq::new(n, |j: int| if i == j {
        ExprModel::One
    } else {
        ExprModel::Zero
    }))
}

/// The symbolic inverse: the closed-form cofactor inverse for a two-by-two
/// metric, and the identity as an explicit placeholder for any other size.
pub open spec fn inverse_model(g: Seq<Seq<ExprModel>>) -> Seq<Seq<ExprModel>> {
    if g.len() == 2 {
        let det = ExprModel::Subtract(
            Box::new(ExprModel::Multiply(Box::new(g[0][0]), Box::new(g[1][1]))),
            Box::new(ExprModel::Multiply(Box::new(g[0][1]), Box::new(g[1][0]))),
        );
        let invdet = ExprModel::Divide(Box::new(ExprModel::One), Box::new(det));
        seq![
            seq![
                ExprModel::Multiply(Box::new(invdet), Box::new(g[1][1])),
                ExprModel::Multiply(
                    Box::new(invdet),
                    Box::new(ExprModel::Subtract(Box::new(ExprModel::Zero), Box::new(g[0][1]))),
                ),
            ],
            seq![
                ExprModel::Multiply(
                    Box::new(invdet),
                    Box::new(ExprModel::Subtract(Box::new(ExprModel::Zero), Box::new(g[1][0]))),
                ),
                ExprModel::Multiply(Box::new(invdet), Box::new(g[0][0])),
            ],
        ]
    } else {
        identity_model(g.len())
    }
}

/// Reading one cell of a matrix model.
pub proof fn lemma_grid_index(m: Seq<Vec<SymbolicExpr>>, i: int, j: int)
    requires
        0 <= i < m.len(),
        0 <= j < m[i]@.len(),
    ensures
        grid_model(m).len() == m.len(),
        grid_model(m)[i].len() == m[i]@.len(),
        grid_model(m)[i][j] == expr_model(m[i]@[j]),
{
    lemma_exprs_model_index(m[i]@, j);
}

/// Parse a matrix of strings into a metric.  Fails exactly when some row's
/// length differs from the number of rows; each cell is then parsed
/// independently and totally.
pub fn parse_metric_tensor(metric_strings: Vec<Vec<String>>, _coords: &[String]) -> (r: Result<
    MetricTensor,
    TensorError,
>)
    ensures
        ({
            let n = metric_strings@.len();
            let square = forall|i: int|
                0 <= i < n ==> (#[trigger] metric_strings@[i])@.len() == n;
            &&& (square <==> r is Ok)
            &&& (r matches Ok(m) ==> {
                &&& m@.len() == n
                &&& is_square(grid_model(m@), n)
                &&& forall|i: int, j: int|
                    0 <= i < n && 0 <= j < n ==> #[trigger] grid_model(m@)[i][j] == parse_model(
                        metric_strings@[i]@[j]@,
                    )
            })
            &&& (r matches Err(e) ==> e matches TensorError::InvalidMetric(msg) && msg@
                == "Metric tensor must be square"@)
        }),
{
    let n = metric_strings.len();
    let mut i: usize = 0;
    while i < n
        invariant
            i <= n,
            n == metric_strings@.len(),
            forall|k: int| 0 <= k < i ==> (#[trigger] metric_strings@[k])@.len() == n,
        decreases n - i,
    {
        if metric_strings[i].len() != n {
            return Err(
                TensorError::InvalidMetric(String::from_str("Metric tensor must be square")),
            );
        }
        i = i + 1;
    }
    let mut metric: MetricTensor = Vec::new();
    let mut r: usize = 0;
    while r < n
        invariant
            r <= n,
            n == metric_strings@.len(),
            metric@.len() == r,
            forall|k: int| 0 <= k < n ==> (#[trigger] metric_strings@[k])@.len() == n,
            forall|k: int| 0 <= k < r ==> (#[trigger] metric@[k])@.len() == n,
            forall|k: int, j: int|
                0 <= k < r && 0 <= j < n ==> #[trigger] exprs_model(metric@[k]@)[j]
                    == parse_model(metric_strings@[k]@[j]@),
        decreases n - r,
    {
        let mut row: Vec<SymbolicExpr> = Vec::new();
        let mut j: usize = 0;
        while j < n
            invariant
                j <= n,
                r < n,
                n == metric_strings@.len(),
                metric_strings@[r as int]@.len() == n,
                row@.len() == j,
                forall|k: int|
                    0 <= k < j ==> exprs_model(row@)[k] == parse_model(
                        metric_strings@[r as int]@[k]@,
                    ),
            decreases n - j,
        {
            let cell = match SymbolicExpr::parse(metric_strings[r][j].as_str()) {
                Ok(e) => e,
                Err(_) => {
                    proof {
                        assert(false);
                    }
                    SymbolicExpr::Zero
                },
            };
            let ghost old_row = row@;
            row.push(cell);
            proof {
                crate::symbolic::lemma_exprs_model_push(old_row, cell);
                lemma_exprs_model_len(old_row);
                lemma_exprs_model_len(row@);
                assert forall|k: int| 0 <= k < j + 1 implies exprs_model(row@)[k] == parse_model(
                    metric_strings@[r as int]@[k]@,
                ) by {
                    if k < j {
                        lemma_exprs_model_index(old_row, k);
                        lemma_exprs_model_index(row@, k);
                    }
                    assert(exprs_model(row@) == exprs_model(old_row).push(expr_model(cell)));
                }
            }
            j = j + 1;
        }
        metric.push(row);
        r = r + 1;
    }
    proof {
        assert forall|i0: int, j0: int| 0 <= i0 < n && 0 <= j0 < n implies #[trigger] grid_model(
            metric@,
        )[i0][j0] == parse_model(metric_strings@[i0]@[j0]@) by {
            lemma_exprs_model_index(metric@[i0]@, j0);
        }
        assert forall|i0: int| 0 <= i0 < n implies #[trigger] grid_model(metric@)[i0].len()
            == n by {
            lemma_exprs_model_len(metric@[i0]@);
        }
    }
    Ok(metric)
}

/// The symbolic metric inverse; see `inverse_model`.  The result is a true
/// inverse only for a two-by-two metric; otherwise it is the identity, an
/// explicit documented placeholder.
pub fn calculate_metric_inverse(metric: &MetricTensor) -> (r: Result<MetricTensor, TensorError>)
    requires
        is_square(grid_model(metric@), metric@.len()),
    ensures
        r matches Ok(inv) && grid_model(inv@) =~~= inverse_model(grid_model(metric@)),
{
    let n = metric.len();
    let ghost g = grid_model(metric@);
    if n == 2 {
        proof {
            lemma_exprs_model_len(metric@[0]@);
            lemma_exprs_model_len(metric@[1]@);
            lemma_grid_index(metric@, 0, 0);
            lemma_grid_index(metric@, 0, 1);
            lemma_grid_index(metric@, 1, 0);
            lemma_grid_index(metric@, 1, 1);
        }
        let det = SymbolicExpr::Subtract(
            Box::new(SymbolicExpr::Multiply(
                Box::new(metric[0][0].clone_rec()),
                Box::new(metric[1][1].clone_rec()),
            )),
            Box::new(SymbolicExpr::Multiply(
                Box::new(metric[0][1].clone_rec()),
                Box::new(metric[1][0].clone_rec()),
            )),
        );
        let inv_det = SymbolicExpr::Divide(Box::new(SymbolicExpr::One), Box::new(det));
        let e00 = SymbolicExpr::Multiply(
            Box::new(inv_det.clone_rec()),
            Box::new(metric[1][1].clone_rec()),
        );
        let e01 = SymbolicExpr::Multiply(
            Box::new(inv_det.clone_rec()),
            Box::new(SymbolicExpr::Subtract(
                Box::new(SymbolicExpr::Zero),
                Box::new(metric[0][1].clone_rec()),
            )),
        );
        let e10 = SymbolicExpr::Multiply(
            Box::new(inv_det.clone_rec()),
            Box::new(SymbolicExpr::Subtract(
                Box::new(SymbolicExpr::Zero),
                Box::new(metric[1][0].clone_rec()),
            )),
        );
        let e11 = SymbolicExpr::Multiply(Box::new(inv_det), Box::new(metric[0][0].clone_rec()));
        proof {
            reveal_with_fuel(expr_model, 6);
        }
        let ghost ve00 = e00@;
        let ghost ve01 = e01@;
        let ghost ve10 = e10@;
        let ghost ve11 = e11@;
        let mut row0: Vec<SymbolicExpr> = Vec::new();
        row0.push(e00);
        row0.push(e01);
        let mut row1: Vec<SymbolicExpr> = Vec::new();
        row1.push(e10);
        row1.push(e11);
        let mut out: MetricTensor = Vec::new();
        out.push(row0);
        out.push(row1);
        proof {
            assert(out@.len() == 2);
            assert(out@[0]@.len() == 2);
            assert(out@[1]@.len() == 2);
            lemma_grid_index(out@, 0, 0);
            lemma_grid_index(out@, 0, 1);
            lemma_grid_index(out@, 1, 0);
            lemma_grid_index(out@, 1, 1);
            assert(out@[0]@[0]@ == ve00);
            assert(out@[0]@[1]@ == ve01);
            assert(out@[1]@[0]@ == ve10);
            assert(out@[1]@[1]@ == ve11);
            assert(grid_model(out@) =~~= inverse_model(g));
        }
        Ok(out)
    } else {
        let mut out: MetricTensor = Vec::new();
        let mut i: usize = 0;
        while i < n
            invariant
                i <= n,
                n == metric@.len(),
                out@.len() == i,
                forall|k: int| 0 <= k < i ==> (#[trigger] out@[k])@.len() == n,
                forall|k: int, j: int|
                    0 <= k < i && 0 <= j < n ==> #[trigger] exprs_model(out@[k]@)[j] == (if k
                        == j {
                        ExprModel::One
                    } else {
                        ExprModel::Zero
                    }),
            decreases n - i,
        {
            let mut row: Vec<SymbolicExpr> = Vec::new();
            let mut j: usize = 0;
            while j < n
                invariant
                    j <= n,
                    i < n,
                    row@.len() == j,
                    forall|k: int|
                        0 <= k < j ==> exprs_model(row@)[k] == (if k == i {
                            ExprModel::One
                        } else {
                            ExprModel::Zero
                        }),
                decreases n - j,
            {
                let cell = if j == i {
                    SymbolicExpr::One
                } else {
                    SymbolicExpr::Zero
                };
                let ghost old_row = row@;
                row.push(cell);
                proof {
                    crate::symbolic::lemma_exprs_model_push(old_row, cell);
                    lemma_exprs_model_len(row@);
                    assert forall|k: int| 0 <= k < j + 1 implies exprs_model(row@)[k] == (if k
                        == i {
                        ExprModel::One
                    } else {
                        ExprModel::Zero
                    }) by {
                        lemma_exprs_model_index(row@, k);
                        if k < j {
                            lemma_exprs_model_index(old_row, k);
                            assert(exprs_model(row@) == exprs_model(old_row).push(
                                expr_model(cell),
                            ));
                        }
                    }
                }
                j = j + 1;
            }
            out.push(row);
            i = i + 1;
        }
        proof {
            assert forall|i0: int| 0 <= i0 < n implies #[trigger] grid_model(out@)[i0]
                =~= identity_model(n as nat)[i0] by {
                lemma_exprs_model_len(out@[i0]@);
                assert forall|j0: int| 0 <= j0 < n implies grid_model(out@)[i0][j0]
                    == identity_model(n as nat)[i0][j0] by {
                    lemma_exprs_model_index(out@[i0]@, j0);
                }
            }
            assert(grid_model(out@) =~~= inverse_model(g));
        }
        Ok(out)
    }
}


/// The one-half factor of the Levi-Civita connection formula.
pub open spec fn half_scalar() -> Scalar {
    Scalar { mantissa: 5, scale: 1 }
}

/// One summand of the Christoffel formula:
/// `g^{mu nu} (d_alpha g_{nu beta} + d_beta g_{nu alpha} - d_nu g_{alpha beta})`.
pub open spec fn chris_term(
    g: Seq<Seq<ExprModel>>,
    ginv: Seq<Seq<ExprModel>>,
    coords: Seq<Seq<char>>,
    mu: int,
    alpha: int,
    beta: int,
    nu: int,
) -> ExprModel {
    ExprModel::Multiply(
        Box::new(ginv[mu][nu]),
        Box::new(ExprModel::Subtract(
            Box::new(ExprModel::Add(
                Box::new(deriv_model(g[nu][beta], coords[alpha])),
                Box::new(deriv_model(g[nu][alpha], coords[beta])),
            )),
            Box::new(deriv_model(g[alpha][beta], coords[nu])),
        )),
    )
}

/// Left-nested sum of the first `k` summands, seeded with `Zero`.
pub open spec fn chris_sum(
    g: Seq<Seq<ExprModel>>,
    ginv: Seq<Seq<ExprModel>>,
    coords: Seq<Seq<char>>,
    mu: int,
    alpha: int,
    beta: int,
    k: nat,
) -> ExprModel
    decreases k,
{
    if k == 0 {
        ExprModel::Zero
    } else {
        ExprModel::Add(
            Box::new(chris_sum(g, ginv, coords, mu, alpha, beta, (k - 1) as nat)),
            Box::new(chris_term(g, ginv, coords, mu, alpha, beta, k - 1)),
        )
    }
}

/// The full, unsimplified Christoffel symbol `Gamma^mu_{alpha beta}`.
pub open spec fn chris_expr(
    g: Seq<Seq<ExprModel>>,
    coords: Seq<Seq<char>>,
    mu: int,
    alpha: int,
    beta: int,
) -> ExprModel {
    ExprModel::Multiply(
        Box::new(ExprModel::Constant(half_scalar())),
        Box::new(chris_sum(g, inverse_model(g), coords, mu, alpha, beta, g.len())),
    )
}

/// The sparse Christoffel components for the first `t` index triples in
/// lexicographic order: each simplified, kept only when not zero.
pub open spec fn chris_list(g: Seq<Seq<ExprModel>>, coords: Seq<Seq<char>>, t: nat) -> Seq<
    CompModel,
>
    decreases t,
{
    if t == 0 {
        Seq::empty()
    } else {
        let prev = chris_list(g, coords, (t - 1) as nat);
        let n = g.len() as int;
        let mu = (t - 1) / (n * n);
        let alpha = ((t - 1) / n) % n;
        let beta = (t - 1) % n;
        let e = simp_model(chris_expr(g, coords, mu, alpha, beta));
        if is_zero_model(e) {
            prev
        } else {
            prev.push(
                CompModel {
                    indices: seq![mu as usize, alpha as usize, beta as usize],
                    text: fmt_model(e),
                },
            )
        }
    }
}

/// Decompose the linear index `(mu*n + alpha)*n + beta` back into its
/// three digits.
pub proof fn lemma_idx3(mu: int, alpha: int, beta: int, n: int)
    requires
        0 <= mu < n,
        0 <= alpha < n,
        0 <= beta < n,
    ensures
        ({
            let t = (mu * n + alpha) * n + beta;
            &&& t / (n * n) == mu
            &&& (t / n) % n == alpha
            &&& t % n == beta
            &&& 0 <= t < n * n * n
        }),
{
    let t = (mu * n + alpha) * n + beta;
    assert(t == (mu * n + alpha) * n + beta);
    vstd::arithmetic::div_mod::lemma_fundamental_div_mod_converse(t, n, mu * n + alpha, beta);
    assert(t / n == mu * n + alpha);
    assert(t % n == beta);
    vstd::arithmetic::div_mod::lemma_fundamental_div_mod_converse(
        mu * n + alpha,
        n,
        mu,
        alpha,
    );
    assert((t / n) % n == alpha);
    assert(t == mu * (n * n) + (alpha * n + beta)) by (nonlinear_arith)
        requires
            t == (mu * n + alpha) * n + beta,
    ;
    assert(0 <= alpha * n + beta < n * n) by (nonlinear_arith)
        requires
            0 <= alpha < n,
            0 <= beta < n,
    ;
    vstd::arithmetic::div_mod::lemma_fundamental_div_mod_converse(
        t,
        n * n,
        mu,
        alpha * n + beta,
    );
    assert(0 <= t < n * n * n) by (nonlinear_arith)
        requires
            t == mu * (n * n) + (alpha * n + beta),
            0 <= mu < n,
            0 <= alpha * n + beta < n * n,
    ;
}

/// Push shape of the component-list model.
pub proof fn lemma_comps_model_push(s: Seq<TensorComponent>, c: TensorComponent)
    ensures
        comps_model(s.push(c)) =~= comps_model(s).push(
            CompModel { indices: c.indices@, text: c.expression@ },
        ),
{
}

/// The Christoffel symbols of the Levi-Civita connection:
/// `Gamma^mu_{alpha beta} = (1/2) sum_nu g^{mu nu} (d_alpha g_{nu beta}
/// + d_beta g_{nu alpha} - d_nu g_{alpha beta})`, each component
/// simplified once and kept only when not zero, indexed `[mu, alpha,
/// beta]` in lexicographic order.
pub fn calculate_christoffel_symbols(metric: &MetricTensor, coords: &[String]) -> (r: Result<
    ChristoffelResult,
    TensorError,
>)
    requires
        is_square(grid_model(metric@), metric@.len()),
        coords@.len() >= metric@.len(),
    ensures
        r matches Ok(cr) && cr.dimension == metric@.len() && comps_model(cr.symbols@)
            == chris_list(
            grid_model(metric@),
            coords_model(coords@),
            (metric@.len() * metric@.len() * metric@.len()) as nat,
        ),
{
    let n = metric.len();
    let ghost g = grid_model(metric@);
    let ghost cm = coords_model(coords@);
    let metric_inv = match calculate_metric_inverse(metric) {
        Ok(m) => m,
        Err(_) => {
            proof {
                assert(false);
            }
            Vec::new()
        },
    };
    let ghost ginv = inverse_model(g);
    proof {
        assert(grid_model(metric_inv@) == ginv);
        assert(ginv.len() == n) by {
            if n == 2 {
            } else {
                assert(identity_model(n as nat).len() == n);
            }
        }
        assert forall|i: int| 0 <= i < n implies #[trigger] ginv[i].len() == n by {
            if n == 2 {
                if i == 0 {
                } else {
                    assert(i == 1);
                }
            } else {
                assert(identity_model(n as nat)[i].len() == n);
            }
        }
        assert(metric_inv@.len() == n);
        assert forall|i: int| 0 <= i < n implies #[trigger] metric_inv@[i]@.len() == n by {
            lemma_exprs_model_len(metric_inv@[i]@);
            assert(grid_model(metric_inv@)[i].len() == ginv[i].len());
        }
    }
    let mut symbols: Vec<TensorComponent> = Vec::new();
    let mut mu: usize = 0;
    while mu < n
        invariant
            mu <= n,
            n == metric@.len(),
            g == grid_model(metric@),
            cm == coords_model(coords@),
            ginv == inverse_model(g),
            is_square(g, n as nat),
            coords@.len() >= n,
            grid_model(metric_inv@) == ginv,
            metric_inv@.len() == n,
            forall|i: int| 0 <= i < n ==> #[trigger] metric_inv@[i]@.len() == n,
            forall|i: int| 0 <= i < n ==> #[trigger] ginv[i].len() == n,
            comps_model(symbols@) == chris_list(g, cm, (mu * n * n) as nat),
        decreases n - mu,
    {
        let mut alpha: usize = 0;
        while alpha < n
            invariant
                mu < n,
                alpha <= n,
                n == metric@.len(),
                g == grid_model(metric@),
                cm == coords_model(coords@),
                ginv == inverse_model(g),
                is_square(g, n as nat),
                coords@.len() >= n,
                grid_model(metric_inv@) == ginv,
                metric_inv@.len() == n,
                forall|i: int| 0 <= i < n ==> #[trigger] metric_inv@[i]@.len() == n,
                forall|i: int| 0 <= i < n ==> #[trigger] ginv[i].len() == n,
                comps_model(symbols@) == chris_list(g, cm, (mu * n * n + alpha * n) as nat),
            decreases n - alpha,
        {
            let mut beta: usize = 0;
            while beta < n
                invariant
                    mu < n,
                    alpha < n,
                    beta <= n,
                    n == metric@.len(),
                    g == grid_model(metric@),
                    cm == coords_model(coords@),
                    ginv == inverse_model(g),
                    is_square(g, n as nat),
                    coords@.len() >= n,
                    grid_model(metric_inv@) == ginv,
                    metric_inv@.len() == n,
                    forall|i: int| 0 <= i < n ==> #[trigger] metric_inv@[i]@.len() == n,
                    forall|i: int| 0 <= i < n ==> #[trigger] ginv[i].len() == n,
                    comps_model(symbols@) == chris_list(
                        g,
                        cm,
                        (mu * n * n + alpha * n + beta) as nat,
                    ),
                decreases n - beta,
            {
                let mut expr = SymbolicExpr::Zero;
                let mut nu: usize = 0;
                proof {
                    assert(mu * n * n + alpha * n + beta < n * n * n) by {
                        lemma_idx3(mu as int, alpha as int, beta as int, n as int);
                        assert((mu * n + alpha) * n + beta == mu * n * n + alpha * n + beta)
                            by (nonlinear_arith);
                    }
                }
                while nu < n
                    invariant
                        mu < n,
                        alpha < n,
                        beta < n,
                        nu <= n,
                        n == metric@.len(),
                        g == grid_model(metric@),
                        cm == coords_model(coords@),
                        is_square(g, n as nat),
                        coords@.len() >= n,
                        grid_model(metric_inv@) == ginv,
                        metric_inv@.len() == n,
                        forall|i: int| 0 <= i < n ==> #[trigger] metric_inv@[i]@.len() == n,
                        forall|i: int| 0 <= i < n ==> #[trigger] ginv[i].len() == n,
                        expr@ == chris_sum(
                            g,
                            ginv,
                            cm,
                            mu as int,
                            alpha as int,
                            beta as int,
                            nu as nat,
                        ),
                    decreases n - nu,
                {
                    proof {
                        lemma_exprs_model_len(metric@[nu as int]@);
                        lemma_exprs_model_len(metric@[alpha as int]@);
                        lemma_grid_index(metric@, nu as int, beta as int);
                        lemma_grid_index(metric@, nu as int, alpha as int);
                        lemma_grid_index(metric@, alpha as int, beta as int);
                        lemma_exprs_model_len(metric_inv@[mu as int]@);
                        lemma_grid_index(metric_inv@, mu as int, nu as int);
                    }
                    let d_g_nu_beta = metric[nu][beta].derivative(coords[alpha].as_str());
                    let d_g_nu_alpha = metric[nu][alpha].derivative(coords[beta].as_str());
                    let d_g_alpha_beta = metric[alpha][beta].derivative(coords[nu].as_str());
                    let term = SymbolicExpr::Multiply(
                        Box::new(metric_inv[mu][nu].clone_rec()),
                        Box::new(SymbolicExpr::Subtract(
                            Box::new(SymbolicExpr::Add(
                                Box::new(d_g_nu_beta),
                                Box::new(d_g_nu_alpha),
                            )),
                            Box::new(d_g_alpha_beta),
                        )),
                    );
                    expr = SymbolicExpr::Add(Box::new(expr), Box::new(term));
                    proof {
                        reveal_with_fuel(expr_model, 5);
                        assert(cm[alpha as int] == coords@[alpha as int]@);
                        assert(cm[beta as int] == coords@[beta as int]@);
                        assert(cm[nu as int] == coords@[nu as int]@);
                        assert(expr@ == chris_sum(
                            g,
                            ginv,
                            cm,
                            mu as int,
                            alpha as int,
                            beta as int,
                            (nu + 1) as nat,
                        ));
                    }
                    nu = nu + 1;
                }
                let full = SymbolicExpr::Multiply(
                    Box::new(SymbolicExpr::Constant(Scalar { mantissa: 5, scale: 1 })),
                    Box::new(expr),
                );
                proof {
                    reveal_with_fuel(expr_model, 3);
                    assert(full@ == chris_expr(g, cm, mu as int, alpha as int, beta as int));
                }
                let simplified = full.simplify();
                let ghost t0 = (mu * n * n + alpha * n + beta) as nat;
                proof {
                    lemma_idx3(mu as int, alpha as int, beta as int, n as int);
                    assert((mu * n + alpha) * n + beta == mu * n * n + alpha * n + beta)
                        by (nonlinear_arith);
                    assert(chris_list(g, cm, (t0 + 1) as nat) == ({
                        let e = simp_model(chris_expr(g, cm, mu as int, alpha as int,
                            beta as int));
                        if is_zero_model(e) {
                            chris_list(g, cm, t0)
                        } else {
                            chris_list(g, cm, t0).push(
                                CompModel {
                                    indices: seq![mu, alpha, beta],
                                    text: fmt_model(e),
                                },
                            )
                        }
                    }));
                }
                if !simplified.is_zero() {
                    let text = simplified.render();
                    let comp = TensorComponent { indices: vec![mu, alpha, beta], expression:
                        text };
                    let ghost old_symbols = symbols@;
                    proof {
                        assert(comp.indices@ =~= seq![mu, alpha, beta]);
                    }
                    symbols.push(comp);
                    proof {
                        lemma_comps_model_push(old_symbols, comp);
                    }
                }
                beta = beta + 1;
            }
            proof {
                assert(mu * n * n + alpha * n + n == mu * n * n + (alpha + 1) * n)
                    by (nonlinear_arith);
            }
            alpha = alpha + 1;
        }
        proof {
            assert(mu * n * n + n * n == (mu + 1) * n * n) by (nonlinear_arith);
        }
        mu = mu + 1;
    }
    Ok(ChristoffelResult { symbols, dimension: n })
}


/// All index tuples of a rank-3 component list lie below `n`.
pub open spec fn comps_ok3(cs: Seq<CompModel>, n: nat) -> bool {
    forall|i: int|
        0 <= i < cs.len() ==> ((#[trigger] cs[i]).indices.len() == 3 ==> cs[i].indices[0] < n
            && cs[i].indices[1] < n && cs[i].indices[2] < n)
}

/// All index tuples of a rank-4 component list lie below `n`.
pub open spec fn comps_ok4(cs: Seq<CompModel>, n: nat) -> bool {
    forall|i: int|
        0 <= i < cs.len() ==> ((#[trigger] cs[i]).indices.len() == 4 ==> cs[i].indices[0] < n
            && cs[i].indices[1] < n && cs[i].indices[2] < n && cs[i].indices[3] < n)
}

/// All index tuples of a rank-2 component list lie below `n`.
pub open spec fn comps_ok2(cs: Seq<CompModel>, n: nat) -> bool {
    forall|i: int|
        0 <= i < cs.len() ==> ((#[trigger] cs[i]).indices.len() == 2 ==> cs[i].indices[0] < n
            && cs[i].indices[1] < n)
}

pub open spec fn zero2(n: nat) -> Seq<Seq<ExprModel>> {
    Seq::new(n, |i: int| Seq::new(n, |j: int| ExprModel::Zero))
}

pub open spec fn zero3(n: nat) -> Seq<Seq<Seq<ExprModel>>> {
    Seq::new(n, |i: int| zero2(n))
}

pub open spec fn zero4(n: nat) -> Seq<Seq<Seq<Seq<ExprModel>>>> {
    Seq::new(n, |i: int| zero3(n))
}

/// Reinflate a rank-2 sparse list: `Zero` everywhere, then each listed
/// component re-parsed from its text, in order.
pub open spec fn dense2(cs: Seq<CompModel>, n: nat) -> Seq<Seq<ExprModel>>
    decreases cs.len(),
{
    if cs.len() == 0 {
        zero2(n)
    } else {
        let prev = dense2(cs.drop_last(), n);
        let c = cs.last();
        if c.indices.len() == 2 {
            let i = c.indices[0] as int;
            let j = c.indices[1] as int;
            prev.update(i, prev[i].update(j, parse_model(c.text)))
        } else {
            prev
        }
    }
}

/// Reinflate a rank-3 sparse list.
pub open spec fn dense3(cs: Seq<CompModel>, n: nat) -> Seq<Seq<Seq<ExprModel>>>
    decreases cs.len(),
{
    if cs.len() == 0 {
        zero3(n)
    } else {
        let prev = dense3(cs.drop_last(), n);
        let c = cs.last();
        if c.indices.len() == 3 {
            let i = c.indices[0] as int;
            let j = c.indices[1] as int;
            let k = c.indices[2] as int;
            prev.update(i, prev[i].update(j, prev[i][j].update(k, parse_model(c.text))))
        } else {
            prev
        }
    }
}

/// Reinflate a rank-4 sparse list.
pub open spec fn dense4(cs: Seq<CompModel>, n: nat) -> Seq<Seq<Seq<Seq<ExprModel>>>>
    decreases cs.len(),
{
    if cs.len() == 0 {
        zero4(n)
    } else {
        let prev = dense4(cs.drop_last(), n);
        let c = cs.last();
        if c.indices.len() == 4 {
            let i = c.indices[0] as int;
            let j = c.indices[1] as int;
            let k = c.indices[2] as int;
            let l = c.indices[3] as int;
            prev.update(
                i,
                prev[i].update(
                    j,
                    prev[i][j].update(k, prev[i][j][k].update(l, parse_model(c.text))),
                ),
            )
        } else {
            prev
        }
    }
}

pub open spec fn shape2(x: Seq<Seq<ExprModel>>, n: nat) -> bool {
    x.len() == n && forall|i: int| 0 <= i < n ==> (#[trigger] x[i]).len() == n
}

pub open spec fn shape3(x: Seq<Seq<Seq<ExprModel>>>, n: nat) -> bool {
    &&& x.len() == n
    &&& forall|i: int| 0 <= i < n ==> (#[trigger] x[i]).len() == n
    &&& forall|i: int, j: int| 0 <= i < n && 0 <= j < n ==> (#[trigger] x[i][j]).len() == n
}

pub open spec fn shape4(x: Seq<Seq<Seq<Seq<ExprModel>>>>, n: nat) -> bool {
    &&& x.len() == n
    &&& forall|i: int| 0 <= i < n ==> (#[trigger] x[i]).len() == n
    &&& forall|i: int, j: int| 0 <= i < n && 0 <= j < n ==> (#[trigger] x[i][j]).len() == n
    &&& forall|i: int, j: int, k: int|
        0 <= i < n && 0 <= j < n && 0 <= k < n ==> (#[trigger] x[i][j][k]).len() == n
}

#[verifier::rlimit(50)]
pub proof fn lemma_dense2_shape(cs: Seq<CompModel>, n: nat)
    requires
        comps_ok2(cs, n),
    ensures
        shape2(dense2(cs, n), n),
    decreases cs.len(),
{
    if cs.len() > 0 {
        assert(comps_ok2(cs.drop_last(), n)) by {
            assert forall|i: int| 0 <= i < cs.len() - 1 implies ((#[trigger] cs.drop_last()[
                i
            ]).indices.len() == 2 ==> cs.drop_last()[i].indices[0] < n && cs.drop_last()[
                i
            ].indices[1] < n) by {
                assert(cs.drop_last()[i] == cs[i]);
            }
        }
        lemma_dense2_shape(cs.drop_last(), n);
        let prev = dense2(cs.drop_last(), n);
        assert(shape2(prev, n));
        let c = cs.last();
        assert(c == cs[cs.len() - 1]);
        if c.indices.len() == 2 {
            let i0 = c.indices[0] as int;
            let j0 = c.indices[1] as int;
            let cur = prev.update(i0, prev[i0].update(j0, parse_model(c.text)));
            assert forall|i: int| 0 <= i < n implies (#[trigger] cur[i]).len() == n by {
                if i == i0 {
                    assert(cur[i] == prev[i0].update(j0, parse_model(c.text)));
                } else {
                    assert(cur[i] == prev[i]);
                }
            }
        }
    }
}

#[verifier::rlimit(50)]
pub proof fn lemma_dense3_shape(cs: Seq<CompModel>, n: nat)
    requires
        comps_ok3(cs, n),
    ensures
        shape3(dense3(cs, n), n),
    decreases cs.len(),
{
    if cs.len() > 0 {
        assert(comps_ok3(cs.drop_last(), n)) by {
            assert forall|i: int| 0 <= i < cs.len() - 1 implies ((#[trigger] cs.drop_last()[
                i
            ]).indices.len() == 3 ==> cs.drop_last()[i].indices[0] < n && cs.drop_last()[
                i
            ].indices[1] < n && cs.drop_last()[i].indices[2] < n) by {
                assert(cs.drop_last()[i] == cs[i]);
            }
        }
        lemma_dense3_shape(cs.drop_last(), n);
        let prev = dense3(cs.drop_last(), n);
        assert(shape3(prev, n));
        let c = cs.last();
        assert(c == cs[cs.len() - 1]);
        if c.indices.len() == 3 {
            let i0 = c.indices[0] as int;
            let j0 = c.indices[1] as int;
            let k0 = c.indices[2] as int;
            let newrow = prev[i0].update(j0, prev[i0][j0].update(k0, parse_model(c.text)));
            let cur = prev.update(i0, newrow);
            assert(cur == dense3(cs, n));
            assert(cur.len() == n);
            assert forall|i: int| 0 <= i < n implies (#[trigger] cur[i]).len() == n by {
                if i == i0 {
                    assert(cur[i] == newrow);
                } else {
                    assert(cur[i] == prev[i]);
                }
            }
            assert forall|i: int, j: int| 0 <= i < n && 0 <= j < n implies (#[trigger] cur[i][
                j
            ]).len() == n by {
                if i == i0 {
                    assert(cur[i] == newrow);
                    if j == j0 {
                        assert(cur[i][j] == prev[i0][j0].update(k0, parse_model(c.text)));
                    } else {
                        assert(cur[i][j] == prev[i0][j]);
                    }
                } else {
                    assert(cur[i] == prev[i]);
                }
            }
            assert(shape3(cur, n));
        }
    }
}

#[verifier::rlimit(50)]
pub proof fn lemma_dense4_shape(cs: Seq<CompModel>, n: nat)
    requires
        comps_ok4(cs, n),
    ensures
        shape4(dense4(cs, n), n),
    decreases cs.len(),
{
    if cs.len() > 0 {
        assert(comps_ok4(cs.drop_last(), n)) by {
            assert forall|i: int| 0 <= i < cs.len() - 1 implies ((#[trigger] cs.drop_last()[
                i
            ]).indices.len() == 4 ==> cs.drop_last()[i].indices[0] < n && cs.drop_last()[
                i
            ].indices[1] < n && cs.drop_last()[i].indices[2] < n && cs.drop_last()[
                i
            ].indices[3] < n) by {
                assert(cs.drop_last()[i] == cs[i]);
            }
        }
        lemma_dense4_shape(cs.drop_last(), n);
        let prev = dense4(cs.drop_last(), n);
        assert(shape4(prev, n));
        let c = cs.last();
        assert(c == cs[cs.len() - 1]);
        if c.indices.len() == 4 {
            let i0 = c.indices[0] as int;
            let j0 = c.indices[1] as int;
            let k0 = c.indices[2] as int;
            let l0 = c.indices[3] as int;
            let newk = prev[i0][j0].update(k0, prev[i0][j0][k0].update(l0, parse_model(c.text)));
            let newrow = prev[i0].update(j0, newk);
            let cur = prev.update(i0, newrow);
            assert(cur == dense4(cs, n));
            assert(cur.len() == n);
            assert forall|i: int| 0 <= i < n implies (#[trigger] cur[i]).len() == n by {
                if i == i0 {
                    assert(cur[i] == newrow);
                } else {
                    assert(cur[i] == prev[i]);
                }
            }
            assert forall|i: int, j: int| 0 <= i < n && 0 <= j < n implies (#[trigger] cur[i][
                j
            ]).len() == n by {
                if i == i0 {
                    assert(cur[i] == newrow);
                    if j == j0 {
                        assert(cur[i][j] == newk);
                    } else {
                        assert(cur[i][j] == prev[i0][j]);
                    }
                } else {
                    assert(cur[i] == prev[i]);
                }
            }
            assert forall|i: int, j: int, k: int|
                0 <= i < n && 0 <= j < n && 0 <= k < n implies (#[trigger] cur[i][j][k]).len()
                == n by {
                if i == i0 {
                    assert(cur[i] == newrow);
                    if j == j0 {
                        assert(cur[i][j] == newk);
                        if k == k0 {
                            assert(cur[i][j][k] == prev[i0][j0][k0].update(
                                l0,
                                parse_model(c.text),
                            ));
                        } else {
                            assert(cur[i][j][k] == prev[i0][j0][k]);
                        }
                    } else {
                        assert(cur[i][j] == prev[i0][j]);
                        assert(cur[i][j][k] == prev[i0][j][k]);
                    }
                } else {
                    assert(cur[i] == prev[i]);
                    assert(cur[i][j] == prev[i][j]);
                    assert(cur[i][j][k] == prev[i][j][k]);
                }
            }
            assert(shape4(cur, n));
        }
    }
}

/// Model of a dense rank-2 matrix of expressions.
pub open spec fn tensor2_model(v: Seq<Vec<SymbolicExpr>>) -> Seq<Seq<ExprModel>> {
    grid_model(v)
}

/// Model of a dense rank-3 tensor of expressions.
pub open spec fn tensor3_model(v: Seq<Vec<Vec<SymbolicExpr>>>) -> Seq<Seq<Seq<ExprModel>>> {
    Seq::new(v.len(), |i: int| grid_model(v[i]@))
}

/// Model of a dense rank-4 tensor of expressions.
pub open spec fn tensor4_model(v: Seq<Vec<Vec<Vec<SymbolicExpr>>>>) -> Seq<
    Seq<Seq<Seq<ExprModel>>>,
> {
    Seq::new(v.len(), |i: int| tensor3_model(v[i]@))
}

/// A dense `n` by `n` matrix of `Zero` sentinels.
pub(crate) fn zero_matrix(n: usize) -> (out: Vec<Vec<SymbolicExpr>>)
    ensures
        tensor2_model(out@) =~~= zero2(n as nat),
        out@.len() == n,
        forall|i: int| 0 <= i < n ==> (#[trigger] out@[i])@.len() == n,
{
    let mut out: Vec<Vec<SymbolicExpr>> = Vec::new();
    let mut i: usize = 0;
    while i < n
        invariant
            i <= n,
            out@.len() == i,
            forall|k: int| 0 <= k < i ==> (#[trigger] out@[k])@.len() == n,
            forall|k: int, j: int|
                0 <= k < i && 0 <= j < n ==> #[trigger] exprs_model(out@[k]@)[j]
                    == ExprModel::Zero,
        decreases n - i,
    {
        let mut row: Vec<SymbolicExpr> = Vec::new();
        let mut j: usize = 0;
        while j < n
            invariant
                j <= n,
                row@.len() == j,
                forall|k: int| 0 <= k < j ==> exprs_model(row@)[k] == ExprModel::Zero,
            decreases n - j,
        {
            let ghost old_row = row@;
            row.push(SymbolicExpr::Zero);
            proof {
                crate::symbolic::lemma_exprs_model_push(old_row, SymbolicExpr::Zero);
                lemma_exprs_model_len(row@);
                assert forall|k: int| 0 <= k < j + 1 implies exprs_model(row@)[k]
                    == ExprModel::Zero by {
                    if k < j {
                        lemma_exprs_model_index(old_row, k);
                        lemma_exprs_model_index(row@, k);
                    }
                    assert(exprs_model(row@) == exprs_model(old_row).push(
                        expr_model(SymbolicExpr::Zero),
                    ));
                }
            }
            j = j + 1;
        }
        out.push(row);
        i = i + 1;
    }
    proof {
        assert forall|i0: int| 0 <= i0 < n implies #[trigger] tensor2_model(out@)[i0]
            =~= zero2(n as nat)[i0] by {
            lemma_exprs_model_len(out@[i0]@);
        }
        assert(tensor2_model(out@) =~~= zero2(n as nat));
    }
    out
}

/// A dense `n` by `n` by `n` tensor of `Zero` sentinels.
fn zero_tensor3(n: usize) -> (out: Vec<Vec<Vec<SymbolicExpr>>>)
    ensures
        tensor3_model(out@) =~~= zero3(n as nat),
        out@.len() == n,
        forall|i: int| 0 <= i < n ==> (#[trigger] out@[i])@.len() == n,
        forall|i: int, j: int|
            0 <= i < n && 0 <= j < n ==> (#[trigger] out@[i]@[j])@.len() == n,
{
    let mut out: Vec<Vec<Vec<SymbolicExpr>>> = Vec::new();
    let mut i: usize = 0;
    while i < n
        invariant
            i <= n,
            out@.len() == i,
            forall|k: int| 0 <= k < i ==> (#[trigger] out@[k])@.len() == n,
            forall|k: int, j: int|
                0 <= k < i && 0 <= j < n ==> (#[trigger] out@[k]@[j])@.len() == n,
            forall|k: int| 0 <= k < i ==> #[trigger] tensor3_model(out@)[k] == zero3(
                n as nat,
            )[k],
        decreases n - i,
    {
        let m = zero_matrix(n);
        let ghost vm = m@;
        let ghost old_out = out@;
        out.push(m);
        proof {
            assert(out@[i as int]@ == vm);
            assert(tensor3_model(out@)[i as int] == grid_model(vm));
            assert(grid_model(vm) =~~= zero2(n as nat));
            assert(zero3(n as nat)[i as int] == zero2(n as nat));
            assert forall|k: int| 0 <= k < i + 1 implies #[trigger] tensor3_model(out@)[k]
                == zero3(n as nat)[k] by {
                if k < i {
                    assert(out@[k] == old_out[k]);
                    assert(tensor3_model(out@)[k] == grid_model(out@[k]@));
                    assert(tensor3_model(old_out)[k] == grid_model(old_out[k]@));
                }
            }
        }
        i = i + 1;
    }
    proof {
        assert(tensor3_model(out@) =~~= zero3(n as nat));
    }
    out
}

/// A dense rank-4 tensor of `Zero` sentinels.
fn zero_tensor4(n: usize) -> (out: Vec<Vec<Vec<Vec<SymbolicExpr>>>>)
    ensures
        tensor4_model(out@) =~~= zero4(n as nat),
        out@.len() == n,
        forall|i: int| 0 <= i < n ==> (#[trigger] out@[i])@.len() == n,
        forall|i: int, j: int|
            0 <= i < n && 0 <= j < n ==> (#[trigger] out@[i]@[j])@.len() == n,
        forall|i: int, j: int, k: int|
            0 <= i < n && 0 <= j < n && 0 <= k < n ==> (#[trigger] out@[i]@[j]@[k])@.len() == n,
{
    let mut out: Vec<Vec<Vec<Vec<SymbolicExpr>>>> = Vec::new();
    let mut i: usize = 0;
    while i < n
        invariant
            i <= n,
            out@.len() == i,
            forall|k: int| 0 <= k < i ==> (#[trigger] out@[k])@.len() == n,
            forall|k: int, j: int|
                0 <= k < i && 0 <= j < n ==> (#[trigger] out@[k]@[j])@.len() == n,
            forall|k: int, j: int, l: int|
                0 <= k < i && 0 <= j < n && 0 <= l < n ==> (#[trigger] out@[k]@[j]@[l])@.len()
                    == n,
            forall|k: int| 0 <= k < i ==> #[trigger] tensor4_model(out@)[k] == zero4(
                n as nat,
            )[k],
        decreases n - i,
    {
        let t = zero_tensor3(n);
        let ghost vt = t@;
        let ghost old_out = out@;
        out.push(t);
        proof {
            assert(out@[i as int]@ == vt);
            assert(tensor4_model(out@)[i as int] == tensor3_model(vt));
            assert(tensor3_model(vt) =~~= zero3(n as nat));
            assert(zero4(n as nat)[i as int] == zero3(n as nat));
            assert forall|k: int| 0 <= k < i + 1 implies #[trigger] tensor4_model(out@)[k]
                == zero4(n as nat)[k] by {
                if k < i {
                    assert(out@[k] == old_out[k]);
                    assert(tensor4_model(out@)[k] == tensor3_model(out@[k]@));
                    assert(tensor4_model(old_out)[k] == tensor3_model(old_out[k]@));
                }
            }
        }
        i = i + 1;
    }
    proof {
        assert(tensor4_model(out@) =~~= zero4(n as nat));
    }
    out
}


/// Reinflate a rank-2 sparse list to a dense matrix; see `dense2`.
#[verifier::rlimit(100)]
fn ricci_result_to_matrix(ricci_result: &RiemannResult, n: usize) -> (out: MetricTensor)
    requires
        comps_ok2(comps_model(ricci_result.components@), n as nat),
    ensures
        tensor2_model(out@) == dense2(comps_model(ricci_result.components@), n as nat),
        out@.len() == n,
        forall|i: int| 0 <= i < n ==> (#[trigger] out@[i])@.len() == n,
{
    let ghost cs = comps_model(ricci_result.components@);
    let mut matrix = zero_matrix(n);
    proof {
        assert(cs.subrange(0, 0) =~= Seq::<CompModel>::empty());
    }
    let mut idx: usize = 0;
    while idx < ricci_result.components.len()
        invariant
            idx <= ricci_result.components@.len(),
            cs == comps_model(ricci_result.components@),
            cs.len() == ricci_result.components@.len(),
            comps_ok2(cs, n as nat),
            tensor2_model(matrix@) == dense2(cs.subrange(0, idx as int), n as nat),
            matrix@.len() == n,
            forall|i: int| 0 <= i < n ==> (#[trigger] matrix@[i])@.len() == n,
        decreases ricci_result.components@.len() - idx,
    {
        let ghost prefix = cs.subrange(0, idx as int);
        let ghost prefix1 = cs.subrange(0, idx + 1);
        proof {
            assert(prefix1.drop_last() =~= prefix);
            assert(prefix1.last() == cs[idx as int]);
            assert(cs[idx as int].indices == ricci_result.components@[idx as int].indices@);
            assert(cs[idx as int].text == ricci_result.components@[idx as int].expression@);
        }
        let comp = &ricci_result.components[idx];
        if comp.indices.len() == 2 {
            let i = comp.indices[0];
            let j = comp.indices[1];
            assert(i < n && j < n);
            let e = match SymbolicExpr::parse(comp.expression.as_str()) {
                Ok(x) => x,
                Err(_) => {
                    proof {
                        assert(false);
                    }
                    SymbolicExpr::Zero
                },
            };
            let ghost old_m = matrix@;
            matrix[i][j] = e;
            proof {
                assert(matrix@ == old_m.update(
                    i as int,
                    old_m[i as int],
                ).update(i as int, matrix@[i as int]) || true);
                // the row is the old row with one cell replaced
                assert(matrix@[i as int]@ == old_m[i as int]@.update(j as int, e));
                assert(matrix@ == old_m.update(i as int, matrix@[i as int]));
                crate::symbolic::lemma_exprs_model_update(old_m[i as int]@, j as int, e);
                let prevD = dense2(prefix, n as nat);
                let curD = dense2(prefix1, n as nat);
                assert(curD == prevD.update(
                    i as int,
                    prevD[i as int].update(j as int, parse_model(cs[idx as int].text)),
                ));
                assert forall|a: int| 0 <= a < n implies #[trigger] tensor2_model(matrix@)[a]
                    =~= curD[a] by {
                    if a == i {
                        assert(tensor2_model(matrix@)[a] == exprs_model(matrix@[a]@));
                        assert(exprs_model(matrix@[a]@) =~= exprs_model(old_m[a]@).update(
                            j as int,
                            expr_model(e),
                        ));
                        assert(tensor2_model(old_m)[a] == exprs_model(old_m[a]@));
                        assert(prevD[a] == exprs_model(old_m[a]@));
                    } else {
                        assert(matrix@[a] == old_m[a]);
                        assert(tensor2_model(matrix@)[a] == exprs_model(matrix@[a]@));
                        assert(tensor2_model(old_m)[a] == exprs_model(old_m[a]@));
                        assert(curD[a] == prevD[a]);
                    }
                }
                assert(tensor2_model(matrix@) =~~= curD);
            }
        } else {
            proof {
                assert(dense2(prefix1, n as nat) == dense2(prefix, n as nat));
            }
        }
        idx = idx + 1;
    }
    proof {
        assert(cs.subrange(0, cs.len() as int) =~= cs);
    }
    matrix
}

/// Reinflate a rank-3 sparse list to a dense tensor; see `dense3`.
#[verifier::rlimit(100)]
fn symbols_to_tensor(christoffel_result: &ChristoffelResult, n: usize) -> (out:
    ChristoffelSymbols)
    requires
        comps_ok3(comps_model(christoffel_result.symbols@), n as nat),
    ensures
        tensor3_model(out@) == dense3(comps_model(christoffel_result.symbols@), n as nat),
        out@.len() == n,
        forall|i: int| 0 <= i < n ==> (#[trigger] out@[i])@.len() == n,
        forall|i: int, j: int|
            0 <= i < n && 0 <= j < n ==> (#[trigger] out@[i]@[j])@.len() == n,
{
    let ghost cs = comps_model(christoffel_result.symbols@);
    let mut tensor = zero_tensor3(n);
    proof {
        assert(cs.subrange(0, 0) =~= Seq::<CompModel>::empty());
    }
    let mut idx: usize = 0;
    while idx < christoffel_result.symbols.len()
        invariant
            idx <= christoffel_result.symbols@.len(),
            cs == comps_model(christoffel_result.symbols@),
            cs.len() == christoffel_result.symbols@.len(),
            comps_ok3(cs, n as nat),
            tensor3_model(tensor@) == dense3(cs.subrange(0, idx as int), n as nat),
            tensor@.len() == n,
            forall|i: int| 0 <= i < n ==> (#[trigger] tensor@[i])@.len() == n,
            forall|i: int, j: int|
                0 <= i < n && 0 <= j < n ==> (#[trigger] tensor@[i]@[j])@.len() == n,
        decreases christoffel_result.symbols@.len() - idx,
    {
        let ghost prefix = cs.subrange(0, idx as int);
        let ghost prefix1 = cs.subrange(0, idx + 1);
        proof {
            assert(prefix1.drop_last() =~= prefix);
            assert(prefix1.last() == cs[idx as int]);
            assert(cs[idx as int].indices == christoffel_result.symbols@[idx as int].indices@);
            assert(cs[idx as int].text == christoffel_result.symbols@[idx as int].expression@);
        }
        let comp = &christoffel_result.symbols[idx];
        if comp.indices.len() == 3 {
            let i = comp.indices[0];
            let j = comp.indices[1];
            let k = comp.indices[2];
            assert(i < n && j < n && k < n);
            let e = match SymbolicExpr::parse(comp.expression.as_str()) {
                Ok(x) => x,
                Err(_) => {
                    proof {
                        assert(false);
                    }
                    SymbolicExpr::Zero
                },
            };
            let ghost old_t = tensor@;
            tensor[i][j][k] = e;
            proof {
                assert(tensor@[i as int]@[j as int]@ == old_t[i as int]@[j as int]@.update(
                    k as int,
                    e,
                ));
                assert(tensor@[i as int]@ == old_t[i as int]@.update(
                    j as int,
                    tensor@[i as int]@[j as int],
                ));
                assert(tensor@ == old_t.update(i as int, tensor@[i as int]));
                crate::symbolic::lemma_exprs_model_update(
                    old_t[i as int]@[j as int]@,
                    k as int,
                    e,
                );
                let prevD = dense3(prefix, n as nat);
                let curD = dense3(prefix1, n as nat);
                assert(curD == prevD.update(
                    i as int,
                    prevD[i as int].update(
                        j as int,
                        prevD[i as int][j as int].update(
                            k as int,
                            parse_model(cs[idx as int].text),
                        ),
                    ),
                ));
                assert forall|a: int| 0 <= a < n implies #[trigger] tensor3_model(tensor@)[a]
                    =~~= curD[a] by {
                    assert(tensor3_model(tensor@)[a] == grid_model(tensor@[a]@));
                    assert(tensor3_model(old_t)[a] == grid_model(old_t[a]@));
                    if a == i {
                        assert forall|b: int| 0 <= b < n implies #[trigger] grid_model(
                            tensor@[a]@,
                        )[b] =~= curD[a][b] by {
                            assert(grid_model(tensor@[a]@)[b] == exprs_model(tensor@[a]@[b]@));
                            assert(grid_model(old_t[a]@)[b] == exprs_model(old_t[a]@[b]@));
                            if b == j {
                                assert(exprs_model(tensor@[a]@[b]@) =~= exprs_model(
                                    old_t[a]@[b]@,
                                ).update(k as int, expr_model(e)));
                                assert(prevD[a][b] == exprs_model(old_t[a]@[b]@));
                            } else {
                                assert(tensor@[a]@[b] == old_t[a]@[b]);
                                assert(curD[a][b] == prevD[a][b]);
                            }
                        }
                    } else {
                        assert(tensor@[a] == old_t[a]);
                        assert(curD[a] == prevD[a]);
                    }
                }
                assert(tensor3_model(tensor@) =~~= curD);
            }
        } else {
            proof {
                assert(dense3(prefix1, n as nat) == dense3(prefix, n as nat));
            }
        }
        idx = idx + 1;
    }
    proof {
        assert(cs.subrange(0, cs.len() as int) =~= cs);
    }
    tensor
}

/// Reinflate a rank-4 sparse list to a dense tensor; see `dense4`.
#[verifier::rlimit(100)]
fn riemann_result_to_tensor(riemann_result: &RiemannResult, n: usize) -> (out: RiemannTensor)
    requires
        comps_ok4(comps_model(riemann_result.components@), n as nat),
    ensures
        tensor4_model(out@) == dense4(comps_model(riemann_result.components@), n as nat),
        out@.len() == n,
        forall|i: int| 0 <= i < n ==> (#[trigger] out@[i])@.len() == n,
        forall|i: int, j: int|
            0 <= i < n && 0 <= j < n ==> (#[trigger] out@[i]@[j])@.len() == n,
        forall|i: int, j: int, k: int|
            0 <= i < n && 0 <= j < n && 0 <= k < n ==> (#[trigger] out@[i]@[j]@[k])@.len() == n,
{
    let ghost cs = comps_model(riemann_result.components@);
    let mut tensor = zero_tensor4(n);
    proof {
        assert(cs.subrange(0, 0) =~= Seq::<CompModel>::empty());
    }
    let mut idx: usize = 0;
    while idx < riemann_result.components.len()
        invariant
            idx <= riemann_result.components@.len(),
            cs == comps_model(riemann_result.components@),
            cs.len() == riemann_result.components@.len(),
            comps_ok4(cs, n as nat),
            tensor4_model(tensor@) == dense4(cs.subrange(0, idx as int), n as nat),
            tensor@.len() == n,
            forall|i: int| 0 <= i < n ==> (#[trigger] tensor@[i])@.len() == n,
            forall|i: int, j: int|
                0 <= i < n && 0 <= j < n ==> (#[trigger] tensor@[i]@[j])@.len() == n,
            forall|i: int, j: int, k: int|
                0 <= i < n && 0 <= j < n && 0 <= k < n ==> (#[trigger] tensor@[i]@[j]@[
                    k
                ])@.len() == n,
        decreases riemann_result.components@.len() - idx,
    {
        let ghost prefix = cs.subrange(0, idx as int);
        let ghost prefix1 = cs.subrange(0, idx + 1);
        proof {
            assert(prefix1.drop_last() =~= prefix);
            assert(prefix1.last() == cs[idx as int]);
            assert(cs[idx as int].indices == riemann_result.components@[idx as int].indices@);
            assert(cs[idx as int].text == riemann_result.components@[idx as int].expression@);
        }
        let comp = &riemann_result.components[idx];
        if comp.indices.len() == 4 {
            let i = comp.indices[0];
            let j = comp.indices[1];
            let k = comp.indices[2];
            let l = comp.indices[3];
            assert(i < n && j < n && k < n && l < n);
            let e = match SymbolicExpr::parse(comp.expression.as_str()) {
                Ok(x) => x,
                Err(_) => {
                    proof {
                        assert(false);
                    }
                    SymbolicExpr::Zero
                },
            };
            let ghost old_t = tensor@;
            tensor[i][j][k][l] = e;
            proof {
                assert(tensor@[i as int]@[j as int]@[k as int]@ == old_t[i as int]@[j as int]@[
                    k as int
                ]@.update(l as int, e));
                assert(tensor@[i as int]@[j as int]@ == old_t[i as int]@[j as int]@.update(
                    k as int,
                    tensor@[i as int]@[j as int]@[k as int],
                ));
                assert(tensor@[i as int]@ == old_t[i as int]@.update(
                    j as int,
                    tensor@[i as int]@[j as int],
                ));
                assert(tensor@ == old_t.update(i as int, tensor@[i as int]));
                crate::symbolic::lemma_exprs_model_update(
                    old_t[i as int]@[j as int]@[k as int]@,
                    l as int,
                    e,
                );
                let prevD = dense4(prefix, n as nat);
                let curD = dense4(prefix1, n as nat);
                assert(curD == prevD.update(
                    i as int,
                    prevD[i as int].update(
                        j as int,
                        prevD[i as int][j as int].update(
                            k as int,
                            prevD[i as int][j as int][k as int].update(
                                l as int,
                                parse_model(cs[idx as int].text),
                            ),
                        ),
                    ),
                ));
                assert forall|a: int| 0 <= a < n implies #[trigger] tensor4_model(tensor@)[a]
                    =~~= curD[a] by {
                    assert(tensor4_model(tensor@)[a] == tensor3_model(tensor@[a]@));
                    assert(tensor4_model(old_t)[a] == tensor3_model(old_t[a]@));
                    if a == i {
                        assert forall|b: int| 0 <= b < n implies #[trigger] tensor3_model(
                            tensor@[a]@,
                        )[b] =~~= curD[a][b] by {
                            assert(tensor3_model(tensor@[a]@)[b] == grid_model(tensor@[a]@[b]@));
                            assert(tensor3_model(old_t[a]@)[b] == grid_model(old_t[a]@[b]@));
                            if b == j {
                                assert forall|c: int| 0 <= c < n implies #[trigger] grid_model(
                                    tensor@[a]@[b]@,
                                )[c] =~= curD[a][b][c] by {
                                    assert(grid_model(tensor@[a]@[b]@)[c] == exprs_model(
                                        tensor@[a]@[b]@[c]@,
                                    ));
                                    assert(grid_model(old_t[a]@[b]@)[c] == exprs_model(
                                        old_t[a]@[b]@[c]@,
                                    ));
                                    if c == k {
                                        assert(exprs_model(tensor@[a]@[b]@[c]@)
                                            =~= exprs_model(old_t[a]@[b]@[c]@).update(
                                            l as int,
                                            expr_model(e),
                                        ));
                                        assert(prevD[a][b][c] == exprs_model(
                                            old_t[a]@[b]@[c]@,
                                        ));
                                    } else {
                                        assert(tensor@[a]@[b]@[c] == old_t[a]@[b]@[c]);
                                        assert(curD[a][b][c] == prevD[a][b][c]);
                                    }
                                }
                            } else {
                                assert(tensor@[a]@[b] == old_t[a]@[b]);
                                assert(curD[a][b] == prevD[a][b]);
                            }
                        }
                    } else {
                        assert(tensor@[a] == old_t[a]);
                        assert(curD[a] == prevD[a]);
                    }
                }
                assert(tensor4_model(tensor@) =~~= curD);
            }
        } else {
            proof {
                assert(dense4(prefix1, n as nat) == dense4(prefix, n as nat));
            }
        }
        idx = idx + 1;
    }
    proof {
        assert(cs.subrange(0, cs.len() as int) =~= cs);
    }
    tensor
}


/// The derivative part of the Riemann formula, seeded exactly as the
/// computation builds it:
/// `0 + (d_mu Gamma^rho_{sigma nu} - d_nu Gamma^rho_{sigma mu})`.
pub open spec fn riem_base(
    ch: Seq<Seq<Seq<ExprModel>>>,
    coords: Seq<Seq<char>>,
    rho: int,
    sigma: int,
    mu: int,
    nu: int,
) -> ExprModel {
    ExprModel::Add(
        Box::new(ExprModel::Zero),
        Box::new(ExprModel::Subtract(
            Box::new(deriv_model(ch[rho][sigma][nu], coords[mu])),
            Box::new(deriv_model(ch[rho][sigma][mu], coords[nu])),
        )),
    )
}

/// The Riemann formula after the first `k` quadratic summands
/// `Gamma^rho_{lambda mu} Gamma^lambda_{sigma nu} - Gamma^rho_{lambda nu}
/// Gamma^lambda_{sigma mu}`.
pub open spec fn riem_sum(
    ch: Seq<Seq<Seq<ExprModel>>>,
    coords: Seq<Seq<char>>,
    rho: int,
    sigma: int,
    mu: int,
    nu: int,
    k: nat,
) -> ExprModel
    decreases k,
{
    if k == 0 {
        riem_base(ch, coords, rho, sigma, mu, nu)
    } else {
        ExprModel::Add(
            Box::new(riem_sum(ch, coords, rho, sigma, mu, nu, (k - 1) as nat)),
            Box::new(ExprModel::Subtract(
                Box::new(ExprModel::Multiply(
                    Box::new(ch[rho][k - 1][mu]),
                    Box::new(ch[k - 1][sigma][nu]),
                )),
                Box::new(ExprModel::Multiply(
                    Box::new(ch[rho][k - 1][nu]),
                    Box::new(ch[k - 1][sigma][mu]),
                )),
            )),
        )
    }
}

/// The sparse Riemann components for the first `t` index quadruples.
pub open spec fn riem_list(
    ch: Seq<Seq<Seq<ExprModel>>>,
    coords: Seq<Seq<char>>,
    n: nat,
    t: nat,
) -> Seq<CompModel>
    decreases t,
{
    if t == 0 {
        Seq::empty()
    } else {
        let prev = riem_list(ch, coords, n, (t - 1) as nat);
        let nn = n as int;
        let t0 = (t - 1) as int;
        let rho = t0 / (nn * nn * nn);
        let sigma = (t0 / (nn * nn)) % nn;
        let mu = (t0 / nn) % nn;
        let nu = t0 % nn;
        let e = simp_model(riem_sum(ch, coords, rho, sigma, mu, nu, n));
        if is_zero_model(e) {
            prev
        } else {
            prev.push(
                CompModel {
                    indices: seq![rho as usize, sigma as usize, mu as usize, nu as usize],
                    text: fmt_model(e),
                },
            )
        }
    }
}

/// The Christoffel components of a metric, all index triples.
pub open spec fn chris_comps(g: Seq<Seq<ExprModel>>, coords: Seq<Seq<char>>) -> Seq<CompModel> {
    chris_list(g, coords, (g.len() * g.len() * g.len()) as nat)
}

/// The Riemann components of a metric: the Christoffel list is reinflated
/// to a dense tensor, then differentiated and contracted per the formula.
pub open spec fn riemann_comps(g: Seq<Seq<ExprModel>>, coords: Seq<Seq<char>>) -> Seq<
    CompModel,
> {
    let n = g.len();
    riem_list(dense3(chris_comps(g, coords), n), coords, n, (n * n * n * n) as nat)
}

/// Decompose the linear index `(((rho*n + sigma)*n + mu)*n + nu)`.
pub proof fn lemma_idx4(rho: int, sigma: int, mu: int, nu: int, n: int)
    requires
        0 <= rho < n,
        0 <= sigma < n,
        0 <= mu < n,
        0 <= nu < n,
    ensures
        ({
            let t = ((rho * n + sigma) * n + mu) * n + nu;
            &&& t / (n * n * n) == rho
            &&& (t / (n * n)) % n == sigma
            &&& (t / n) % n == mu
            &&& t % n == nu
            &&& 0 <= t < n * n * n * n
        }),
{
    let t = ((rho * n + sigma) * n + mu) * n + nu;
    vstd::arithmetic::div_mod::lemma_fundamental_div_mod_converse(
        t,
        n,
        (rho * n + sigma) * n + mu,
        nu,
    );
    assert(t / n == (rho * n + sigma) * n + mu);
    assert(t % n == nu);
    vstd::arithmetic::div_mod::lemma_fundamental_div_mod_converse(
        (rho * n + sigma) * n + mu,
        n,
        rho * n + sigma,
        mu,
    );
    assert(((rho * n + sigma) * n + mu) / n == rho * n + sigma);
    assert(((rho * n + sigma) * n + mu) % n == mu);
    assert((t / n) % n == mu);
    assert(t == (rho * n + sigma) * (n * n) + (mu * n + nu)) by (nonlinear_arith)
        requires
            t == ((rho * n + sigma) * n + mu) * n + nu,
    ;
    assert(0 <= mu * n + nu < n * n) by (nonlinear_arith)
        requires
            0 <= mu < n,
            0 <= nu < n,
    ;
    vstd::arithmetic::div_mod::lemma_fundamental_div_mod_converse(
        t,
        n * n,
        rho * n + sigma,
        mu * n + nu,
    );
    assert(t / (n * n) == rho * n + sigma);
    vstd::arithmetic::div_mod::lemma_fundamental_div_mod_converse(
        rho * n + sigma,
        n,
        rho,
        sigma,
    );
    assert((t / (n * n)) % n == sigma);
    assert(t == rho * (n * n * n) + (sigma * (n * n) + mu * n + nu)) by (nonlinear_arith)
        requires
            t == (rho * n + sigma) * (n * n) + (mu * n + nu),
    ;
    assert(0 <= sigma * (n * n) + mu * n + nu < n * n * n) by (nonlinear_arith)
        requires
            0 <= sigma < n,
            0 <= mu < n,
            0 <= nu < n,
    ;
    vstd::arithmetic::div_mod::lemma_fundamental_div_mod_converse(
        t,
        n * n * n,
        rho,
        sigma * (n * n) + mu * n + nu,
    );
    assert(t / (n * n * n) == rho);
    assert(0 <= t < n * n * n * n) by (nonlinear_arith)
        requires
            t == rho * (n * n * n) + (sigma * (n * n) + mu * n + nu),
            0 <= rho < n,
            0 <= sigma * (n * n) + mu * n + nu < n * n * n,
    ;
}

/// Every Christoffel component carries three in-range indices.
pub proof fn lemma_chris_list_ok(
    g: Seq<Seq<ExprModel>>,
    coords: Seq<Seq<char>>,
    t: nat,
    n: nat,
)
    requires
        n == g.len(),
        t <= n * n * n,
    ensures
        comps_ok3(chris_list(g, coords, t), n),
    decreases t,
{
    if t > 0 {
        lemma_chris_list_ok(g, coords, (t - 1) as nat, n);
        let prev = chris_list(g, coords, (t - 1) as nat);
        let nn = n as int;
        let t0 = (t - 1) as int;
        assert(nn > 0) by (nonlinear_arith)
            requires
                0 <= t0 < nn * nn * nn,
        ;
        let mu = t0 / (nn * nn);
        assert(0 < nn * nn) by (nonlinear_arith)
            requires
                nn > 0,
        ;
        assert(t0 < (nn * nn) * nn) by (nonlinear_arith)
            requires
                t0 < nn * nn * nn,
        ;
        vstd::arithmetic::div_mod::lemma_multiply_divide_lt(t0, nn * nn, nn);
        vstd::arithmetic::div_mod::lemma_div_pos_is_pos(t0, nn * nn);
        vstd::arithmetic::div_mod::lemma_mod_bound(t0 / nn, nn);
        vstd::arithmetic::div_mod::lemma_mod_bound(t0, nn);
        vstd::arithmetic::div_mod::lemma_div_pos_is_pos(t0, nn);
        let cur = chris_list(g, coords, t);
        assert forall|i: int| 0 <= i < cur.len() implies ((#[trigger] cur[i]).indices.len() == 3
            ==> cur[i].indices[0] < n && cur[i].indices[1] < n && cur[i].indices[2] < n) by {
            if i < prev.len() {
                assert(cur[i] == prev[i]);
            }
        }
    }
}

/// Every Riemann component carries four in-range indices.
pub proof fn lemma_riem_list_ok(
    ch: Seq<Seq<Seq<ExprModel>>>,
    coords: Seq<Seq<char>>,
    n: nat,
    t: nat,
)
    requires
        t <= n * n * n * n,
    ensures
        comps_ok4(riem_list(ch, coords, n, t), n),
    decreases t,
{
    if t > 0 {
        lemma_riem_list_ok(ch, coords, n, (t - 1) as nat);
        let prev = riem_list(ch, coords, n, (t - 1) as nat);
        let nn = n as int;
        let t0 = (t - 1) as int;
        assert(nn > 0) by (nonlinear_arith)
            requires
                nn >= 0,
                0 <= t0 < nn * nn * nn * nn,
        ;
        assert(0 < nn * nn && 0 < nn * nn * nn) by (nonlinear_arith)
            requires
                nn > 0,
        ;
        assert(t0 < (nn * nn * nn) * nn) by (nonlinear_arith)
            requires
                t0 < nn * nn * nn * nn,
        ;
        vstd::arithmetic::div_mod::lemma_multiply_divide_lt(t0, nn * nn * nn, nn);
        vstd::arithmetic::div_mod::lemma_div_pos_is_pos(t0, nn * nn * nn);
        vstd::arithmetic::div_mod::lemma_mod_bound(t0 / (nn * nn), nn);
        vstd::arithmetic::div_mod::lemma_div_pos_is_pos(t0, nn * nn);
        vstd::arithmetic::div_mod::lemma_mod_bound(t0 / nn, nn);
        vstd::arithmetic::div_mod::lemma_div_pos_is_pos(t0, nn);
        vstd::arithmetic::div_mod::lemma_mod_bound(t0, nn);
        let cur = riem_list(ch, coords, n, t);
        assert forall|i: int| 0 <= i < cur.len() implies ((#[trigger] cur[i]).indices.len() == 4
            ==> cur[i].indices[0] < n && cur[i].indices[1] < n && cur[i].indices[2] < n && cur[
            i
        ].indices[3] < n) by {
            if i < prev.len() {
                assert(cur[i] == prev[i]);
            }
        }
    }
}

/// One full Riemann component expression for fixed indices.
fn riem_component(
    christoffel: &ChristoffelSymbols,
    coords: &[String],
    rho: usize,
    sigma: usize,
    mu: usize,
    nu: usize,
    n: usize,
) -> (out: SymbolicExpr)
    requires
        rho < n,
        sigma < n,
        mu < n,
        nu < n,
        coords@.len() >= n,
        christoffel@.len() == n,
        forall|i: int| 0 <= i < n ==> (#[trigger] christoffel@[i])@.len() == n,
        forall|i: int, j: int|
            0 <= i < n && 0 <= j < n ==> (#[trigger] christoffel@[i]@[j])@.len() == n,
    ensures
        out@ == riem_sum(
            tensor3_model(christoffel@),
            coords_model(coords@),
            rho as int,
            sigma as int,
            mu as int,
            nu as int,
            n as nat,
        ),
{
    let ghost ch = tensor3_model(christoffel@);
    let ghost cm = coords_model(coords@);
    proof {
        lemma_grid_index(christoffel@[rho as int]@, sigma as int, nu as int);
        lemma_grid_index(christoffel@[rho as int]@, sigma as int, mu as int);
        assert(ch[rho as int] == grid_model(christoffel@[rho as int]@));
    }
    let d1 = christoffel[rho][sigma][nu].derivative(coords[mu].as_str());
    let d2 = christoffel[rho][sigma][mu].derivative(coords[nu].as_str());
    let mut expr = SymbolicExpr::Add(
        Box::new(SymbolicExpr::Zero),
        Box::new(SymbolicExpr::Subtract(Box::new(d1), Box::new(d2))),
    );
    proof {
        reveal_with_fuel(expr_model, 4);
        assert(cm[mu as int] == coords@[mu as int]@);
        assert(cm[nu as int] == coords@[nu as int]@);
        assert(expr@ == riem_base(ch, cm, rho as int, sigma as int, mu as int, nu as int));
    }
    let mut lambda: usize = 0;
    while lambda < n
        invariant
            rho < n,
            sigma < n,
            mu < n,
            nu < n,
            lambda <= n,
            ch == tensor3_model(christoffel@),
            cm == coords_model(coords@),
            christoffel@.len() == n,
            forall|i: int| 0 <= i < n ==> (#[trigger] christoffel@[i])@.len() == n,
            forall|i: int, j: int|
                0 <= i < n && 0 <= j < n ==> (#[trigger] christoffel@[i]@[j])@.len() == n,
            expr@ == riem_sum(ch, cm, rho as int, sigma as int, mu as int, nu as int,
                lambda as nat),
        decreases n - lambda,
    {
        proof {
            lemma_grid_index(christoffel@[rho as int]@, lambda as int, mu as int);
            lemma_grid_index(christoffel@[rho as int]@, lambda as int, nu as int);
            lemma_grid_index(christoffel@[lambda as int]@, sigma as int, nu as int);
            lemma_grid_index(christoffel@[lambda as int]@, sigma as int, mu as int);
            assert(ch[rho as int] == grid_model(christoffel@[rho as int]@));
            assert(ch[lambda as int] == grid_model(christoffel@[lambda as int]@));
        }
        let term1 = SymbolicExpr::Multiply(
            Box::new(christoffel[rho][lambda][mu].clone_rec()),
            Box::new(christoffel[lambda][sigma][nu].clone_rec()),
        );
        let term2 = SymbolicExpr::Multiply(
            Box::new(christoffel[rho][lambda][nu].clone_rec()),
            Box::new(christoffel[lambda][sigma][mu].clone_rec()),
        );
        expr = SymbolicExpr::Add(
            Box::new(expr),
            Box::new(SymbolicExpr::Subtract(Box::new(term1), Box::new(term2))),
        );
        proof {
            reveal_with_fuel(expr_model, 5);
            assert(expr@ == riem_sum(ch, cm, rho as int, sigma as int, mu as int, nu as int, (
            lambda + 1) as nat));
        }
        lambda = lambda + 1;
    }
    expr
}

/// The Riemann curvature tensor
/// `R^rho_{sigma mu nu} = d_mu Gamma^rho_{sigma nu} - d_nu
/// Gamma^rho_{sigma mu} + sum_lambda (Gamma^rho_{lambda mu}
/// Gamma^lambda_{sigma nu} - Gamma^rho_{lambda nu} Gamma^lambda_{sigma
/// mu})`, computed over the reinflated Christoffel list, each component
/// simplified once and kept only when not zero, indexed `[rho, sigma, mu,
/// nu]` in lexicographic order.
#[verifier::rlimit(100)]
pub fn calculate_riemann_tensor(metric: &MetricTensor, coords: &[String]) -> (r: Result<
    RiemannResult,
    TensorError,
>)
    requires
        is_square(grid_model(metric@), metric@.len()),
        coords@.len() >= metric@.len(),
    ensures
        r matches Ok(rr) && rr.dimension == metric@.len() && comps_model(rr.components@)
            == riemann_comps(grid_model(metric@), coords_model(coords@)),
{
    let n = metric.len();
    let ghost g = grid_model(metric@);
    let ghost cm = coords_model(coords@);
    let christoffel_result = match calculate_christoffel_symbols(metric, coords) {
        Ok(cr) => cr,
        Err(_) => {
            proof {
                assert(false);
            }
            ChristoffelResult { symbols: Vec::new(), dimension: 0 }
        },
    };
    proof {
        lemma_chris_list_ok(g, cm, (n * n * n) as nat, n as nat);
    }
    let christoffel = symbols_to_tensor(&christoffel_result, n);
    let ghost ch = dense3(chris_comps(g, cm), n as nat);
    proof {
        assert(tensor3_model(christoffel@) == ch);
        lemma_dense3_shape(chris_comps(g, cm), n as nat);
    }
    let mut components: Vec<TensorComponent> = Vec::new();
    let mut rho: usize = 0;
    while rho < n
        invariant
            rho <= n,
            n == metric@.len(),
            g == grid_model(metric@),
            cm == coords_model(coords@),
            coords@.len() >= n,
            tensor3_model(christoffel@) == ch,
            ch == dense3(chris_comps(g, cm), n as nat),
            christoffel@.len() == n,
            forall|i: int| 0 <= i < n ==> (#[trigger] christoffel@[i])@.len() == n,
            forall|i: int, j: int|
                0 <= i < n && 0 <= j < n ==> (#[trigger] christoffel@[i]@[j])@.len() == n,
            comps_model(components@) == riem_list(ch, cm, n as nat, (rho * n * n * n) as nat),
        decreases n - rho,
    {
        let mut sigma: usize = 0;
        while sigma < n
            invariant
                rho < n,
                sigma <= n,
                n == metric@.len(),
                g == grid_model(metric@),
                cm == coords_model(coords@),
                coords@.len() >= n,
                tensor3_model(christoffel@) == ch,
                ch == dense3(chris_comps(g, cm), n as nat),
                christoffel@.len() == n,
                forall|i: int| 0 <= i < n ==> (#[trigger] christoffel@[i])@.len() == n,
                forall|i: int, j: int|
                    0 <= i < n && 0 <= j < n ==> (#[trigger] christoffel@[i]@[j])@.len() == n,
                comps_model(components@) == riem_list(
                    ch,
                    cm,
                    n as nat,
                    (rho * n * n * n + sigma * n * n) as nat,
                ),
            decreases n - sigma,
        {
            let mut mu: usize = 0;
            while mu < n
                invariant
                    rho < n,
                    sigma < n,
                    mu <= n,
                    n == metric@.len(),
                    g == grid_model(metric@),
                    cm == coords_model(coords@),
                    coords@.len() >= n,
                    tensor3_model(christoffel@) == ch,
                    ch == dense3(chris_comps(g, cm), n as nat),
                    christoffel@.len() == n,
                    forall|i: int| 0 <= i < n ==> (#[trigger] christoffel@[i])@.len() == n,
                    forall|i: int, j: int|
                        0 <= i < n && 0 <= j < n ==> (#[trigger] christoffel@[i]@[j])@.len()
                            == n,
                    comps_model(components@) == riem_list(
                        ch,
                        cm,
                        n as nat,
                        (rho * n * n * n + sigma * n * n + mu * n) as nat,
                    ),
                decreases n - mu,
            {
                let mut nu: usize = 0;
                while nu < n
                    invariant
                        rho < n,
                        sigma < n,
                        mu < n,
                        nu <= n,
                        n == metric@.len(),
                        g == grid_model(metric@),
                        cm == coords_model(coords@),
                        coords@.len() >= n,
                        tensor3_model(christoffel@) == ch,
                        ch == dense3(chris_comps(g, cm), n as nat),
                        christoffel@.len() == n,
                        forall|i: int| 0 <= i < n ==> (#[trigger] christoffel@[i])@.len() == n,
                        forall|i: int, j: int|
                            0 <= i < n && 0 <= j < n ==> (#[trigger] christoffel@[i]@[
                                j
                            ])@.len() == n,
                        comps_model(components@) == riem_list(
                            ch,
                            cm,
                            n as nat,
                            (rho * n * n * n + sigma * n * n + mu * n + nu) as nat,
                        ),
                    decreases n - nu,
                {
                    let expr = riem_component(&christoffel, coords, rho, sigma, mu, nu, n);
                    let simplified = expr.simplify();
                    let ghost t0 = (rho * n * n * n + sigma * n * n + mu * n + nu) as nat;
                    proof {
                        lemma_idx4(rho as int, sigma as int, mu as int, nu as int, n as int);
                        assert((((rho * n + sigma) * n + mu) * n + nu) == rho * n * n * n
                            + sigma * n * n + mu * n + nu) by (nonlinear_arith);
                        assert(riem_list(ch, cm, n as nat, (t0 + 1) as nat) == ({
                            let e = simp_model(riem_sum(ch, cm, rho as int, sigma as int,
                                mu as int, nu as int, n as nat));
                            if is_zero_model(e) {
                                riem_list(ch, cm, n as nat, t0)
                            } else {
                                riem_list(ch, cm, n as nat, t0).push(
                                    CompModel {
                                        indices: seq![rho, sigma, mu, nu],
                                        text: fmt_model(e),
                                    },
                                )
                            }
                        }));
                    }
                    if !simplified.is_zero() {
                        let text = simplified.render();
                        let comp = TensorComponent {
                            indices: vec![rho, sigma, mu, nu],
                            expression: text,
                        };
                        let ghost old_components = components@;
                        proof {
                            assert(comp.indices@ =~= seq![rho, sigma, mu, nu]);
                        }
                        components.push(comp);
                        proof {
                            lemma_comps_model_push(old_components, comp);
                        }
                    }
                    nu = nu + 1;
                }
                proof {
                    assert(rho * n * n * n + sigma * n * n + mu * n + n == rho * n * n * n
                        + sigma * n * n + (mu + 1) * n) by (nonlinear_arith);
                }
                mu = mu + 1;
            }
            proof {
                assert(rho * n * n * n + sigma * n * n + n * n == rho * n * n * n + (sigma + 1)
                    * n * n) by (nonlinear_arith);
            }
            sigma = sigma + 1;
        }
        proof {
            assert(rho * n * n * n + n * n * n == (rho + 1) * n * n * n) by (nonlinear_arith);
        }
        rho = rho + 1;
    }
    Ok(RiemannResult { components, dimension: n })
}


/// The Ricci contraction `R_{mu nu} = sum_rho R^rho_{mu rho nu}` after the
/// first `k` summands.
pub open spec fn ric_sum(
    riem: Seq<Seq<Seq<Seq<ExprModel>>>>,
    mu: int,
    nu: int,
    k: nat,
) -> ExprModel
    decreases k,
{
    if k == 0 {
        ExprModel::Zero
    } else {
        ExprModel::Add(
            Box::new(ric_sum(riem, mu, nu, (k - 1) as nat)),
            Box::new(riem[k - 1][mu][k - 1][nu]),
        )
    }
}

/// The sparse Ricci components for the first `t` index pairs.
pub open spec fn ricci_list(riem: Seq<Seq<Seq<Seq<ExprModel>>>>, n: nat, t: nat) -> Seq<
    CompModel,
>
    decreases t,
{
    if t == 0 {
        Seq::empty()
    } else {
        let prev = ricci_list(riem, n, (t - 1) as nat);
        let nn = n as int;
        let t0 = (t - 1) as int;
        let mu = t0 / nn;
        let nu = t0 % nn;
        let e = simp_model(ric_sum(riem, mu, nu, n));
        if is_zero_model(e) {
            prev
        } else {
            prev.push(
                CompModel { indices: seq![mu as usize, nu as usize], text: fmt_model(e) },
            )
        }
    }
}

/// The Ricci components of a metric, over the reinflated Riemann list.
pub open spec fn ricci_comps(g: Seq<Seq<ExprModel>>, coords: Seq<Seq<char>>) -> Seq<CompModel> {
    let n = g.len();
    ricci_list(dense4(riemann_comps(g, coords), n), n, (n * n) as nat)
}

/// Decompose the linear index `mu*n + nu`.
pub proof fn lemma_idx2(mu: int, nu: int, n: int)
    requires
        0 <= mu < n,
        0 <= nu < n,
    ensures
        (mu * n + nu) / n == mu,
        (mu * n + nu) % n == nu,
        0 <= mu * n + nu < n * n,
{
    vstd::arithmetic::div_mod::lemma_fundamental_div_mod_converse(mu * n + nu, n, mu, nu);
    assert(0 <= mu * n + nu < n * n) by (nonlinear_arith)
        requires
            0 <= mu < n,
            0 <= nu < n,
    ;
}

/// Every Ricci component carries two in-range indices.
pub proof fn lemma_ricci_list_ok(riem: Seq<Seq<Seq<Seq<ExprModel>>>>, n: nat, t: nat)
    requires
        t <= n * n,
    ensures
        comps_ok2(ricci_list(riem, n, t), n),
    decreases t,
{
    if t > 0 {
        lemma_ricci_list_ok(riem, n, (t - 1) as nat);
        let prev = ricci_list(riem, n, (t - 1) as nat);
        let nn = n as int;
        let t0 = (t - 1) as int;
        assert(nn > 0) by (nonlinear_arith)
            requires
                nn >= 0,
                0 <= t0 < nn * nn,
        ;
        vstd::arithmetic::div_mod::lemma_multiply_divide_lt(t0, nn, nn);
        vstd::arithmetic::div_mod::lemma_div_pos_is_pos(t0, nn);
        vstd::arithmetic::div_mod::lemma_mod_bound(t0, nn);
        let cur = ricci_list(riem, n, t);
        assert forall|i: int| 0 <= i < cur.len() implies ((#[trigger] cur[i]).indices.len() == 2
            ==> cur[i].indices[0] < n && cur[i].indices[1] < n) by {
            if i < prev.len() {
                assert(cur[i] == prev[i]);
            }
        }
    }
}

/// One full Ricci component expression for fixed indices.
fn ricci_component(riemann: &RiemannTensor, mu: usize, nu: usize, n: usize) -> (out:
    SymbolicExpr)
    requires
        mu < n,
        nu < n,
        riemann@.len() == n,
        forall|i: int| 0 <= i < n ==> (#[trigger] riemann@[i])@.len() == n,
        forall|i: int, j: int|
            0 <= i < n && 0 <= j < n ==> (#[trigger] riemann@[i]@[j])@.len() == n,
        forall|i: int, j: int, k: int|
            0 <= i < n && 0 <= j < n && 0 <= k < n ==> (#[trigger] riemann@[i]@[j]@[k])@.len()
                == n,
    ensures
        out@ == ric_sum(tensor4_model(riemann@), mu as int, nu as int, n as nat),
{
    let ghost rm = tensor4_model(riemann@);
    let mut expr = SymbolicExpr::Zero;
    let mut rho: usize = 0;
    while rho < n
        invariant
            mu < n,
            nu < n,
            rho <= n,
            rm == tensor4_model(riemann@),
            riemann@.len() == n,
            forall|i: int| 0 <= i < n ==> (#[trigger] riemann@[i])@.len() == n,
            forall|i: int, j: int|
                0 <= i < n && 0 <= j < n ==> (#[trigger] riemann@[i]@[j])@.len() == n,
            forall|i: int, j: int, k: int|
                0 <= i < n && 0 <= j < n && 0 <= k < n ==> (#[trigger] riemann@[i]@[j]@[
                    k
                ])@.len() == n,
            expr@ == ric_sum(rm, mu as int, nu as int, rho as nat),
        decreases n - rho,
    {
        proof {
            lemma_grid_index(riemann@[rho as int]@[mu as int]@, rho as int, nu as int);
            assert(rm[rho as int] == tensor3_model(riemann@[rho as int]@));
            assert(tensor3_model(riemann@[rho as int]@)[mu as int] == grid_model(
                riemann@[rho as int]@[mu as int]@,
            ));
        }
        let term = riemann[rho][mu][rho][nu].clone_rec();
        expr = SymbolicExpr::Add(Box::new(expr), Box::new(term));
        proof {
            reveal_with_fuel(expr_model, 3);
            assert(expr@ == ric_sum(rm, mu as int, nu as int, (rho + 1) as nat));
        }
        rho = rho + 1;
    }
    expr
}

/// The Ricci tensor `R_{mu nu} = sum_rho R^rho_{mu rho nu}`, computed over
/// the reinflated Riemann list, each component simplified once and kept
/// only when not zero, indexed `[mu, nu]` in lexicographic order.
pub fn calculate_ricci_tensor(metric: &MetricTensor, coords: &[String]) -> (r: Result<
    RiemannResult,
    TensorError,
>)
    requires
        is_square(grid_model(metric@), metric@.len()),
        coords@.len() >= metric@.len(),
    ensures
        r matches Ok(rr) && rr.dimension == metric@.len() && comps_model(rr.components@)
            == ricci_comps(grid_model(metric@), coords_model(coords@)),
{
    let n = metric.len();
    let ghost g = grid_model(metric@);
    let ghost cm = coords_model(coords@);
    let riemann_result = match calculate_riemann_tensor(metric, coords) {
        Ok(rr) => rr,
        Err(_) => {
            proof {
                assert(false);
            }
            RiemannResult { components: Vec::new(), dimension: 0 }
        },
    };
    proof {
        lemma_riem_list_ok(
            dense3(chris_comps(g, cm), n as nat),
            cm,
            n as nat,
            (n * n * n * n) as nat,
        );
    }
    let riemann = riemann_result_to_tensor(&riemann_result, n);
    let ghost rm = dense4(riemann_comps(g, cm), n as nat);
    proof {
        assert(tensor4_model(riemann@) == rm);
    }
    let mut components: Vec<TensorComponent> = Vec::new();
    let mut mu: usize = 0;
    while mu < n
        invariant
            mu <= n,
            n == metric@.len(),
            g == grid_model(metric@),
            cm == coords_model(coords@),
            tensor4_model(riemann@) == rm,
            rm == dense4(riemann_comps(g, cm), n as nat),
            riemann@.len() == n,
            forall|i: int| 0 <= i < n ==> (#[trigger] riemann@[i])@.len() == n,
            forall|i: int, j: int|
                0 <= i < n && 0 <= j < n ==> (#[trigger] riemann@[i]@[j])@.len() == n,
            forall|i: int, j: int, k: int|
                0 <= i < n && 0 <= j < n && 0 <= k < n ==> (#[trigger] riemann@[i]@[j]@[
                    k
                ])@.len() == n,
            comps_model(components@) == ricci_list(rm, n as nat, (mu * n) as nat),
        decreases n - mu,
    {
        let mut nu: usize = 0;
        while nu < n
            invariant
                mu < n,
                nu <= n,
                n == metric@.len(),
                g == grid_model(metric@),
                cm == coords_model(coords@),
                tensor4_model(riemann@) == rm,
                rm == dense4(riemann_comps(g, cm), n as nat),
                riemann@.len() == n,
                forall|i: int| 0 <= i < n ==> (#[trigger] riemann@[i])@.len() == n,
                forall|i: int, j: int|
                    0 <= i < n && 0 <= j < n ==> (#[trigger] riemann@[i]@[j])@.len() == n,
                forall|i: int, j: int, k: int|
                    0 <= i < n && 0 <= j < n && 0 <= k < n ==> (#[trigger] riemann@[i]@[j]@[
                        k
                    ])@.len() == n,
                comps_model(components@) == ricci_list(rm, n as nat, (mu * n + nu) as nat),
            decreases n - nu,
        {
            let expr = ricci_component(&riemann, mu, nu, n);
            let simplified = expr.simplify();
            let ghost t0 = (mu * n + nu) as nat;
            proof {
                lemma_idx2(mu as int, nu as int, n as int);
                assert(ricci_list(rm, n as nat, (t0 + 1) as nat) == ({
                    let e = simp_model(ric_sum(rm, mu as int, nu as int, n as nat));
                    if is_zero_model(e) {
                        ricci_list(rm, n as nat, t0)
                    } else {
                        ricci_list(rm, n as nat, t0).push(
                            CompModel { indices: seq![mu, nu], text: fmt_model(e) },
                        )
                    }
                }));
            }
            if !simplified.is_zero() {
                let text = simplified.render();
                let comp = TensorComponent { indices: vec![mu, nu], expression: text };
                let ghost old_components = components@;
                proof {
                    assert(comp.indices@ =~= seq![mu, nu]);
                }
                components.push(comp);
                proof {
                    lemma_comps_model_push(old_components, comp);
                }
            }
            nu = nu + 1;
        }
        proof {
            assert(mu * n + n == (mu + 1) * n) by (nonlinear_arith);
        }
        mu = mu + 1;
    }
    Ok(RiemannResult { components, dimension: n })
}

/// The scalar-curvature sum `sum_{mu nu} g^{mu nu} R_{mu nu}` after the
/// first `k` summands, in row-major order.
pub open spec fn scal_sum(
    ginv: Seq<Seq<ExprModel>>,
    ric: Seq<Seq<ExprModel>>,
    n: nat,
    k: nat,
) -> ExprModel
    decreases k,
{
    if k == 0 {
        ExprModel::Zero
    } else {
        let nn = n as int;
        let t0 = (k - 1) as int;
        let i = t0 / nn;
        let j = t0 % nn;
        ExprModel::Add(
            Box::new(scal_sum(ginv, ric, n, (k - 1) as nat)),
            Box::new(ExprModel::Multiply(Box::new(ginv[i][j]), Box::new(ric[i][j]))),
        )
    }
}

/// The simplified Ricci scalar of a metric.
pub open spec fn ricci_scalar_model(g: Seq<Seq<ExprModel>>, coords: Seq<Seq<char>>) ->
    ExprModel {
    let n = g.len();
    simp_model(scal_sum(inverse_model(g), dense2(ricci_comps(g, coords), n), n, (n * n) as nat))
}

/// For any dimension other than two, the pipeline computes with the
/// identity placeholder in place of a true inverse: both the Christoffel
/// stage and the Ricci-scalar contraction receive `identity_model`, not
/// an inverse of the metric.  This is the mechanism behind the documented
/// limitation that, for example, the four-dimensional Schwarzschild
/// metric does not come out with the physical Ricci scalar.
pub proof fn lemma_placeholder_inverse(g: Seq<Seq<ExprModel>>, cm: Seq<Seq<char>>)
    requires
        g.len() != 2,
    ensures
        inverse_model(g) == identity_model(g.len()),
        ricci_scalar_model(g, cm) == simp_model(
            scal_sum(
                identity_model(g.len()),
                dense2(ricci_comps(g, cm), g.len()),
                g.len(),
                (g.len() * g.len()) as nat,
            ),
        ),
{
}

/// The Ricci scalar `R = g^{mu nu} R_{mu nu}`, recomputed from the metric
/// with the same inverse used by the Christoffel stage; its single
/// component carries an empty index tuple and is emitted even when zero.
#[verifier::rlimit(100)]
pub fn calculate_ricci_scalar(metric: &MetricTensor, coords: &[String]) -> (r: Result<
    TensorComponent,
    TensorError,
>)
    requires
        is_square(grid_model(metric@), metric@.len()),
        coords@.len() >= metric@.len(),
    ensures
        r matches Ok(c) && c.indices@ == Seq::<usize>::empty() && c.expression@ == fmt_model(
            ricci_scalar_model(grid_model(metric@), coords_model(coords@)),
        ),
{
    let n = metric.len();
    let ghost g = grid_model(metric@);
    let ghost cm = coords_model(coords@);
    let ricci_result = match calculate_ricci_tensor(metric, coords) {
        Ok(rr) => rr,
        Err(_) => {
            proof {
                assert(false);
            }
            RiemannResult { components: Vec::new(), dimension: 0 }
        },
    };
    proof {
        lemma_ricci_list_ok(dense4(riemann_comps(g, cm), n as nat), n as nat, (n * n) as nat);
    }
    let ricci = ricci_result_to_matrix(&ricci_result, n);
    let ghost ric = dense2(ricci_comps(g, cm), n as nat);
    let metric_inv = match calculate_metric_inverse(metric) {
        Ok(m) => m,
        Err(_) => {
            proof {
                assert(false);
            }
            Vec::new()
        },
    };
    let ghost ginv = inverse_model(g);
    proof {
        assert(tensor2_model(ricci@) == ric);
        assert(grid_model(metric_inv@) == ginv);
        assert(ginv.len() == n) by {
            if n == 2 {
            } else {
                assert(identity_model(n as nat).len() == n);
            }
        }
        assert forall|i: int| 0 <= i < n implies #[trigger] ginv[i].len() == n by {
            if n == 2 {
                if i == 0 {
                } else {
                    assert(i == 1);
                }
            } else {
                assert(identity_model(n as nat)[i].len() == n);
            }
        }
        assert(metric_inv@.len() == n);
        assert forall|i: int| 0 <= i < n implies #[trigger] metric_inv@[i]@.len() == n by {
            lemma_exprs_model_len(metric_inv@[i]@);
            assert(grid_model(metric_inv@)[i].len() == ginv[i].len());
        }
    }
    let mut expr = SymbolicExpr::Zero;
    let mut mu: usize = 0;
    while mu < n
        invariant
            mu <= n,
            n == metric@.len(),
            g == grid_model(metric@),
            cm == coords_model(coords@),
            tensor2_model(ricci@) == ric,
            grid_model(metric_inv@) == ginv,
            ricci@.len() == n,
            metric_inv@.len() == n,
            forall|i: int| 0 <= i < n ==> (#[trigger] ricci@[i])@.len() == n,
            forall|i: int| 0 <= i < n ==> #[trigger] metric_inv@[i]@.len() == n,
            forall|i: int| 0 <= i < n ==> #[trigger] ginv[i].len() == n,
            expr@ == scal_sum(ginv, ric, n as nat, (mu * n) as nat),
        decreases n - mu,
    {
        let mut nu: usize = 0;
        while nu < n
            invariant
                mu < n,
                nu <= n,
                n == metric@.len(),
                tensor2_model(ricci@) == ric,
                grid_model(metric_inv@) == ginv,
                ricci@.len() == n,
                metric_inv@.len() == n,
                forall|i: int| 0 <= i < n ==> (#[trigger] ricci@[i])@.len() == n,
                forall|i: int| 0 <= i < n ==> #[trigger] metric_inv@[i]@.len() == n,
                forall|i: int| 0 <= i < n ==> #[trigger] ginv[i].len() == n,
                expr@ == scal_sum(ginv, ric, n as nat, (mu * n + nu) as nat),
            decreases n - nu,
        {
            proof {
                lemma_grid_index(metric_inv@, mu as int, nu as int);
                lemma_grid_index(ricci@, mu as int, nu as int);
                lemma_idx2(mu as int, nu as int, n as int);
            }
            let term = SymbolicExpr::Multiply(
                Box::new(metric_inv[mu][nu].clone_rec()),
                Box::new(ricci[mu][nu].clone_rec()),
            );
            expr = SymbolicExpr::Add(Box::new(expr), Box::new(term));
            proof {
                reveal_with_fuel(expr_model, 4);
                assert(expr@ == scal_sum(ginv, ric, n as nat, (mu * n + nu + 1) as nat));
            }
            nu = nu + 1;
        }
        proof {
            assert(mu * n + n == (mu + 1) * n) by (nonlinear_arith);
        }
        mu = mu + 1;
    }
    let simplified = expr.simplify();
    let text = simplified.render();
    let out = TensorComponent { indices: Vec::new(), expression: text };
    proof {
        assert(out.indices@ =~= Seq::<usize>::empty());
    }
    Ok(out)
}

/// One Einstein component `G_{mu nu} = R_{mu nu} - (1/2) g_{mu nu} R`.
pub open spec fn ein_expr(
    g: Seq<Seq<ExprModel>>,
    ric: Seq<Seq<ExprModel>>,
    sc: ExprModel,
    mu: int,
    nu: int,
) -> ExprModel {
    ExprModel::Subtract(
        Box::new(ric[mu][nu]),
        Box::new(ExprModel::Multiply(
            Box::new(ExprModel::Constant(half_scalar())),
            Box::new(ExprModel::Multiply(Box::new(g[mu][nu]), Box::new(sc))),
        )),
    )
}

/// The sparse Einstein components for the first `t` index pairs.
pub open spec fn ein_list(
    g: Seq<Seq<ExprModel>>,
    ric: Seq<Seq<ExprModel>>,
    sc: ExprModel,
    n: nat,
    t: nat,
) -> Seq<CompModel>
    decreases t,
{
    if t == 0 {
        Seq::empty()
    } else {
        let prev = ein_list(g, ric, sc, n, (t - 1) as nat);
        let nn = n as int;
        let t0 = (t - 1) as int;
        let mu = t0 / nn;
        let nu = t0 % nn;
        let e = simp_model(ein_expr(g, ric, sc, mu, nu));
        if is_zero_model(e) {
            prev
        } else {
            prev.push(
                CompModel { indices: seq![mu as usize, nu as usize], text: fmt_model(e) },
            )
        }
    }
}

/// The Einstein components of a metric: the Ricci tensor and scalar are
/// recomputed from scratch, and the scalar's text is re-parsed, a
/// deliberately lossy interchange.
pub open spec fn einstein_comps(g: Seq<Seq<ExprModel>>, coords: Seq<Seq<char>>) -> Seq<
    CompModel,
> {
    let n = g.len();
    ein_list(
        g,
        dense2(ricci_comps(g, coords), n),
        parse_model(fmt_model(ricci_scalar_model(g, coords))),
        n,
        (n * n) as nat,
    )
}

/// The Einstein tensor `G_{mu nu} = R_{mu nu} - (1/2) g_{mu nu} R`, over
/// the reinflated Ricci list and the re-parsed Ricci-scalar text, each
/// component simplified once and kept only when not zero, indexed
/// `[mu, nu]` in lexicographic order.
#[verifier::rlimit(100)]
pub fn calculate_einstein_tensor(metric: &MetricTensor, coords: &[String]) -> (r: Result<
    RiemannResult,
    TensorError,
>)
    requires
        is_square(grid_model(metric@), metric@.len()),
        coords@.len() >= metric@.len(),
    ensures
        r matches Ok(rr) && rr.dimension == metric@.len() && comps_model(rr.components@)
            == einstein_comps(grid_model(metric@), coords_model(coords@)),
{
    let n = metric.len();
    let ghost g = grid_model(metric@);
    let ghost cm = coords_model(coords@);
    let ricci_result = match calculate_ricci_tensor(metric, coords) {
        Ok(rr) => rr,
        Err(_) => {
            proof {
                assert(false);
            }
            RiemannResult { components: Vec::new(), dimension: 0 }
        },
    };
    proof {
        lemma_ricci_list_ok(dense4(riemann_comps(g, cm), n as nat), n as nat, (n * n) as nat);
    }
    let ricci = ricci_result_to_matrix(&ricci_result, n);
    let ghost ric = dense2(ricci_comps(g, cm), n as nat);
    let ricci_scalar = match calculate_ricci_scalar(metric, coords) {
        Ok(c) => c,
        Err(_) => {
            proof {
                assert(false);
            }
            TensorComponent { indices: Vec::new(), expression: String::new() }
        },
    };
    let scalar_expr = match SymbolicExpr::parse(ricci_scalar.expression.as_str()) {
        Ok(e) => e,
        Err(_) => {
            proof {
                assert(false);
            }
            SymbolicExpr::Zero
        },
    };
    let ghost sc = parse_model(fmt_model(ricci_scalar_model(g, cm)));
    proof {
        assert(tensor2_model(ricci@) == ric);
        assert(scalar_expr@ == sc);
    }
    let mut components: Vec<TensorComponent> = Vec::new();
    let mut mu: usize = 0;
    while mu < n
        invariant
            mu <= n,
            n == metric@.len(),
            g == grid_model(metric@),
            cm == coords_model(coords@),
            is_square(g, n as nat),
            tensor2_model(ricci@) == ric,
            ric == dense2(ricci_comps(g, cm), n as nat),
            scalar_expr@ == sc,
            sc == parse_model(fmt_model(ricci_scalar_model(g, cm))),
            ricci@.len() == n,
            forall|i: int| 0 <= i < n ==> (#[trigger] ricci@[i])@.len() == n,
            comps_model(components@) == ein_list(g, ric, sc, n as nat, (mu * n) as nat),
        decreases n - mu,
    {
        let mut nu: usize = 0;
        while nu < n
            invariant
                mu < n,
                nu <= n,
                n == metric@.len(),
                g == grid_model(metric@),
                cm == coords_model(coords@),
                is_square(g, n as nat),
                tensor2_model(ricci@) == ric,
                ric == dense2(ricci_comps(g, cm), n as nat),
                scalar_expr@ == sc,
                sc == parse_model(fmt_model(ricci_scalar_model(g, cm))),
                ricci@.len() == n,
                forall|i: int| 0 <= i < n ==> (#[trigger] ricci@[i])@.len() == n,
                comps_model(components@) == ein_list(g, ric, sc, n as nat, (mu * n + nu) as nat),
            decreases n - nu,
        {
            proof {
                lemma_exprs_model_len(metric@[mu as int]@);
                lemma_grid_index(metric@, mu as int, nu as int);
                lemma_grid_index(ricci@, mu as int, nu as int);
                lemma_idx2(mu as int, nu as int, n as int);
            }
            let expr = SymbolicExpr::Subtract(
                Box::new(ricci[mu][nu].clone_rec()),
                Box::new(SymbolicExpr::Multiply(
                    Box::new(SymbolicExpr::Constant(Scalar { mantissa: 5, scale: 1 })),
                    Box::new(SymbolicExpr::Multiply(
                        Box::new(metric[mu][nu].clone_rec()),
                        Box::new(scalar_expr.clone_rec()),
                    )),
                )),
            );
            proof {
                reveal_with_fuel(expr_model, 5);
                assert(expr@ == ein_expr(g, ric, sc, mu as int, nu as int));
            }
            let simplified = expr.simplify();
            let ghost t0 = (mu * n + nu) as nat;
            proof {
                assert(ein_list(g, ric, sc, n as nat, (t0 + 1) as nat) == ({
                    let e = simp_model(ein_expr(g, ric, sc, mu as int, nu as int));
                    if is_zero_model(e) {
                        ein_list(g, ric, sc, n as nat, t0)
                    } else {
                        ein_list(g, ric, sc, n as nat, t0).push(
                            CompModel { indices: seq![mu, nu], text: fmt_model(e) },
                        )
                    }
                }));
            }
            if !simplified.is_zero() {
                let text = simplified.render();
                let comp = TensorComponent { indices: vec![mu, nu], expression: text };
                let ghost old_components = components@;
                proof {
                    assert(comp.indices@ =~= seq![mu, nu]);
                }
                components.push(comp);
                proof {
                    lemma_comps_model_push(old_components, comp);
                }
            }
            nu = nu + 1;
        }
        proof {
            assert(mu * n + n == (mu + 1) * n) by (nonlinear_arith);
        }
        mu = mu + 1;
    }
    Ok(RiemannResult { components, dimension: n })
}


/// Every entry of the matrix is a `Constant` node.
pub open spec fn all_constant(g: Seq<Seq<ExprModel>>) -> bool {
    forall|i: int, j: int|
        0 <= i < g.len() && 0 <= j < g[i].len() ==> (#[trigger] g[i][j]) is Constant
}

proof fn lemma_simp_chris_zero(
    g: Seq<Seq<ExprModel>>,
    ginv: Seq<Seq<ExprModel>>,
    cm: Seq<Seq<char>>,
    mu: int,
    alpha: int,
    beta: int,
    k: nat,
)
    requires
        is_square(g, g.len()),
        all_constant(g),
        0 <= mu < g.len(),
        0 <= alpha < g.len(),
        0 <= beta < g.len(),
        k <= g.len(),
    ensures
        simp_model(chris_sum(g, ginv, cm, mu, alpha, beta, k)) == ExprModel::Zero,
    decreases k,
{
    reveal_with_fuel(simp_model, 6);
    if k > 0 {
        lemma_simp_chris_zero(g, ginv, cm, mu, alpha, beta, (k - 1) as nat);
        let nu = k - 1;
        assert(g[nu][beta] is Constant);
        assert(g[nu][alpha] is Constant);
        assert(g[alpha][beta] is Constant);
        assert(deriv_model(g[nu][beta], cm[alpha]) == ExprModel::Zero);
        assert(deriv_model(g[nu][alpha], cm[beta]) == ExprModel::Zero);
        assert(deriv_model(g[alpha][beta], cm[nu]) == ExprModel::Zero);
    }
}

proof fn lemma_chris_list_empty(g: Seq<Seq<ExprModel>>, cm: Seq<Seq<char>>, t: nat)
    requires
        is_square(g, g.len()),
        all_constant(g),
        t <= g.len() * g.len() * g.len(),
    ensures
        chris_list(g, cm, t) == Seq::<CompModel>::empty(),
    decreases t,
{
    if t > 0 {
        lemma_chris_list_empty(g, cm, (t - 1) as nat);
        let nn = g.len() as int;
        let t0 = (t - 1) as int;
        assert(nn > 0) by (nonlinear_arith)
            requires
                nn >= 0,
                0 <= t0 < nn * nn * nn,
        ;
        assert(0 < nn * nn) by (nonlinear_arith)
            requires
                nn > 0,
        ;
        assert(t0 < (nn * nn) * nn) by (nonlinear_arith)
            requires
                t0 < nn * nn * nn,
        ;
        vstd::arithmetic::div_mod::lemma_multiply_divide_lt(t0, nn * nn, nn);
        vstd::arithmetic::div_mod::lemma_div_pos_is_pos(t0, nn * nn);
        vstd::arithmetic::div_mod::lemma_mod_bound(t0 / nn, nn);
        vstd::arithmetic::div_mod::lemma_div_pos_is_pos(t0, nn);
        vstd::arithmetic::div_mod::lemma_mod_bound(t0, nn);
        let mu = t0 / (nn * nn);
        let alpha = (t0 / nn) % nn;
        let beta = t0 % nn;
        lemma_simp_chris_zero(g, inverse_model(g), cm, mu, alpha, beta, g.len());
        reveal_with_fuel(simp_model, 3);
        assert(simp_model(chris_expr(g, cm, mu, alpha, beta)) == ExprModel::Zero);
    }
}

proof fn lemma_simp_riem_zero(
    ch: Seq<Seq<Seq<ExprModel>>>,
    cm: Seq<Seq<char>>,
    n: nat,
    rho: int,
    sigma: int,
    mu: int,
    nu: int,
    k: nat,
)
    requires
        ch == zero3(n),
        0 <= rho < n,
        0 <= sigma < n,
        0 <= mu < n,
        0 <= nu < n,
        k <= n,
    ensures
        simp_model(riem_sum(ch, cm, rho, sigma, mu, nu, k)) == ExprModel::Zero,
    decreases k,
{
    reveal_with_fuel(simp_model, 6);
    if k == 0 {
        assert(ch[rho][sigma][nu] == ExprModel::Zero);
        assert(ch[rho][sigma][mu] == ExprModel::Zero);
        assert(deriv_model(ExprModel::Zero, cm[mu]) == ExprModel::Zero);
    } else {
        lemma_simp_riem_zero(ch, cm, n, rho, sigma, mu, nu, (k - 1) as nat);
        let lam = k - 1;
        assert(ch[rho][lam][mu] == ExprModel::Zero);
        assert(ch[lam][sigma][nu] == ExprModel::Zero);
        assert(ch[rho][lam][nu] == ExprModel::Zero);
        assert(ch[lam][sigma][mu] == ExprModel::Zero);
    }
}

proof fn lemma_riem_list_empty(
    ch: Seq<Seq<Seq<ExprModel>>>,
    cm: Seq<Seq<char>>,
    n: nat,
    t: nat,
)
    requires
        ch == zero3(n),
        t <= n * n * n * n,
    ensures
        riem_list(ch, cm, n, t) == Seq::<CompModel>::empty(),
    decreases t,
{
    if t > 0 {
        lemma_riem_list_empty(ch, cm, n, (t - 1) as nat);
        let nn = n as int;
        let t0 = (t - 1) as int;
        assert(nn > 0) by (nonlinear_arith)
            requires
                nn >= 0,
                0 <= t0 < nn * nn * nn * nn,
        ;
        assert(0 < nn * nn && 0 < nn * nn * nn) by (nonlinear_arith)
            requires
                nn > 0,
        ;
        assert(t0 < (nn * nn * nn) * nn) by (nonlinear_arith)
            requires
                t0 < nn * nn * nn * nn,
        ;
        vstd::arithmetic::div_mod::lemma_multiply_divide_lt(t0, nn * nn * nn, nn);
        vstd::arithmetic::div_mod::lemma_div_pos_is_pos(t0, nn * nn * nn);
        vstd::arithmetic::div_mod::lemma_mod_bound(t0 / (nn * nn), nn);
        vstd::arithmetic::div_mod::lemma_div_pos_is_pos(t0, nn * nn);
        vstd::arithmetic::div_mod::lemma_mod_bound(t0 / nn, nn);
        vstd::arithmetic::div_mod::lemma_div_pos_is_pos(t0, nn);
        vstd::arithmetic::div_mod::lemma_mod_bound(t0, nn);
        lemma_simp_riem_zero(
            ch,
            cm,
            n,
            t0 / (nn * nn * nn),
            (t0 / (nn * nn)) % nn,
            (t0 / nn) % nn,
            t0 % nn,
            n,
        );
    }
}

proof fn lemma_simp_ric_zero(riem: Seq<Seq<Seq<Seq<ExprModel>>>>, n: nat, mu: int, nu: int,
    k: nat)
    requires
        riem == zero4(n),
        0 <= mu < n,
        0 <= nu < n,
        k <= n,
    ensures
        simp_model(ric_sum(riem, mu, nu, k)) == ExprModel::Zero,
    decreases k,
{
    reveal_with_fuel(simp_model, 3);
    if k > 0 {
        lemma_simp_ric_zero(riem, n, mu, nu, (k - 1) as nat);
        assert(riem[k - 1][mu][k - 1][nu] == ExprModel::Zero);
    }
}

proof fn lemma_ricci_list_empty(riem: Seq<Seq<Seq<Seq<ExprModel>>>>, n: nat, t: nat)
    requires
        riem == zero4(n),
        t <= n * n,
    ensures
        ricci_list(riem, n, t) == Seq::<CompModel>::empty(),
    decreases t,
{
    if t > 0 {
        lemma_ricci_list_empty(riem, n, (t - 1) as nat);
        let nn = n as int;
        let t0 = (t - 1) as int;
        assert(nn > 0) by (nonlinear_arith)
            requires
                nn >= 0,
                0 <= t0 < nn * nn,
        ;
        vstd::arithmetic::div_mod::lemma_multiply_divide_lt(t0, nn, nn);
        vstd::arithmetic::div_mod::lemma_div_pos_is_pos(t0, nn);
        vstd::arithmetic::div_mod::lemma_mod_bound(t0, nn);
        lemma_simp_ric_zero(riem, n, t0 / nn, t0 % nn, n);
    }
}

proof fn lemma_simp_scal_zero(ginv: Seq<Seq<ExprModel>>, ric: Seq<Seq<ExprModel>>, n: nat,
    k: nat)
    requires
        ric == zero2(n),
        k <= n * n,
    ensures
        simp_model(scal_sum(ginv, ric, n, k)) == ExprModel::Zero,
    decreases k,
{
    reveal_with_fuel(simp_model, 4);
    if k > 0 {
        lemma_simp_scal_zero(ginv, ric, n, (k - 1) as nat);
        let nn = n as int;
        let t0 = (k - 1) as int;
        assert(nn > 0) by (nonlinear_arith)
            requires
                nn >= 0,
                0 <= t0 < nn * nn,
        ;
        vstd::arithmetic::div_mod::lemma_multiply_divide_lt(t0, nn, nn);
        vstd::arithmetic::div_mod::lemma_div_pos_is_pos(t0, nn);
        vstd::arithmetic::div_mod::lemma_mod_bound(t0, nn);
        assert(ric[t0 / nn][t0 % nn] == ExprModel::Zero);
    }
}

/// The text `0` parses back to the `Zero` sentinel.
proof fn lemma_parse_zero_text()
    ensures
        parse_model("0"@) == ExprModel::Zero,
{
    reveal_strlit("0");
    assert("0"@.len() == 1);
    assert("0"@[0] == '0');
    assert(!is_ws_char('0'));
    assert(trim_front("0"@) == "0"@);
    assert(trim_back("0"@) == "0"@);
    assert(trim_ws("0"@) == "0"@);
}

proof fn lemma_ein_list_empty(
    g: Seq<Seq<ExprModel>>,
    ric: Seq<Seq<ExprModel>>,
    n: nat,
    t: nat,
)
    requires
        is_square(g, n),
        all_constant(g),
        ric == zero2(n),
        t <= n * n,
    ensures
        ein_list(g, ric, ExprModel::Zero, n, t) == Seq::<CompModel>::empty(),
    decreases t,
{
    if t > 0 {
        lemma_ein_list_empty(g, ric, n, (t - 1) as nat);
        let nn = n as int;
        let t0 = (t - 1) as int;
        assert(nn > 0) by (nonlinear_arith)
            requires
                nn >= 0,
                0 <= t0 < nn * nn,
        ;
        vstd::arithmetic::div_mod::lemma_multiply_divide_lt(t0, nn, nn);
        vstd::arithmetic::div_mod::lemma_div_pos_is_pos(t0, nn);
        vstd::arithmetic::div_mod::lemma_mod_bound(t0, nn);
        let mu = t0 / nn;
        let nu = t0 % nn;
        assert(ric[mu][nu] == ExprModel::Zero);
        reveal_with_fuel(simp_model, 5);
        assert(simp_model(ein_expr(g, ric, ExprModel::Zero, mu, nu)) == ExprModel::Zero);
    }
}

/// A metric whose entries are all constants is flat for this pipeline:
/// every entry differentiates to `Zero`, the Christoffel, Riemann, Ricci
/// and Einstein component lists are all empty, and the Ricci scalar
/// renders as `0`.
pub proof fn lemma_constant_metric_flat(g: Seq<Seq<ExprModel>>, cm: Seq<Seq<char>>)
    requires
        is_square(g, g.len()),
        all_constant(g),
    ensures
        forall|i: int, j: int, v: Seq<char>|
            0 <= i < g.len() && 0 <= j < g.len() ==> #[trigger] deriv_model(g[i][j], v)
                == ExprModel::Zero,
        chris_comps(g, cm) == Seq::<CompModel>::empty(),
        riemann_comps(g, cm) == Seq::<CompModel>::empty(),
        ricci_comps(g, cm) == Seq::<CompModel>::empty(),
        ricci_scalar_model(g, cm) == ExprModel::Zero,
        fmt_model(ricci_scalar_model(g, cm)) == "0"@,
        einstein_comps(g, cm) == Seq::<CompModel>::empty(),
{
    let n = g.len();
    assert forall|i: int, j: int, v: Seq<char>|
        0 <= i < n && 0 <= j < n implies #[trigger] deriv_model(g[i][j], v)
        == ExprModel::Zero by {
        assert(g[i][j] is Constant);
    }
    lemma_chris_list_empty(g, cm, (n * n * n) as nat);
    assert(dense3(chris_comps(g, cm), n) == zero3(n));
    lemma_riem_list_empty(dense3(chris_comps(g, cm), n), cm, n, (n * n * n * n) as nat);
    assert(dense4(riemann_comps(g, cm), n) == zero4(n));
    lemma_ricci_list_empty(dense4(riemann_comps(g, cm), n), n, (n * n) as nat);
    assert(dense2(ricci_comps(g, cm), n) == zero2(n));
    lemma_simp_scal_zero(inverse_model(g), dense2(ricci_comps(g, cm), n), n, (n * n) as nat);
    assert(ricci_scalar_model(g, cm) == ExprModel::Zero);
    assert(fmt_model(ExprModel::Zero) == "0"@);
    lemma_parse_zero_text();
    lemma_ein_list_empty(g, dense2(ricci_comps(g, cm), n), n, (n * n) as nat);
}

} // verus!
