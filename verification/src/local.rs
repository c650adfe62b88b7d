//! The local contribution kernel: for one element, loop the quadrature
//! points, transform basis gradients through the operator, contract pairs of
//! them, and accumulate a small dense local matrix (elliptic case) or local
//! vector (source case), scaled by quadrature weight and Jacobian
//! determinant.

use vstd::prelude::*;

use crate::scalar_ok;
use crate::space::{solution_dim_ok, QuadPointData};
use crate::sums::{iabs, lemma_abs_mul_le, sum};

verus! {

/// An elliptic operator: the physics of a bilinear form. The elliptic term
/// maps a basis gradient to a transformed gradient of the same dimension;
/// the contraction maps two geometry-dimensional vectors to a dense
/// (solution-dim x solution-dim) block, row-major.
pub trait EllipticOperator: Sized {
    /// The operator's solution dimension.
    spec fn spec_solution_dim(&self) -> nat;

    /// What the elliptic term yields on a gradient.
    spec fn spec_transform(&self, g: Seq<i128>) -> Seq<i128>;

    /// What the bilinear contraction yields on two transformed gradients.
    spec fn spec_contract(&self, a: Seq<i128>, b: Seq<i128>) -> Seq<i128>;

    /// Number of solution components per node.
    fn solution_dim(&self) -> (s: usize)
        ensures
            s as nat == self.spec_solution_dim(),
            solution_dim_ok(s as int),
    ;

    /// Apply the elliptic term to one gradient.
    fn transform_gradient(&self, g: &Vec<i128>) -> (r: Vec<i128>)
        requires
            g@.len() <= 16,
            forall|c: int| 0 <= c < g@.len() ==> scalar_ok(#[trigger] g@[c] as int),
        ensures
            r@ == self.spec_transform(g@),
            r@.len() == g@.len(),
            forall|c: int| 0 <= c < r@.len() ==> iabs(#[trigger] r@[c] as int) <= 0x1000000,
    ;

    /// Contract two transformed gradients into a solution-dim-squared block.
    fn contract(&self, a: &Vec<i128>, b: &Vec<i128>) -> (r: Vec<i128>)
        requires
            a@.len() == b@.len(),
            a@.len() <= 16,
            forall|c: int| 0 <= c < a@.len() ==> iabs(#[trigger] a@[c] as int) <= 0x1000000,
            forall|c: int| 0 <= c < b@.len() ==> iabs(#[trigger] b@[c] as int) <= 0x1000000,
        ensures
            r@ == self.spec_contract(a@, b@),
            r@.len() == self.spec_solution_dim() * self.spec_solution_dim(),
            forall|c: int|
                0 <= c < r@.len() ==> iabs(#[trigger] r@[c] as int) <= 0x10000000000000,
    ;
}

/// Dot product of two gradient vectors.
pub open spec fn dot(a: Seq<i128>, b: Seq<i128>) -> int {
    sum(a.len(), |c: int| a[c] * b[c])
}

/// The scalar Laplace operator: solution dimension one, the elliptic term is
/// the identity on gradients, and the contraction is the dot product.
pub struct PoissonOperator;

impl EllipticOperator for PoissonOperator {
    open spec fn spec_solution_dim(&self) -> nat {
        1
    }

    open spec fn spec_transform(&self, g: Seq<i128>) -> Seq<i128> {
        g
    }

    open spec fn spec_contract(&self, a: Seq<i128>, b: Seq<i128>) -> Seq<i128> {
        seq![dot(a, b) as i128]
    }

    fn solution_dim(&self) -> (s: usize) {
        1
    }

    fn transform_gradient(&self, g: &Vec<i128>) -> (r: Vec<i128>) {
        let mut r: Vec<i128> = Vec::new();
        let mut c: usize = 0;
        while c < g.len()
            invariant
                c <= g@.len(),
                r@.len() == c,
                forall|c2: int| 0 <= c2 < c ==> #[trigger] r@[c2] == g@[c2],
            decreases g@.len() - c,
        {
            r.push(g[c]);
            c = c + 1;
        }
        proof {
            assert(r@ =~= g@);
        }
        r
    }

    fn contract(&self, a: &Vec<i128>, b: &Vec<i128>) -> (r: Vec<i128>) {
        let n = a.len();
        let ghost f = |c: int| a@[c] * b@[c];
        let mut acc: i128 = 0;
        let mut c: usize = 0;
        while c < n
            invariant
                c <= n,
                n == a@.len(),
                n == b@.len(),
                n <= 16,
                forall|c2: int| 0 <= c2 < n ==> iabs(#[trigger] a@[c2] as int) <= 0x1000000,
                forall|c2: int| 0 <= c2 < n ==> iabs(#[trigger] b@[c2] as int) <= 0x1000000,
                f == (|c2: int| a@[c2] * b@[c2]),
                acc == sum(c as nat, f),
                iabs(acc as int) <= c * 0x1000000000000,
            decreases n - c,
        {
            proof {
                lemma_abs_mul_le(a@[c as int] as int, b@[c as int] as int, 0x1000000, 0x1000000);
                assert(f(c as int) == a@[c as int] * b@[c as int]);
            }
            acc = acc + a[c] * b[c];
            c = c + 1;
        }
        proof {
            crate::sums::lemma_sum_eq(n as nat, f, |c2: int| a@[c2] * b@[c2]);
            assert(acc == dot(a@, b@));
        }
        let mut r: Vec<i128> = Vec::new();
        r.push(acc);
        proof {
            assert(r@ =~= self.spec_contract(a@, b@));
            assert(self.spec_solution_dim() == 1nat);
            assert(self.spec_solution_dim() * self.spec_solution_dim() == 1) by (nonlinear_arith)
                requires
                    self.spec_solution_dim() == 1nat,
            ;
        }
        r
    }
}

/// The contribution of one quadrature point to flattened local matrix entry
/// `u` (with `ll` local degrees of freedom): weight times |det J| times the
/// matching block entry of the contraction of the two transformed gradients.
pub open spec fn entry_term<Op: EllipticOperator>(
    op: Op,
    qp: QuadPointData,
    s: nat,
    ll: int,
    u: int,
) -> int {
    let a = u / ll;
    let b = u % ll;
    let i = a / (s as int);
    let ki = a % (s as int);
    let j = b / (s as int);
    let kj = b % (s as int);
    qp.weight * iabs(qp.jacobian_det as int) * (op.spec_contract(
        op.spec_transform(qp.gradients@[i]@),
        op.spec_transform(qp.gradients@[j]@),
    )[ki * s + kj] as int)
}

/// Flattened entry `u` of the local matrix of one element: the quadrature sum
/// of the point contributions.
pub open spec fn local_matrix_entry<Op: EllipticOperator>(
    op: Op,
    qps: Seq<QuadPointData>,
    s: nat,
    ll: int,
    u: int,
) -> int {
    sum(qps.len(), |q: int| entry_term(op, qps[q], s, ll, u))
}

/// The local matrix of one element as a value sequence, row-major over
/// `ll * ll` entries.
pub open spec fn spec_local_matrix<Op: EllipticOperator>(
    op: Op,
    qps: Seq<QuadPointData>,
    s: nat,
    ll: int,
) -> Seq<i128> {
    Seq::new((ll * ll) as nat, |u: int| local_matrix_entry(op, qps, s, ll, u) as i128)
}

/// The local load vector of one element as a value sequence over `ll`
/// entries.
pub open spec fn spec_local_vector(
    qps: Seq<QuadPointData>,
    src: Seq<Vec<i128>>,
    s: nat,
    ll: int,
) -> Seq<i128> {
    Seq::new(ll as nat, |u: int| local_vector_entry(qps, src, s, u) as i128)
}

/// An element with no quadrature points contributes an all-zero local matrix.
pub proof fn lemma_empty_rule_zero_local_matrix<Op: EllipticOperator>(
    op: Op,
    qps: Seq<QuadPointData>,
    s: nat,
    ll: int,
    u: int,
)
    requires
        qps.len() == 0,
    ensures
        local_matrix_entry(op, qps, s, ll, u) == 0,
{
}

/// Assemble the local dense matrix of one element: a row-major
/// `(num_nodes * s) x (num_nodes * s)` matrix, `s` the operator's solution
/// dimension, whose entry for local dofs `(i * s + ki, j * s + kj)` is the
/// quadrature sum of `weight * |det J|` times block entry `(ki, kj)` of the
/// contraction of the transformed gradients of nodes `i` and `j`.
pub fn assemble_local_matrix<Op: EllipticOperator>(
    op: &Op,
    quad_points: &Vec<QuadPointData>,
    num_nodes: usize,
    geometry_dim: usize,
) -> (r: Vec<i128>)
    requires
        num_nodes <= 1024,
        geometry_dim <= 16,
        quad_points@.len() <= 1024,
        forall|q: int|
            0 <= q < quad_points@.len() ==> (#[trigger] quad_points@[q]).wf(num_nodes as int),
        forall|q: int|
            0 <= q < quad_points@.len() ==> (#[trigger] quad_points@[q]).grad_wf(
                num_nodes as int,
                geometry_dim as int,
            ),
    ensures
        r@.len() == (num_nodes * op.spec_solution_dim()) * (num_nodes * op.spec_solution_dim()),
        forall|u: int|
            0 <= u < r@.len() ==> #[trigger] r@[u] == local_matrix_entry(
                *op,
                quad_points@,
                op.spec_solution_dim(),
                (num_nodes * op.spec_solution_dim()) as int,
                u,
            ),
        forall|u: int|
            0 <= u < r@.len() ==> iabs(#[trigger] r@[u] as int) <= 0x40000000000000000000000,
{
    let s = op.solution_dim();
    proof {
        assert(num_nodes * s <= 1024 * 16) by (nonlinear_arith)
            requires
                num_nodes <= 1024,
                0 <= s <= 16,
        ;
        assert((num_nodes * s) * (num_nodes * s) <= 16384 * 16384) by (nonlinear_arith)
            requires
                0 <= num_nodes * s <= 16384,
        ;
    }
    let ll = num_nodes * s;
    let total = ll * ll;
    let mut r = crate::assembly::zero_values(total);
    let nq = quad_points.len();
    let ghost terms = |q: int, u: int| entry_term(*op, quad_points@[q], s as nat, ll as int, u);
    let mut q: usize = 0;
    while q < nq
        invariant
            q <= nq,
            nq == quad_points@.len(),
            nq <= 1024,
            num_nodes <= 1024,
            geometry_dim <= 16,
            s == op.spec_solution_dim(),
            solution_dim_ok(s as int),
            ll == num_nodes * s,
            ll <= 16384,
            total == ll * ll,
            r@.len() == total,
            forall|q2: int|
                0 <= q2 < nq ==> (#[trigger] quad_points@[q2]).wf(num_nodes as int),
            forall|q2: int|
                0 <= q2 < nq ==> (#[trigger] quad_points@[q2]).grad_wf(
                    num_nodes as int,
                    geometry_dim as int,
                ),
            terms == (
            |q2: int, u: int| entry_term(*op, quad_points@[q2], s as nat, ll as int, u)
            ),
            forall|u: int|
                0 <= u < total ==> #[trigger] r@[u] == sum(q as nat, |q2: int| terms(q2, u)),
            forall|u: int|
                0 <= u < total ==> iabs(#[trigger] r@[u] as int) <= q * 0x10000000000000000000,
        decreases nq - q,
    {
        let qp = &quad_points[q];
        let mut tg: Vec<Vec<i128>> = Vec::new();
        let mut i: usize = 0;
        while i < num_nodes
            invariant
                i <= num_nodes,
                qp.wf(num_nodes as int),
                qp.grad_wf(num_nodes as int, geometry_dim as int),
                geometry_dim <= 16,
                tg@.len() == i,
                forall|i2: int|
                    0 <= i2 < i ==> (#[trigger] tg@[i2])@ == op.spec_transform(
                        qp.gradients@[i2]@,
                    ),
                forall|i2: int| 0 <= i2 < i ==> (#[trigger] tg@[i2])@.len() == geometry_dim,
                forall|i2: int, c: int|
                    0 <= i2 < i && 0 <= c < geometry_dim ==> iabs(
                        #[trigger] tg@[i2]@[c] as int,
                    ) <= 0x1000000,
            decreases num_nodes - i,
        {
            let t = op.transform_gradient(&qp.gradients[i]);
            tg.push(t);
            i = i + 1;
        }
        let det = qp.jacobian_det;
        let det_abs = if det < 0 {
            -det
        } else {
            det
        };
        proof {
            lemma_abs_mul_le(qp.weight as int, det_abs as int, 4096, 4096);
        }
        let wd = qp.weight * det_abs;
        let ghost r_pre = r@;
        let mut u: usize = 0;
        while u < total
            invariant
                u <= total,
                q < nq,
                nq == quad_points@.len(),
                nq <= 1024,
                num_nodes <= 1024,
                geometry_dim <= 16,
                s == op.spec_solution_dim(),
                solution_dim_ok(s as int),
                ll == num_nodes * s,
                ll <= 16384,
                total == ll * ll,
                r@.len() == total,
                qp == quad_points@[q as int],
                qp.wf(num_nodes as int),
                qp.grad_wf(num_nodes as int, geometry_dim as int),
                wd == qp.weight * iabs(qp.jacobian_det as int),
                iabs(wd as int) <= 0x1000000,
                tg@.len() == num_nodes,
                forall|i2: int|
                    0 <= i2 < num_nodes ==> (#[trigger] tg@[i2])@ == op.spec_transform(
                        qp.gradients@[i2]@,
                    ),
                forall|i2: int|
                    0 <= i2 < num_nodes ==> (#[trigger] tg@[i2])@.len() == geometry_dim,
                forall|i2: int, c: int|
                    0 <= i2 < num_nodes && 0 <= c < geometry_dim ==> iabs(
                        #[trigger] tg@[i2]@[c] as int,
                    ) <= 0x1000000,
                terms == (
                |q2: int, u2: int| entry_term(*op, quad_points@[q2], s as nat, ll as int, u2)
                ),
                forall|u2: int|
                    0 <= u2 < total ==> #[trigger] r_pre[u2] == sum(
                        q as nat,
                        |q2: int| terms(q2, u2),
                    ),
                forall|u2: int|
                    0 <= u2 < total ==> iabs(#[trigger] r_pre[u2] as int) <= q
                        * 0x10000000000000000000,
                forall|u2: int| u <= u2 < total ==> #[trigger] r@[u2] == r_pre[u2],
                forall|u2: int|
                    0 <= u2 < u ==> #[trigger] r@[u2] == sum(
                        (q + 1) as nat,
                        |q2: int| terms(q2, u2),
                    ),
                forall|u2: int|
                    0 <= u2 < u ==> iabs(#[trigger] r@[u2] as int) <= (q + 1)
                        * 0x10000000000000000000,
            decreases total - u,
        {
            proof {
                assert(1 <= ll) by (nonlinear_arith)
                    requires
                        0 <= u < ll * ll,
                        0 <= ll,
                ;
                assert(0 <= u as int / ll as int && u as int / (ll as int) < ll && 0 <= u as int
                    % (ll as int) < ll) by (nonlinear_arith)
                    requires
                        0 <= u < ll * ll,
                        1 <= ll,
                ;
            }
            let a = u / ll;
            let b = u % ll;
            proof {
                assert(0 <= a as int / s as int && a as int / (s as int) < num_nodes && 0
                    <= a as int % (s as int) < s && 0 <= b as int / s as int && b as int / (
                s as int) < num_nodes && 0 <= b as int % (s as int) < s) by (nonlinear_arith)
                    requires
                        0 <= a < num_nodes * s,
                        0 <= b < num_nodes * s,
                        1 <= s,
                ;
            }
            let i = a / s;
            let ki = a % s;
            let j = b / s;
            let kj = b % s;
            let block = op.contract(&tg[i], &tg[j]);
            proof {
                assert(ki * s + kj < s * s && ki * s + kj < 256 && s * s <= 256)
                    by (nonlinear_arith)
                    requires
                        0 <= ki < s,
                        0 <= kj < s,
                        s <= 16,
                ;
            }
            let bv = block[ki * s + kj];
            proof {
                lemma_abs_mul_le(wd as int, bv as int, 0x1000000, 0x10000000000000);
                assert(terms(q as int, u as int) == wd * bv);
            }
            let val = wd * bv;
            let cur = r[u];
            r.set(u, cur + val);
            proof {
                let fu = |q2: int| terms(q2, u as int);
                assert(sum((q + 1) as nat, fu) == sum(q as nat, fu) + fu(q as int));
                assert(r@[u as int] == sum((q + 1) as nat, fu));
            }
            u = u + 1;
        }
        q = q + 1;
        proof {
            assert forall|u2: int| 0 <= u2 < total implies #[trigger] r@[u2] == sum(
                q as nat,
                |q2: int| terms(q2, u2),
            ) by {}
        }
    }
    proof {
        assert forall|u: int| 0 <= u < total implies #[trigger] r@[u] == local_matrix_entry(
            *op,
            quad_points@,
            s as nat,
            ll as int,
            u,
        ) by {
            crate::sums::lemma_sum_eq(
                nq as nat,
                |q2: int| terms(q2, u),
                |q2: int| entry_term(*op, quad_points@[q2], s as nat, ll as int, u),
            );
        }
        assert forall|u: int| 0 <= u < total implies iabs(#[trigger] r@[u] as int)
            <= 0x40000000000000000000000 by {
            assert(nq * 0x10000000000000000000 <= 1024 * 0x10000000000000000000)
                by (nonlinear_arith)
                requires
                    0 <= nq <= 1024,
            ;
        }
    }
    r
}

/// The contribution of one quadrature point to flattened local vector entry
/// `u` (node `u / s`, component `u % s`): weight times |det J| times the
/// node's basis value times the source component at that point.
pub open spec fn vector_entry_term(qp: QuadPointData, src: Seq<i128>, s: nat, u: int) -> int {
    qp.weight * iabs(qp.jacobian_det as int) * (qp.basis@[u / (s as int)] as int) * (src[u % (
    s as int)] as int)
}

/// Flattened entry `u` of the local load vector of one element.
pub open spec fn local_vector_entry(
    qps: Seq<QuadPointData>,
    src: Seq<Vec<i128>>,
    s: nat,
    u: int,
) -> int {
    sum(qps.len(), |q: int| vector_entry_term(qps[q], src[q]@, s, u))
}

/// An element with no quadrature points contributes an all-zero local vector.
pub proof fn lemma_empty_rule_zero_local_vector(
    qps: Seq<QuadPointData>,
    src: Seq<Vec<i128>>,
    s: nat,
    u: int,
)
    requires
        qps.len() == 0,
    ensures
        local_vector_entry(qps, src, s, u) == 0,
{
}

/// Assemble the local load vector of one element from the source function's
/// values at the quadrature points: entry `i * s + k` is the quadrature sum
/// of `weight * |det J| * basis(i) * source component k`.
pub fn assemble_local_vector(
    quad_points: &Vec<QuadPointData>,
    source_values: &Vec<Vec<i128>>,
    num_nodes: usize,
    solution_dim: usize,
) -> (r: Vec<i128>)
    requires
        solution_dim_ok(solution_dim as int),
        num_nodes <= 1024,
        quad_points@.len() <= 1024,
        source_values@.len() == quad_points@.len(),
        forall|q: int|
            0 <= q < quad_points@.len() ==> (#[trigger] quad_points@[q]).wf(num_nodes as int),
        forall|q: int|
            0 <= q < source_values@.len() ==> (#[trigger] source_values@[q])@.len()
                == solution_dim,
        forall|q: int, c: int|
            0 <= q < source_values@.len() && 0 <= c < solution_dim ==> scalar_ok(
                #[trigger] source_values@[q]@[c] as int,
            ),
    ensures
        r@.len() == num_nodes * solution_dim,
        forall|u: int|
            0 <= u < r@.len() ==> #[trigger] r@[u] == local_vector_entry(
                quad_points@,
                source_values@,
                solution_dim as nat,
                u,
            ),
        forall|u: int|
            0 <= u < r@.len() ==> iabs(#[trigger] r@[u] as int) <= 0x40000000000000000000000,
{
    let s = solution_dim;
    proof {
        assert(num_nodes * s <= 1024 * 16) by (nonlinear_arith)
            requires
                num_nodes <= 1024,
                0 <= s <= 16,
        ;
    }
    let total = num_nodes * s;
    let mut r = crate::assembly::zero_values(total);
    let nq = quad_points.len();
    let ghost terms = |q: int, u: int|
        vector_entry_term(quad_points@[q], source_values@[q]@, s as nat, u);
    let mut q: usize = 0;
    while q < nq
        invariant
            q <= nq,
            nq == quad_points@.len(),
            nq <= 1024,
            num_nodes <= 1024,
            s == solution_dim,
            solution_dim_ok(s as int),
            total == num_nodes * s,
            r@.len() == total,
            source_values@.len() == nq,
            forall|q2: int|
                0 <= q2 < nq ==> (#[trigger] quad_points@[q2]).wf(num_nodes as int),
            forall|q2: int|
                0 <= q2 < nq ==> (#[trigger] source_values@[q2])@.len() == s,
            forall|q2: int, c: int|
                0 <= q2 < nq && 0 <= c < s ==> scalar_ok(#[trigger] source_values@[q2]@[c] as int),
            terms == (
            |q2: int, u2: int|
                vector_entry_term(quad_points@[q2], source_values@[q2]@, s as nat, u2)
            ),
            forall|u2: int|
                0 <= u2 < total ==> #[trigger] r@[u2] == sum(q as nat, |q2: int| terms(q2, u2)),
            forall|u2: int|
                0 <= u2 < total ==> iabs(#[trigger] r@[u2] as int) <= q * 0x1000000000000,
        decreases nq - q,
    {
        let qp = &quad_points[q];
        let src = &source_values[q];
        let det = qp.jacobian_det;
        let det_abs = if det < 0 {
            -det
        } else {
            det
        };
        proof {
            lemma_abs_mul_le(qp.weight as int, det_abs as int, 4096, 4096);
        }
        let wd = qp.weight * det_abs;
        let ghost r_pre = r@;
        let mut u: usize = 0;
        while u < total
            invariant
                u <= total,
                q < nq,
                nq == quad_points@.len(),
                nq <= 1024,
                num_nodes <= 1024,
                s == solution_dim,
                solution_dim_ok(s as int),
                total == num_nodes * s,
                r@.len() == total,
                source_values@.len() == nq,
                qp == quad_points@[q as int],
                src == source_values@[q as int],
                qp.wf(num_nodes as int),
                src@.len() == s,
                forall|c: int| 0 <= c < s ==> scalar_ok(#[trigger] src@[c] as int),
                wd == qp.weight * iabs(qp.jacobian_det as int),
                iabs(wd as int) <= 0x1000000,
                terms == (
                |q2: int, u2: int|
                    vector_entry_term(quad_points@[q2], source_values@[q2]@, s as nat, u2)
                ),
                forall|u2: int|
                    0 <= u2 < total ==> #[trigger] r_pre[u2] == sum(
                        q as nat,
                        |q2: int| terms(q2, u2),
                    ),
                forall|u2: int|
                    0 <= u2 < total ==> iabs(#[trigger] r_pre[u2] as int) <= q * 0x1000000000000,
                forall|u2: int| u <= u2 < total ==> #[trigger] r@[u2] == r_pre[u2],
                forall|u2: int|
                    0 <= u2 < u ==> #[trigger] r@[u2] == sum(
                        (q + 1) as nat,
                        |q2: int| terms(q2, u2),
                    ),
                forall|u2: int|
                    0 <= u2 < u ==> iabs(#[trigger] r@[u2] as int) <= (q + 1) * 0x1000000000000,
            decreases total - u,
        {
            proof {
                assert(0 <= u as int / s as int && u as int / (s as int) < num_nodes && 0
                    <= u as int % (s as int) < s) by (nonlinear_arith)
                    requires
                        0 <= u < num_nodes * s,
                        1 <= s,
                ;
            }
            let i = u / s;
            let k = u % s;
            let phi = qp.basis[i];
            let sv = src[k];
            proof {
                lemma_abs_mul_le(wd as int, phi as int, 0x1000000, 4096);
                lemma_abs_mul_le(wd * phi, sv as int, 0x1000000000, 4096);
                assert(terms(q as int, u as int) == wd * phi * sv);
            }
            let val = wd * phi * sv;
            let cur = r[u];
            r.set(u, cur + val);
            proof {
                let fu = |q2: int| terms(q2, u as int);
                assert(sum((q + 1) as nat, fu) == sum(q as nat, fu) + fu(q as int));
                assert(r@[u as int] == sum((q + 1) as nat, fu));
            }
            u = u + 1;
        }
        q = q + 1;
        proof {
            assert forall|u2: int| 0 <= u2 < total implies #[trigger] r@[u2] == sum(
                q as nat,
                |q2: int| terms(q2, u2),
            ) by {}
        }
    }
    proof {
        assert forall|u: int| 0 <= u < total implies #[trigger] r@[u] == local_vector_entry(
            quad_points@,
            source_values@,
            s as nat,
            u,
        ) by {
            crate::sums::lemma_sum_eq(
                nq as nat,
                |q2: int| terms(q2, u),
                |q2: int| vector_entry_term(quad_points@[q2], source_values@[q2]@, s as nat, u),
            );
        }
        assert forall|u: int| 0 <= u < total implies iabs(#[trigger] r@[u] as int)
            <= 0x40000000000000000000000 by {
            assert(nq * 0x1000000000000 <= 1024 * 0x1000000000000) by (nonlinear_arith)
                requires
                    0 <= nq <= 1024,
            ;
        }
    }
    r
}

} // verus!
