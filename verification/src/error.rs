//! Error estimation: exact integration of the squared pointwise difference
//! between a reconstructed discrete field and reference values, over the
//! element and quadrature tables.

use vstd::prelude::*;

use crate::scalar_ok;
use crate::space::{
    gather_global_to_local, solution_dim_ok, QuadPointData, QuadratureTable, Space,
};
use crate::sums::{iabs, lemma_abs_mul_le, lemma_sum_bound, lemma_sum_nonneg, lemma_sum_zero, sum};

verus! {

/// Component `k` of the discrete field reconstructed from element-local
/// coefficients `u_e` against basis values `phi`: the sum over local nodes
/// `i` of `u_e[i * s + k] * phi[i]`.
pub open spec fn u_h_component(u_e: Seq<i128>, phi: Seq<i128>, s: nat, k: int) -> int {
    sum(phi.len(), |i: int| u_e[i * s + k] * phi[i])
}

/// Squared euclidean distance between the reconstruction and the reference
/// value `u` at one quadrature point.
pub open spec fn point_error_sq(u_e: Seq<i128>, phi: Seq<i128>, u: Seq<i128>, s: nat) -> int {
    sum(
        s,
        |k: int|
            (u_h_component(u_e, phi, s, k) - u[k]) * (u_h_component(u_e, phi, s, k) - u[k]),
    )
}

/// Contribution of one quadrature point to the squared element error:
/// `weight * |det J| * |u_h - u|^2`.
pub open spec fn point_term(qp: QuadPointData, u: Seq<i128>, u_e: Seq<i128>, s: nat) -> int {
    qp.weight * iabs(qp.jacobian_det as int) * point_error_sq(u_e, qp.basis@, u, s)
}

/// Squared L2 error over one element: the quadrature sum of the point terms.
pub open spec fn element_error_sq(
    qps: Seq<QuadPointData>,
    u_vals: Seq<Vec<i128>>,
    u_e: Seq<i128>,
    s: nat,
) -> int {
    sum(qps.len(), |q: int| point_term(qps[q], u_vals[q]@, u_e, s))
}

/// Reconstruct the discrete field at one point: the (solution-dim x node
/// count) coefficient matrix applied to the basis values.
pub fn evaluate_u_h(u_h_element: &Vec<i128>, phi: &Vec<i128>, solution_dim: usize) -> (r: Vec<
    i128,
>)
    requires
        solution_dim_ok(solution_dim as int),
        phi@.len() <= 1024,
        u_h_element@.len() == solution_dim * phi@.len(),
        forall|j: int| 0 <= j < u_h_element@.len() ==> scalar_ok(#[trigger] u_h_element@[j] as int),
        forall|i: int| 0 <= i < phi@.len() ==> scalar_ok(#[trigger] phi@[i] as int),
    ensures
        r@.len() == solution_dim,
        forall|k: int|
            0 <= k < solution_dim ==> #[trigger] r@[k] == u_h_component(
                u_h_element@,
                phi@,
                solution_dim as nat,
                k,
            ),
        forall|k: int|
            0 <= k < solution_dim ==> iabs(#[trigger] r@[k] as int) <= phi@.len() * 0x1000000,
{
    let s = solution_dim;
    let n = phi.len();
    let mut r: Vec<i128> = Vec::new();
    let mut k: usize = 0;
    while k < s
        invariant
            k <= s,
            s == solution_dim,
            n == phi@.len(),
            solution_dim_ok(s as int),
            n <= 1024,
            u_h_element@.len() == s * n,
            forall|j: int|
                0 <= j < u_h_element@.len() ==> scalar_ok(#[trigger] u_h_element@[j] as int),
            forall|i: int| 0 <= i < n ==> scalar_ok(#[trigger] phi@[i] as int),
            r@.len() == k,
            forall|k2: int|
                0 <= k2 < k ==> #[trigger] r@[k2] == u_h_component(u_h_element@, phi@, s as nat, k2),
            forall|k2: int| 0 <= k2 < k ==> iabs(#[trigger] r@[k2] as int) <= n * 0x1000000,
        decreases s - k,
    {
        let ghost summand = |i: int| u_h_element@[i * s + k] * phi@[i];
        let mut acc: i128 = 0;
        let mut i: usize = 0;
        while i < n
            invariant
                i <= n,
                k < s,
                s == solution_dim,
                n == phi@.len(),
                solution_dim_ok(s as int),
                n <= 1024,
                u_h_element@.len() == s * n,
                forall|j: int|
                    0 <= j < u_h_element@.len() ==> scalar_ok(#[trigger] u_h_element@[j] as int),
                forall|i2: int| 0 <= i2 < n ==> scalar_ok(#[trigger] phi@[i2] as int),
                summand == (|i2: int| u_h_element@[i2 * s + k] * phi@[i2]),
                acc == sum(i as nat, summand),
                iabs(acc as int) <= i * 0x1000000,
            decreases n - i,
        {
            proof {
                assert(0 <= i * s + k && i * s + k < n * s && i * s + k < s * n)
                    by (nonlinear_arith)
                    requires
                        0 <= i < n,
                        0 <= k < s,
                ;
            }
            let len = u_h_element.len();
            proof {
                assert(i * s + k < len);
            }
            let coeff = u_h_element[i * s + k];
            proof {
                assert(scalar_ok(coeff as int));
                assert(scalar_ok(phi@[i as int] as int));
                lemma_abs_mul_le(coeff as int, phi@[i as int] as int, 4096, 4096);
            }
            let term = coeff * phi[i];
            proof {
                assert(summand(i as int) == term);
            }
            acc = acc + term;
            i = i + 1;
        }
        proof {
            crate::sums::lemma_sum_eq(
                n as nat,
                summand,
                |i2: int| u_h_element@[i2 * s + k] * phi@[i2],
            );
        }
        r.push(acc);
        k = k + 1;
    }
    r
}

/// Estimate the squared L2 error `|u_h - u|^2` on one element.
///
/// `quad_points` holds the element's evaluated quadrature rule; `u` holds the
/// reference function's value at each quadrature point's physical image;
/// `u_h_element` holds the element-local solution coefficients, laid out as
/// node index times solution dimension plus component.
#[allow(non_snake_case)]
pub fn estimate_element_L2_error_squared(
    quad_points: &Vec<QuadPointData>,
    u: &Vec<Vec<i128>>,
    u_h_element: &Vec<i128>,
    num_nodes: usize,
    solution_dim: usize,
) -> (r: i128)
    requires
        solution_dim_ok(solution_dim as int),
        num_nodes <= 1024,
        quad_points@.len() <= 1024,
        u@.len() == quad_points@.len(),
        forall|q: int|
            0 <= q < quad_points@.len() ==> (#[trigger] quad_points@[q]).wf(num_nodes as int),
        forall|q: int| 0 <= q < u@.len() ==> (#[trigger] u@[q])@.len() == solution_dim,
        forall|q: int, c: int|
            0 <= q < u@.len() && 0 <= c < solution_dim ==> scalar_ok(
                #[trigger] u@[q]@[c] as int,
            ),
        u_h_element@.len() == solution_dim * num_nodes,
        forall|j: int| 0 <= j < u_h_element@.len() ==> scalar_ok(#[trigger] u_h_element@[j] as int),
    ensures
        r == element_error_sq(quad_points@, u@, u_h_element@, solution_dim as nat),
        iabs(r as int) <= quad_points@.len() * 0x4000000000000000000000000,
{
    let s = solution_dim;
    let nq = quad_points.len();
    let ghost terms = |q: int| point_term(quad_points@[q], u@[q]@, u_h_element@, s as nat);
    let mut result: i128 = 0;
    let mut q: usize = 0;
    while q < nq
        invariant
            q <= nq,
            nq == quad_points@.len(),
            s == solution_dim,
            solution_dim_ok(s as int),
            num_nodes <= 1024,
            nq <= 1024,
            u@.len() == nq,
            forall|q2: int| 0 <= q2 < nq ==> (#[trigger] quad_points@[q2]).wf(num_nodes as int),
            forall|q2: int| 0 <= q2 < nq ==> (#[trigger] u@[q2])@.len() == s,
            forall|q2: int, c: int|
                0 <= q2 < nq && 0 <= c < s ==> scalar_ok(#[trigger] u@[q2]@[c] as int),
            u_h_element@.len() == s * num_nodes,
            forall|j: int|
                0 <= j < u_h_element@.len() ==> scalar_ok(#[trigger] u_h_element@[j] as int),
            terms == (|q2: int| point_term(quad_points@[q2], u@[q2]@, u_h_element@, s as nat)),
            result == sum(q as nat, terms),
            iabs(result as int) <= q * 0x4000000000000000000000000,
        decreases nq - q,
    {
        let qp = &quad_points[q];
        let u_h_vals = evaluate_u_h(u_h_element, &qp.basis, s);
        let u_q = &u[q];
        let ghost pes_terms = |c: int|
            (u_h_component(u_h_element@, qp.basis@, s as nat, c) - u_q@[c]) * (u_h_component(
                u_h_element@,
                qp.basis@,
                s as nat,
                c,
            ) - u_q@[c]);
        let mut pes: i128 = 0;
        let mut c: usize = 0;
        while c < s
            invariant
                c <= s,
                s == solution_dim,
                solution_dim_ok(s as int),
                num_nodes <= 1024,
                u_h_vals@.len() == s,
                u_q@.len() == s,
                forall|c2: int|
                    0 <= c2 < s ==> #[trigger] u_h_vals@[c2] == u_h_component(
                        u_h_element@,
                        qp.basis@,
                        s as nat,
                        c2,
                    ),
                forall|c2: int|
                    0 <= c2 < s ==> iabs(#[trigger] u_h_vals@[c2] as int) <= 1024 * 0x1000000,
                forall|c2: int| 0 <= c2 < s ==> scalar_ok(#[trigger] u_q@[c2] as int),
                pes_terms == (
                |c2: int|
                    (u_h_component(u_h_element@, qp.basis@, s as nat, c2) - u_q@[c2]) * (
                    u_h_component(u_h_element@, qp.basis@, s as nat, c2) - u_q@[c2])
                ),
                pes == sum(c as nat, pes_terms),
                0 <= pes,
                pes <= c * 0x400000000000000000,
            decreases s - c,
        {
            let d = u_h_vals[c] - u_q[c];
            proof {
                assert(iabs(d as int) <= 0x800000000);
                lemma_abs_mul_le(d as int, d as int, 0x800000000, 0x800000000);
                assert(d * d >= 0) by (nonlinear_arith);
                assert(pes_terms(c as int) == d * d);
            }
            let dd = d * d;
            pes = pes + dd;
            c = c + 1;
        }
        let det = qp.jacobian_det;
        let det_abs = if det < 0 {
            -det
        } else {
            det
        };
        proof {
            lemma_abs_mul_le(qp.weight as int, det_abs as int, 4096, 4096);
            assert(pes == point_error_sq(u_h_element@, qp.basis@, u_q@, s as nat));
        }
        let wd = qp.weight * det_abs;
        proof {
            lemma_abs_mul_le(wd as int, pes as int, 0x1000000, 0x4000000000000000000);
            assert(terms(q as int) == wd * pes);
        }
        let t = wd * pes;
        result = result + t;
        q = q + 1;
    }
    result
}

/// Bound on one quadrature point's contribution to the squared error.
proof fn lemma_point_term_bound(
    qp: QuadPointData,
    u: Seq<i128>,
    u_e: Seq<i128>,
    s: nat,
    num_nodes: int,
)
    requires
        1 <= s <= 16,
        num_nodes <= 1024,
        qp.wf(num_nodes),
        u.len() == s,
        forall|c: int| 0 <= c < s ==> scalar_ok(#[trigger] u[c] as int),
        u_e.len() == s * num_nodes,
        forall|j: int| 0 <= j < u_e.len() ==> scalar_ok(#[trigger] u_e[j] as int),
    ensures
        iabs(point_term(qp, u, u_e, s)) <= 0x4000000000000000000000000,
        qp.weight >= 0 ==> point_term(qp, u, u_e, s) >= 0,
{
    let pes_terms = |c: int|
        (u_h_component(u_e, qp.basis@, s, c) - u[c]) * (u_h_component(u_e, qp.basis@, s, c)
            - u[c]);
    assert forall|c: int| 0 <= c < s implies iabs(#[trigger] pes_terms(c)) <= 0x400000000000000000
        && pes_terms(c) >= 0 by {
        let comp_terms = |i: int| u_e[i * s + c] * qp.basis@[i];
        assert forall|i: int| 0 <= i < qp.basis@.len() implies iabs(#[trigger] comp_terms(i))
            <= 0x1000000 by {
            assert(0 <= i * s + c < s * num_nodes) by (nonlinear_arith)
                requires
                    0 <= i < num_nodes,
                    0 <= c < s,
            ;
            lemma_abs_mul_le(u_e[i * s + c] as int, qp.basis@[i] as int, 4096, 4096);
        }
        lemma_sum_bound(qp.basis@.len(), comp_terms, 0x1000000);
        let d = u_h_component(u_e, qp.basis@, s, c) - u[c];
        assert(iabs(d) <= 0x800000000);
        lemma_abs_mul_le(d, d, 0x800000000, 0x800000000);
        assert(d * d >= 0) by (nonlinear_arith);
    }
    lemma_sum_bound(s, pes_terms, 0x400000000000000000);
    lemma_sum_nonneg(s, pes_terms);
    let pes = point_error_sq(u_e, qp.basis@, u, s);
    lemma_abs_mul_le(qp.weight as int, iabs(qp.jacobian_det as int), 4096, 4096);
    lemma_abs_mul_le(
        qp.weight * iabs(qp.jacobian_det as int),
        pes,
        0x1000000,
        16int * 0x400000000000000000,
    );
    if qp.weight >= 0 {
        assert(qp.weight * iabs(qp.jacobian_det as int) >= 0) by (nonlinear_arith)
            requires
                qp.weight >= 0,
        ;
        assert(qp.weight * iabs(qp.jacobian_det as int) * pes >= 0) by (nonlinear_arith)
            requires
                qp.weight * iabs(qp.jacobian_det as int) >= 0,
                pes >= 0,
        ;
    }
}

/// With nonnegative quadrature weights the squared element error is
/// nonnegative: it is a quadrature sum of squares with nonnegative scale.
pub proof fn lemma_element_error_sq_nonneg(
    qps: Seq<QuadPointData>,
    u_vals: Seq<Vec<i128>>,
    u_e: Seq<i128>,
    s: nat,
    num_nodes: int,
)
    requires
        1 <= s <= 16,
        num_nodes <= 1024,
        u_vals.len() == qps.len(),
        forall|q: int| 0 <= q < qps.len() ==> (#[trigger] qps[q]).wf(num_nodes),
        forall|q: int| 0 <= q < qps.len() ==> (#[trigger] qps[q]).weight >= 0,
        forall|q: int| 0 <= q < qps.len() ==> (#[trigger] u_vals[q])@.len() == s,
        forall|q: int, c: int|
            0 <= q < qps.len() && 0 <= c < s ==> scalar_ok(#[trigger] u_vals[q]@[c] as int),
        u_e.len() == s * num_nodes,
        forall|j: int| 0 <= j < u_e.len() ==> scalar_ok(#[trigger] u_e[j] as int),
    ensures
        element_error_sq(qps, u_vals, u_e, s) >= 0,
{
    let terms = |q: int| point_term(qps[q], u_vals[q]@, u_e, s);
    assert forall|q: int| 0 <= q < qps.len() implies #[trigger] terms(q) >= 0 by {
        lemma_point_term_bound(qps[q], u_vals[q]@, u_e, s, num_nodes);
    }
    lemma_sum_nonneg(qps.len(), terms);
}

/// If the reference values equal the reconstruction of the discrete field at
/// every quadrature point, the squared element error is exactly zero.
pub proof fn lemma_element_round_trip(
    qps: Seq<QuadPointData>,
    u_vals: Seq<Vec<i128>>,
    u_e: Seq<i128>,
    s: nat,
)
    requires
        u_vals.len() == qps.len(),
        forall|q: int, c: int|
            0 <= q < qps.len() && 0 <= c < s ==> #[trigger] u_vals[q]@[c] == u_h_component(
                u_e,
                qps[q].basis@,
                s,
                c,
            ),
    ensures
        element_error_sq(qps, u_vals, u_e, s) == 0,
{
    let terms = |q: int| point_term(qps[q], u_vals[q]@, u_e, s);
    assert forall|q: int| 0 <= q < qps.len() implies #[trigger] terms(q) == 0 by {
        let ghost pes_terms = |c: int|
            (u_h_component(u_e, qps[q].basis@, s, c) - u_vals[q]@[c]) * (u_h_component(
                u_e,
                qps[q].basis@,
                s,
                c,
            ) - u_vals[q]@[c]);
        assert forall|c: int| 0 <= c < s implies #[trigger] pes_terms(c) == 0 by {
            assert(u_vals[q]@[c] == u_h_component(u_e, qps[q].basis@, s, c));
        }
        lemma_sum_zero(s, pes_terms);
        assert(point_error_sq(u_e, qps[q].basis@, u_vals[q]@, s) == 0);
        assert(qps[q].weight * iabs(qps[q].jacobian_det as int) * 0 == 0) by (nonlinear_arith);
    }
    lemma_sum_zero(qps.len(), terms);
}

/// The element-local slice of a global solution vector: entry `i * s + k` is
/// the global degree of freedom of local node `i`, component `k`.
pub open spec fn local_solution(u_h: Seq<i128>, nodes: Seq<usize>, s: nat) -> Seq<i128> {
    Seq::new(
        nodes.len() * s,
        |m: int| u_h[nodes[m / (s as int)] * s + m % (s as int)],
    )
}

/// Squared L2 error over the whole space: the sum over elements of the
/// squared element errors, each taken against that element's local slice of
/// the solution vector.
pub open spec fn total_error_sq(
    space: Space,
    qtable: QuadratureTable,
    u_vals: Seq<Vec<Vec<i128>>>,
    u_h: Seq<i128>,
    s: nat,
) -> int {
    sum(
        space.spec_num_elements(),
        |e: int|
            element_error_sq(
                qtable.element_rules@[e]@,
                u_vals[e]@,
                local_solution(u_h, space.element_nodes@[e]@, s),
                s,
            ),
    )
}

/// Inputs on which the global estimator is defined: a well-formed space and
/// table, reference values of the right shape, a solution vector of the right
/// length, every scalar in range.
pub open spec fn estimator_input_ok(
    space: Space,
    u_vals: Seq<Vec<Vec<i128>>>,
    u_h: Seq<i128>,
    qtable: QuadratureTable,
    s: int,
) -> bool {
    &&& space.wf()
    &&& qtable.wf(space)
    &&& solution_dim_ok(s)
    &&& u_vals.len() == space.spec_num_elements()
    &&& forall|e: int|
        0 <= e < u_vals.len() ==> (#[trigger] u_vals[e])@.len()
            == qtable.element_rules@[e]@.len()
    &&& forall|e: int, q: int|
        0 <= e < u_vals.len() && 0 <= q < u_vals[e]@.len() ==> (#[trigger] u_vals[e]@[q])@.len()
            == s
    &&& forall|e: int, q: int, c: int|
        0 <= e < u_vals.len() && 0 <= q < u_vals[e]@.len() && 0 <= c < s ==> scalar_ok(
            #[trigger] u_vals[e]@[q]@[c] as int,
        )
    &&& u_h.len() == space.num_nodes * s
    &&& forall|j: int| 0 <= j < u_h.len() ==> scalar_ok(#[trigger] u_h[j] as int)
}

/// Estimate the squared L2 error of the discrete solution `u_h` over the
/// whole space, against the reference values `u` given at every quadrature
/// point of every element.
#[allow(non_snake_case)]
pub fn estimate_L2_error_squared(
    space: &Space,
    u: &Vec<Vec<Vec<i128>>>,
    u_h: &Vec<i128>,
    qtable: &QuadratureTable,
    solution_dim: usize,
) -> (r: i128)
    requires
        estimator_input_ok(*space, u@, u_h@, *qtable, solution_dim as int),
    ensures
        r == total_error_sq(*space, *qtable, u@, u_h@, solution_dim as nat),
        iabs(r as int) <= space.spec_num_elements() * 0x1000000000000000000000000000,
{
    let s = solution_dim;
    let ne = space.num_elements();
    let ghost elem_terms = |e: int|
        element_error_sq(
            qtable.element_rules@[e]@,
            u@[e]@,
            local_solution(u_h@, space.element_nodes@[e]@, s as nat),
            s as nat,
        );
    let mut result: i128 = 0;
    let mut e: usize = 0;
    while e < ne
        invariant
            e <= ne,
            ne == space.spec_num_elements(),
            s == solution_dim,
            estimator_input_ok(*space, u@, u_h@, *qtable, s as int),
            elem_terms == (
            |e2: int|
                element_error_sq(
                    qtable.element_rules@[e2]@,
                    u@[e2]@,
                    local_solution(u_h@, space.element_nodes@[e2]@, s as nat),
                    s as nat,
                )
            ),
            result == sum(e as nat, elem_terms),
            iabs(result as int) <= e * 0x1000000000000000000000000000,
        decreases ne - e,
    {
        let rules = &qtable.element_rules[e];
        let nodes = &space.element_nodes[e];
        let n = nodes.len();
        proof {
            assert forall|i: int| 0 <= i < nodes@.len() implies (#[trigger] nodes@[i]) * s + s
                <= u_h@.len() by {
                assert(nodes@[i] * s + s <= space.num_nodes * s) by (nonlinear_arith)
                    requires
                        nodes@[i] < space.num_nodes,
                        1 <= s,
                ;
            }
        }
        let u_elem = gather_global_to_local(u_h, nodes, s);
        proof {
            assert(u_elem@ =~= local_solution(u_h@, nodes@, s as nat));
            assert forall|j: int| 0 <= j < u_elem@.len() implies scalar_ok(
                #[trigger] u_elem@[j] as int,
            ) by {
                let sv = s as int;
                assert(0 <= j / sv < nodes@.len() && 0 <= j % sv < sv) by (nonlinear_arith)
                    requires
                        0 <= j < nodes@.len() * sv,
                        1 <= sv,
                ;
                assert(nodes@[j / sv] * s + s <= u_h@.len());
                assert(scalar_ok(u_h@[nodes@[j / sv] * sv + j % sv] as int));
            }
            assert(u_elem@.len() == s * n) by (nonlinear_arith)
                requires
                    u_elem@.len() == n * s,
            ;
        }
        let el = estimate_element_L2_error_squared(rules, &u[e], &u_elem, n, s);
        proof {
            assert(elem_terms(e as int) == el);
            assert(iabs(el as int) <= 1024 * 0x4000000000000000000000000) by {
                assert(iabs(el as int) <= rules@.len() * 0x4000000000000000000000000);
                assert(rules@.len() * 0x4000000000000000000000000 <= 1024
                    * 0x4000000000000000000000000) by (nonlinear_arith)
                    requires
                        rules@.len() <= 1024,
                ;
            }
        }
        result = result + el;
        e = e + 1;
    }
    result
}

/// The greatest integer `r` with `r * r <= x`.
pub fn integer_sqrt(x: i128) -> (r: i128)
    requires
        0 <= x <= 0x10000000000000000000000000000000,
    ensures
        0 <= r,
        r * r <= x,
        x < (r + 1) * (r + 1),
{
    let mut lo: i128 = 0;
    let mut hi: i128 = 0x4000000000000001;
    proof {
        assert(0x4000000000000001 * 0x4000000000000001 > 0x10000000000000000000000000000000)
            by (nonlinear_arith);
    }
    while lo + 1 < hi
        invariant
            0 <= lo < hi <= 0x4000000000000001,
            lo * lo <= x,
            x < hi * hi,
        decreases hi - lo,
    {
        let mid = lo + (hi - lo) / 2;
        proof {
            assert(lo < mid < hi);
            lemma_abs_mul_le(mid as int, mid as int, 0x4000000000000001, 0x4000000000000001);
            assert(0x4000000000000001 * 0x4000000000000001
                < 0x7fffffffffffffffffffffffffffffff) by (nonlinear_arith);
        }
        if mid * mid <= x {
            lo = mid;
        } else {
            hi = mid;
        }
    }
    lo
}

/// Estimate the L2 error (not squared) on one element, as the integer square
/// root of the squared error. Requires nonnegative quadrature weights, which
/// make the squared error nonnegative.
#[allow(non_snake_case)]
pub fn estimate_element_L2_error(
    quad_points: &Vec<QuadPointData>,
    u: &Vec<Vec<i128>>,
    u_h_element: &Vec<i128>,
    num_nodes: usize,
    solution_dim: usize,
) -> (r: i128)
    requires
        solution_dim_ok(solution_dim as int),
        num_nodes <= 1024,
        quad_points@.len() <= 1024,
        u@.len() == quad_points@.len(),
        forall|q: int|
            0 <= q < quad_points@.len() ==> (#[trigger] quad_points@[q]).wf(num_nodes as int),
        forall|q: int| 0 <= q < quad_points@.len() ==> (#[trigger] quad_points@[q]).weight >= 0,
        forall|q: int| 0 <= q < u@.len() ==> (#[trigger] u@[q])@.len() == solution_dim,
        forall|q: int, c: int|
            0 <= q < u@.len() && 0 <= c < solution_dim ==> scalar_ok(
                #[trigger] u@[q]@[c] as int,
            ),
        u_h_element@.len() == solution_dim * num_nodes,
        forall|j: int| 0 <= j < u_h_element@.len() ==> scalar_ok(#[trigger] u_h_element@[j] as int),
    ensures
        0 <= r,
        r * r <= element_error_sq(quad_points@, u@, u_h_element@, solution_dim as nat),
        element_error_sq(quad_points@, u@, u_h_element@, solution_dim as nat) < (r + 1) * (r + 1),
{
    let sq = estimate_element_L2_error_squared(quad_points, u, u_h_element, num_nodes, solution_dim);
    proof {
        lemma_element_error_sq_nonneg(
            quad_points@,
            u@,
            u_h_element@,
            solution_dim as nat,
            num_nodes as int,
        );
        assert(quad_points@.len() * 0x4000000000000000000000000 <= 1024
            * 0x4000000000000000000000000) by (nonlinear_arith)
            requires
                quad_points@.len() <= 1024,
        ;
    }
    integer_sqrt(sq)
}

/// Estimate the L2 error (not squared) over the whole space, as the integer
/// square root of the squared error. Requires nonnegative quadrature weights,
/// which make the squared error nonnegative.
#[allow(non_snake_case)]
pub fn estimate_L2_error(
    space: &Space,
    u: &Vec<Vec<Vec<i128>>>,
    u_h: &Vec<i128>,
    qtable: &QuadratureTable,
    solution_dim: usize,
) -> (r: i128)
    requires
        estimator_input_ok(*space, u@, u_h@, *qtable, solution_dim as int),
        forall|e: int, q: int|
            0 <= e < qtable.element_rules@.len() && 0 <= q < qtable.element_rules@[e]@.len() ==> (
            #[trigger] qtable.element_rules@[e]@[q]).weight >= 0,
    ensures
        0 <= r,
        r * r <= total_error_sq(*space, *qtable, u@, u_h@, solution_dim as nat),
        total_error_sq(*space, *qtable, u@, u_h@, solution_dim as nat) < (r + 1) * (r + 1),
{
    let sq = estimate_L2_error_squared(space, u, u_h, qtable, solution_dim);
    proof {
        lemma_total_error_sq_nonneg(*space, *qtable, u@, u_h@, solution_dim as nat);
        assert(space.spec_num_elements() * 0x1000000000000000000000000000 <= 0x10000
            * 0x1000000000000000000000000000) by (nonlinear_arith)
            requires
                space.spec_num_elements() <= 0x10000,
        ;
    }
    integer_sqrt(sq)
}

/// With nonnegative quadrature weights the squared global error is
/// nonnegative.
pub proof fn lemma_total_error_sq_nonneg(
    space: Space,
    qtable: QuadratureTable,
    u_vals: Seq<Vec<Vec<i128>>>,
    u_h: Seq<i128>,
    s: nat,
)
    requires
        estimator_input_ok(space, u_vals, u_h, qtable, s as int),
        forall|e: int, q: int|
            0 <= e < qtable.element_rules@.len() && 0 <= q < qtable.element_rules@[e]@.len() ==> (
            #[trigger] qtable.element_rules@[e]@[q]).weight >= 0,
    ensures
        total_error_sq(space, qtable, u_vals, u_h, s) >= 0,
{
    let elem_terms = |e: int|
        element_error_sq(
            qtable.element_rules@[e]@,
            u_vals[e]@,
            local_solution(u_h, space.element_nodes@[e]@, s),
            s,
        );
    assert forall|e: int| 0 <= e < space.spec_num_elements() implies #[trigger] elem_terms(e)
        >= 0 by {
        lemma_local_solution_ok(space, u_h, s, e);
        lemma_element_error_sq_nonneg(
            qtable.element_rules@[e]@,
            u_vals[e]@,
            local_solution(u_h, space.element_nodes@[e]@, s),
            s,
            space.element_nodes@[e]@.len() as int,
        );
    }
    lemma_sum_nonneg(space.spec_num_elements(), elem_terms);
}

/// The gathered local slice of a well-formed input has the element's length
/// and in-range scalars.
proof fn lemma_local_solution_ok(space: Space, u_h: Seq<i128>, s: nat, e: int)
    requires
        space.wf(),
        1 <= s <= 16,
        0 <= e < space.spec_num_elements(),
        u_h.len() == space.num_nodes * s,
        forall|j: int| 0 <= j < u_h.len() ==> scalar_ok(#[trigger] u_h[j] as int),
    ensures
        local_solution(u_h, space.element_nodes@[e]@, s).len() == s
            * space.element_nodes@[e]@.len(),
        forall|j: int|
            0 <= j < local_solution(u_h, space.element_nodes@[e]@, s).len() ==> scalar_ok(
                #[trigger] local_solution(u_h, space.element_nodes@[e]@, s)[j] as int,
            ),
{
    let nodes = space.element_nodes@[e]@;
    let loc = local_solution(u_h, nodes, s);
    assert(loc.len() == nodes.len() * s);
    assert(nodes.len() * s == s * nodes.len()) by (nonlinear_arith);
    assert forall|j: int| 0 <= j < loc.len() implies scalar_ok(#[trigger] loc[j] as int) by {
        let sv = s as int;
        assert(0 <= j / sv < nodes.len() && 0 <= j % sv < sv) by (nonlinear_arith)
            requires
                0 <= j < nodes.len() * sv,
                1 <= sv,
        ;
        assert(nodes[j / sv] * sv + sv <= space.num_nodes * sv) by (nonlinear_arith)
            requires
                nodes[j / sv] < space.num_nodes,
                1 <= sv,
        ;
        assert(scalar_ok(u_h[nodes[j / sv] * sv + j % sv] as int));
    }
}

/// If the reference values equal the reconstruction of the discrete field at
/// every quadrature point of every element, the squared global error is
/// exactly zero.
pub proof fn lemma_round_trip(
    space: Space,
    qtable: QuadratureTable,
    u_vals: Seq<Vec<Vec<i128>>>,
    u_h: Seq<i128>,
    s: nat,
)
    requires
        u_vals.len() == space.spec_num_elements(),
        qtable.element_rules@.len() == space.spec_num_elements(),
        forall|e: int|
            0 <= e < u_vals.len() ==> (#[trigger] u_vals[e])@.len()
                == qtable.element_rules@[e]@.len(),
        forall|e: int, q: int, c: int|
            0 <= e < u_vals.len() && 0 <= q < u_vals[e]@.len() && 0 <= c < s
                ==> #[trigger] u_vals[e]@[q]@[c] == u_h_component(
                local_solution(u_h, space.element_nodes@[e]@, s),
                qtable.element_rules@[e]@[q].basis@,
                s,
                c,
            ),
    ensures
        total_error_sq(space, qtable, u_vals, u_h, s) == 0,
{
    let elem_terms = |e: int|
        element_error_sq(
            qtable.element_rules@[e]@,
            u_vals[e]@,
            local_solution(u_h, space.element_nodes@[e]@, s),
            s,
        );
    assert forall|e: int| 0 <= e < space.spec_num_elements() implies #[trigger] elem_terms(e)
        == 0 by {
        lemma_element_round_trip(
            qtable.element_rules@[e]@,
            u_vals[e]@,
            local_solution(u_h, space.element_nodes@[e]@, s),
            s,
        );
    }
    lemma_sum_zero(space.spec_num_elements(), elem_terms);
}

/// An element whose quadrature rule has no points contributes nothing.
pub proof fn lemma_empty_rule_contributes_nothing(
    qps: Seq<QuadPointData>,
    u_vals: Seq<Vec<i128>>,
    u_e: Seq<i128>,
    s: nat,
)
    requires
        qps.len() == 0,
    ensures
        element_error_sq(qps, u_vals, u_e, s) == 0,
{
}

} // verus!
