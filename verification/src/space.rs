//! The finite element space and quadrature abstractions, modelled as plain
//! tables.
//!
//! A mesh library supplies, for each element, its global node indices and —
//! for each quadrature point of the rule chosen for that element — the
//! quadrature weight, the Jacobian determinant of the reference-to-physical
//! map at that point, and the basis function values at that point. This crate
//! consumes those tables; it does not evaluate shape functions itself.

use vstd::prelude::*;

use crate::scalar_ok;

verus! {

/// Everything an element evaluation yields at one quadrature point: the
/// quadrature weight, the Jacobian determinant of the reference-to-physical
/// map there, the value of each of the element's basis functions there, and
/// the physical-space gradient of each basis function there.
#[derive(Clone)]
pub struct QuadPointData {
    pub weight: i128,
    pub jacobian_det: i128,
    pub basis: Vec<i128>,
    pub gradients: Vec<Vec<i128>>,
}

impl QuadPointData {
    /// Data for one point of an element with `num_nodes` local nodes:
    /// one basis value per node, every scalar in range.
    pub open spec fn wf(self, num_nodes: int) -> bool {
        &&& self.basis@.len() == num_nodes
        &&& scalar_ok(self.weight as int)
        &&& scalar_ok(self.jacobian_det as int)
        &&& forall|i: int|
            0 <= i < num_nodes ==> scalar_ok(#[trigger] self.basis@[i] as int)
    }

    /// Gradient data for one point: one geometry-dimensional gradient per
    /// node, every scalar in range.
    pub open spec fn grad_wf(self, num_nodes: int, geometry_dim: int) -> bool {
        &&& self.gradients@.len() == num_nodes
        &&& forall|i: int|
            0 <= i < num_nodes ==> (#[trigger] self.gradients@[i])@.len() == geometry_dim
        &&& forall|i: int, c: int|
            0 <= i < num_nodes && 0 <= c < geometry_dim ==> scalar_ok(
                #[trigger] self.gradients@[i]@[c] as int,
            )
    }
}

/// A finite element space: the global node count and, per element, the
/// ordered global node indices of that element. The degree of freedom for
/// node `n` and solution component `k` under solution dimension `s` is the
/// global index `n * s + k`.
pub struct Space {
    pub num_nodes: usize,
    pub element_nodes: Vec<Vec<usize>>,
}

impl Space {
    /// Node indices in bounds, and the table within the sizes the exact
    /// integer kernels support.
    pub open spec fn wf(self) -> bool {
        &&& self.num_nodes <= 0x100000
        &&& self.element_nodes@.len() <= 0x10000
        &&& forall|e: int|
            0 <= e < self.element_nodes@.len() ==> (#[trigger] self.element_nodes@[e])@.len()
                <= 1024
        &&& forall|e: int, i: int|
            0 <= e < self.element_nodes@.len() && 0 <= i < self.element_nodes@[e]@.len()
                ==> (#[trigger] self.element_nodes@[e]@[i]) < self.num_nodes
    }

    pub open spec fn spec_num_elements(self) -> nat {
        self.element_nodes@.len()
    }

    /// Number of elements in the space.
    pub fn num_elements(&self) -> (n: usize)
        ensures
            n == self.spec_num_elements(),
    {
        self.element_nodes.len()
    }

    /// Number of scalar degrees of freedom under solution dimension `s`.
    pub fn num_dofs(&self, solution_dim: usize) -> (n: usize)
        requires
            self.wf(),
            solution_dim_ok(solution_dim as int),
        ensures
            n == self.num_nodes * solution_dim,
    {
        proof {
            assert(self.num_nodes * solution_dim <= 0x100000 * 16) by (nonlinear_arith)
                requires
                    self.num_nodes <= 0x100000,
                    0 <= solution_dim <= 16,
            ;
        }
        self.num_nodes * solution_dim
    }
}

/// Solution dimensions the exact integer kernels support.
pub open spec fn solution_dim_ok(s: int) -> bool {
    1 <= s <= 16
}

/// A quadrature table: one rule per element, each rule already evaluated
/// against that element (weights, Jacobian determinants, basis values).
/// Rules may differ from element to element.
pub struct QuadratureTable {
    pub element_rules: Vec<Vec<QuadPointData>>,
}

impl QuadratureTable {
    /// One rule per element of `space`, each of at most 1024 points, each
    /// point carrying one basis value per node of its element.
    pub open spec fn wf(self, space: Space) -> bool {
        &&& self.element_rules@.len() == space.spec_num_elements()
        &&& forall|e: int|
            0 <= e < self.element_rules@.len() ==> (#[trigger] self.element_rules@[e])@.len()
                <= 1024
        &&& forall|e: int, q: int|
            0 <= e < self.element_rules@.len() && 0 <= q < self.element_rules@[e]@.len() ==> (
            #[trigger] self.element_rules@[e]@[q]).wf(space.element_nodes@[e]@.len() as int)
    }
}

/// The local-to-global map of an element with the given global node indices,
/// expanded by the solution dimension: local degree of freedom `i * s + k`
/// maps to global degree of freedom `nodes[i] * s + k`.
pub open spec fn spec_element_dofs(nodes: Seq<usize>, s: nat) -> Seq<usize> {
    Seq::new(
        nodes.len() * s,
        |m: int| (nodes[m / (s as int)] * s + m % (s as int)) as usize,
    )
}

/// Derive the element's local-to-global map from its node indices.
pub fn element_dofs(nodes: &Vec<usize>, solution_dim: usize) -> (r: Vec<usize>)
    requires
        solution_dim_ok(solution_dim as int),
        nodes@.len() <= 1024,
        forall|i: int| 0 <= i < nodes@.len() ==> (#[trigger] nodes@[i]) < 0x100000,
    ensures
        r@ == spec_element_dofs(nodes@, solution_dim as nat),
        r@.len() == nodes@.len() * solution_dim,
        forall|m: int|
            0 <= m < r@.len() ==> #[trigger] r@[m] == nodes@[m / (solution_dim as int)]
                * solution_dim + m % (solution_dim as int),
{
    let s = solution_dim;
    let n = nodes.len();
    proof {
        assert(n * s <= 1024 * 16) by (nonlinear_arith)
            requires
                n <= 1024,
                0 <= s <= 16,
        ;
    }
    let total = n * s;
    let mut r: Vec<usize> = Vec::new();
    let mut j: usize = 0;
    while j < total
        invariant
            j <= total,
            total == n * s,
            n == nodes@.len(),
            s == solution_dim,
            solution_dim_ok(s as int),
            forall|i: int| 0 <= i < n ==> (#[trigger] nodes@[i]) < 0x100000,
            r@.len() == j,
            forall|m: int|
                0 <= m < j ==> #[trigger] r@[m] == nodes@[m / (s as int)] * s + m % (s as int),
        decreases total - j,
    {
        proof {
            assert((j as int / s as int) < n && (j as int / s as int) >= 0) by (nonlinear_arith)
                requires
                    0 <= j,
                    j < n * s,
                    1 <= s,
            ;
            assert(0 <= j as int % (s as int) < s) by (nonlinear_arith)
                requires
                    1 <= s,
                    0 <= j,
            ;
            assert(nodes@[j as int / s as int] * s + s <= 0x100000 * 16) by (nonlinear_arith)
                requires
                    nodes@[j as int / s as int] < 0x100000,
                    1 <= s <= 16,
            ;
        }
        let node = nodes[j / s];
        r.push(node * s + j % s);
        j = j + 1;
    }
    proof {
        assert(r@ =~= spec_element_dofs(nodes@, s as nat));
    }
    r
}

/// Expanding distinct node indices by the solution dimension yields distinct
/// global degrees of freedom.
pub proof fn lemma_element_dofs_distinct(nodes: Seq<usize>, s: nat)
    requires
        1 <= s <= 16,
        forall|a: int, b: int| 0 <= a < b < nodes.len() ==> #[trigger] nodes[a] != #[trigger] nodes[b],
        forall|i: int| 0 <= i < nodes.len() ==> (#[trigger] nodes[i]) < 0x100000,
    ensures
        forall|a: int, b: int|
            0 <= a < b < spec_element_dofs(nodes, s).len() ==> #[trigger] spec_element_dofs(
                nodes,
                s,
            )[a] != #[trigger] spec_element_dofs(nodes, s)[b],
{
    let dofs = spec_element_dofs(nodes, s);
    let sv = s as int;
    assert forall|a: int, b: int| 0 <= a < b < dofs.len() implies #[trigger] dofs[a]
        != #[trigger] dofs[b] by {
        let ia = a / sv;
        let ka = a % sv;
        let ib = b / sv;
        let kb = b % sv;
        assert(0 <= ia < nodes.len() && 0 <= ka < sv && 0 <= ib < nodes.len() && 0 <= kb < sv)
            by (nonlinear_arith)
            requires
                0 <= a < nodes.len() * sv,
                0 <= b < nodes.len() * sv,
                1 <= sv,
                ia == a / sv,
                ka == a % sv,
                ib == b / sv,
                kb == b % sv,
        ;
        vstd::arithmetic::div_mod::lemma_fundamental_div_mod(a, sv);
        vstd::arithmetic::div_mod::lemma_fundamental_div_mod(b, sv);
        if dofs[a] == dofs[b] {
            assert(nodes[ia] * sv + ka < 0x2000000 && nodes[ib] * sv + kb < 0x2000000)
                by (nonlinear_arith)
                requires
                    nodes[ia] < 0x100000,
                    nodes[ib] < 0x100000,
                    0 <= ka < sv,
                    0 <= kb < sv,
                    sv <= 16,
            ;
            assert(dofs[a] as int == nodes[ia] * sv + ka);
            assert(dofs[b] as int == nodes[ib] * sv + kb);
            assert(nodes[ia] * sv + ka == nodes[ib] * sv + kb);
            vstd::arithmetic::div_mod::lemma_fundamental_div_mod_converse_div(
                nodes[ia] * sv + ka,
                sv,
                nodes[ia] as int,
                ka,
            );
            vstd::arithmetic::div_mod::lemma_fundamental_div_mod_converse_div(
                nodes[ib] * sv + kb,
                sv,
                nodes[ib] as int,
                kb,
            );
            vstd::arithmetic::div_mod::lemma_fundamental_div_mod_converse_mod(
                nodes[ia] * sv + ka,
                sv,
                nodes[ia] as int,
                ka,
            );
            vstd::arithmetic::div_mod::lemma_fundamental_div_mod_converse_mod(
                nodes[ib] * sv + kb,
                sv,
                nodes[ib] as int,
                kb,
            );
            assert(nodes[ia] == nodes[ib] && ka == kb);
            assert(ia != ib ==> nodes[ia] != nodes[ib]);
            assert(ia == ib && ka == kb ==> a == b);
            assert(false);
        }
    }
}

/// Gather the element-local slice of a global solution vector: entry
/// `i * s + k` of the result is the global degree of freedom for local node
/// `i`, component `k`.
pub fn gather_global_to_local(
    u_h: &Vec<i128>,
    nodes: &Vec<usize>,
    solution_dim: usize,
) -> (r: Vec<i128>)
    requires
        solution_dim_ok(solution_dim as int),
        nodes@.len() <= 1024,
        forall|i: int|
            0 <= i < nodes@.len() ==> (#[trigger] nodes@[i]) * solution_dim + solution_dim
                <= u_h@.len(),
    ensures
        r@.len() == nodes@.len() * solution_dim,
        forall|i: int, k: int|
            0 <= i < nodes@.len() && 0 <= k < solution_dim ==> #[trigger] r@[i * solution_dim + k]
                == u_h@[nodes@[i] * solution_dim + k],
        forall|m: int|
            0 <= m < r@.len() ==> #[trigger] r@[m] == u_h@[nodes@[m / (solution_dim as int)]
                * solution_dim + m % (solution_dim as int)],
{
    let s = solution_dim;
    let n = nodes.len();
    proof {
        assert(n * s <= 1024 * 16) by (nonlinear_arith)
            requires
                n <= 1024,
                0 <= s <= 16,
        ;
    }
    let total = n * s;
    let mut r: Vec<i128> = Vec::new();
    let mut j: usize = 0;
    while j < total
        invariant
            j <= total,
            total == n * s,
            n == nodes@.len(),
            s == solution_dim,
            solution_dim_ok(s as int),
            forall|i: int|
                0 <= i < n ==> (#[trigger] nodes@[i]) * s + s <= u_h@.len(),
            r@.len() == j,
            forall|m: int|
                0 <= m < j ==> #[trigger] r@[m] == u_h@[nodes@[m / (s as int)] * s + m % (s as int)],
        decreases total - j,
    {
        proof {
            assert(j / s < n && j / s >= 0) by (nonlinear_arith)
                requires
                    0 <= j,
                    j < n * s,
                    1 <= s,
            ;
        }
        let node = nodes[j / s];
        let k = j % s;
        proof {
            assert(0 <= j % s < s) by (nonlinear_arith)
                requires
                    1 <= s,
                    0 <= j,
            ;
            assert(nodes@[j as int / s as int] * s + s <= u_h@.len());
        }
        let len = u_h.len();
        proof {
            assert(node * s + k < len);
        }
        r.push(u_h[node * s + k]);
        j = j + 1;
    }
    assert forall|i: int, k: int| 0 <= i < nodes@.len() && 0 <= k < solution_dim implies #[trigger] r@[i
        * solution_dim + k] == u_h@[nodes@[i] * solution_dim + k] by {
        let m = i * (s as int) + k;
        assert(0 <= m < n * s) by (nonlinear_arith)
            requires
                0 <= i < n,
                0 <= k < s,
                m == i * (s as int) + k,
        ;
        vstd::arithmetic::div_mod::lemma_fundamental_div_mod_converse_div(m, s as int, i, k);
        vstd::arithmetic::div_mod::lemma_fundamental_div_mod_converse_mod(m, s as int, i, k);
    }
    r
}

} // verus!
