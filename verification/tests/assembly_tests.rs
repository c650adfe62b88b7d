use fem_core::assembly::{
    add_local_to_global, add_local_to_vector, assemble_matrix, assemble_matrix_partitioned,
    assemble_operator_matrix, assemble_source_vector, assemble_vector,
    assemble_vector_partitioned, find_slot, zero_values, AssemblyError, LocalContribution,
    LocalVectorContribution,
};
use fem_core::local::{assemble_local_matrix, assemble_local_vector, PoissonOperator};
use fem_core::pattern::{build_pattern, SparsePattern};
use fem_core::space::{QuadPointData, QuadratureTable, Space};

fn line_space() -> Space {
    // Three nodes on a line, two two-node elements sharing node 1.
    Space { num_nodes: 3, element_nodes: vec![vec![0, 1], vec![1, 2]] }
}

#[test]
fn pattern_holds_exactly_the_touched_pairs() {
    let space = line_space();
    let p = build_pattern(&space, 1);
    assert_eq!(
        p.entries,
        vec![(0, 0), (0, 1), (1, 0), (1, 1), (1, 2), (2, 1), (2, 2)]
    );
    assert_eq!(p.num_dofs, 3);
    assert_eq!(p.nnz(), 7);
}

#[test]
fn pattern_expands_by_solution_dimension() {
    let space = Space { num_nodes: 2, element_nodes: vec![vec![0, 1]] };
    let p = build_pattern(&space, 2);
    // One element holding both nodes: all 16 pairs of the 4 dofs.
    assert_eq!(p.nnz(), 16);
    assert_eq!(p.num_dofs, 4);
    assert_eq!(p.entries[0], (0, 0));
    assert_eq!(p.entries[15], (3, 3));
}

#[test]
fn pattern_is_deterministic_across_runs() {
    let space = line_space();
    let p1 = build_pattern(&space, 1);
    let p2 = build_pattern(&space, 1);
    assert_eq!(p1.entries, p2.entries);
}

#[test]
fn element_without_dofs_contributes_no_pairs() {
    let with_empty = Space {
        num_nodes: 3,
        element_nodes: vec![vec![0, 1], Vec::new(), vec![1, 2]],
    };
    let p = build_pattern(&with_empty, 1);
    let q = build_pattern(&line_space(), 1);
    assert_eq!(p.entries, q.entries);
}

#[test]
fn find_slot_locates_pairs() {
    let space = line_space();
    let p = build_pattern(&space, 1);
    assert_eq!(find_slot(&p, 1, 2), Some(4));
    assert_eq!(find_slot(&p, 0, 2), None);
}

fn line_contributions() -> Vec<LocalContribution> {
    // Stiffness of two unit-length line elements: [[1, -1], [-1, 1]] each.
    vec![
        LocalContribution { dofs: vec![0, 1], values: vec![1, -1, -1, 1] },
        LocalContribution { dofs: vec![1, 2], values: vec![1, -1, -1, 1] },
    ]
}

#[test]
fn serial_assembly_merges_shared_dofs() {
    let space = line_space();
    let p = build_pattern(&space, 1);
    let elems = line_contributions();
    let mut values = zero_values(p.nnz());
    assert!(assemble_matrix(&p, &elems, &mut values).is_ok());
    // Rows: [1, -1, .], [-1, 2, -1], [., -1, 1].
    assert_eq!(values, vec![1, -1, -1, 2, -1, -1, 1]);
}

#[test]
fn partitioned_assembly_equals_serial() {
    let space = line_space();
    let p = build_pattern(&space, 1);
    let elems = line_contributions();
    let mut serial = zero_values(p.nnz());
    assert!(assemble_matrix(&p, &elems, &mut serial).is_ok());
    for boundaries in [vec![0, 2], vec![0, 1, 2], vec![0, 0, 2], vec![0, 2, 2]] {
        let mut partitioned = zero_values(p.nnz());
        assert!(
            assemble_matrix_partitioned(&p, &elems, &boundaries, &mut partitioned).is_ok()
        );
        assert_eq!(partitioned, serial);
    }
}

#[test]
fn groupwise_assembly_adds_to_the_whole() {
    let space = line_space();
    let p = build_pattern(&space, 1);
    let elems = line_contributions();
    let mut whole = zero_values(p.nnz());
    assert!(assemble_matrix(&p, &elems, &mut whole).is_ok());
    let group1 = vec![LocalContribution { dofs: vec![0, 1], values: vec![1, -1, -1, 1] }];
    let group2 = vec![LocalContribution { dofs: vec![1, 2], values: vec![1, -1, -1, 1] }];
    let mut m1 = zero_values(p.nnz());
    let mut m2 = zero_values(p.nnz());
    assert!(assemble_matrix(&p, &group1, &mut m1).is_ok());
    assert!(assemble_matrix(&p, &group2, &mut m2).is_ok());
    let summed: Vec<i128> = m1.iter().zip(m2.iter()).map(|(a, b)| a + b).collect();
    assert_eq!(summed, whole);
}

#[test]
fn assembly_rejects_wrong_values_length() {
    let space = line_space();
    let p = build_pattern(&space, 1);
    let elems = line_contributions();
    let mut values = zero_values(p.nnz() + 1);
    assert_eq!(
        assemble_matrix(&p, &elems, &mut values),
        Err(AssemblyError::InvalidValuesLength)
    );
    assert_eq!(values, zero_values(p.nnz() + 1));
}

#[test]
fn assembly_rejects_uncovered_pair() {
    // A pattern that lacks the pair (1, 2): scattering the second element
    // must fail and leave the storage untouched.
    let p = SparsePattern { entries: vec![(0, 0), (0, 1), (1, 0), (1, 1)], num_dofs: 3 };
    let elems = line_contributions();
    let mut values = zero_values(p.entries.len());
    assert_eq!(
        assemble_matrix(&p, &elems, &mut values),
        Err(AssemblyError::IndexOutOfBounds)
    );
    assert_eq!(values, vec![0, 0, 0, 0]);
}

#[test]
fn scatter_one_element() {
    let space = line_space();
    let p = build_pattern(&space, 1);
    let mut values = zero_values(p.nnz());
    let local = LocalContribution { dofs: vec![1, 2], values: vec![5, 6, 7, 8] };
    assert!(add_local_to_global(&mut values, &p, &local).is_ok());
    assert_eq!(values, vec![0, 0, 0, 5, 6, 7, 8]);
}

#[test]
fn vector_assembly_accumulates() {
    let elems = vec![
        LocalVectorContribution { dofs: vec![0, 1], values: vec![3, 4] },
        LocalVectorContribution { dofs: vec![1, 2], values: vec![5, 6] },
    ];
    let mut global = zero_values(3);
    assert!(assemble_vector(&elems, &mut global).is_ok());
    assert_eq!(global, vec![3, 9, 6]);
}

#[test]
fn partitioned_vector_assembly_equals_serial() {
    let elems = vec![
        LocalVectorContribution { dofs: vec![0, 1], values: vec![3, 4] },
        LocalVectorContribution { dofs: vec![1, 2], values: vec![5, 6] },
    ];
    let mut serial = zero_values(3);
    assert!(assemble_vector(&elems, &mut serial).is_ok());
    for boundaries in [vec![0, 2], vec![0, 1, 2], vec![0, 0, 2]] {
        let mut partitioned = zero_values(3);
        assert!(assemble_vector_partitioned(&elems, &boundaries, &mut partitioned).is_ok());
        assert_eq!(partitioned, serial);
    }
}

#[test]
fn vector_assembly_rejects_out_of_bounds_index() {
    let elems = vec![LocalVectorContribution { dofs: vec![0, 5], values: vec![3, 4] }];
    let mut global = zero_values(3);
    assert_eq!(
        assemble_vector(&elems, &mut global),
        Err(AssemblyError::IndexOutOfBounds)
    );
    assert_eq!(global, vec![0, 0, 0]);
    let mut short = zero_values(3);
    assert_eq!(
        add_local_to_vector(&mut short, &elems[0]),
        Err(AssemblyError::IndexOutOfBounds)
    );
    assert_eq!(short, vec![0, 0, 0]);
}

fn point_with_gradients(
    weight: i128,
    jacobian_det: i128,
    basis: Vec<i128>,
    gradients: Vec<Vec<i128>>,
) -> QuadPointData {
    QuadPointData { weight, jacobian_det, basis, gradients }
}

#[test]
fn poisson_kernel_contracts_gradients() {
    // One point, two nodes, gradients +1 and -1 on a line, weight 2, det 3:
    // entries w * |det| * g_i * g_j.
    let qps = vec![point_with_gradients(2, 3, vec![1, 1], vec![vec![1], vec![-1]])];
    let local = assemble_local_matrix(&PoissonOperator, &qps, 2, 1);
    assert_eq!(local, vec![6, -6, -6, 6]);
}

#[test]
fn kernel_with_no_points_is_all_zero() {
    let qps: Vec<QuadPointData> = Vec::new();
    let local = assemble_local_matrix(&PoissonOperator, &qps, 2, 1);
    assert_eq!(local, vec![0, 0, 0, 0]);
    let src: Vec<Vec<i128>> = Vec::new();
    let lv = assemble_local_vector(&qps, &src, 2, 1);
    assert_eq!(lv, vec![0, 0]);
}

#[test]
fn source_kernel_scales_basis_values() {
    // One point: weight 2, det -3, basis [4, 5], source [7]:
    // entries 2 * 3 * basis * 7.
    let qps = vec![point_with_gradients(2, -3, vec![4, 5], vec![vec![0], vec![0]])];
    let src = vec![vec![7i128]];
    let lv = assemble_local_vector(&qps, &src, 2, 1);
    assert_eq!(lv, vec![2 * 3 * 4 * 7, 2 * 3 * 5 * 7]);
}

#[test]
fn affine_field_has_zero_interior_residual() {
    // Two P1 line elements over nodes 0, 1, 2 with unit spacing: the
    // Poisson stiffness matrix applied to the nodal values of an affine
    // field leaves zero residual at the interior node.
    let space = line_space();
    let p = build_pattern(&space, 1);
    let qps = vec![point_with_gradients(1, 1, vec![1, 1], vec![vec![-1], vec![1]])];
    let qtable = QuadratureTable { element_rules: vec![qps.clone(), qps] };
    let mut values = zero_values(p.nnz());
    assert!(
        assemble_operator_matrix(&space, &qtable, &PoissonOperator, &p, 1, &mut values).is_ok()
    );
    // Affine nodal values u = 5 x + 2 at x = 0, 1, 2.
    let u: Vec<i128> = vec![2, 7, 12];
    // Residual at the interior node 1: sum over its row of the pattern.
    let mut residual: i128 = 0;
    for (k, (r, c)) in p.entries.iter().enumerate() {
        if *r == 1 {
            residual += values[k] * u[*c];
        }
    }
    assert_eq!(residual, 0);
}

#[test]
fn unit_square_grid_scenario() {
    // A unit square split into a 3 x 3 grid of bilinear quadrilaterals,
    // solution dimension 1, midpoint quadrature. Scalars are scaled exact
    // integers: weights in units of the reference area, determinants in
    // units of 1/9, gradients in units of 1/2, basis values in units of
    // 1/4, so stiffness entries come out in units of 1/36.
    let n = |ix: usize, iy: usize| iy * 4 + ix;
    let mut element_nodes = Vec::new();
    for ey in 0..3 {
        for ex in 0..3 {
            element_nodes.push(vec![
                n(ex, ey),
                n(ex + 1, ey),
                n(ex + 1, ey + 1),
                n(ex, ey + 1),
            ]);
        }
    }
    let space = Space { num_nodes: 16, element_nodes };
    let p = build_pattern(&space, 1);
    // Midpoint data per element: weight 1, det 1 (scaled), gradients of the
    // four bilinear basis functions at the element center, basis value 1
    // (scaled 1/4) per node.
    let qps = vec![point_with_gradients(
        1,
        1,
        vec![1, 1, 1, 1],
        vec![vec![-3, -3], vec![3, -3], vec![3, 3], vec![-3, 3]],
    )];
    let qtable = QuadratureTable { element_rules: vec![qps; 9] };
    // Source function is the constant 1 at every quadrature point.
    let source_values = vec![vec![vec![1i128]]; 9];
    let mut stiffness = zero_values(p.nnz());
    assert!(
        assemble_operator_matrix(&space, &qtable, &PoissonOperator, &p, 2, &mut stiffness)
            .is_ok()
    );
    // Symmetry, zero row sums (a constant field is in the null space before
    // boundary conditions), and nonnegative diagonal.
    let mut row_sums: Vec<i128> = vec![0; 16];
    for (k, (r, c)) in p.entries.iter().enumerate() {
        row_sums[*r] += stiffness[k];
        let transposed = find_slot(&p, *c, *r).unwrap();
        assert_eq!(stiffness[k], stiffness[transposed]);
        if r == c {
            assert!(stiffness[k] >= 0);
        }
    }
    for rs in row_sums {
        assert_eq!(rs, 0);
    }
    // The load vector's total is the mesh area: 36 units of 1/36 equal 1.
    let mut load = zero_values(16);
    assert!(assemble_source_vector(&space, &qtable, &source_values, 1, &mut load).is_ok());
    let total: i128 = load.iter().sum();
    assert_eq!(total, 36);
}
