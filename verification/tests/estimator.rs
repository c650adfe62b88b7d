use fem_core::error::{
    estimate_element_L2_error, estimate_element_L2_error_squared, estimate_L2_error,
    estimate_L2_error_squared, evaluate_u_h, integer_sqrt,
};
use fem_core::space::{gather_global_to_local, QuadPointData, QuadratureTable, Space};

fn point(weight: i128, jacobian_det: i128, basis: Vec<i128>) -> QuadPointData {
    QuadPointData { weight, jacobian_det, basis, gradients: Vec::new() }
}

#[test]
fn evaluate_u_h_matrix_vector_product() {
    // Two nodes, two solution components: coefficients laid out as
    // node * dim + component.
    let u_e: Vec<i128> = vec![1, 2, 3, 4];
    let phi: Vec<i128> = vec![10, 100];
    let r = evaluate_u_h(&u_e, &phi, 2);
    assert_eq!(r, vec![1 * 10 + 3 * 100, 2 * 10 + 4 * 100]);
}

#[test]
fn evaluate_u_h_at_largest_solution_dimension() {
    let n = 2;
    let s = 16;
    let u_e: Vec<i128> = (0..(n * s) as i128).collect();
    let phi: Vec<i128> = vec![1, 1];
    let r = evaluate_u_h(&u_e, &phi, s);
    for k in 0..s {
        assert_eq!(r[k], u_e[k] + u_e[s + k]);
    }
}

#[test]
fn gather_picks_element_slice() {
    let u_h: Vec<i128> = vec![10, 11, 20, 21, 30, 31];
    let nodes: Vec<usize> = vec![2, 0];
    let r = gather_global_to_local(&u_h, &nodes, 2);
    assert_eq!(r, vec![30, 31, 10, 11]);
}

#[test]
fn element_error_squared_exact_value() {
    // One point: reconstruction 3 * 2 + 5 * 1 = 11, reference 10, diff 1.
    // weight 2, det -3: term = 2 * |-3| * 1 = 6.
    let qps = vec![point(2, -3, vec![2, 1])];
    let u = vec![vec![10i128]];
    let u_e: Vec<i128> = vec![3, 5];
    let r = estimate_element_L2_error_squared(&qps, &u, &u_e, 2, 1);
    assert_eq!(r, 6);
}

#[test]
fn element_round_trip_is_zero() {
    // The reference values equal the reconstruction at both points: the
    // squared error and the error must both vanish.
    let qps = vec![point(1, 1, vec![2, 1]), point(3, -2, vec![1, 1])];
    let u_e: Vec<i128> = vec![3, 5];
    let u = vec![vec![3 * 2 + 5 * 1], vec![3 + 5]];
    assert_eq!(estimate_element_L2_error_squared(&qps, &u, &u_e, 2, 1), 0);
    assert_eq!(estimate_element_L2_error(&qps, &u, &u_e, 2, 1), 0);
}

#[test]
fn element_with_no_quadrature_points_contributes_zero() {
    let qps: Vec<QuadPointData> = Vec::new();
    let u: Vec<Vec<i128>> = Vec::new();
    let u_e: Vec<i128> = vec![7, 8];
    assert_eq!(estimate_element_L2_error_squared(&qps, &u, &u_e, 2, 1), 0);
}

#[test]
fn element_error_takes_integer_square_root() {
    // Nine = 3 * 3 from one point: reconstruction 0, reference 3,
    // weight 1, det 1.
    let qps = vec![point(1, 1, vec![1])];
    let u = vec![vec![3i128]];
    let u_e: Vec<i128> = vec![0];
    assert_eq!(estimate_element_L2_error_squared(&qps, &u, &u_e, 1, 1), 9);
    assert_eq!(estimate_element_L2_error(&qps, &u, &u_e, 1, 1), 3);
}

#[test]
fn integer_sqrt_rounds_down() {
    assert_eq!(integer_sqrt(0), 0);
    assert_eq!(integer_sqrt(1), 1);
    assert_eq!(integer_sqrt(15), 3);
    assert_eq!(integer_sqrt(16), 4);
    assert_eq!(integer_sqrt(17), 4);
}

#[test]
fn global_error_sums_elements() {
    // Two one-node elements sharing nothing; each contributes
    // weight * |det| * (u_h - u)^2.
    let space = Space { num_nodes: 2, element_nodes: vec![vec![0], vec![1]] };
    let qtable = QuadratureTable {
        element_rules: vec![
            vec![point(1, 1, vec![1])],
            vec![point(2, 1, vec![1])],
        ],
    };
    // u_h = [4, 5]; reference 3 at the first element's point (diff 1),
    // 1 at the second (diff 4): total 1 * 1 + 2 * 16 = 33.
    let u_h: Vec<i128> = vec![4, 5];
    let u = vec![vec![vec![3i128]], vec![vec![1i128]]];
    let total = estimate_L2_error_squared(&space, &u, &u_h, &qtable, 1);
    assert_eq!(total, 33);
    // Integer square root of 33 is 5.
    assert_eq!(estimate_L2_error(&space, &u, &u_h, &qtable, 1), 5);
}

#[test]
fn global_error_skips_empty_rules() {
    // The second element has no quadrature points and contributes nothing.
    let space = Space { num_nodes: 2, element_nodes: vec![vec![0], vec![1]] };
    let qtable = QuadratureTable {
        element_rules: vec![vec![point(1, 1, vec![1])], Vec::new()],
    };
    let u_h: Vec<i128> = vec![4, 100];
    let u = vec![vec![vec![3i128]], Vec::new()];
    assert_eq!(estimate_L2_error_squared(&space, &u, &u_h, &qtable, 1), 1);
}

#[test]
fn global_round_trip_is_zero() {
    // The reference values are exactly the reconstructions of u_h on both
    // elements (shared node 1): the global squared error vanishes.
    let space = Space { num_nodes: 3, element_nodes: vec![vec![0, 1], vec![1, 2]] };
    let qtable = QuadratureTable {
        element_rules: vec![
            vec![point(1, 2, vec![2, 3])],
            vec![point(4, 1, vec![1, 5])],
        ],
    };
    let u_h: Vec<i128> = vec![7, 8, 9];
    let u = vec![
        vec![vec![7 * 2 + 8 * 3]],
        vec![vec![8 * 1 + 9 * 5]],
    ];
    assert_eq!(estimate_L2_error_squared(&space, &u, &u_h, &qtable, 1), 0);
    assert_eq!(estimate_L2_error(&space, &u, &u_h, &qtable, 1), 0);
}
