use lau_supergeometry::supermanifold::Supermanifold;
use lau_supergeometry::supervector::{assemble_blocks, sub_block, SuperVectorSpace};

#[test]
fn test_supermanifold_dimension() {
    let m = Supermanifold::new(3, 2, vec![], vec![]);
    assert_eq!(m.p, 3);
    assert_eq!(m.q, 2);
}

#[test]
fn test_ring_rank() {
    let m = Supermanifold::new(2, 3, vec![], vec![]);
    assert_eq!(m.ring_rank(), 8); // 2^3
}

#[test]
fn test_supermanifold_coords() {
    let m = Supermanifold::new(2, 2, vec!["x".into(), "y".into()], vec!["θ".into(), "η".into()]);
    assert_eq!(m.bosonic_coords, vec!["x", "y"]);
    assert_eq!(m.fermionic_coords, vec!["θ", "η"]);
}

#[test]
fn supermanifold_default_coords() {
    let m = Supermanifold::new(2, 3, vec![], vec!["θ".into()]);
    assert_eq!(m.bosonic_coords, vec!["x0", "x1"]);
    assert_eq!(m.fermionic_coords, vec!["θ0", "θ1", "θ2"]);
}

#[test]
fn function_dimension_is_grassmann_dimension() {
    let m = Supermanifold::new(1, 4, vec![], vec![]);
    assert_eq!(m.function_dimension(), 16);
    assert_eq!(m.function_dimension(), m.ring_rank());
    let m0 = Supermanifold::new(3, 0, vec![], vec![]);
    assert_eq!(m0.ring_rank(), 1);
}

#[test]
fn super_vector_space_total_dimension() {
    let sv = SuperVectorSpace::new(2, 2);
    assert_eq!(sv.p, 2);
    assert_eq!(sv.q, 2);
    assert_eq!(sv.total_dimension(), 4);
}

#[test]
fn block_matrix_layout() {
    let a = vec![vec![1, 2], vec![3, 4]];
    let b = vec![vec![5], vec![6]];
    let c = vec![vec![7, 8]];
    let d = vec![vec![9]];
    let data = assemble_blocks(2, 1, &a, &b, &c, &d);
    assert_eq!(data, vec![vec![1, 2, 5], vec![3, 4, 6], vec![7, 8, 9]]);
    assert_eq!(sub_block(&data, 0, 0, 2, 2), a);
    assert_eq!(sub_block(&data, 0, 2, 2, 1), b);
    assert_eq!(sub_block(&data, 2, 0, 1, 2), c);
    assert_eq!(sub_block(&data, 2, 2, 1, 1), d);
}

#[test]
fn block_matrix_pure_bosonic() {
    let a = vec![vec![1.0, 2.0], vec![3.0, 4.0]];
    let empty: Vec<Vec<f64>> = vec![];
    let data = assemble_blocks(2, 0, &a, &empty, &empty, &empty);
    assert_eq!(data, a);
}
