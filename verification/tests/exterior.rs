use lau_supergeometry::exterior::ExteriorAlgebra;

#[test]
fn test_exterior_dimension() {
    let e = ExteriorAlgebra::new(3, vec!["e0".into(), "e1".into(), "e2".into()]);
    assert_eq!(e.dimension(), 8);
}

#[test]
fn test_form_dimension() {
    let e = ExteriorAlgebra::new(4, vec![]);
    assert_eq!(e.form_dimension(0), 1);
    assert_eq!(e.form_dimension(1), 4);
    assert_eq!(e.form_dimension(2), 6);
    assert_eq!(e.form_dimension(3), 4);
    assert_eq!(e.form_dimension(4), 1);
}

#[test]
fn test_wedge_product() {
    let e = ExteriorAlgebra::new(3, vec!["e0".into(), "e1".into(), "e2".into()]);
    assert_eq!(e.wedge(0b001, 0b010), Some(0b011));
    assert_eq!(e.wedge(0b001, 0b001), None); // e0 ∧ e0 = 0
}

#[test]
fn test_koszul_sign() {
    let e = ExteriorAlgebra::new(3, vec![]);
    // e0 ∧ e1: no transpositions needed => +1
    assert_eq!(e.koszul_sign(0b001, 0b010), 1);
    // e1 ∧ e0: transposition needed => -1
    assert_eq!(e.koszul_sign(0b010, 0b001), -1);
}

#[test]
fn default_generator_labels() {
    let e = ExteriorAlgebra::new(3, vec!["only".into()]);
    assert_eq!(e.generator_labels, vec!["e0", "e1", "e2"]);
    let e = ExteriorAlgebra::new(2, vec!["θ".into(), "η".into()]);
    assert_eq!(e.generator_labels, vec!["θ", "η"]);
    let e = ExteriorAlgebra::new(12, vec![]);
    assert_eq!(e.generator_labels[10], "e10");
    assert_eq!(e.generator_labels[11], "e11");
}

#[test]
fn form_dimension_edges() {
    let e = ExteriorAlgebra::new(10, vec![]);
    assert_eq!(e.form_dimension(3), 120);
    assert_eq!(e.form_dimension(7), 120);
    assert_eq!(e.form_dimension(5), 252);
    assert_eq!(e.form_dimension(11), 0);
    let e0 = ExteriorAlgebra::new(0, vec![]);
    assert_eq!(e0.form_dimension(0), 1);
    assert_eq!(e0.dimension(), 1);
    let big = ExteriorAlgebra::new(60, vec![]);
    assert_eq!(big.form_dimension(30), 118264581564861424);
}

#[test]
fn form_dimensions_sum_to_dimension() {
    for n in 0..12usize {
        let e = ExteriorAlgebra::new(n, vec![]);
        let total: usize = (0..=n).map(|k| e.form_dimension(k)).sum();
        assert_eq!(total, e.dimension());
    }
}

#[test]
fn koszul_sign_counts_inversions() {
    let e = ExteriorAlgebra::new(4, vec![]);
    // {1,3} before {0,2}: pairs (1,0), (3,0), (3,2) are out of order.
    assert_eq!(e.koszul_sign(0b1010, 0b0101), -1);
    // {2,3} before {0,1}: four inversions.
    assert_eq!(e.koszul_sign(0b1100, 0b0011), 1);
    // bits at or above n are not generators and are ignored.
    assert_eq!(e.koszul_sign(0b1_0000_0000, 0b0001), 1);
}

#[test]
fn signed_wedge_cases() {
    let e = ExteriorAlgebra::new(3, vec![]);
    assert_eq!(e.signed_wedge(0b001, 0b010), (1, 0b011));
    assert_eq!(e.signed_wedge(0b010, 0b001), (-1, 0b011));
    assert_eq!(e.signed_wedge(0b011, 0b010), (0, 0));
}

#[test]
fn signed_wedge_graded_commutative() {
    let e = ExteriorAlgebra::new(5, vec![]);
    for a in 0u64..32 {
        for b in 0u64..32 {
            if a & b != 0 {
                continue;
            }
            let (s_ab, m_ab) = e.signed_wedge(a, b);
            let (s_ba, m_ba) = e.signed_wedge(b, a);
            assert_eq!(m_ab, m_ba);
            let deg = a.count_ones() * b.count_ones();
            let sign = if deg % 2 == 0 { 1 } else { -1 };
            assert_eq!(s_ab, sign * s_ba);
        }
    }
}

#[test]
fn signed_wedge_associative() {
    let e = ExteriorAlgebra::new(4, vec![]);
    for a in 0u64..16 {
        for b in 0u64..16 {
            for c in 0u64..16 {
                let (s1, ab) = e.signed_wedge(a, b);
                let (s2, ab_c) = e.signed_wedge(ab, c);
                let (t1, bc) = e.signed_wedge(b, c);
                let (t2, a_bc) = e.signed_wedge(a, bc);
                assert_eq!(s1 * s2, t1 * t2);
                if s1 * s2 != 0 {
                    assert_eq!(ab_c, a_bc);
                }
            }
        }
    }
}
