use lau_supergeometry::superform::{exterior_derivative_terms, form_degree, volume_diff_mask, wedge_sign};

#[test]
fn one_form_has_degree_one() {
    // a single dx₁ component has degree 1
    assert_eq!(form_degree(&vec![0b01]), Some(1));
}

#[test]
fn wedge_of_disjoint_one_forms_survives() {
    assert_eq!(wedge_sign(0b01, 0b10), Some(1));
}

#[test]
fn derivative_of_function_has_terms() {
    // d of a function on a (1|1) manifold has terms
    assert!(!exterior_derivative_terms(0, 2).is_empty());
}

#[test]
fn volume_form_has_top_degree() {
    let mask = volume_diff_mask(2, 2);
    assert_eq!(form_degree(&vec![mask]), Some(4));
}

#[test]
fn one_forms_anticommute() {
    // dx₁ ∧ dx₂ = -dx₂ ∧ dx₁ on a (3|0) manifold
    assert_eq!(wedge_sign(0b010, 0b100), Some(1));
    assert_eq!(wedge_sign(0b100, 0b010), Some(-1));
    // a two-form and a one-form commute
    assert_eq!(wedge_sign(0b011, 0b100), Some(1));
    assert_eq!(wedge_sign(0b100, 0b011), Some(1));
}

#[test]
fn derivative_raises_degree_by_one() {
    for diff in 0u64..16 {
        for (m, _) in exterior_derivative_terms(diff, 4) {
            assert_eq!(m.count_ones(), diff.count_ones() + 1);
            assert_eq!(m & diff, diff);
        }
        assert_eq!(exterior_derivative_terms(diff, 4).len() as u32, 4 - diff.count_ones());
    }
}

#[test]
fn derivative_terms_values() {
    assert_eq!(exterior_derivative_terms(0, 2), vec![(0b01, 1), (0b10, 1)]);
    assert_eq!(exterior_derivative_terms(0b010, 3), vec![(0b011, 1), (0b110, -1)]);
    assert_eq!(exterior_derivative_terms(0b11, 2), vec![]);
}

#[test]
fn derivative_squared_cancels() {
    // d(d(1)) on three differentials: every monomial of degree 2 gets two
    // contributions of opposite sign.
    let mut total = std::collections::HashMap::new();
    for (m1, s1) in exterior_derivative_terms(0, 3) {
        for (m2, s2) in exterior_derivative_terms(m1, 3) {
            *total.entry(m2).or_insert(0i64) += s1 * s2;
        }
    }
    assert_eq!(total.len(), 3);
    assert!(total.values().all(|&v| v == 0));
}

#[test]
fn wedge_sign_values() {
    assert_eq!(wedge_sign(0b01, 0b01), None);
    assert_eq!(wedge_sign(0b01, 0b10), Some(1));
    assert_eq!(wedge_sign(0b10, 0b01), Some(-1));
}

#[test]
fn form_degree_cases() {
    assert_eq!(form_degree(&vec![]), None);
    assert_eq!(form_degree(&vec![0b011, 0b101]), Some(2));
    assert_eq!(form_degree(&vec![0b011, 0b100]), None);
    assert_eq!(volume_diff_mask(1, 2), 0b111);
}
