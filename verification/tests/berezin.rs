use lau_supergeometry::berezin::BerezinIntegrator;

#[test]
fn integrate_term_leaves_second_variable() {
    // ∫ θ₁θ₂ dθ₁ leaves θ₂ with sign +1
    assert_eq!(BerezinIntegrator::integrate_term(0b11, 0), Some((0b10, 1)));
}

#[test]
fn integrate_term_sign_and_absence() {
    // θ₀θ₁ integrated over θ₁: θ₁ must move past θ₀, sign -1
    assert_eq!(BerezinIntegrator::integrate_term(0b11, 1), Some((0b01, -1)));
    // θ₁ alone integrated over θ₀ vanishes
    assert_eq!(BerezinIntegrator::integrate_term(0b10, 0), None);
    assert_eq!(BerezinIntegrator::integrate_term(0b1101, 3), Some((0b0101, 1)));
}

#[test]
fn top_monomial_values() {
    assert_eq!(BerezinIntegrator::new(2, vec![]).top_monomial(), 0b11);
    assert_eq!(BerezinIntegrator::new(4, vec![]).top_monomial(), 0b1111);
    assert_eq!(BerezinIntegrator::new(0, vec![]).top_monomial(), 0);
}

#[test]
fn iterated_integration_of_top_monomial() {
    let b = BerezinIntegrator::new(3, vec![]);
    let mut mask = b.top_monomial();
    let mut sign = 1;
    for i in 0..3 {
        let (m, s) = BerezinIntegrator::integrate_term(mask, i).unwrap();
        mask = m;
        sign *= s;
    }
    assert_eq!((mask, sign), (0, 1));
}

#[test]
fn berezin_labels() {
    let b = BerezinIntegrator::new(2, vec![]);
    assert_eq!(b.labels, vec!["θ0", "θ1"]);
    assert_eq!(b.n_variables, 2);
}

#[test]
fn single_variable_berezin_rules() {
    // ∫ θ dθ = 1: the monomial θ₀ integrates to the constant monomial with sign +1
    assert_eq!(BerezinIntegrator::integrate_term(0b1, 0), Some((0, 1)));
    // ∫ 1 dθ = 0: the constant monomial does not survive
    assert_eq!(BerezinIntegrator::integrate_term(0, 0), None);
}
