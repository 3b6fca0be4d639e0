use lau_supergeometry::graded::{homogeneous_parity, super_sign, Parity};

#[test]
fn test_parity_combine() {
    assert_eq!(Parity::Even.combine(Parity::Even), Parity::Even);
    assert_eq!(Parity::Even.combine(Parity::Odd), Parity::Odd);
    assert_eq!(Parity::Odd.combine(Parity::Even), Parity::Odd);
    assert_eq!(Parity::Odd.combine(Parity::Odd), Parity::Even);
}

#[test]
fn test_parity_sign() {
    assert_eq!(Parity::Even.sign(), 1);
    assert_eq!(Parity::Odd.sign(), -1);
}

#[test]
fn test_grades() {
    assert_eq!(Parity::Even.grade(), 0);
    assert_eq!(Parity::Odd.grade(), 1);
}

#[test]
fn parity_group_laws_on_values() {
    let all = [Parity::Even, Parity::Odd];
    for &a in &all {
        assert_eq!(a.combine(Parity::Even), a);
        assert_eq!(a.combine(a), Parity::Even);
        for &b in &all {
            assert_eq!(a.combine(b), b.combine(a));
            assert_eq!(a.combine(b).sign(), a.sign() * b.sign());
            assert_eq!(a.combine(b).grade(), (a.grade() + b.grade()) % 2);
            for &c in &all {
                assert_eq!(a.combine(b).combine(c), a.combine(b.combine(c)));
            }
        }
    }
}

#[test]
fn super_sign_values() {
    assert_eq!(super_sign(Parity::Even, Parity::Even), 1);
    assert_eq!(super_sign(Parity::Even, Parity::Odd), 1);
    assert_eq!(super_sign(Parity::Odd, Parity::Even), 1);
    assert_eq!(super_sign(Parity::Odd, Parity::Odd), -1);
}

#[test]
fn super_sign_is_multiplicative() {
    let all = [Parity::Even, Parity::Odd];
    for &a in &all {
        for &b in &all {
            assert_eq!(super_sign(a, b), super_sign(b, a));
            for &c in &all {
                assert_eq!(super_sign(a, b.combine(c)), super_sign(a, b) * super_sign(a, c));
            }
        }
    }
}

#[test]
fn homogeneous_parity_cases() {
    assert_eq!(homogeneous_parity(true, false), Some(Parity::Even));
    assert_eq!(homogeneous_parity(false, true), Some(Parity::Odd));
    assert_eq!(homogeneous_parity(true, true), None);
    assert_eq!(homogeneous_parity(false, false), None);
}
