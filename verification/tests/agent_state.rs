use lau_supergeometry::agent_state::{check_exclusion, FermionicState};

fn agent(id: &str, dofs: &[(&str, bool)]) -> FermionicState {
    FermionicState {
        agent_id: id.to_string(),
        fermionic_dofs: dofs.iter().map(|(n, o)| (n.to_string(), *o)).collect(),
    }
}

#[test]
fn test_multi_agent_exclusion_ok() {
    let agents = vec![agent("a1", &[("leader", true)]), agent("a2", &[("leader", false)])];
    assert!(check_exclusion(&agents).is_ok());
}

#[test]
fn test_multi_agent_exclusion_violation() {
    let agents = vec![agent("a1", &[("leader", true)]), agent("a2", &[("leader", true)])];
    let result = check_exclusion(&agents);
    assert!(result.is_err());
    let violations = result.unwrap_err();
    assert_eq!(violations.len(), 1);
    assert_eq!(violations[0].2, "leader");
}

#[test]
fn exclusion_reports_first_occupant() {
    let agents = vec![
        agent("a1", &[("leader", true), ("scout", false)]),
        agent("a2", &[("scout", true), ("leader", true)]),
        agent("a3", &[("leader", true), ("scout", true)]),
    ];
    let violations = check_exclusion(&agents).unwrap_err();
    assert_eq!(
        violations,
        vec![
            ("a2".to_string(), "a1".to_string(), "leader".to_string()),
            ("a3".to_string(), "a1".to_string(), "leader".to_string()),
            ("a3".to_string(), "a2".to_string(), "scout".to_string()),
        ]
    );
}

#[test]
fn exclusion_same_agent_twice() {
    let agents = vec![agent("solo", &[("role", true), ("role", true)])];
    let violations = check_exclusion(&agents).unwrap_err();
    assert_eq!(violations, vec![("solo".to_string(), "solo".to_string(), "role".to_string())]);
}

#[test]
fn exclusion_empty_system() {
    assert!(check_exclusion(&vec![]).is_ok());
    assert!(check_exclusion(&vec![agent("a", &[])]).is_ok());
}
