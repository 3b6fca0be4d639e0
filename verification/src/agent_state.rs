//! Fermionic exclusion for multi-agent systems: a fermionic degree of
//! freedom (a role, a task) can be occupied by at most one agent.

use vstd::prelude::*;

verus! {

/// The exclusive part of an agent's state: its id and its fermionic
/// degrees of freedom, each a name and whether the agent occupies it.
#[derive(Debug, Clone)]
pub struct FermionicState {
    pub agent_id: String,
    pub fermionic_dofs: Vec<(String, bool)>,
}

/// An occupied degree of freedom: (agent id, dof name).
pub type Occupation = (Seq<char>, Seq<char>);

/// A violation: (agent id, id of the agent that occupied the dof first,
/// dof name).
pub type Violation = (Seq<char>, Seq<char>, Seq<char>);

/// The dofs among `dofs` that the agent `id` occupies, in order.
pub open spec fn agent_occupations(id: Seq<char>, dofs: Seq<(String, bool)>) -> Seq<Occupation>
    decreases dofs.len(),
{
    if dofs.len() == 0 {
        Seq::empty()
    } else if dofs.last().1 {
        agent_occupations(id, dofs.drop_last()).push((id, dofs.last().0@))
    } else {
        agent_occupations(id, dofs.drop_last())
    }
}

/// All occupied dofs of the agents, agent by agent, in order.
pub open spec fn occupations(agents: Seq<FermionicState>) -> Seq<Occupation>
    decreases agents.len(),
{
    if agents.len() == 0 {
        Seq::empty()
    } else {
        occupations(agents.drop_last()) + agent_occupations(
            agents.last().agent_id@,
            agents.last().fermionic_dofs@,
        )
    }
}

/// Scanning the occupations in order: the first occupant of each dof
/// claims it; every later occupation of a claimed dof is a violation
/// reported against the first occupant.
pub open spec fn exclusion_scan(occ: Seq<Occupation>) -> (Map<Seq<char>, Seq<char>>, Seq<Violation>)
    decreases occ.len(),
{
    if occ.len() == 0 {
        (Map::empty(), Seq::empty())
    } else {
        let (claims, violations) = exclusion_scan(occ.drop_last());
        let (id, name) = occ.last();
        if claims.contains_key(name) {
            (claims, violations.push((id, claims[name], name)))
        } else {
            (claims.insert(name, id), violations)
        }
    }
}

/// The exclusion violations of a system of agents.
pub open spec fn exclusion_violations(agents: Seq<FermionicState>) -> Seq<Violation> {
    exclusion_scan(occupations(agents)).1
}

/// No dof appears twice among the occupations.
pub open spec fn occupations_exclusive(occ: Seq<Occupation>) -> bool {
    forall|i: int, j: int| 0 <= i < j < occ.len() ==> (#[trigger] occ[i]).1 != (#[trigger] occ[j]).1
}

proof fn lemma_scan_claims(occ: Seq<Occupation>)
    ensures
        forall|name: Seq<char>|
            #[trigger] exclusion_scan(occ).0.contains_key(name) <==> exists|i: int|
                0 <= i < occ.len() && (#[trigger] occ[i]).1 == name,
        exclusion_scan(occ).1.len() == 0 <==> occupations_exclusive(occ),
    decreases occ.len(),
{
    if occ.len() > 0 {
        let prev = occ.drop_last();
        lemma_scan_claims(prev);
        let (id, name) = occ.last();
        assert forall|nm: Seq<char>|
            #[trigger] exclusion_scan(occ).0.contains_key(nm) <==> exists|i: int|
                0 <= i < occ.len() && (#[trigger] occ[i]).1 == nm by {
            if exists|i: int| 0 <= i < occ.len() && (#[trigger] occ[i]).1 == nm {
                let i = choose|i: int| 0 <= i < occ.len() && (#[trigger] occ[i]).1 == nm;
                if i < prev.len() {
                    assert(prev[i] == occ[i]);
                }
            }
            if exists|i: int| 0 <= i < prev.len() && (#[trigger] prev[i]).1 == nm {
                let i = choose|i: int| 0 <= i < prev.len() && (#[trigger] prev[i]).1 == nm;
                assert(occ[i] == prev[i]);
            }
        }
        if exclusion_scan(prev).0.contains_key(name) {
            let i = choose|i: int| 0 <= i < prev.len() && (#[trigger] prev[i]).1 == name;
            assert(occ[i] == prev[i]);
            assert(occ[i].1 == occ[occ.len() - 1].1);
            assert(!occupations_exclusive(occ));
        } else {
            if occupations_exclusive(prev) {
                assert forall|i: int, j: int| 0 <= i < j < occ.len() implies (#[trigger] occ[i]).1
                    != (#[trigger] occ[j]).1 by {
                    assert(occ[i] == prev[i]);
                    if j < prev.len() {
                        assert(occ[j] == prev[j]);
                    }
                }
            } else {
                let (i, j) = choose|i: int, j: int|
                    0 <= i < j < prev.len() && (#[trigger] prev[i]).1 == (#[trigger] prev[j]).1;
                assert(occ[i] == prev[i]);
                assert(occ[j] == prev[j]);
            }
        }
    }
}

/// The names of the occupied dofs.
pub open spec fn occupied_names(occ: Seq<Occupation>) -> Set<Seq<char>> {
    Set::new(|name: Seq<char>| exists|i: int| 0 <= i < occ.len() && (#[trigger] occ[i]).1 == name)
}

proof fn lemma_scan_count(occ: Seq<Occupation>)
    ensures
        exclusion_scan(occ).0.dom().finite(),
        exclusion_scan(occ).1.len() + exclusion_scan(occ).0.dom().len() == occ.len(),
    decreases occ.len(),
{
    if occ.len() > 0 {
        let prev = occ.drop_last();
        lemma_scan_count(prev);
        let (claims, violations) = exclusion_scan(prev);
        let (id, name) = occ.last();
        if !claims.contains_key(name) {
            assert(claims.insert(name, id).dom() =~= claims.dom().insert(name));
        }
    }
}

/// Every occupation of a dof that an earlier occupation already claimed is
/// reported exactly once: the number of violations is the number of
/// occupations minus the number of distinct occupied dofs.
pub proof fn lemma_violation_count(agents: Seq<FermionicState>)
    ensures
        occupied_names(occupations(agents)).finite(),
        exclusion_violations(agents).len() + occupied_names(occupations(agents)).len()
            == occupations(agents).len(),
{
    let occ = occupations(agents);
    lemma_scan_count(occ);
    lemma_scan_claims(occ);
    assert(exclusion_scan(occ).0.dom() =~= occupied_names(occ));
}

/// Occupation `i` is the first occupation of dof `name`.
pub open spec fn first_occupation(occ: Seq<Occupation>, i: int, name: Seq<char>) -> bool {
    &&& 0 <= i < occ.len()
    &&& occ[i].1 == name
    &&& forall|i2: int| 0 <= i2 < i ==> (#[trigger] occ[i2]).1 != name
}

/// The violation `v` = (agent, other, dof) is witnessed by occupation `j` of
/// `dof` by `agent`, after the first occupation `i` of `dof`, by `other`.
pub open spec fn witnessed_by(occ: Seq<Occupation>, v: Violation, i: int, j: int) -> bool {
    &&& first_occupation(occ, i, v.2)
    &&& i < j < occ.len()
    &&& occ[j] == (v.0, v.2)
    &&& v.1 == occ[i].0
}

/// Some pair of occupations witnesses the violation `v`.
pub open spec fn witnessed(occ: Seq<Occupation>, v: Violation) -> bool {
    exists|i: int, j: int| #[trigger] witnessed_by(occ, v, i, j)
}

proof fn lemma_first_occupation_extends(occ: Seq<Occupation>, i: int, name: Seq<char>)
    requires
        occ.len() > 0,
        first_occupation(occ.drop_last(), i, name),
    ensures
        first_occupation(occ, i, name),
{
    let prev = occ.drop_last();
    assert forall|i2: int| 0 <= i2 < i implies (#[trigger] occ[i2]).1 != name by {
        assert(occ[i2] == prev[i2]);
    }
    assert(occ[i] == prev[i]);
}

proof fn lemma_scan_reports(occ: Seq<Occupation>)
    ensures
        forall|name: Seq<char>|
            #[trigger] exclusion_scan(occ).0.contains_key(name) ==> exists|i: int|
                #[trigger] first_occupation(occ, i, name) && exclusion_scan(occ).0[name] == occ[i].0,
        forall|k: int|
            0 <= k < exclusion_scan(occ).1.len() ==> #[trigger] witnessed(occ, exclusion_scan(occ).1[k]),
    decreases occ.len(),
{
    if occ.len() > 0 {
        let prev = occ.drop_last();
        lemma_scan_reports(prev);
        lemma_scan_claims(prev);
        let (claims, violations) = exclusion_scan(prev);
        let (id, name) = occ.last();
        let last = occ.len() - 1;
        assert(occ[last] == (id, name));
        let (nclaims, nviolations) = exclusion_scan(occ);
        assert forall|nm: Seq<char>| #[trigger] nclaims.contains_key(nm) implies exists|i: int|
            #[trigger] first_occupation(occ, i, nm) && nclaims[nm] == occ[i].0 by {
            if claims.contains_key(nm) {
                let i = choose|i: int| #[trigger] first_occupation(prev, i, nm) && claims[nm] == prev[i].0;
                lemma_first_occupation_extends(occ, i, nm);
                assert(occ[i] == prev[i]);
            } else {
                assert(nm == name);
                assert forall|i2: int| 0 <= i2 < last implies (#[trigger] occ[i2]).1 != nm by {
                    assert(occ[i2] == prev[i2]);
                    if prev[i2].1 == nm {
                        assert(claims.contains_key(nm));
                    }
                }
                assert(first_occupation(occ, last, nm));
            }
        }
        assert forall|k: int| 0 <= k < nviolations.len() implies #[trigger] witnessed(occ, nviolations[k]) by {
            if k < violations.len() {
                assert(nviolations[k] == violations[k]);
                let v = violations[k];
                assert(witnessed(prev, v));
                let (i, j) = choose|i: int, j: int| #[trigger] witnessed_by(prev, v, i, j);
                lemma_first_occupation_extends(occ, i, v.2);
                assert(occ[j] == prev[j]);
                assert(occ[i] == prev[i]);
                assert(witnessed_by(occ, v, i, j));
            } else {
                assert(claims.contains_key(name));
                let i = choose|i: int| #[trigger] first_occupation(prev, i, name) && claims[name] == prev[i].0;
                lemma_first_occupation_extends(occ, i, name);
                assert(occ[i] == prev[i]);
                assert(nviolations[k] == (id, claims[name], name));
                assert(witnessed_by(occ, nviolations[k], i, last));
            }
        }
        assert(nviolations == exclusion_scan(occ).1);
    } else {
        assert(exclusion_scan(occ).1.len() == 0);
    }
}

/// Every reported violation (agent, other, dof) is a real double
/// occupation: some occupation j of `dof` by `agent` comes after the first
/// occupation i of `dof`, and `other` is the agent of that first occupation.
pub proof fn lemma_violations_are_double_occupations(agents: Seq<FermionicState>)
    ensures
        forall|k: int|
            0 <= k < exclusion_violations(agents).len() ==> #[trigger] witnessed(
                occupations(agents),
                exclusion_violations(agents)[k],
            ),
{
    lemma_scan_reports(occupations(agents));
}

/// The exclusion principle: a system passes the check exactly when no
/// fermionic dof is occupied twice (by two agents, or twice by one).
pub proof fn lemma_exclusion_iff_exclusive(agents: Seq<FermionicState>)
    ensures
        exclusion_violations(agents).len() == 0 <==> occupations_exclusive(occupations(agents)),
{
    lemma_scan_claims(occupations(agents));
}

/// The view of a reported violation.
pub open spec fn violation_view(v: (String, String, String)) -> Violation {
    (v.0@, v.1@, v.2@)
}

/// The index of the claim on dof `name`, if any.
fn find_claim(claims: &Vec<(String, String)>, name: &String) -> (r: Option<usize>)
    ensures
        r matches Some(k) ==> k < claims.len() && claims@[k as int].0@ == name@,
        r is None ==> forall|k: int| 0 <= k < claims.len() ==> (#[trigger] claims@[k]).0@ != name@,
{
    let mut k: usize = 0;
    while k < claims.len()
        invariant
            k <= claims.len(),
            forall|j: int| 0 <= j < k ==> (#[trigger] claims@[j]).0@ != name@,
        decreases claims.len() - k,
    {
        if claims[k].0 == *name {
            return Some(k);
        }
        k = k + 1;
    }
    None
}

/// Check fermionic exclusion: no two occupations of the same fermionic dof.
/// Returns every violation (agent, first occupant, dof) in scan order.
pub fn check_exclusion(agents: &Vec<FermionicState>) -> (r: Result<(), Vec<(String, String, String)>>)
    ensures
        r is Ok <==> exclusion_violations(agents@).len() == 0,
        r matches Err(v) ==> v@.map_values(|t: (String, String, String)| violation_view(t))
            == exclusion_violations(agents@),
{
    let mut violations: Vec<(String, String, String)> = Vec::new();
    let mut claims: Vec<(String, String)> = Vec::new();
    let ghost mut processed: Seq<Occupation> = Seq::empty();
    let mut a: usize = 0;
    while a < agents.len()
        invariant
            a <= agents.len(),
            processed == occupations(agents@.take(a as int)),
            violations@.map_values(|t: (String, String, String)| violation_view(t))
                == exclusion_scan(processed).1,
            forall|k: int|
                0 <= k < claims.len() ==> {
                    &&& exclusion_scan(processed).0.contains_key((#[trigger] claims@[k]).0@)
                    &&& exclusion_scan(processed).0[claims@[k].0@] == claims@[k].1@
                },
            forall|name: Seq<char>|
                #[trigger] exclusion_scan(processed).0.contains_key(name) ==> exists|k: int|
                    0 <= k < claims.len() && (#[trigger] claims@[k]).0@ == name,
        decreases agents.len() - a,
    {
        let agent = &agents[a];
        let ghost start = processed;
        let mut d: usize = 0;
        while d < agent.fermionic_dofs.len()
            invariant
                d <= agent.fermionic_dofs.len(),
                processed == start + agent_occupations(
                    agent.agent_id@,
                    agent.fermionic_dofs@.take(d as int),
                ),
                violations@.map_values(|t: (String, String, String)| violation_view(t))
                    == exclusion_scan(processed).1,
                forall|k: int|
                    0 <= k < claims.len() ==> {
                        &&& exclusion_scan(processed).0.contains_key((#[trigger] claims@[k]).0@)
                        &&& exclusion_scan(processed).0[claims@[k].0@] == claims@[k].1@
                    },
                forall|name: Seq<char>|
                    #[trigger] exclusion_scan(processed).0.contains_key(name) ==> exists|k: int|
                        0 <= k < claims.len() && (#[trigger] claims@[k]).0@ == name,
            decreases agent.fermionic_dofs.len() - d,
        {
            let ghost dofs = agent.fermionic_dofs@;
            assert(dofs.take(d + 1).drop_last() =~= dofs.take(d as int));
            let name = &agent.fermionic_dofs[d].0;
            let occ = agent.fermionic_dofs[d].1;
            if occ {
                let ghost entry: Occupation = (agent.agent_id@, name@);
                let ghost before = processed;
                proof {
                    assert(agent_occupations(agent.agent_id@, dofs.take(d + 1))
                        == agent_occupations(agent.agent_id@, dofs.take(d as int)).push(entry));
                    processed = processed.push(entry);
                    assert(processed == start + agent_occupations(
                        agent.agent_id@,
                        dofs.take(d + 1),
                    ));
                    assert(processed.drop_last() =~= before);
                }
                let ghost old_claims = exclusion_scan(before).0;
                let ghost old_violations = violations@;
                match find_claim(&claims, name) {
                    Some(k) => {
                        let other = claims[k].1.clone();
                        violations.push((agent.agent_id.clone(), other, name.clone()));
                        proof {
                            assert(old_claims.contains_key(name@));
                            assert(violations@.map_values(
                                |t: (String, String, String)| violation_view(t),
                            ) =~= old_violations.map_values(
                                |t: (String, String, String)| violation_view(t),
                            ).push((agent.agent_id@, old_claims[name@], name@)));
                        }
                    },
                    None => {
                        let ghost old_vec = claims@;
                        claims.push((name.clone(), agent.agent_id.clone()));
                        proof {
                            assert(!old_claims.contains_key(name@));
                            let new_claims = exclusion_scan(processed).0;
                            assert(new_claims == old_claims.insert(name@, agent.agent_id@));
                            assert forall|kk: int| 0 <= kk < claims.len() implies {
                                &&& new_claims.contains_key((#[trigger] claims@[kk]).0@)
                                &&& new_claims[claims@[kk].0@] == claims@[kk].1@
                            } by {
                                if kk < old_vec.len() {
                                    assert(claims@[kk] == old_vec[kk]);
                                }
                            }
                            assert forall|nm: Seq<char>|
                                #[trigger] new_claims.contains_key(nm) implies exists|kk: int|
                                    0 <= kk < claims.len() && (#[trigger] claims@[kk]).0@ == nm by {
                                if nm == name@ {
                                    assert(claims@[old_vec.len() as int].0@ == nm);
                                } else {
                                    assert(old_claims.contains_key(nm));
                                    let kk = choose|kk: int|
                                        0 <= kk < old_vec.len() && (#[trigger] old_vec[kk]).0@
                                            == nm;
                                    assert(claims@[kk] == old_vec[kk]);
                                }
                            }
                        }
                    },
                }
            } else {
                proof {
                    assert(agent_occupations(agent.agent_id@, dofs.take(d + 1))
                        == agent_occupations(agent.agent_id@, dofs.take(d as int)));
                }
            }
            d = d + 1;
        }
        proof {
            assert(agent.fermionic_dofs@.take(agent.fermionic_dofs.len() as int)
                =~= agent.fermionic_dofs@);
            assert(agents@.take(a + 1).drop_last() =~= agents@.take(a as int));
            assert(occupations(agents@.take(a + 1)) == occupations(agents@.take(a as int))
                + agent_occupations(agent.agent_id@, agent.fermionic_dofs@));
        }
        a = a + 1;
    }
    proof {
        assert(agents@.take(agents.len() as int) =~= agents@);
    }
    if violations.len() == 0 {
        Ok(())
    } else {
        Err(violations)
    }
}

} // verus!
