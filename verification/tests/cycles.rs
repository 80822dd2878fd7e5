use dep_cycles::detect::detect_cycles;
use dep_cycles::package::Package;

fn pkg(id: &str, name: &str, deps: &[&str]) -> Package {
    Package {
        id: id.to_string(),
        name: name.to_string(),
        deps: deps.iter().map(|d| d.to_string()).collect(),
    }
}

fn member_set(cycle: &Vec<String>) -> Vec<String> {
    let mut s: Vec<String> = cycle.clone();
    s.sort();
    s.dedup();
    s
}

fn families(cycles: &Vec<Vec<String>>) -> Vec<Vec<String>> {
    let mut f: Vec<Vec<String>> = cycles.iter().map(member_set).collect();
    f.sort();
    f
}

#[test]
fn empty_workspace_has_no_cycles() {
    let ws: Vec<Package> = vec![];
    let cycles = detect_cycles(&ws, &ws);
    assert!(cycles.is_empty());
}

#[test]
fn no_edges_no_cycles() {
    let ws = vec![pkg("a", "alpha", &[]), pkg("b", "beta", &[]), pkg("c", "gamma", &[])];
    let cycles = detect_cycles(&ws, &ws);
    assert!(cycles.is_empty());
}

#[test]
fn mutual_pair_one_cycle() {
    let ws = vec![pkg("a", "alpha", &["beta"]), pkg("b", "beta", &["alpha"])];
    let cycles = detect_cycles(&ws, &ws);
    assert_eq!(cycles.len(), 1);
    assert_eq!(member_set(&cycles[0]), vec!["a".to_string(), "b".to_string()]);
}

#[test]
fn self_dependency_reported() {
    let ws = vec![
        pkg("a", "alpha", &["alpha", "beta"]),
        pkg("b", "beta", &[]),
    ];
    let cycles = detect_cycles(&ws, &ws);
    assert_eq!(cycles.len(), 1);
    assert_eq!(cycles[0], vec!["a".to_string()]);
}

#[test]
fn self_dependency_independent_of_structure() {
    // the self-loop is reported beside an unrelated two-member cycle
    let ws = vec![
        pkg("a", "alpha", &["alpha"]),
        pkg("b", "beta", &["gamma"]),
        pkg("c", "gamma", &["beta"]),
    ];
    let cycles = detect_cycles(&ws, &ws);
    assert_eq!(cycles.len(), 2);
    assert!(cycles.iter().any(|c| c == &vec!["a".to_string()]));
    assert!(
        cycles.iter().any(|c| member_set(c) == vec!["b".to_string(), "c".to_string()])
    );
}

#[test]
fn three_cycle_members() {
    let ws = vec![
        pkg("a", "alpha", &["beta"]),
        pkg("b", "beta", &["gamma"]),
        pkg("c", "gamma", &["alpha"]),
        pkg("d", "delta", &["alpha"]),
    ];
    let cycles = detect_cycles(&ws, &ws);
    assert_eq!(cycles.len(), 1);
    assert_eq!(
        member_set(&cycles[0]),
        vec!["a".to_string(), "b".to_string(), "c".to_string()]
    );
}

#[test]
fn permutation_does_not_change_cycle_sets() {
    let ws1 = vec![
        pkg("a", "alpha", &["beta"]),
        pkg("b", "beta", &["gamma", "delta"]),
        pkg("c", "gamma", &["alpha"]),
        pkg("d", "delta", &["delta"]),
        pkg("e", "epsilon", &["alpha"]),
    ];
    let ws2 = vec![
        pkg("d", "delta", &["delta"]),
        pkg("c", "gamma", &["alpha"]),
        pkg("e", "epsilon", &["alpha"]),
        pkg("a", "alpha", &["beta"]),
        pkg("b", "beta", &["gamma", "delta"]),
    ];
    let f1 = families(&detect_cycles(&ws1, &ws1));
    let f2 = families(&detect_cycles(&ws2, &ws2));
    assert_eq!(f1, f2);
}

#[test]
fn nested_cycles_collapse_into_one_component() {
    // a <-> b and a <-> c overlap in a, so they form one component
    let ws = vec![
        pkg("a", "alpha", &["beta", "gamma"]),
        pkg("b", "beta", &["alpha"]),
        pkg("c", "gamma", &["alpha"]),
    ];
    let cycles = detect_cycles(&ws, &ws);
    assert_eq!(cycles.len(), 1);
    assert_eq!(
        member_set(&cycles[0]),
        vec!["a".to_string(), "b".to_string(), "c".to_string()]
    );
}

#[test]
fn two_disjoint_cycles() {
    let ws = vec![
        pkg("a", "alpha", &["beta"]),
        pkg("b", "beta", &["alpha"]),
        pkg("c", "gamma", &["delta"]),
        pkg("d", "delta", &["gamma"]),
    ];
    let cycles = detect_cycles(&ws, &ws);
    assert_eq!(cycles.len(), 2);
    let fam = families(&cycles);
    assert_eq!(
        fam,
        vec![
            vec!["a".to_string(), "b".to_string()],
            vec!["c".to_string(), "d".to_string()],
        ]
    );
}

#[test]
fn external_dependencies_are_ignored() {
    // serde is in the universe but not in the workspace; its back-edge
    // onto alpha must not manufacture a cycle
    let ws = vec![pkg("a", "alpha", &["serde"]), pkg("b", "beta", &["alpha"])];
    let mut universe = clone_records(&ws);
    universe.push(pkg("s", "serde", &["alpha"]));
    let cycles = detect_cycles(&ws, &universe);
    assert!(cycles.is_empty());
}

#[test]
fn unknown_dependency_names_are_ignored() {
    let ws = vec![pkg("a", "alpha", &["nothere"]), pkg("b", "beta", &[])];
    let cycles = detect_cycles(&ws, &ws);
    assert!(cycles.is_empty());
}

#[test]
fn duplicate_universe_names_bind_to_first_match() {
    // two universe packages are named "shared"; the first is not a
    // workspace member, so the declared dependency induces no edge
    let ws = vec![pkg("w", "omega", &["shared"]), pkg("s2", "shared", &["omega"])];
    let universe = vec![
        pkg("s1", "shared", &[]),
        pkg("w", "omega", &["shared"]),
        pkg("s2", "shared", &["omega"]),
    ];
    let cycles = detect_cycles(&ws, &universe);
    assert!(cycles.is_empty());
}

fn clone_records(pkgs: &Vec<Package>) -> Vec<Package> {
    pkgs.iter()
        .map(|p| Package {
            id: p.id.clone(),
            name: p.name.clone(),
            deps: p.deps.clone(),
        })
        .collect()
}
