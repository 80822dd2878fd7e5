use dep_cycles::detect::detect_cycles;
use dep_cycles::package::Package;
use dep_cycles::render::format_cycle;

fn pkg(id: &str, name: &str, deps: &[&str]) -> Package {
    Package {
        id: id.to_string(),
        name: name.to_string(),
        deps: deps.iter().map(|d| d.to_string()).collect(),
    }
}

#[test]
fn self_loop_renders_closed() {
    let universe = vec![pkg("a", "alpha", &["alpha"])];
    let cycle = vec!["a".to_string()];
    assert_eq!(format_cycle(&cycle, &universe), "alpha -> alpha");
}

#[test]
fn pair_renders_closed() {
    let universe = vec![pkg("a", "alpha", &[]), pkg("b", "beta", &[])];
    let cycle = vec!["a".to_string(), "b".to_string()];
    assert_eq!(format_cycle(&cycle, &universe), "alpha -> beta -> alpha");
}

#[test]
fn unknown_identifier_falls_back_to_itself() {
    let universe = vec![pkg("a", "alpha", &[])];
    let cycle = vec!["a".to_string(), "ghost-id".to_string()];
    assert_eq!(format_cycle(&cycle, &universe), "alpha -> ghost-id -> alpha");
}

#[test]
fn detected_three_cycle_renders_as_closed_path() {
    let ws = vec![
        pkg("a", "alpha", &["beta"]),
        pkg("b", "beta", &["gamma"]),
        pkg("c", "gamma", &["alpha"]),
    ];
    let cycles = detect_cycles(&ws, &ws);
    assert_eq!(cycles.len(), 1);
    let text = format_cycle(&cycles[0], &ws);
    let parts: Vec<&str> = text.split(" -> ").collect();
    assert_eq!(parts.len(), 4);
    assert_eq!(parts.first(), parts.last());
    for name in ["alpha", "beta", "gamma"] {
        assert!(parts.contains(&name));
    }
}

#[test]
fn name_resolution_uses_first_matching_identifier() {
    // two records share the identifier; the first one's name is used
    let universe = vec![pkg("x", "first", &[]), pkg("x", "second", &[])];
    let cycle = vec!["x".to_string()];
    assert_eq!(format_cycle(&cycle, &universe), "first -> first");
}
