use noir_lib::assembler::{assemble_graph_failure, describe};
use noir_lib::model::{CompilationUnit, CompileError, DependencyGraph, Severity, UnitDiagnostic};
use noir_lib::validator::{find_unit, same_identities, validate, GraphError};

fn unit(identity: &str, dependencies: &[&str]) -> CompilationUnit {
    CompilationUnit {
        identity: identity.to_string(),
        source: format!("src/{}.nr", identity),
        dependencies: dependencies.iter().map(|d| d.to_string()).collect(),
        is_contract: None,
    }
}

fn graph(units: Vec<CompilationUnit>) -> DependencyGraph {
    DependencyGraph { units }
}

fn names(list: &[&str]) -> Vec<String> {
    list.iter().map(|s| s.to_string()).collect()
}

#[test]
fn valid_graph_is_wrapped_unchanged() {
    let g = graph(vec![unit("E", &["A", "B"]), unit("A", &["B"]), unit("B", &[])]);
    let validated = validate(&g, &"E".to_string()).unwrap();
    assert_eq!(validated.units(), &g.units);
}

#[test]
fn entry_point_must_be_declared() {
    let g = graph(vec![unit("A", &[])]);
    assert_eq!(validate(&g, &"E".to_string()).err(), Some(GraphError::UnknownEntryPoint));
}

#[test]
fn empty_graph_declares_no_entry_point() {
    let g = graph(Vec::new());
    assert_eq!(validate(&g, &"E".to_string()).err(), Some(GraphError::UnknownEntryPoint));
}

#[test]
fn unknown_entry_point_comes_before_every_other_failure() {
    let g = graph(vec![unit("A", &["A", "missing"]), unit("A", &[])]);
    assert_eq!(validate(&g, &"E".to_string()).err(), Some(GraphError::UnknownEntryPoint));
}

#[test]
fn first_dangling_dependency_is_the_one_reported() {
    let g = graph(vec![
        unit("E", &["A"]),
        unit("A", &["E", "lost", "gone"]),
        unit("B", &["nowhere"]),
    ]);
    assert_eq!(
        validate(&g, &"E".to_string()).err(),
        Some(GraphError::DanglingDependency("A".to_string(), "lost".to_string()))
    );
}

#[test]
fn dangling_dependency_of_a_unit_the_entry_point_does_not_need_is_reported_too() {
    let g = graph(vec![unit("E", &[]), unit("stray", &["lost"])]);
    assert_eq!(
        validate(&g, &"E".to_string()).err(),
        Some(GraphError::DanglingDependency("stray".to_string(), "lost".to_string()))
    );
}

#[test]
fn dangling_dependency_comes_before_a_cycle() {
    let g = graph(vec![unit("E", &["A"]), unit("A", &["E", "lost"])]);
    assert_eq!(
        validate(&g, &"E".to_string()).err(),
        Some(GraphError::DanglingDependency("A".to_string(), "lost".to_string()))
    );
}

#[test]
fn unit_that_depends_on_itself_is_a_cycle() {
    let g = graph(vec![unit("E", &["E"])]);
    assert_eq!(
        validate(&g, &"E".to_string()).err(),
        Some(GraphError::CyclicDependency(names(&["E", "E"])))
    );
}

#[test]
fn cycle_behind_the_entry_point_starts_where_the_walk_comes_back() {
    let g = graph(vec![
        unit("E", &["A"]),
        unit("A", &["B"]),
        unit("B", &["C"]),
        unit("C", &["A"]),
    ]);
    assert_eq!(
        validate(&g, &"E".to_string()).err(),
        Some(GraphError::CyclicDependency(names(&["A", "B", "C", "A"])))
    );
}

#[test]
fn cycle_that_the_entry_point_does_not_reach_is_found_too() {
    let g = graph(vec![unit("E", &[]), unit("X", &["Y"]), unit("Y", &["X"])]);
    assert_eq!(
        validate(&g, &"E".to_string()).err(),
        Some(GraphError::CyclicDependency(names(&["X", "Y", "X"])))
    );
}

#[test]
fn first_cycle_in_declaration_order_of_dependencies_is_the_one_reported() {
    let g = graph(vec![
        unit("E", &["A", "B"]),
        unit("A", &["leaf"]),
        unit("B", &["E"]),
        unit("leaf", &[]),
        unit("P", &["Q"]),
        unit("Q", &["P"]),
    ]);
    assert_eq!(
        validate(&g, &"E".to_string()).err(),
        Some(GraphError::CyclicDependency(names(&["E", "B", "E"])))
    );
}

#[test]
fn diamond_is_no_cycle() {
    let g = graph(vec![
        unit("E", &["L", "R"]),
        unit("L", &["base"]),
        unit("R", &["base"]),
        unit("base", &[]),
    ]);
    assert!(validate(&g, &"E".to_string()).is_ok());
}

#[test]
fn long_chain_is_walked_without_trouble() {
    let mut units = Vec::new();
    for i in 0..3000 {
        let next = format!("u{}", i + 1);
        units.push(unit(&format!("u{}", i), &[next.as_str()]));
    }
    units.push(unit("u3000", &[]));
    let g = graph(units);
    assert!(validate(&g, &"u0".to_string()).is_ok());
}

#[test]
fn second_declaration_with_the_same_dependencies_is_dropped() {
    let g = graph(vec![unit("E", &["A"]), unit("A", &[]), unit("E", &["A"])]);
    let validated = validate(&g, &"E".to_string()).unwrap();
    assert_eq!(validated.units(), &vec![unit("E", &["A"]), unit("A", &[])]);
}

#[test]
fn second_declaration_with_other_dependencies_is_inconsistent() {
    let g = graph(vec![
        unit("E", &["A", "B"]),
        unit("A", &[]),
        unit("B", &[]),
        unit("B", &["A"]),
        unit("E", &["B", "A"]),
    ]);
    assert_eq!(
        validate(&g, &"E".to_string()).err(),
        Some(GraphError::InconsistentDefinition("B".to_string()))
    );
}

#[test]
fn order_of_dependencies_is_part_of_a_declaration() {
    let g = graph(vec![
        unit("E", &["A", "B"]),
        unit("A", &[]),
        unit("B", &[]),
        unit("E", &["B", "A"]),
    ]);
    assert_eq!(
        validate(&g, &"E".to_string()).err(),
        Some(GraphError::InconsistentDefinition("E".to_string()))
    );
}

#[test]
fn cycle_comes_before_an_inconsistent_definition() {
    let g = graph(vec![unit("E", &["A"]), unit("A", &["E"]), unit("A", &[])]);
    assert_eq!(
        validate(&g, &"E".to_string()).err(),
        Some(GraphError::CyclicDependency(names(&["E", "A", "E"])))
    );
}

#[test]
fn find_unit_gives_the_first_declaration() {
    let units = vec![unit("A", &[]), unit("B", &[]), unit("A", &["B"])];
    assert_eq!(find_unit(&units, &"A".to_string()), Some(0));
    assert_eq!(find_unit(&units, &"B".to_string()), Some(1));
    assert_eq!(find_unit(&units, &"C".to_string()), None);
    assert_eq!(find_unit(&Vec::new(), &"A".to_string()), None);
}

#[test]
fn same_identities_compares_place_by_place() {
    assert!(same_identities(&names(&[]), &names(&[])));
    assert!(same_identities(&names(&["a", "b"]), &names(&["a", "b"])));
    assert!(!same_identities(&names(&["a", "b"]), &names(&["b", "a"])));
    assert!(!same_identities(&names(&["a"]), &names(&["a", "a"])));
    assert!(!same_identities(&names(&["a", "b"]), &names(&["a", "c"])));
}

#[test]
fn every_graph_error_has_its_words() {
    assert_eq!(describe(&GraphError::UnknownEntryPoint), "unknown entry point");
    assert_eq!(
        describe(&GraphError::DanglingDependency("app".to_string(), "net".to_string())),
        "dangling dependency: app requires net"
    );
    assert_eq!(
        describe(&GraphError::CyclicDependency(names(&["a", "b", "c", "a"]))),
        "cyclic dependency: a -> b -> c -> a"
    );
    assert_eq!(describe(&GraphError::CyclicDependency(names(&["a"]))), "cyclic dependency: a");
    assert_eq!(describe(&GraphError::CyclicDependency(Vec::new())), "cyclic dependency: ");
    assert_eq!(
        describe(&GraphError::InconsistentDefinition("core".to_string())),
        "inconsistent definition: core"
    );
}

#[test]
fn graph_error_becomes_one_finding_about_no_unit() {
    assert_eq!(
        assemble_graph_failure(&GraphError::InconsistentDefinition("core".to_string())),
        CompileError {
            diagnostics: vec![UnitDiagnostic {
                unit: None,
                severity: Severity::Fatal,
                message: "inconsistent definition: core".to_string(),
                span: None,
            }],
            failed_units: Vec::new(),
        }
    );
}
