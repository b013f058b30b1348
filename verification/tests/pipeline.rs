use noir_lib::{
    compile, compile_with, validate, ArtifactEntry, CompilationUnit, CompileError,
    CompileOptions, CompileResult, DependencyGraph, GraphError, Severity, SourceSpan,
    UnitArtifact, UnitDiagnostic,
};
use std::cell::RefCell;

fn unit(identity: &str, dependencies: &[&str]) -> CompilationUnit {
    CompilationUnit {
        identity: identity.to_string(),
        source: format!("src/{}.nr", identity),
        dependencies: dependencies.iter().map(|d| d.to_string()).collect(),
        is_contract: None,
    }
}

fn graph(units: Vec<CompilationUnit>) -> DependencyGraph {
    DependencyGraph { units }
}

fn artifact_of(identity: &str) -> UnitArtifact {
    UnitArtifact {
        payload: identity.as_bytes().to_vec(),
        exports: vec![format!("{}::main", identity)],
        advisories: Vec::new(),
    }
}

fn failure_of(identity: &str) -> UnitDiagnostic {
    UnitDiagnostic {
        unit: Some(identity.to_string()),
        severity: Severity::Fatal,
        message: format!("cannot compile {}", identity),
        span: Some(SourceSpan { start: 3, end: 9 }),
    }
}

fn entry(identity: &str) -> ArtifactEntry {
    ArtifactEntry { identity: identity.to_string(), artifact: artifact_of(identity) }
}

fn always_succeeds(
    unit: &CompilationUnit,
    _artifacts: &Vec<ArtifactEntry>,
    _contracts: bool,
) -> Result<UnitArtifact, UnitDiagnostic> {
    Ok(artifact_of(&unit.identity))
}

#[test]
fn single_unit_graph_yields_its_artifact_and_no_dependencies() {
    let result = compile(
        "E".to_string(),
        None,
        Some(graph(vec![unit("E", &[])])),
        always_succeeds,
    );
    assert_eq!(
        result,
        Ok(CompileResult { artifact: artifact_of("E"), dependencies: Vec::new() })
    );
}

#[test]
fn dependency_is_compiled_before_the_entry_point() {
    let calls: RefCell<Vec<String>> = RefCell::new(Vec::new());
    let result = compile(
        "E".to_string(),
        None,
        Some(graph(vec![unit("E", &["A"]), unit("A", &[])])),
        |unit: &CompilationUnit, _artifacts: &Vec<ArtifactEntry>, _contracts: bool| {
            calls.borrow_mut().push(unit.identity.clone());
            Ok(artifact_of(&unit.identity))
        },
    );
    assert_eq!(*calls.borrow(), vec!["A".to_string(), "E".to_string()]);
    assert_eq!(
        result,
        Ok(CompileResult { artifact: artifact_of("E"), dependencies: vec![entry("A")] })
    );
}

#[test]
fn two_unit_cycle_is_reported_from_the_entry_point() {
    let g = graph(vec![unit("E", &["A"]), unit("A", &["E"])]);
    let answer = validate(&g, &"E".to_string());
    assert_eq!(
        answer.err(),
        Some(GraphError::CyclicDependency(vec![
            "E".to_string(),
            "A".to_string(),
            "E".to_string()
        ]))
    );
}

#[test]
fn two_unit_cycle_is_reported_from_the_entry_point_whatever_the_declaration_order() {
    let g = graph(vec![unit("A", &["E"]), unit("E", &["A"])]);
    let answer = validate(&g, &"E".to_string());
    assert_eq!(
        answer.err(),
        Some(GraphError::CyclicDependency(vec![
            "E".to_string(),
            "A".to_string(),
            "E".to_string()
        ]))
    );
}

#[test]
fn cycle_never_reaches_the_unit_compiler() {
    let calls: RefCell<Vec<String>> = RefCell::new(Vec::new());
    let result = compile(
        "E".to_string(),
        None,
        Some(graph(vec![unit("E", &["A"]), unit("A", &["E"])])),
        |unit: &CompilationUnit, _artifacts: &Vec<ArtifactEntry>, _contracts: bool| {
            calls.borrow_mut().push(unit.identity.clone());
            Ok(artifact_of(&unit.identity))
        },
    );
    assert!(calls.borrow().is_empty());
    assert_eq!(
        result,
        Err(CompileError {
            diagnostics: vec![UnitDiagnostic {
                unit: None,
                severity: Severity::Fatal,
                message: "cyclic dependency: E -> A -> E".to_string(),
                span: None,
            }],
            failed_units: Vec::new(),
        })
    );
}

#[test]
fn failed_dependency_fails_the_entry_point_and_keeps_the_sibling_out_of_the_result() {
    let calls: RefCell<Vec<String>> = RefCell::new(Vec::new());
    let result = compile(
        "E".to_string(),
        None,
        Some(graph(vec![unit("E", &["A", "B"]), unit("A", &[]), unit("B", &[])])),
        |unit: &CompilationUnit, _artifacts: &Vec<ArtifactEntry>, _contracts: bool| {
            calls.borrow_mut().push(unit.identity.clone());
            if unit.identity == "A" {
                Err(failure_of("A"))
            } else {
                Ok(artifact_of(&unit.identity))
            }
        },
    );
    assert_eq!(*calls.borrow(), vec!["A".to_string(), "B".to_string()]);
    assert_eq!(
        result,
        Err(CompileError {
            diagnostics: vec![failure_of("A")],
            failed_units: vec!["A".to_string()],
        })
    );
}

#[test]
fn omitted_graph_compiles_the_entry_point_alone() {
    let calls: RefCell<Vec<(CompilationUnit, usize, bool)>> = RefCell::new(Vec::new());
    let result = compile(
        "main".to_string(),
        None,
        None,
        |unit: &CompilationUnit, artifacts: &Vec<ArtifactEntry>, contracts: bool| {
            calls.borrow_mut().push((unit.clone(), artifacts.len(), contracts));
            Ok(artifact_of(&unit.identity))
        },
    );
    assert_eq!(
        *calls.borrow(),
        vec![(
            CompilationUnit {
                identity: "main".to_string(),
                source: "main".to_string(),
                dependencies: Vec::new(),
                is_contract: None,
            },
            0,
            false
        )]
    );
    assert_eq!(
        result,
        Ok(CompileResult { artifact: artifact_of("main"), dependencies: Vec::new() })
    );
}

#[test]
fn omitted_graph_fails_when_the_entry_point_fails() {
    let result = compile(
        "main".to_string(),
        None,
        None,
        |_unit: &CompilationUnit, _artifacts: &Vec<ArtifactEntry>, _contracts: bool| {
            Err(failure_of("main"))
        },
    );
    assert_eq!(
        result,
        Err(CompileError {
            diagnostics: vec![failure_of("main")],
            failed_units: vec!["main".to_string()],
        })
    );
}

#[test]
fn compiling_twice_with_one_compiler_gives_one_result() {
    let units = || {
        graph(vec![
            unit("app", &["net", "fmt"]),
            unit("net", &["core"]),
            unit("fmt", &["core"]),
            unit("core", &[]),
            unit("unused", &["core"]),
        ])
    };
    let first = compile("app".to_string(), Some(true), Some(units()), always_succeeds);
    let second = compile("app".to_string(), Some(true), Some(units()), always_succeeds);
    assert!(first.is_ok());
    assert_eq!(first, second);
}

#[test]
fn dangling_dependency_is_reported_before_any_compilation() {
    let calls: RefCell<Vec<String>> = RefCell::new(Vec::new());
    let result = compile(
        "E".to_string(),
        None,
        Some(graph(vec![unit("E", &["A", "ghost"]), unit("A", &["phantom"])])),
        |unit: &CompilationUnit, _artifacts: &Vec<ArtifactEntry>, _contracts: bool| {
            calls.borrow_mut().push(unit.identity.clone());
            Ok(artifact_of(&unit.identity))
        },
    );
    assert!(calls.borrow().is_empty());
    assert_eq!(
        result,
        Err(CompileError {
            diagnostics: vec![UnitDiagnostic {
                unit: None,
                severity: Severity::Fatal,
                message: "dangling dependency: E requires ghost".to_string(),
                span: None,
            }],
            failed_units: Vec::new(),
        })
    );
}

#[test]
fn dependents_of_a_failed_unit_are_passed_over() {
    let calls: RefCell<Vec<String>> = RefCell::new(Vec::new());
    let result = compile(
        "E".to_string(),
        None,
        Some(graph(vec![
            unit("E", &["B", "C"]),
            unit("B", &["A"]),
            unit("A", &[]),
            unit("C", &[]),
        ])),
        |unit: &CompilationUnit, _artifacts: &Vec<ArtifactEntry>, _contracts: bool| {
            calls.borrow_mut().push(unit.identity.clone());
            if unit.identity == "A" {
                Err(failure_of("A"))
            } else {
                Ok(artifact_of(&unit.identity))
            }
        },
    );
    assert_eq!(*calls.borrow(), vec!["A".to_string(), "C".to_string()]);
    let error = result.unwrap_err();
    assert_eq!(error.diagnostics, vec![failure_of("A")]);
    assert_eq!(error.failed_units, vec!["A".to_string()]);
}

#[test]
fn units_the_entry_point_does_not_reach_are_never_compiled() {
    let calls: RefCell<Vec<String>> = RefCell::new(Vec::new());
    let result = compile(
        "E".to_string(),
        None,
        Some(graph(vec![
            unit("stray", &["A"]),
            unit("E", &["A"]),
            unit("A", &[]),
            unit("other", &[]),
        ])),
        |unit: &CompilationUnit, _artifacts: &Vec<ArtifactEntry>, _contracts: bool| {
            calls.borrow_mut().push(unit.identity.clone());
            Ok(artifact_of(&unit.identity))
        },
    );
    assert_eq!(*calls.borrow(), vec!["A".to_string(), "E".to_string()]);
    assert_eq!(
        result,
        Ok(CompileResult { artifact: artifact_of("E"), dependencies: vec![entry("A")] })
    );
}

#[test]
fn every_independent_failure_is_reported_in_schedule_order() {
    let result = compile(
        "E".to_string(),
        None,
        Some(graph(vec![
            unit("E", &["Z", "M", "A"]),
            unit("Z", &[]),
            unit("M", &[]),
            unit("A", &[]),
        ])),
        |unit: &CompilationUnit, _artifacts: &Vec<ArtifactEntry>, _contracts: bool| {
            if unit.identity == "M" {
                Ok(artifact_of("M"))
            } else {
                Err(failure_of(&unit.identity))
            }
        },
    );
    assert_eq!(
        result,
        Err(CompileError {
            diagnostics: vec![failure_of("A"), failure_of("Z")],
            failed_units: vec!["A".to_string(), "Z".to_string()],
        })
    );
}

#[test]
fn contracts_flag_goes_to_the_entry_point_only() {
    let calls: RefCell<Vec<(String, bool)>> = RefCell::new(Vec::new());
    let result = compile(
        "E".to_string(),
        Some(true),
        Some(graph(vec![
            CompilationUnit {
                identity: "E".to_string(),
                source: "e".to_string(),
                dependencies: vec!["A".to_string()],
                is_contract: None,
            },
            CompilationUnit {
                identity: "A".to_string(),
                source: "a".to_string(),
                dependencies: Vec::new(),
                is_contract: Some(true),
            },
        ])),
        |unit: &CompilationUnit, _artifacts: &Vec<ArtifactEntry>, contracts: bool| {
            calls.borrow_mut().push((unit.identity.clone(), contracts));
            Ok(artifact_of(&unit.identity))
        },
    );
    assert!(result.is_ok());
    assert_eq!(
        *calls.borrow(),
        vec![("A".to_string(), false), ("E".to_string(), true)]
    );
}

#[test]
fn contracts_flag_is_off_when_not_asked_for() {
    let calls: RefCell<Vec<(String, bool)>> = RefCell::new(Vec::new());
    let result = compile(
        "E".to_string(),
        Some(false),
        Some(graph(vec![unit("E", &[])])),
        |unit: &CompilationUnit, _artifacts: &Vec<ArtifactEntry>, contracts: bool| {
            calls.borrow_mut().push((unit.identity.clone(), contracts));
            Ok(artifact_of(&unit.identity))
        },
    );
    assert!(result.is_ok());
    assert_eq!(*calls.borrow(), vec![("E".to_string(), false)]);
}

#[test]
fn unit_compiler_gets_the_artifacts_of_direct_dependencies_in_declaration_order() {
    let calls: RefCell<Vec<(String, Vec<ArtifactEntry>)>> = RefCell::new(Vec::new());
    let result = compile(
        "E".to_string(),
        None,
        Some(graph(vec![
            unit("E", &["Y", "X"]),
            unit("X", &["base"]),
            unit("Y", &[]),
            unit("base", &[]),
        ])),
        |unit: &CompilationUnit, artifacts: &Vec<ArtifactEntry>, _contracts: bool| {
            calls.borrow_mut().push((unit.identity.clone(), artifacts.clone()));
            Ok(artifact_of(&unit.identity))
        },
    );
    assert_eq!(
        *calls.borrow(),
        vec![
            ("Y".to_string(), Vec::new()),
            ("base".to_string(), Vec::new()),
            ("X".to_string(), vec![entry("base")]),
            ("E".to_string(), vec![entry("Y"), entry("X")]),
        ]
    );
    assert_eq!(
        result,
        Ok(CompileResult {
            artifact: artifact_of("E"),
            dependencies: vec![entry("Y"), entry("base"), entry("X")],
        })
    );
}

#[test]
fn failure_is_recorded_as_fatal_and_about_the_unit() {
    let result = compile(
        "E".to_string(),
        None,
        Some(graph(vec![unit("E", &[])])),
        |_unit: &CompilationUnit, _artifacts: &Vec<ArtifactEntry>, _contracts: bool| {
            Err(UnitDiagnostic {
                unit: None,
                severity: Severity::Advisory,
                message: "odd".to_string(),
                span: None,
            })
        },
    );
    assert_eq!(
        result,
        Err(CompileError {
            diagnostics: vec![UnitDiagnostic {
                unit: Some("E".to_string()),
                severity: Severity::Fatal,
                message: "odd".to_string(),
                span: None,
            }],
            failed_units: vec!["E".to_string()],
        })
    );
}

#[test]
fn advisories_stay_with_the_artifact() {
    let warned = UnitArtifact {
        payload: vec![1, 2, 3],
        exports: Vec::new(),
        advisories: vec![UnitDiagnostic {
            unit: Some("E".to_string()),
            severity: Severity::Advisory,
            message: "unused variable".to_string(),
            span: Some(SourceSpan { start: 0, end: 4 }),
        }],
    };
    let expected = warned.clone();
    let result = compile(
        "E".to_string(),
        None,
        Some(graph(vec![unit("E", &[])])),
        move |_unit: &CompilationUnit, _artifacts: &Vec<ArtifactEntry>, _contracts: bool| {
            Ok(warned.clone())
        },
    );
    assert_eq!(result, Ok(CompileResult { artifact: expected, dependencies: Vec::new() }));
}

#[test]
fn unknown_entry_point_is_an_error_of_its_own() {
    let result = compile(
        "E".to_string(),
        None,
        Some(graph(vec![unit("A", &["missing"])])),
        always_succeeds,
    );
    assert_eq!(
        result,
        Err(CompileError {
            diagnostics: vec![UnitDiagnostic {
                unit: None,
                severity: Severity::Fatal,
                message: "unknown entry point".to_string(),
                span: None,
            }],
            failed_units: Vec::new(),
        })
    );
}

#[test]
fn options_fill_in_what_the_request_leaves_open() {
    let options = CompileOptions::new("main".to_string(), None, None);
    assert_eq!(
        options,
        CompileOptions {
            entry_point: "main".to_string(),
            contracts: false,
            dependency_graph: graph(vec![CompilationUnit {
                identity: "main".to_string(),
                source: "main".to_string(),
                dependencies: Vec::new(),
                is_contract: None,
            }]),
        }
    );
    let given = CompileOptions::new(
        "E".to_string(),
        Some(true),
        Some(graph(vec![unit("E", &[])])),
    );
    assert!(given.contracts);
    assert_eq!(given.dependency_graph, graph(vec![unit("E", &[])]));
    assert_eq!(
        compile_with(&given, always_succeeds),
        Ok(CompileResult { artifact: artifact_of("E"), dependencies: Vec::new() })
    );
}
