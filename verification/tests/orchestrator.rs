use noir_lib::assembler::{assemble_failure, assemble_success};
use noir_lib::cache::CompilationCache;
use noir_lib::model::{
    ArtifactEntry, CompilationUnit, CompileError, CompileResult, DependencyGraph, Severity,
    SourceSpan, UnitArtifact, UnitDiagnostic,
};
use noir_lib::orchestrator::{run, Pass};
use noir_lib::scheduler::order;
use noir_lib::validator::{validate, ValidatedGraph};
use std::cell::RefCell;

fn unit(identity: &str, dependencies: &[&str]) -> CompilationUnit {
    CompilationUnit {
        identity: identity.to_string(),
        source: String::new(),
        dependencies: dependencies.iter().map(|d| d.to_string()).collect(),
        is_contract: None,
    }
}

fn validated(entry: &str, units: Vec<CompilationUnit>) -> ValidatedGraph {
    validate(&DependencyGraph { units }, &entry.to_string()).unwrap()
}

fn artifact_of(identity: &str) -> UnitArtifact {
    UnitArtifact {
        payload: identity.as_bytes().to_vec(),
        exports: vec![identity.to_uppercase()],
        advisories: Vec::new(),
    }
}

fn entry(identity: &str) -> ArtifactEntry {
    ArtifactEntry { identity: identity.to_string(), artifact: artifact_of(identity) }
}

fn finding(unit: Option<&str>, severity: Severity, message: &str) -> UnitDiagnostic {
    UnitDiagnostic {
        unit: unit.map(|u| u.to_string()),
        severity,
        message: message.to_string(),
        span: None,
    }
}

#[test]
fn run_compiles_the_schedule_in_order_and_assembles_the_result() {
    let g = validated("E", vec![unit("E", &["A", "B"]), unit("A", &["B"]), unit("B", &[])]);
    let schedule = order(&g, &"E".to_string());
    let calls: RefCell<Vec<String>> = RefCell::new(Vec::new());
    let result = run(
        &schedule,
        &g,
        false,
        |unit: &CompilationUnit, _artifacts: &Vec<ArtifactEntry>, _contracts: bool| {
            calls.borrow_mut().push(unit.identity.clone());
            Ok(artifact_of(&unit.identity))
        },
    );
    assert_eq!(*calls.borrow(), vec!["B".to_string(), "A".to_string(), "E".to_string()]);
    assert_eq!(
        result,
        Ok(CompileResult {
            artifact: artifact_of("E"),
            dependencies: vec![entry("B"), entry("A")],
        })
    );
}

#[test]
fn run_reports_a_failure_of_the_entry_point_itself() {
    let g = validated("E", vec![unit("E", &["A"]), unit("A", &[])]);
    let schedule = order(&g, &"E".to_string());
    let result = run(
        &schedule,
        &g,
        true,
        |unit: &CompilationUnit, artifacts: &Vec<ArtifactEntry>, contracts: bool| {
            if unit.identity == "E" {
                assert_eq!(artifacts, &vec![entry("A")]);
                assert!(contracts);
                Err(UnitDiagnostic {
                    unit: Some("somewhere".to_string()),
                    severity: Severity::Fatal,
                    message: "type mismatch".to_string(),
                    span: Some(SourceSpan { start: 10, end: 12 }),
                })
            } else {
                assert!(!contracts);
                Ok(artifact_of(&unit.identity))
            }
        },
    );
    assert_eq!(
        result,
        Err(CompileError {
            diagnostics: vec![UnitDiagnostic {
                unit: Some("E".to_string()),
                severity: Severity::Fatal,
                message: "type mismatch".to_string(),
                span: Some(SourceSpan { start: 10, end: 12 }),
            }],
            failed_units: vec!["E".to_string()],
        })
    );
}

#[test]
fn run_passes_over_every_unit_behind_a_failure_and_goes_on_with_the_rest() {
    let g = validated(
        "top",
        vec![
            unit("top", &["left", "right"]),
            unit("left", &["bad"]),
            unit("right", &["good", "worse"]),
            unit("bad", &[]),
            unit("good", &[]),
            unit("worse", &[]),
        ],
    );
    let schedule = order(&g, &"top".to_string());
    assert_eq!(
        schedule,
        vec!["bad", "good", "left", "worse", "right", "top"]
            .into_iter()
            .map(|s| s.to_string())
            .collect::<Vec<String>>()
    );
    let calls: RefCell<Vec<String>> = RefCell::new(Vec::new());
    let result = run(
        &schedule,
        &g,
        false,
        |unit: &CompilationUnit, _artifacts: &Vec<ArtifactEntry>, _contracts: bool| {
            calls.borrow_mut().push(unit.identity.clone());
            if unit.identity == "bad" || unit.identity == "worse" {
                Err(finding(None, Severity::Fatal, &format!("{} is broken", unit.identity)))
            } else {
                Ok(artifact_of(&unit.identity))
            }
        },
    );
    assert_eq!(
        *calls.borrow(),
        vec!["bad".to_string(), "good".to_string(), "worse".to_string()]
    );
    assert_eq!(
        result,
        Err(CompileError {
            diagnostics: vec![
                finding(Some("bad"), Severity::Fatal, "bad is broken"),
                finding(Some("worse"), Severity::Fatal, "worse is broken"),
            ],
            failed_units: vec!["bad".to_string(), "worse".to_string()],
        })
    );
}

#[test]
fn cache_writes_an_identity_once() {
    let mut cache = CompilationCache::new();
    assert_eq!(cache.len(), 0);
    assert!(!cache.contains(&"A".to_string()));
    assert_eq!(cache.get(&"A".to_string()), None);
    assert!(cache.insert("A".to_string(), artifact_of("A")));
    assert!(cache.insert("B".to_string(), artifact_of("B")));
    assert!(!cache.insert("A".to_string(), artifact_of("other")));
    assert_eq!(cache.len(), 2);
    assert!(cache.contains(&"A".to_string()));
    assert_eq!(cache.get(&"A".to_string()), Some(&artifact_of("A")));
    assert_eq!(cache.get(&"B".to_string()), Some(&artifact_of("B")));
    assert_eq!(cache.find(&"B".to_string()), Some(1));
    assert_eq!(cache.find(&"C".to_string()), None);
    assert_eq!(cache.into_entries(), vec![entry("A"), entry("B")]);
}

#[test]
fn cache_gathers_entries_in_the_order_asked() {
    let mut cache = CompilationCache::new();
    cache.insert("A".to_string(), artifact_of("A"));
    cache.insert("B".to_string(), artifact_of("B"));
    cache.insert("C".to_string(), artifact_of("C"));
    let wanted = |list: &[&str]| list.iter().map(|s| s.to_string()).collect::<Vec<String>>();
    assert_eq!(cache.gather(&wanted(&[])), Some(Vec::new()));
    assert_eq!(cache.gather(&wanted(&["C", "A"])), Some(vec![entry("C"), entry("A")]));
    assert_eq!(cache.gather(&wanted(&["B", "B"])), Some(vec![entry("B"), entry("B")]));
    assert_eq!(cache.gather(&wanted(&["A", "D"])), None);
    assert_eq!(cache.gather(&wanted(&["D"])), None);
}

#[test]
fn assemble_success_takes_the_entry_point_out_of_the_cache() {
    let mut cache = CompilationCache::new();
    cache.insert("A".to_string(), artifact_of("A"));
    cache.insert("E".to_string(), artifact_of("E"));
    cache.insert("B".to_string(), artifact_of("B"));
    assert_eq!(
        assemble_success(&"E".to_string(), cache),
        CompileResult { artifact: artifact_of("E"), dependencies: vec![entry("A"), entry("B")] }
    );
}

#[test]
fn assemble_failure_names_the_units_of_the_findings() {
    let findings = vec![
        finding(Some("A"), Severity::Fatal, "first"),
        finding(None, Severity::Fatal, "second"),
        finding(Some("B"), Severity::Advisory, "third"),
        finding(Some("A"), Severity::Fatal, "fourth"),
    ];
    assert_eq!(
        assemble_failure(findings.clone()),
        CompileError {
            diagnostics: findings,
            failed_units: vec!["A".to_string(), "B".to_string(), "A".to_string()],
        }
    );
    assert_eq!(
        assemble_failure(Vec::new()),
        CompileError { diagnostics: Vec::new(), failed_units: Vec::new() }
    );
}

#[test]
fn copies_are_equal_to_what_they_copy() {
    let artifact = UnitArtifact {
        payload: vec![0, 255, 7],
        exports: vec!["f".to_string(), "g".to_string()],
        advisories: vec![UnitDiagnostic {
            unit: Some("u".to_string()),
            severity: Severity::Advisory,
            message: "shadowed".to_string(),
            span: Some(SourceSpan { start: 1, end: 2 }),
        }],
    };
    assert_eq!(artifact.clone(), artifact);
    let held = ArtifactEntry { identity: "u".to_string(), artifact };
    assert_eq!(held.clone(), held);
    let declared = CompilationUnit {
        identity: "u".to_string(),
        source: "path/u".to_string(),
        dependencies: vec!["v".to_string()],
        is_contract: Some(false),
    };
    assert_eq!(declared.clone(), declared);
}

#[test]
fn pass_driven_by_hand_gives_what_run_gives() {
    let g = validated("E", vec![unit("E", &["A", "B"]), unit("A", &["B"]), unit("B", &[])]);
    let schedule = order(&g, &"E".to_string());
    let mut pass = Pass::new();
    let mut handed: Vec<(String, Vec<ArtifactEntry>)> = Vec::new();
    for id in schedule.iter() {
        let unit = g.units().iter().find(|u| &u.identity == id).unwrap();
        if let Some(artifacts) = pass.artifacts_for(unit) {
            handed.push((id.clone(), artifacts));
            pass.record(id, Ok(artifact_of(id)));
        }
    }
    assert_eq!(
        handed,
        vec![
            ("B".to_string(), Vec::new()),
            ("A".to_string(), vec![entry("B")]),
            ("E".to_string(), vec![entry("A"), entry("B")]),
        ]
    );
    assert_eq!(
        pass.finish(&"E".to_string()),
        Ok(CompileResult {
            artifact: artifact_of("E"),
            dependencies: vec![entry("B"), entry("A")],
        })
    );
}

#[test]
fn pass_records_a_failure_and_blocks_what_depends_on_it() {
    let mut pass = Pass::new();
    let low = unit("low", &[]);
    let high = unit("high", &["low"]);
    assert_eq!(pass.artifacts_for(&low), Some(Vec::new()));
    pass.record(
        &"low".to_string(),
        Err(UnitDiagnostic {
            unit: None,
            severity: Severity::Advisory,
            message: "no such file".to_string(),
            span: Some(SourceSpan { start: 0, end: 0 }),
        }),
    );
    assert_eq!(pass.artifacts_for(&high), None);
    assert_eq!(pass.cache.len(), 0);
    assert_eq!(
        pass.findings,
        vec![UnitDiagnostic {
            unit: Some("low".to_string()),
            severity: Severity::Fatal,
            message: "no such file".to_string(),
            span: Some(SourceSpan { start: 0, end: 0 }),
        }]
    );
    assert_eq!(
        pass.finish(&"high".to_string()),
        Err(CompileError {
            diagnostics: vec![UnitDiagnostic {
                unit: Some("low".to_string()),
                severity: Severity::Fatal,
                message: "no such file".to_string(),
                span: Some(SourceSpan { start: 0, end: 0 }),
            }],
            failed_units: vec!["low".to_string()],
        })
    );
}

#[test]
fn pass_keeps_the_first_artifact_of_a_unit() {
    let mut pass = Pass::new();
    pass.record(&"u".to_string(), Ok(artifact_of("first")));
    pass.record(&"u".to_string(), Ok(artifact_of("second")));
    assert_eq!(pass.cache.len(), 1);
    assert_eq!(pass.cache.get(&"u".to_string()), Some(&artifact_of("first")));
    assert_eq!(
        pass.finish(&"u".to_string()),
        Ok(CompileResult { artifact: artifact_of("first"), dependencies: Vec::new() })
    );
}

#[test]
fn pass_that_compiled_nothing_ends_in_an_error_without_findings() {
    let pass = Pass::new();
    assert_eq!(
        pass.finish(&"E".to_string()),
        Err(CompileError { diagnostics: Vec::new(), failed_units: Vec::new() })
    );
}
