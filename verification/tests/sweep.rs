use noir_lib::{
    compile, order, validate, ArtifactEntry, CompilationUnit, CompileError, CompileResult,
    DependencyGraph, GraphError, Severity, UnitArtifact, UnitDiagnostic,
};
use std::cell::RefCell;
use std::collections::{BTreeMap, BTreeSet};

struct Dice(u64);

impl Dice {
    fn roll(&mut self, sides: u64) -> u64 {
        self.0 = self.0.wrapping_mul(6364136223846793005).wrapping_add(1442695040888963407);
        (self.0 >> 33) % sides
    }
}

const NAMES: [&str; 8] = ["a", "ab", "b", "c", "ca", "d", "e", "z"];

fn random_graph(dice: &mut Dice, allow_back_edges: bool) -> DependencyGraph {
    let n = 1 + dice.roll(7) as usize;
    let mut units = Vec::new();
    for i in 0..n {
        let mut dependencies = Vec::new();
        for j in 0..n {
            let forward = j > i;
            if (forward || allow_back_edges) && dice.roll(4) == 0 {
                dependencies.push(NAMES[j].to_string());
            }
        }
        units.push(CompilationUnit {
            identity: NAMES[i].to_string(),
            source: String::new(),
            dependencies,
            is_contract: None,
        });
    }
    let swaps = dice.roll(4);
    for _ in 0..swaps {
        let x = dice.roll(n as u64) as usize;
        let y = dice.roll(n as u64) as usize;
        units.swap(x, y);
    }
    DependencyGraph { units }
}

fn edges(graph: &DependencyGraph) -> BTreeMap<String, Vec<String>> {
    graph.units.iter().map(|u| (u.identity.clone(), u.dependencies.clone())).collect()
}

fn reached(edges: &BTreeMap<String, Vec<String>>, from: &str) -> BTreeSet<String> {
    let mut seen = BTreeSet::new();
    let mut work = vec![from.to_string()];
    while let Some(id) = work.pop() {
        if seen.insert(id.clone()) {
            for d in &edges[&id] {
                work.push(d.clone());
            }
        }
    }
    seen
}

fn has_cycle(edges: &BTreeMap<String, Vec<String>>) -> bool {
    edges.keys().any(|id| edges[id].iter().any(|d| reached(edges, d).contains(id)))
}

fn least_first(edges: &BTreeMap<String, Vec<String>>, entry: &str) -> Vec<String> {
    let needed = reached(edges, entry);
    let mut placed: Vec<String> = Vec::new();
    while placed.len() < needed.len() {
        let next = needed
            .iter()
            .find(|id| !placed.contains(id) && edges[*id].iter().all(|d| placed.contains(d)))
            .unwrap()
            .clone();
        placed.push(next);
    }
    placed
}

fn artifact_of(identity: &str) -> UnitArtifact {
    UnitArtifact {
        payload: identity.as_bytes().to_vec(),
        exports: Vec::new(),
        advisories: Vec::new(),
    }
}

fn failure_of(identity: &str) -> UnitDiagnostic {
    UnitDiagnostic {
        unit: Some(identity.to_string()),
        severity: Severity::Fatal,
        message: format!("{} does not compile", identity),
        span: None,
    }
}

#[test]
fn acyclic_graphs_are_scheduled_least_identity_first() {
    let mut dice = Dice(7);
    for _ in 0..400 {
        let graph = random_graph(&mut dice, false);
        let edges = edges(&graph);
        for unit in &graph.units {
            let validated = validate(&graph, &unit.identity).unwrap();
            assert_eq!(order(&validated, &unit.identity), least_first(&edges, &unit.identity));
        }
    }
}

#[test]
fn graphs_with_a_cycle_are_rejected_with_a_chain_that_closes() {
    let mut dice = Dice(11);
    let mut cyclic = 0;
    for _ in 0..400 {
        let graph = random_graph(&mut dice, true);
        let edges = edges(&graph);
        let entry = graph.units[0].identity.clone();
        match validate(&graph, &entry) {
            Ok(_) => assert!(!has_cycle(&edges)),
            Err(GraphError::CyclicDependency(path)) => {
                cyclic += 1;
                assert!(has_cycle(&edges));
                assert!(path.len() >= 2);
                assert_eq!(path.first(), path.last());
                for pair in path.windows(2) {
                    assert!(edges[&pair[0]].contains(&pair[1]));
                }
                let inner = &path[..path.len() - 1];
                let distinct: BTreeSet<&String> = inner.iter().collect();
                assert_eq!(distinct.len(), inner.len());
            }
            Err(other) => panic!("{:?}", other),
        }
    }
    assert!(cyclic > 50);
}

#[test]
fn compilation_follows_the_schedule_and_stops_behind_failures() {
    let mut dice = Dice(13);
    for _ in 0..400 {
        let graph = random_graph(&mut dice, false);
        let edges = edges(&graph);
        let entry = graph.units[dice.roll(graph.units.len() as u64) as usize].identity.clone();
        let broken: BTreeSet<String> = graph
            .units
            .iter()
            .filter(|_| dice.roll(5) == 0)
            .map(|u| u.identity.clone())
            .collect();
        let contracts = dice.roll(2) == 1;

        let mut expected_calls: Vec<(String, Vec<String>, bool)> = Vec::new();
        let mut compiled: Vec<String> = Vec::new();
        let mut failed: Vec<String> = Vec::new();
        for id in least_first(&edges, &entry) {
            if edges[&id].iter().all(|d| compiled.contains(d)) {
                expected_calls.push((id.clone(), edges[&id].clone(), contracts && id == entry));
                if broken.contains(&id) {
                    failed.push(id);
                } else {
                    compiled.push(id);
                }
            }
        }
        let expected = if compiled.contains(&entry) {
            compiled.pop();
            Ok(CompileResult {
                artifact: artifact_of(&entry),
                dependencies: compiled
                    .iter()
                    .map(|id| ArtifactEntry { identity: id.clone(), artifact: artifact_of(id) })
                    .collect(),
            })
        } else {
            Err(CompileError {
                diagnostics: failed.iter().map(|id| failure_of(id)).collect(),
                failed_units: failed.clone(),
            })
        };

        let calls: RefCell<Vec<(String, Vec<String>, bool)>> = RefCell::new(Vec::new());
        let result = compile(
            entry.clone(),
            Some(contracts),
            Some(graph),
            |unit: &CompilationUnit, artifacts: &Vec<ArtifactEntry>, flag: bool| {
                for held in artifacts {
                    assert_eq!(held.artifact, artifact_of(&held.identity));
                }
                calls.borrow_mut().push((
                    unit.identity.clone(),
                    artifacts.iter().map(|held| held.identity.clone()).collect(),
                    flag,
                ));
                if broken.contains(&unit.identity) {
                    Err(failure_of(&unit.identity))
                } else {
                    Ok(artifact_of(&unit.identity))
                }
            },
        );
        assert_eq!(*calls.borrow(), expected_calls);
        assert_eq!(result, expected);
    }
}
