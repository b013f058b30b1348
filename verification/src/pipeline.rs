//! The one operation that callers use: compile an entry point, with the
//! graph around it if there is one.

use crate::assembler::{assemble_graph_failure, graph_failure};
use crate::graph::{
    acyclic, closed, consistent, declares, first_declarations, lemma_first_declarations,
};
use crate::model::{
    outcome_view, ArtifactEntry, CompilationUnit, CompilationUnitView, CompileError,
    CompileErrorView, CompileResult, CompileResultView, DependencyGraph, GraphView, Id,
    UnitArtifact, UnitDiagnostic,
};
use crate::orchestrator::{run, run_post};
use crate::scheduler::{is_schedule, least_first, order};
use crate::validator::{validate, validation, GraphErrorView};
use vstd::prelude::*;

verus! {

/// What a compilation is asked to do, with every choice made.
#[derive(Debug, PartialEq, Eq)]
pub struct CompileOptions {
    /// The identity of the unit to compile.
    pub entry_point: String,
    /// Whether the entry point is compiled as a contract. Off unless asked for.
    pub contracts: bool,
    /// The units around the entry point. Without a graph, the entry point
    /// alone, with no dependencies.
    pub dependency_graph: DependencyGraph,
}

pub struct CompileOptionsView {
    pub entry_point: Id,
    pub contracts: bool,
    pub dependency_graph: GraphView,
}

impl View for CompileOptions {
    type V = CompileOptionsView;

    open spec fn view(&self) -> CompileOptionsView {
        CompileOptionsView {
            entry_point: self.entry_point@,
            contracts: self.contracts,
            dependency_graph: self.dependency_graph@,
        }
    }
}

/// The graph that stands for an entry point given without one: the entry
/// point alone, found where its identity says, with no dependencies.
pub open spec fn single_unit(entry: Id) -> GraphView {
    seq![
        CompilationUnitView {
            identity: entry,
            source: entry,
            dependencies: Seq::empty(),
            is_contract: None,
        },
    ]
}

/// The options that a request stands for.
pub open spec fn options_of(
    entry: Id,
    contracts: Option<bool>,
    graph: Option<GraphView>,
) -> CompileOptionsView {
    CompileOptionsView {
        entry_point: entry,
        contracts: match contracts {
            Some(flag) => flag,
            None => false,
        },
        dependency_graph: match graph {
            Some(g) => g,
            None => single_unit(entry),
        },
    }
}

/// The view of a graph that may be missing.
pub open spec fn graph_view(graph: Option<DependencyGraph>) -> Option<GraphView> {
    match graph {
        Some(g) => Some(g@),
        None => None,
    }
}

/// The graph passes every check for `entry`.
pub open spec fn accepted(g: GraphView, entry: Id) -> bool {
    &&& declares(g, entry)
    &&& closed(g)
    &&& acyclic(g)
    &&& consistent(g)
}

/// What `compile` owes. On a graph that fails a check, the error that stands
/// for the first failure, whatever the unit compiler is. On a graph that
/// passes, the outcome of a full pass with `f` over the schedule of the entry
/// point.
pub open spec fn compile_post<F: Fn(&CompilationUnit, &Vec<ArtifactEntry>, bool) -> Result<
    UnitArtifact,
    UnitDiagnostic,
>>(f: F, options: CompileOptionsView, r: Result<CompileResultView, CompileErrorView>) -> bool {
    let g = options.dependency_graph;
    let entry = options.entry_point;
    if accepted(g, entry) {
        exists|ord: Seq<Id>|
            {
                &&& #[trigger] is_schedule(first_declarations(g), entry, ord)
                &&& least_first(first_declarations(g), entry, ord)
                &&& run_post(f, first_declarations(g), ord, options.contracts, r)
            }
    } else {
        exists|error: GraphErrorView| #[trigger]
            validation(g, entry, Err(error)) && r == Err::<CompileResultView, CompileErrorView>(
                graph_failure(error),
            )
    }
}

impl CompileOptions {
    /// The options that a request stands for: no word on contracts means no
    /// contracts, and no graph means the entry point alone.
    pub fn new(
        entry_point: String,
        contracts: Option<bool>,
        dependency_graph: Option<DependencyGraph>,
    ) -> (r: Self)
        ensures
            r@ == options_of(entry_point@, contracts, graph_view(dependency_graph)),
    {
        let contracts = match contracts {
            Some(flag) => flag,
            None => false,
        };
        let dependency_graph = match dependency_graph {
            Some(graph) => graph,
            None => {
                let unit = CompilationUnit {
                    identity: entry_point.clone(),
                    source: entry_point.clone(),
                    dependencies: Vec::new(),
                    is_contract: None,
                };
                let mut units: Vec<CompilationUnit> = Vec::new();
                units.push(unit);
                proof {
                    assert(unit@.dependencies =~= Seq::empty());
                    assert(units.deep_view() =~= single_unit(entry_point@));
                }
                DependencyGraph { units }
            },
        };
        CompileOptions { entry_point, contracts, dependency_graph }
    }
}

/// Compiles the entry point of `options` with `compile_unit`: validates the
/// graph, schedules what the entry point needs, and runs the schedule.
pub fn compile_with<F: Fn(&CompilationUnit, &Vec<ArtifactEntry>, bool) -> Result<
    UnitArtifact,
    UnitDiagnostic,
>>(options: &CompileOptions, compile_unit: F) -> (r: Result<CompileResult, CompileError>)
    requires
        forall|unit: &CompilationUnit, artifacts: &Vec<ArtifactEntry>, flag: bool|
            call_requires(compile_unit, (unit, artifacts, flag)),
    ensures
        compile_post(compile_unit, options@, outcome_view(r)),
{
    match validate(&options.dependency_graph, &options.entry_point) {
        Err(error) => {
            let failure = assemble_graph_failure(&error);
            proof {
                assert(validation(options@.dependency_graph, options@.entry_point, Err(error@)));
            }
            Err(failure)
        },
        Ok(graph) => {
            let schedule = order(&graph, &options.entry_point);
            proof {
                lemma_first_declarations(options@.dependency_graph, options@.entry_point);
                assert(is_schedule(graph@, options@.entry_point, schedule.deep_view()));
            }
            run(&schedule, &graph, options.contracts, compile_unit)
        },
    }
}

/// Compiles `entry_point` with `compile_unit`. Without `contracts` the entry
/// point is not compiled as a contract; without `dependency_graph` it is
/// compiled alone.
pub fn compile<F: Fn(&CompilationUnit, &Vec<ArtifactEntry>, bool) -> Result<
    UnitArtifact,
    UnitDiagnostic,
>>(
    entry_point: String,
    contracts: Option<bool>,
    dependency_graph: Option<DependencyGraph>,
    compile_unit: F,
) -> (r: Result<CompileResult, CompileError>)
    requires
        forall|unit: &CompilationUnit, artifacts: &Vec<ArtifactEntry>, flag: bool|
            call_requires(compile_unit, (unit, artifacts, flag)),
    ensures
        compile_post(
            compile_unit,
            options_of(entry_point@, contracts, graph_view(dependency_graph)),
            outcome_view(r),
        ),
{
    let options = CompileOptions::new(entry_point, contracts, dependency_graph);
    compile_with(&options, compile_unit)
}

} // verus!
