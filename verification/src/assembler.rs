//! Turns what a compilation produced into what the caller gets: the entry
//! point's artifact with those of its dependencies, or the findings that
//! stopped it.

use crate::cache::{holds, lookup, slot, CompilationCache};
use crate::model::{
    ArtifactEntryView, CompileError, CompileErrorView, CompileResult, CompileResultView, Id,
    Severity, UnitDiagnostic, UnitDiagnosticView,
};
use crate::validator::{GraphError, GraphErrorView};
use vstd::pervasive::unreached;
use vstd::prelude::*;

verus! {

/// The result for `entry` out of `cache`: its artifact, and every other entry
/// of the cache in the order in which it was written.
pub open spec fn success_of(cache: Seq<ArtifactEntryView>, entry: Id) -> CompileResultView {
    CompileResultView {
        artifact: lookup(cache, entry),
        dependencies: cache.remove(slot(cache, entry)),
    }
}

/// The units that the findings name, in the order of the findings.
pub open spec fn named_units(diagnostics: Seq<UnitDiagnosticView>) -> Seq<Id>
    decreases diagnostics.len(),
{
    if diagnostics.len() == 0 {
        Seq::empty()
    } else {
        match diagnostics.last().unit {
            Some(id) => named_units(diagnostics.drop_last()).push(id),
            None => named_units(diagnostics.drop_last()),
        }
    }
}

/// The error made of `diagnostics`.
pub open spec fn failure_of(diagnostics: Seq<UnitDiagnosticView>) -> CompileErrorView {
    CompileErrorView { diagnostics, failed_units: named_units(diagnostics) }
}

/// The members of `path` with `between` between them.
pub open spec fn joined(path: Seq<Id>, between: Seq<char>) -> Seq<char>
    decreases path.len(),
{
    if path.len() == 0 {
        Seq::empty()
    } else if path.len() == 1 {
        path[0]
    } else {
        joined(path.drop_last(), between) + between + path.last()
    }
}

/// What a graph error says in words.
pub open spec fn graph_error_message(error: GraphErrorView) -> Seq<char> {
    match error {
        GraphErrorView::UnknownEntryPoint => "unknown entry point"@,
        GraphErrorView::DanglingDependency(unit, missing) => "dangling dependency: "@ + unit
            + " requires "@ + missing,
        GraphErrorView::CyclicDependency(path) => "cyclic dependency: "@ + joined(path, " -> "@),
        GraphErrorView::InconsistentDefinition(id) => "inconsistent definition: "@ + id,
    }
}

/// The finding that stands for a graph error: fatal, about no unit, with no span.
pub open spec fn graph_error_finding(error: GraphErrorView) -> UnitDiagnosticView {
    UnitDiagnosticView {
        unit: None,
        severity: Severity::Fatal,
        message: graph_error_message(error),
        span: None,
    }
}

/// The error that a graph error becomes: one finding, no unit.
pub open spec fn graph_failure(error: GraphErrorView) -> CompileErrorView {
    failure_of(seq![graph_error_finding(error)])
}

/// The result for `entry`: its artifact, and with it every other artifact of
/// the cache.
pub fn assemble_success(entry: &String, cache: CompilationCache) -> (r: CompileResult)
    requires
        holds(cache@, entry@),
    ensures
        r@ == success_of(cache@, entry@),
{
    let ghost held = cache@;
    let found = cache.find(entry);
    let mut entries = cache.into_entries();
    match found {
        Some(i) => {
            let own = entries.remove(i);
            proof {
                assert(own@ == held[i as int]);
                assert(entries.deep_view() =~= held.remove(i as int));
            }
            CompileResult { artifact: own.artifact, dependencies: entries }
        },
        None => unreached(),
    }
}

/// The error made of `diagnostics`, which names the units that they name.
pub fn assemble_failure(diagnostics: Vec<UnitDiagnostic>) -> (r: CompileError)
    ensures
        r@ == failure_of(diagnostics.deep_view()),
{
    let n = diagnostics.len();
    let mut failed_units: Vec<String> = Vec::new();
    let mut i: usize = 0;
    assert(diagnostics.deep_view().take(0) =~= Seq::empty());
    while i < n
        invariant
            i <= n,
            n == diagnostics.len(),
            failed_units.deep_view() == named_units(diagnostics.deep_view().take(i as int)),
        decreases n - i,
    {
        let ghost so_far = failed_units.deep_view();
        proof {
            assert(diagnostics.deep_view().take(i + 1).drop_last() =~= diagnostics.deep_view().take(
                i as int,
            ));
            assert(diagnostics.deep_view().take(i + 1).last() == diagnostics@[i as int]@);
        }
        match &diagnostics[i].unit {
            Some(id) => {
                failed_units.push(id.clone());
                assert(failed_units.deep_view() =~= so_far.push(id@));
            },
            None => {},
        }
        i += 1;
    }
    assert(diagnostics.deep_view().take(n as int) =~= diagnostics.deep_view());
    CompileError { diagnostics, failed_units }
}

/// What `error` says in words.
pub fn describe(error: &GraphError) -> (r: String)
    ensures
        r@ == graph_error_message(error@),
{
    match error {
        GraphError::UnknownEntryPoint => String::from_str("unknown entry point"),
        GraphError::DanglingDependency(unit, missing) => {
            let mut text = String::from_str("dangling dependency: ");
            text.append(unit.as_str());
            text.append(" requires ");
            text.append(missing.as_str());
            text
        },
        GraphError::CyclicDependency(path) => {
            let mut text = String::from_str("cyclic dependency: ");
            let n = path.len();
            let mut i: usize = 0;
            assert(path.deep_view().take(0) =~= Seq::empty());
            while i < n
                invariant
                    i <= n,
                    n == path.len(),
                    text@ == "cyclic dependency: "@ + joined(
                        path.deep_view().take(i as int),
                        " -> "@,
                    ),
                decreases n - i,
            {
                proof {
                    assert(path.deep_view().take(i + 1).drop_last() =~= path.deep_view().take(
                        i as int,
                    ));
                    assert(path.deep_view().take(i + 1).last() == path@[i as int]@);
                }
                if i > 0 {
                    text.append(" -> ");
                }
                text.append(path[i].as_str());
                proof {
                    let head = "cyclic dependency: "@;
                    let before = joined(path.deep_view().take(i as int), " -> "@);
                    if i > 0 {
                        assert(text@ =~= head + (before + " -> "@ + path@[i as int]@));
                    } else {
                        assert(before =~= Seq::empty());
                        assert(text@ =~= head + path@[i as int]@);
                    }
                }
                i += 1;
            }
            assert(path.deep_view().take(n as int) =~= path.deep_view());
            text
        },
        GraphError::InconsistentDefinition(id) => {
            let mut text = String::from_str("inconsistent definition: ");
            text.append(id.as_str());
            text
        },
    }
}

/// The error that `error` becomes for the caller: one fatal finding about no
/// unit, which says in words what is wrong with the graph.
pub fn assemble_graph_failure(error: &GraphError) -> (r: CompileError)
    ensures
        r@ == graph_failure(error@),
{
    let finding = UnitDiagnostic {
        unit: None,
        severity: Severity::Fatal,
        message: describe(error),
        span: None,
    };
    let mut diagnostics: Vec<UnitDiagnostic> = Vec::new();
    diagnostics.push(finding);
    proof {
        assert(diagnostics.deep_view() =~= seq![graph_error_finding(error@)]);
    }
    assemble_failure(diagnostics)
}

} // verus!
