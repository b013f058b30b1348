//! What holds of the library as a whole, proved from the contracts of its parts.

use crate::assembler::{graph_failure, named_units};
use crate::cache::{holds, lemma_slot, lemma_slot_push, slot};
use crate::graph::{
    acyclic, closed, conflict_at, dangling_at, declares, definition, first_conflict_at,
    first_cycle_of, first_dangling_at, first_declarations, is_chain, is_cycle, lemma_position,
    link_at, reaches,
};
use crate::lex::lemma_lex_antisymmetric;
use crate::model::{
    ArtifactEntry, ArtifactEntryView, CompilationUnit, CompileErrorView, CompileResultView,
    GraphView, Id, Severity, UnitArtifact, UnitDiagnostic,
};
use crate::orchestrator::{
    cache_after, deterministic, findings_after, is_pass, lemma_cache_origin,
    lemma_pass_skips_exactly, lemma_prefix, outcome_of, recorded, reply_view, run_post,
    skips_exactly, step_as_owed, steps_of, Invocation, Step,
};
use crate::pipeline::{accepted, compile_post, CompileOptionsView};
use crate::scheduler::{
    is_ordered, is_schedule, least_first, lemma_entry_last, lemma_ordered_once,
    lemma_reached_before, ready,
};
use crate::validator::{validation, GraphErrorView};
use vstd::prelude::*;

verus! {

/// A graph and an entry point have one outcome of validation: whatever
/// `validate` may return for them, it is the same every time.
pub proof fn lemma_validation_unique(
    g: GraphView,
    entry: Id,
    a: Result<GraphView, GraphErrorView>,
    b: Result<GraphView, GraphErrorView>,
)
    requires
        validation(g, entry, a),
        validation(g, entry, b),
    ensures
        a == b,
{
    match (a, b) {
        (
            Err(GraphErrorView::DanglingDependency(u1, m1)),
            Err(GraphErrorView::DanglingDependency(u2, m2)),
        ) => {
            let (i1, k1) = choose|i: int, k: int|
                #[trigger] first_dangling_at(g, i, k) && u1 == g[i].identity && m1
                    == g[i].dependencies[k];
            let (i2, k2) = choose|i: int, k: int|
                #[trigger] first_dangling_at(g, i, k) && u2 == g[i].identity && m2
                    == g[i].dependencies[k];
            assert(dangling_at(g, i1, k1) && dangling_at(g, i2, k2));
        },
        (
            Err(GraphErrorView::InconsistentDefinition(x)),
            Err(GraphErrorView::InconsistentDefinition(y)),
        ) => {
            let i1 = choose|i: int| #[trigger] first_conflict_at(g, i) && x == g[i].identity;
            let i2 = choose|i: int| #[trigger] first_conflict_at(g, i) && y == g[i].identity;
            assert(conflict_at(g, i1) && conflict_at(g, i2));
        },
        (Err(GraphErrorView::DanglingDependency(u, m)), other) => {
            let (i, k) = choose|i: int, k: int|
                #[trigger] first_dangling_at(g, i, k) && u == g[i].identity && m
                    == g[i].dependencies[k];
            assert(dangling_at(g, i, k));
        },
        (other, Err(GraphErrorView::DanglingDependency(u, m))) => {
            let (i, k) = choose|i: int, k: int|
                #[trigger] first_dangling_at(g, i, k) && u == g[i].identity && m
                    == g[i].dependencies[k];
            assert(dangling_at(g, i, k));
        },
        (Err(GraphErrorView::InconsistentDefinition(x)), other) => {
            let i = choose|i: int| #[trigger] first_conflict_at(g, i) && x == g[i].identity;
            assert(conflict_at(g, i));
        },
        (other, Err(GraphErrorView::InconsistentDefinition(x))) => {
            let i = choose|i: int| #[trigger] first_conflict_at(g, i) && x == g[i].identity;
            assert(conflict_at(g, i));
        },
        _ => {},
    }
}

/// Two schedules of one entry point that both take the least identity first
/// agree up to any place that both have.
proof fn lemma_schedules_agree(g: GraphView, entry: Id, a: Seq<Id>, b: Seq<Id>, n: int)
    requires
        is_schedule(g, entry, a),
        least_first(g, entry, a),
        is_schedule(g, entry, b),
        least_first(g, entry, b),
        0 <= n <= a.len(),
        n <= b.len(),
    ensures
        a.take(n) == b.take(n),
    decreases n,
{
    if n > 0 {
        lemma_schedules_agree(g, entry, a, b, n - 1);
        let i = n - 1;
        assert(a.contains(a[i]));
        assert(b.contains(b[i]));
        assert(ready(g, a.take(i), a[i]));
        assert(ready(g, b.take(i), b[i]));
        lemma_lex_antisymmetric(a[i], b[i]);
        assert(a.take(n) =~= a.take(i).push(a[i]));
        assert(b.take(n) =~= b.take(i).push(b[i]));
    } else {
        assert(a.take(0) =~= b.take(0));
    }
}

/// An entry point has one schedule that takes the least identity first.
pub proof fn lemma_schedule_unique(g: GraphView, entry: Id, a: Seq<Id>, b: Seq<Id>)
    requires
        is_schedule(g, entry, a),
        least_first(g, entry, a),
        is_schedule(g, entry, b),
        least_first(g, entry, b),
    ensures
        a == b,
{
    let n = if a.len() <= b.len() {
        a.len() as int
    } else {
        b.len() as int
    };
    lemma_schedules_agree(g, entry, a, b, n);
    if a.len() < b.len() {
        let extra = b[n];
        assert(b.contains(extra));
        assert(a.contains(extra));
        let t = choose|t: int| 0 <= t < a.len() && a[t] == extra;
        assert(a.take(n)[t] == extra);
        assert(ready(g, b.take(n), b[n]));
    }
    if b.len() < a.len() {
        let extra = a[n];
        assert(a.contains(extra));
        assert(b.contains(extra));
        let t = choose|t: int| 0 <= t < b.len() && b[t] == extra;
        assert(b.take(n)[t] == extra);
        assert(ready(g, a.take(n), a[n]));
    }
    assert(a.take(n) =~= a);
    assert(b.take(n) =~= b);
}

/// Two full passes with one deterministic unit compiler take the same steps.
proof fn lemma_passes_agree<F: Fn(&CompilationUnit, &Vec<ArtifactEntry>, bool) -> Result<
    UnitArtifact,
    UnitDiagnostic,
>>(
    f: F,
    g: GraphView,
    ord: Seq<Id>,
    contracts: bool,
    one: Seq<Option<Invocation>>,
    two: Seq<Option<Invocation>>,
    n: int,
)
    requires
        deterministic(f),
        is_pass(f, g, ord, contracts, one),
        is_pass(f, g, ord, contracts, two),
        0 <= n <= ord.len(),
    ensures
        forall|j: int| 0 <= j < n ==> steps_of(one)[j] == steps_of(two)[j],
    decreases n,
{
    if n > 0 {
        lemma_passes_agree(f, g, ord, contracts, one, two, n - 1);
        let i = n - 1;
        lemma_prefix(ord, steps_of(one), steps_of(two), i);
        assert(step_as_owed(f, g, ord, contracts, one, i));
        assert(step_as_owed(f, g, ord, contracts, two, i));
        match (one[i], two[i]) {
            (Some(x), Some(y)) => {
                assert(call_ensures(f, (&x.unit, &x.dependency_artifacts, x.contracts), x.outcome));
                assert(call_ensures(f, (&y.unit, &y.dependency_artifacts, y.contracts), y.outcome));
                assert(reply_view(x.outcome) == reply_view(y.outcome));
            },
            _ => {},
        }
    }
}

/// With a deterministic unit compiler, running one order twice gives one result.
pub proof fn lemma_run_deterministic<F: Fn(&CompilationUnit, &Vec<ArtifactEntry>, bool) -> Result<
    UnitArtifact,
    UnitDiagnostic,
>>(
    f: F,
    g: GraphView,
    ord: Seq<Id>,
    contracts: bool,
    a: Result<CompileResultView, CompileErrorView>,
    b: Result<CompileResultView, CompileErrorView>,
)
    requires
        deterministic(f),
        run_post(f, g, ord, contracts, a),
        run_post(f, g, ord, contracts, b),
    ensures
        a == b,
{
    let one = choose|trace: Seq<Option<Invocation>>| #[trigger]
        is_pass(f, g, ord, contracts, trace) && a == outcome_of(ord, steps_of(trace));
    let two = choose|trace: Seq<Option<Invocation>>| #[trigger]
        is_pass(f, g, ord, contracts, trace) && b == outcome_of(ord, steps_of(trace));
    lemma_passes_agree(f, g, ord, contracts, one, two, ord.len() as int);
    assert(steps_of(one) =~= steps_of(two));
}

/// Compiling one request twice with one deterministic unit compiler gives
/// one result, whether it is a success or an error.
pub proof fn lemma_compile_deterministic<F: Fn(
    &CompilationUnit,
    &Vec<ArtifactEntry>,
    bool,
) -> Result<UnitArtifact, UnitDiagnostic>>(
    f: F,
    options: CompileOptionsView,
    a: Result<CompileResultView, CompileErrorView>,
    b: Result<CompileResultView, CompileErrorView>,
)
    requires
        deterministic(f),
        compile_post(f, options, a),
        compile_post(f, options, b),
    ensures
        a == b,
{
    let g = options.dependency_graph;
    let entry = options.entry_point;
    let u = first_declarations(g);
    if accepted(g, entry) {
        let x = choose|ord: Seq<Id>|
            {
                &&& #[trigger] is_schedule(u, entry, ord)
                &&& least_first(u, entry, ord)
                &&& run_post(f, u, ord, options.contracts, a)
            };
        let y = choose|ord: Seq<Id>|
            {
                &&& #[trigger] is_schedule(u, entry, ord)
                &&& least_first(u, entry, ord)
                &&& run_post(f, u, ord, options.contracts, b)
            };
        lemma_schedule_unique(u, entry, x, y);
        lemma_run_deterministic(f, u, x, options.contracts, a, b);
    } else {
        let x = choose|error: GraphErrorView| #[trigger]
            validation(g, entry, Err(error)) && a == Err::<CompileResultView, CompileErrorView>(
                graph_failure(error),
            );
        let y = choose|error: GraphErrorView| #[trigger]
            validation(g, entry, Err(error)) && b == Err::<CompileResultView, CompileErrorView>(
                graph_failure(error),
            );
        lemma_validation_unique(g, entry, Err(x), Err(y));
    }
}

/// A graph that declares the entry point and leaves no dependency dangling,
/// but has a cycle, is answered with `CyclicDependency`, with the first cycle
/// that the search meets.
pub proof fn lemma_cycle_is_rejected(
    g: GraphView,
    entry: Id,
    answer: Result<GraphView, GraphErrorView>,
)
    requires
        declares(g, entry),
        closed(g),
        !acyclic(g),
        validation(g, entry, answer),
    ensures
        answer matches Err(GraphErrorView::CyclicDependency(path)) && is_cycle(g, path)
            && first_cycle_of(g, entry) == Some(path),
{
    match answer {
        Err(GraphErrorView::DanglingDependency(unit, missing)) => {
            let (i, k) = choose|i: int, k: int|
                #[trigger] first_dangling_at(g, i, k) && unit == g[i].identity && missing
                    == g[i].dependencies[k];
            assert(dangling_at(g, i, k));
        },
        _ => {},
    }
}

/// On a graph that declares the entry point and leaves no dependency
/// dangling, but has a cycle, compilation ends with the error that stands
/// for the first cycle, whatever the unit compiler is: no pass is made, so
/// no unit is handed to it.
pub proof fn lemma_cycle_stops_compilation<F: Fn(
    &CompilationUnit,
    &Vec<ArtifactEntry>,
    bool,
) -> Result<UnitArtifact, UnitDiagnostic>>(
    f: F,
    options: CompileOptionsView,
    r: Result<CompileResultView, CompileErrorView>,
)
    requires
        declares(options.dependency_graph, options.entry_point),
        closed(options.dependency_graph),
        !acyclic(options.dependency_graph),
        compile_post(f, options, r),
    ensures
        first_cycle_of(options.dependency_graph, options.entry_point) matches Some(path)
            && is_cycle(options.dependency_graph, path) && r == Err::<
            CompileResultView,
            CompileErrorView,
        >(graph_failure(GraphErrorView::CyclicDependency(path))),
{
    let g = options.dependency_graph;
    let entry = options.entry_point;
    let error = choose|error: GraphErrorView| #[trigger]
        validation(g, entry, Err(error)) && r == Err::<CompileResultView, CompileErrorView>(
            graph_failure(error),
        );
    lemma_cycle_is_rejected(g, entry, Err(error));
}

/// A graph that declares the entry point but leaves a dependency dangling
/// is answered with `DanglingDependency`, for the first such dependency.
pub proof fn lemma_dangling_is_rejected(
    g: GraphView,
    entry: Id,
    answer: Result<GraphView, GraphErrorView>,
)
    requires
        declares(g, entry),
        !closed(g),
        validation(g, entry, answer),
    ensures
        answer matches Err(GraphErrorView::DanglingDependency(unit, missing)) && exists|
            i: int,
            k: int,
        |
            #[trigger] first_dangling_at(g, i, k) && unit == g[i].identity && missing
                == g[i].dependencies[k],
{
}

/// On a graph that declares the entry point but leaves a dependency
/// dangling, compilation ends with the error that stands for the first such
/// dependency, whatever the unit compiler is: no pass is made, so no unit is
/// handed to it.
pub proof fn lemma_dangling_stops_compilation<F: Fn(
    &CompilationUnit,
    &Vec<ArtifactEntry>,
    bool,
) -> Result<UnitArtifact, UnitDiagnostic>>(
    f: F,
    options: CompileOptionsView,
    r: Result<CompileResultView, CompileErrorView>,
)
    requires
        declares(options.dependency_graph, options.entry_point),
        !closed(options.dependency_graph),
        compile_post(f, options, r),
    ensures
        exists|i: int, k: int|
            #[trigger] first_dangling_at(options.dependency_graph, i, k) && r == Err::<
                CompileResultView,
                CompileErrorView,
            >(
                graph_failure(
                    GraphErrorView::DanglingDependency(
                        options.dependency_graph[i].identity,
                        options.dependency_graph[i].dependencies[k],
                    ),
                ),
            ),
{
    let g = options.dependency_graph;
    let entry = options.entry_point;
    let error = choose|error: GraphErrorView| #[trigger]
        validation(g, entry, Err(error)) && r == Err::<CompileResultView, CompileErrorView>(
            graph_failure(error),
        );
    lemma_dangling_is_rejected(g, entry, Err(error));
    match error {
        GraphErrorView::DanglingDependency(unit, missing) => {
            let (i, k) = choose|i: int, k: int|
                #[trigger] first_dangling_at(g, i, k) && unit == g[i].identity && missing
                    == g[i].dependencies[k];
            assert(first_dangling_at(g, i, k));
        },
        _ => {},
    }
}

/// A schedule that holds a unit is the schedule of a declared entry point.
proof fn lemma_schedule_has_entry(g: GraphView, entry: Id, ord: Seq<Id>)
    requires
        is_schedule(g, entry, ord),
        ord.len() > 0,
    ensures
        declares(g, entry),
{
    assert(ord.contains(ord[0]));
    assert(reaches(g, entry, ord[0]));
}

/// The cache holds the artifact of every unit compiled so far.
pub proof fn lemma_compiled_is_held(ord: Seq<Id>, steps: Seq<Step>, n: int, j: int)
    requires
        0 <= j < n <= ord.len(),
        steps[j] is Compiled,
    ensures
        holds(cache_after(ord, steps, n), ord[j]),
    decreases n,
{
    let before = cache_after(ord, steps, n - 1);
    if j < n - 1 {
        lemma_compiled_is_held(ord, steps, n - 1, j);
    }
    match steps[n - 1] {
        Step::Compiled(artifact) => {
            lemma_slot_push(before, ArtifactEntryView { identity: ord[n - 1], artifact }, ord[j]);
        },
        _ => {},
    }
}

/// The cache never holds an artifact for a unit that was not compiled.
pub proof fn lemma_uncompiled_is_not_held(
    g: GraphView,
    ord: Seq<Id>,
    steps: Seq<Step>,
    n: int,
    j: int,
)
    requires
        is_ordered(g, ord),
        0 <= j < ord.len(),
        0 <= n <= ord.len(),
        !(steps[j] is Compiled),
    ensures
        !holds(cache_after(ord, steps, n), ord[j]),
{
    if holds(cache_after(ord, steps, n), ord[j]) {
        lemma_cache_origin(ord, steps, n, ord[j]);
        let t = choose|t: int| 0 <= t < n && ord[t] == ord[j] && #[trigger] steps[t] is Compiled;
        lemma_ordered_once(g, ord, t, j);
    }
}

/// Along a dependency chain that ends in a unit without an artifact, every
/// unit before the end is passed over.
proof fn lemma_chain_is_skipped(
    g: GraphView,
    ord: Seq<Id>,
    steps: Seq<Step>,
    path: Seq<Id>,
    b: int,
    a: int,
    t: int,
) -> (i: int)
    requires
        is_ordered(g, ord),
        skips_exactly(g, ord, steps),
        is_chain(g, path),
        0 <= b < ord.len(),
        0 <= a < ord.len(),
        ord[b] == path[0],
        ord[a] == path.last(),
        !(steps[a] is Compiled),
        0 <= t < path.len(),
    ensures
        0 <= i < ord.len(),
        ord[i] == path[t],
        !(steps[i] is Compiled),
        t < path.len() - 1 ==> steps[i] is Skipped,
    decreases path.len() - t,
{
    let i = lemma_reached_before(g, ord, path, b, t);
    if t == path.len() - 1 {
        lemma_ordered_once(g, ord, i, a);
    } else {
        let next = lemma_chain_is_skipped(g, ord, steps, path, b, a, t + 1);
        lemma_uncompiled_is_not_held(g, ord, steps, i, next);
        assert(link_at(g, path, t));
        let deps = definition(g, path[t]).dependencies;
        let k = choose|k: int| 0 <= k < deps.len() && deps[k] == path[t + 1];
        assert(!holds(cache_after(ord, steps, i), deps[k]));
    }
    i
}

/// If a unit has no artifact, because it failed or was passed over, every
/// other unit that reaches it is passed over: it is never handed to the
/// unit compiler, and the cache never holds an artifact for it.
pub proof fn lemma_failure_blocks_dependents(
    g: GraphView,
    ord: Seq<Id>,
    steps: Seq<Step>,
    a: int,
    b: int,
)
    requires
        is_ordered(g, ord),
        skips_exactly(g, ord, steps),
        0 <= a < ord.len(),
        0 <= b < ord.len(),
        a != b,
        reaches(g, ord[b], ord[a]),
        !(steps[a] is Compiled),
    ensures
        steps[b] is Skipped,
        !holds(cache_after(ord, steps, ord.len() as int), ord[b]),
{
    let path = choose|path: Seq<Id>|
        #[trigger] is_chain(g, path) && path[0] == ord[b] && path.last() == ord[a];
    if path.len() == 1 {
        lemma_ordered_once(g, ord, a, b);
    }
    let i = lemma_chain_is_skipped(g, ord, steps, path, b, a, 0);
    lemma_ordered_once(g, ord, i, b);
    lemma_uncompiled_is_not_held(g, ord, steps, ord.len() as int, b);
}

/// The finding of every unit that failed is among the findings, recorded as
/// fatal and about that unit.
pub proof fn lemma_failure_is_recorded(ord: Seq<Id>, steps: Seq<Step>, n: int, a: int)
    requires
        0 <= a < n <= ord.len(),
        steps[a] is Failed,
    ensures
        findings_after(ord, steps, n).contains(recorded(ord[a], steps[a]->Failed_0)),
    decreases n,
{
    let before = findings_after(ord, steps, n - 1);
    let after = findings_after(ord, steps, n);
    if a < n - 1 {
        lemma_failure_is_recorded(ord, steps, n - 1, a);
        let wanted = recorded(ord[a], steps[a]->Failed_0);
        let t = choose|t: int| 0 <= t < before.len() && before[t] == wanted;
        assert(after[t] == wanted);
    } else {
        assert(after[after.len() - 1] == recorded(ord[a], steps[a]->Failed_0));
    }
}

/// If the unit A fails and the unit B depends on it, directly or through
/// other units, B is never compiled, the finding about A is among the
/// findings, and on a schedule the compilation as a whole fails with it.
pub proof fn lemma_failed_dependency<F: Fn(&CompilationUnit, &Vec<ArtifactEntry>, bool) -> Result<
    UnitArtifact,
    UnitDiagnostic,
>>(
    f: F,
    g: GraphView,
    entry: Id,
    ord: Seq<Id>,
    contracts: bool,
    trace: Seq<Option<Invocation>>,
    a: int,
    b: int,
)
    requires
        is_schedule(g, entry, ord),
        is_pass(f, g, ord, contracts, trace),
        0 <= a < ord.len(),
        0 <= b < ord.len(),
        a != b,
        reaches(g, ord[b], ord[a]),
        steps_of(trace)[a] is Failed,
    ensures
        trace[b] is None,
        !holds(cache_after(ord, steps_of(trace), ord.len() as int), ord[b]),
        outcome_of(ord, steps_of(trace)) matches Err(error) && error.diagnostics.contains(
            recorded(ord[a], steps_of(trace)[a]->Failed_0),
        ),
{
    let steps = steps_of(trace);
    let n = ord.len() as int;
    lemma_pass_skips_exactly(f, g, ord, contracts, trace);
    lemma_failure_blocks_dependents(g, ord, steps, a, b);
    lemma_failure_is_recorded(ord, steps, n, a);
    lemma_schedule_has_entry(g, entry, ord);
    lemma_entry_last(g, entry, ord);
    if a == n - 1 {
        lemma_uncompiled_is_not_held(g, ord, steps, n, a);
    } else {
        assert(ord.contains(ord[a]));
        lemma_failure_blocks_dependents(g, ord, steps, a, n - 1);
    }
}

/// Every unit handed to the unit compiler is one that the entry point
/// reaches, it is the unit that stands for its identity, and it is handed
/// over at its own place of the schedule and nowhere else.
pub proof fn lemma_only_needed_units_are_compiled<F: Fn(
    &CompilationUnit,
    &Vec<ArtifactEntry>,
    bool,
) -> Result<UnitArtifact, UnitDiagnostic>>(
    f: F,
    g: GraphView,
    entry: Id,
    ord: Seq<Id>,
    contracts: bool,
    trace: Seq<Option<Invocation>>,
    i: int,
)
    requires
        is_schedule(g, entry, ord),
        is_pass(f, g, ord, contracts, trace),
        0 <= i < ord.len(),
        trace[i] is Some,
    ensures
        trace[i]->Some_0.unit@.identity == ord[i],
        reaches(g, entry, ord[i]),
        forall|j: int| 0 <= j < ord.len() && ord[j] == ord[i] ==> j == i,
{
    assert(step_as_owed(f, g, ord, contracts, trace, i));
    assert(ready(g, ord.take(i), ord[i]));
    lemma_position(g, ord[i]);
    assert(ord.contains(ord[i]));
    assert forall|j: int| 0 <= j < ord.len() && ord[j] == ord[i] implies j == i by {
        lemma_ordered_once(g, ord, j, i);
    }
}

/// The entry of the unit at `j`, once it is compiled.
pub open spec fn entry_at(ord: Seq<Id>, steps: Seq<Step>, j: int) -> ArtifactEntryView {
    ArtifactEntryView { identity: ord[j], artifact: steps[j]->Compiled_0 }
}

/// While every unit is compiled, the cache holds one entry for each, in order.
proof fn lemma_cache_when_all_compiled(ord: Seq<Id>, steps: Seq<Step>, n: int)
    requires
        0 <= n <= ord.len(),
        forall|j: int| 0 <= j < n ==> (#[trigger] steps[j]) is Compiled,
    ensures
        cache_after(ord, steps, n) == Seq::new(n as nat, |j: int| entry_at(ord, steps, j)),
    decreases n,
{
    if n > 0 {
        lemma_cache_when_all_compiled(ord, steps, n - 1);
        assert(steps[n - 1] is Compiled);
    }
    assert(cache_after(ord, steps, n) =~= Seq::new(n as nat, |j: int| entry_at(ord, steps, j)));
}

/// A compilation that succeeds has compiled every unit of the schedule: the
/// result holds the artifact of the entry point, and as its dependencies the
/// artifact of every other unit that the entry point reaches, in the order
/// of the schedule.
pub proof fn lemma_success_is_complete(g: GraphView, entry: Id, ord: Seq<Id>, steps: Seq<Step>)
    requires
        is_schedule(g, entry, ord),
        skips_exactly(g, ord, steps),
        outcome_of(ord, steps) is Ok,
    ensures
        forall|i: int| 0 <= i < ord.len() ==> (#[trigger] steps[i]) is Compiled,
        outcome_of(ord, steps)->Ok_0.artifact == steps.last()->Compiled_0,
        outcome_of(ord, steps)->Ok_0.dependencies == Seq::new(
            (ord.len() - 1) as nat,
            |j: int| entry_at(ord, steps, j),
        ),
{
    let n = ord.len() as int;
    let cache = cache_after(ord, steps, n);
    lemma_slot(cache, ord.last());
    lemma_schedule_has_entry(g, entry, ord);
    lemma_entry_last(g, entry, ord);
    lemma_cache_origin(ord, steps, n, entry);
    let t = choose|t: int| 0 <= t < n && ord[t] == entry && #[trigger] steps[t] is Compiled;
    lemma_ordered_once(g, ord, t, n - 1);
    assert forall|i: int| 0 <= i < ord.len() implies (#[trigger] steps[i]) is Compiled by {
        if i != n - 1 && !(steps[i] is Compiled) {
            assert(ord.contains(ord[i]));
            lemma_failure_blocks_dependents(g, ord, steps, i, n - 1);
        }
    }
    lemma_cache_when_all_compiled(ord, steps, n);
    lemma_slot(cache, entry);
    assert(slot(cache, entry) == n - 1) by {
        let p = slot(cache, entry);
        assert(cache[n - 1].identity == entry);
        if p < n - 1 {
            assert(cache[p].identity == ord[p]);
            lemma_ordered_once(g, ord, p, n - 1);
        }
    }
    assert(cache.remove(n - 1) =~= Seq::new((n - 1) as nat, |j: int| entry_at(ord, steps, j)));
}

/// A unit without an artifact either failed itself or stands after a unit that failed.
proof fn lemma_cause_of_failure(g: GraphView, ord: Seq<Id>, steps: Seq<Step>, i: int) -> (a: int)
    requires
        is_ordered(g, ord),
        skips_exactly(g, ord, steps),
        0 <= i < ord.len(),
        !(steps[i] is Compiled),
    ensures
        0 <= a <= i,
        steps[a] is Failed,
    decreases i,
{
    if steps[i] is Failed {
        i
    } else {
        let deps = definition(g, ord[i]).dependencies;
        let cache = cache_after(ord, steps, i);
        let k = choose|k: int| 0 <= k < deps.len() && !holds(cache, #[trigger] deps[k]);
        assert(ready(g, ord.take(i), ord[i]));
        assert(ord.take(i).contains(deps[k]));
        let t = choose|t: int| 0 <= t < ord.take(i).len() && ord.take(i)[t] == deps[k];
        assert(ord[t] == deps[k]);
        if steps[t] is Compiled {
            lemma_compiled_is_held(ord, steps, i, t);
        }
        lemma_cause_of_failure(g, ord, steps, t)
    }
}

/// Every finding recorded is fatal and names a unit, and the units named are
/// those of the findings, one for one.
proof fn lemma_findings_are_fatal(ord: Seq<Id>, steps: Seq<Step>, n: int)
    requires
        0 <= n <= ord.len(),
    ensures
        named_units(findings_after(ord, steps, n)).len() == findings_after(ord, steps, n).len(),
        forall|t: int|
            0 <= t < findings_after(ord, steps, n).len() ==> {
                let finding = #[trigger] findings_after(ord, steps, n)[t];
                &&& finding.severity == Severity::Fatal
                &&& finding.unit == Some(named_units(findings_after(ord, steps, n))[t])
            },
    decreases n,
{
    if n > 0 {
        lemma_findings_are_fatal(ord, steps, n - 1);
        let before = findings_after(ord, steps, n - 1);
        let after = findings_after(ord, steps, n);
        match steps[n - 1] {
            Step::Failed(finding) => {
                assert(after.drop_last() =~= before);
                assert forall|t: int| 0 <= t < after.len() implies {
                    let finding = #[trigger] after[t];
                    &&& finding.severity == Severity::Fatal
                    &&& finding.unit == Some(named_units(after)[t])
                } by {
                    if t < before.len() {
                        assert(after[t] == before[t]);
                    }
                }
            },
            _ => {},
        }
    }
}

/// A compilation that fails says why: its error holds at least one finding,
/// every finding is fatal and names the unit that failed, and the units
/// named are listed beside the findings, one for one.
pub proof fn lemma_error_has_findings(g: GraphView, ord: Seq<Id>, steps: Seq<Step>)
    requires
        ord.len() > 0,
        is_ordered(g, ord),
        skips_exactly(g, ord, steps),
        outcome_of(ord, steps) is Err,
    ensures
        outcome_of(ord, steps)->Err_0.diagnostics.len() >= 1,
        outcome_of(ord, steps)->Err_0.failed_units.len() == outcome_of(
            ord,
            steps,
        )->Err_0.diagnostics.len(),
        forall|t: int|
            0 <= t < outcome_of(ord, steps)->Err_0.diagnostics.len() ==> {
                let finding = #[trigger] outcome_of(ord, steps)->Err_0.diagnostics[t];
                &&& finding.severity == Severity::Fatal
                &&& finding.unit == Some(outcome_of(ord, steps)->Err_0.failed_units[t])
            },
{
    let n = ord.len() as int;
    if steps[n - 1] is Compiled {
        lemma_compiled_is_held(ord, steps, n, n - 1);
    }
    let a = lemma_cause_of_failure(g, ord, steps, n - 1);
    lemma_failure_is_recorded(ord, steps, n, a);
    lemma_findings_are_fatal(ord, steps, n);
}

} // verus!
