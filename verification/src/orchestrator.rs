//! Drives a compilation: hands the units to the unit compiler in order,
//! keeps what it produces, passes over the units whose dependencies failed,
//! and collects every failure met on the way.

use crate::assembler::{assemble_failure, assemble_success, failure_of, success_of};
use crate::cache::{gathered, holds, holds_all, lemma_slot_push, CompilationCache};
use crate::graph::{definition, lemma_position};
use crate::model::{
    outcome_view, ArtifactEntry, ArtifactEntryView, CompilationUnit, CompileError,
    CompileErrorView, CompileResult, CompileResultView, GraphView, Id, Severity, UnitArtifact,
    UnitArtifactView, UnitDiagnostic, UnitDiagnosticView,
};
use crate::scheduler::{is_ordered, ready};
use crate::validator::{find_unit, ValidatedGraph};
use vstd::pervasive::unreached;
use vstd::prelude::*;

verus! {

/// What became of one unit of the order.
pub enum Step {
    /// The unit compiler produced this artifact.
    Compiled(UnitArtifactView),
    /// The unit compiler reported this finding.
    Failed(UnitDiagnosticView),
    /// The unit was passed over, because a unit it depends on has no artifact.
    Skipped,
}

/// One call of the unit compiler: what it was handed and what it returned.
pub struct Invocation {
    pub unit: CompilationUnit,
    pub dependency_artifacts: Vec<ArtifactEntry>,
    pub contracts: bool,
    pub outcome: Result<UnitArtifact, UnitDiagnostic>,
}

/// What a call, or the lack of one, means for the unit.
pub open spec fn step_of(call: Option<Invocation>) -> Step {
    match call {
        None => Step::Skipped,
        Some(invocation) => match invocation.outcome {
            Ok(artifact) => Step::Compiled(artifact@),
            Err(finding) => Step::Failed(finding@),
        },
    }
}

/// What became of each unit, given the calls made.
pub open spec fn steps_of(trace: Seq<Option<Invocation>>) -> Seq<Step> {
    Seq::new(trace.len(), |i: int| step_of(trace[i]))
}

/// The finding as it is recorded for the unit `id`: fatal, and about that unit.
pub open spec fn recorded(id: Id, finding: UnitDiagnosticView) -> UnitDiagnosticView {
    UnitDiagnosticView {
        unit: Some(id),
        severity: Severity::Fatal,
        message: finding.message,
        span: finding.span,
    }
}

/// The cache after the first `n` units of `ord`.
pub open spec fn cache_after(ord: Seq<Id>, steps: Seq<Step>, n: int) -> Seq<ArtifactEntryView>
    decreases n,
{
    if n <= 0 {
        Seq::empty()
    } else {
        let before = cache_after(ord, steps, n - 1);
        match steps[n - 1] {
            Step::Compiled(artifact) => before.push(
                ArtifactEntryView { identity: ord[n - 1], artifact },
            ),
            _ => before,
        }
    }
}

/// The findings recorded after the first `n` units of `ord`.
pub open spec fn findings_after(ord: Seq<Id>, steps: Seq<Step>, n: int) -> Seq<UnitDiagnosticView>
    decreases n,
{
    if n <= 0 {
        Seq::empty()
    } else {
        let before = findings_after(ord, steps, n - 1);
        match steps[n - 1] {
            Step::Failed(finding) => before.push(recorded(ord[n - 1], finding)),
            _ => before,
        }
    }
}

/// What the caller gets at the end of a pass: the result for `entry` if the
/// cache holds its artifact, else the findings.
pub open spec fn settled(
    cache: Seq<ArtifactEntryView>,
    findings: Seq<UnitDiagnosticView>,
    entry: Id,
) -> Result<CompileResultView, CompileErrorView> {
    if holds(cache, entry) {
        Ok(success_of(cache, entry))
    } else {
        Err(failure_of(findings))
    }
}

/// What the caller gets once every unit of `ord` has had its step: the
/// result for the last unit of `ord` if the cache holds its artifact, else
/// the findings.
pub open spec fn outcome_of(ord: Seq<Id>, steps: Seq<Step>) -> Result<
    CompileResultView,
    CompileErrorView,
> {
    settled(
        cache_after(ord, steps, ord.len() as int),
        findings_after(ord, steps, ord.len() as int),
        ord.last(),
    )
}

/// The cache once the unit compiler has answered for the unit `id`: with
/// the artifact, if it produced one and the cache held none for `id`.
pub open spec fn cache_with(
    cache: Seq<ArtifactEntryView>,
    id: Id,
    reply: Result<UnitArtifactView, UnitDiagnosticView>,
) -> Seq<ArtifactEntryView> {
    match reply {
        Ok(artifact) => if holds(cache, id) {
            cache
        } else {
            cache.push(ArtifactEntryView { identity: id, artifact })
        },
        Err(_) => cache,
    }
}

/// The findings once the unit compiler has answered for the unit `id`:
/// with its finding, recorded as fatal and about `id`, if it reported one.
pub open spec fn findings_with(
    findings: Seq<UnitDiagnosticView>,
    id: Id,
    reply: Result<UnitArtifactView, UnitDiagnosticView>,
) -> Seq<UnitDiagnosticView> {
    match reply {
        Ok(_) => findings,
        Err(finding) => findings.push(recorded(id, finding)),
    }
}

/// Whether the unit at `i` is compiled with the contracts flag: only the last
/// unit of the order is, and only when the caller asked for it.
pub open spec fn flag_at(ord: Seq<Id>, contracts: bool, i: int) -> bool {
    contracts && i == ord.len() - 1
}

/// The call `invocation` is the one owed to the unit at `i`: it hands over
/// the unit that stands for the identity, the artifacts of its dependencies
/// in declaration order, and the flag.
pub open spec fn request_at(
    g: GraphView,
    ord: Seq<Id>,
    contracts: bool,
    steps: Seq<Step>,
    i: int,
    invocation: Invocation,
) -> bool {
    &&& invocation.unit@ == definition(g, ord[i])
    &&& invocation.dependency_artifacts.deep_view() == gathered(
        cache_after(ord, steps, i),
        definition(g, ord[i]).dependencies,
    )
    &&& invocation.contracts == flag_at(ord, contracts, i)
}

/// The unit at `i` was treated as it must be: passed over exactly if the
/// cache lacks the artifact of one of its dependencies, and else handed to
/// `f` once, with the call owed to it, and with an outcome that `f` gives for
/// that call.
pub open spec fn step_as_owed<F: Fn(&CompilationUnit, &Vec<ArtifactEntry>, bool) -> Result<
    UnitArtifact,
    UnitDiagnostic,
>>(
    f: F,
    g: GraphView,
    ord: Seq<Id>,
    contracts: bool,
    trace: Seq<Option<Invocation>>,
    i: int,
) -> bool {
    match trace[i] {
        None => !holds_all(
            cache_after(ord, steps_of(trace), i),
            definition(g, ord[i]).dependencies,
        ),
        Some(invocation) => {
            &&& holds_all(cache_after(ord, steps_of(trace), i), definition(g, ord[i]).dependencies)
            &&& request_at(g, ord, contracts, steps_of(trace), i, invocation)
            &&& call_ensures(
                f,
                (&invocation.unit, &invocation.dependency_artifacts, invocation.contracts),
                invocation.outcome,
            )
        },
    }
}

/// `trace` is a full pass over `ord` with the unit compiler `f`.
pub open spec fn is_pass<F: Fn(&CompilationUnit, &Vec<ArtifactEntry>, bool) -> Result<
    UnitArtifact,
    UnitDiagnostic,
>>(f: F, g: GraphView, ord: Seq<Id>, contracts: bool, trace: Seq<Option<Invocation>>) -> bool {
    &&& trace.len() == ord.len()
    &&& forall|i: int|
        0 <= i < trace.len() ==> #[trigger] step_as_owed(f, g, ord, contracts, trace, i)
}

/// What `run` owes: its result is the outcome of some full pass over `ord`
/// with `f`.
pub open spec fn run_post<F: Fn(&CompilationUnit, &Vec<ArtifactEntry>, bool) -> Result<
    UnitArtifact,
    UnitDiagnostic,
>>(
    f: F,
    g: GraphView,
    ord: Seq<Id>,
    contracts: bool,
    r: Result<CompileResultView, CompileErrorView>,
) -> bool {
    exists|trace: Seq<Option<Invocation>>| #[trigger]
        is_pass(f, g, ord, contracts, trace) && r == outcome_of(ord, steps_of(trace))
}

/// Every unit was passed over exactly if the cache lacked the artifact of one
/// of its dependencies when its turn came.
pub open spec fn skips_exactly(g: GraphView, ord: Seq<Id>, steps: Seq<Step>) -> bool {
    &&& steps.len() == ord.len()
    &&& forall|i: int|
        0 <= i < steps.len() ==> ((#[trigger] steps[i]) is Skipped <==> !holds_all(
            cache_after(ord, steps, i),
            definition(g, ord[i]).dependencies,
        ))
}

/// The view of what the unit compiler returns.
pub open spec fn reply_view(outcome: Result<UnitArtifact, UnitDiagnostic>) -> Result<
    UnitArtifactView,
    UnitDiagnosticView,
> {
    match outcome {
        Ok(artifact) => Ok(artifact@),
        Err(finding) => Err(finding@),
    }
}

/// Whatever `f` returns for a unit, a list of artifacts and a flag, it
/// returns for every unit, list and flag with the same views.
pub open spec fn deterministic<F: Fn(&CompilationUnit, &Vec<ArtifactEntry>, bool) -> Result<
    UnitArtifact,
    UnitDiagnostic,
>>(f: F) -> bool {
    forall|
        unit: &CompilationUnit,
        artifacts: &Vec<ArtifactEntry>,
        twin: &CompilationUnit,
        others: &Vec<ArtifactEntry>,
        flag: bool,
        one: Result<UnitArtifact, UnitDiagnostic>,
        two: Result<UnitArtifact, UnitDiagnostic>,
    |
        #![trigger
            call_ensures(f, (unit, artifacts, flag), one),
            call_ensures(f, (twin, others, flag), two)]
        call_ensures(f, (unit, artifacts, flag), one) && call_ensures(f, (twin, others, flag), two)
            && unit@ == twin@ && artifacts.deep_view() == others.deep_view() ==> reply_view(one)
            == reply_view(two)
}

/// A full pass with a unit compiler passes over the units it must, and no others.
pub proof fn lemma_pass_skips_exactly<F: Fn(&CompilationUnit, &Vec<ArtifactEntry>, bool) -> Result<
    UnitArtifact,
    UnitDiagnostic,
>>(f: F, g: GraphView, ord: Seq<Id>, contracts: bool, trace: Seq<Option<Invocation>>)
    requires
        is_pass(f, g, ord, contracts, trace),
    ensures
        skips_exactly(g, ord, steps_of(trace)),
{
    let steps = steps_of(trace);
    assert forall|i: int| 0 <= i < steps.len() implies ((#[trigger] steps[i]) is Skipped
        <==> !holds_all(cache_after(ord, steps, i), definition(g, ord[i]).dependencies)) by {
        assert(step_as_owed(f, g, ord, contracts, trace, i));
    }
}

/// The cache and the findings after `n` units depend on the first `n` steps only.
pub proof fn lemma_prefix(ord: Seq<Id>, a: Seq<Step>, b: Seq<Step>, n: int)
    requires
        n <= a.len(),
        n <= b.len(),
        forall|j: int| 0 <= j < n ==> a[j] == b[j],
    ensures
        cache_after(ord, a, n) == cache_after(ord, b, n),
        findings_after(ord, a, n) == findings_after(ord, b, n),
    decreases n,
{
    if n > 0 {
        lemma_prefix(ord, a, b, n - 1);
    }
}

/// Every entry of the cache after `n` units is the artifact of one of them.
pub proof fn lemma_cache_origin(ord: Seq<Id>, steps: Seq<Step>, n: int, id: Id)
    requires
        0 <= n <= ord.len(),
        holds(cache_after(ord, steps, n), id),
    ensures
        exists|j: int| 0 <= j < n && ord[j] == id && #[trigger] steps[j] is Compiled,
    decreases n,
{
    if n > 0 {
        let before = cache_after(ord, steps, n - 1);
        match steps[n - 1] {
            Step::Compiled(artifact) => {
                lemma_slot_push(
                    before,
                    ArtifactEntryView { identity: ord[n - 1], artifact },
                    id,
                );
                if holds(before, id) {
                    lemma_cache_origin(ord, steps, n - 1, id);
                }
            },
            _ => {
                lemma_cache_origin(ord, steps, n - 1, id);
            },
        }
    }
}

/// One more step leaves the steps before it as they were.
proof fn lemma_extend<F: Fn(&CompilationUnit, &Vec<ArtifactEntry>, bool) -> Result<
    UnitArtifact,
    UnitDiagnostic,
>>(
    f: F,
    g: GraphView,
    ord: Seq<Id>,
    contracts: bool,
    trace: Seq<Option<Invocation>>,
    call: Option<Invocation>,
)
    requires
        forall|j: int|
            0 <= j < trace.len() ==> #[trigger] step_as_owed(f, g, ord, contracts, trace, j),
    ensures
        forall|j: int|
            0 <= j < trace.len() ==> #[trigger] step_as_owed(
                f,
                g,
                ord,
                contracts,
                trace.push(call),
                j,
            ),
        cache_after(ord, steps_of(trace.push(call)), trace.len() as int) == cache_after(
            ord,
            steps_of(trace),
            trace.len() as int,
        ),
        findings_after(ord, steps_of(trace.push(call)), trace.len() as int) == findings_after(
            ord,
            steps_of(trace),
            trace.len() as int,
        ),
{
    let longer = trace.push(call);
    assert forall|j: int| 0 <= j < trace.len() implies #[trigger] step_as_owed(
        f,
        g,
        ord,
        contracts,
        longer,
        j,
    ) by {
        assert(step_as_owed(f, g, ord, contracts, trace, j));
        lemma_prefix(ord, steps_of(trace), steps_of(longer), j);
    }
    lemma_prefix(ord, steps_of(trace), steps_of(longer), trace.len() as int);
}

/// A pass in progress: the artifacts produced and the findings recorded so far.
///
/// `run` drives a pass with a unit compiler that it can call. A caller that
/// has to reach its unit compiler in another way can drive the pass itself:
/// for every unit of the order, in order, ask `artifacts_for` what to hand
/// over, compile the unit unless it is to be passed over, and `record` what
/// came back; at the end, `finish`.
pub struct Pass {
    pub cache: CompilationCache,
    pub findings: Vec<UnitDiagnostic>,
}

impl Pass {
    /// A pass in which nothing has been compiled yet.
    pub fn new() -> (r: Self)
        ensures
            r.cache@ == Seq::<ArtifactEntryView>::empty(),
            r.findings.deep_view() == Seq::<UnitDiagnosticView>::empty(),
    {
        let r = Pass { cache: CompilationCache::new(), findings: Vec::new() };
        assert(r.findings.deep_view() =~= Seq::empty());
        r
    }

    /// What to hand to the unit compiler together with `unit`: a copy of the
    /// artifact of each of its dependencies, in the order in which the unit
    /// declares them. `None` if the cache lacks one of them: the unit is
    /// then to be passed over.
    pub fn artifacts_for(&self, unit: &CompilationUnit) -> (r: Option<Vec<ArtifactEntry>>)
        ensures
            match r {
                Some(artifacts) => holds_all(self.cache@, unit@.dependencies)
                    && artifacts.deep_view() == gathered(self.cache@, unit@.dependencies),
                None => !holds_all(self.cache@, unit@.dependencies),
            },
    {
        self.cache.gather(&unit.dependencies)
    }

    /// Takes in what the unit compiler returned for the unit `identity`: an
    /// artifact goes into the cache, unless the cache holds one for that
    /// unit already; a finding goes to the end of the findings, as a fatal
    /// finding about that unit.
    pub fn record(&mut self, identity: &String, outcome: Result<UnitArtifact, UnitDiagnostic>)
        ensures
            final(self).cache@ == cache_with(old(self).cache@, identity@, reply_view(outcome)),
            final(self).findings.deep_view() == findings_with(
                old(self).findings.deep_view(),
                identity@,
                reply_view(outcome),
            ),
    {
        let ghost found = self.findings.deep_view();
        match outcome {
            Ok(artifact) => {
                self.cache.insert(identity.clone(), artifact);
            },
            Err(finding) => {
                self.findings.push(
                    UnitDiagnostic {
                        unit: Some(identity.clone()),
                        severity: Severity::Fatal,
                        message: finding.message,
                        span: finding.span,
                    },
                );
                proof {
                    assert(self.findings.deep_view() =~= found.push(
                        recorded(identity@, finding@),
                    ));
                }
            },
        }
    }

    /// Ends the pass: the result for `entry_point` if the cache holds its
    /// artifact, else the error made of the findings.
    pub fn finish(self, entry_point: &String) -> (r: Result<CompileResult, CompileError>)
        ensures
            outcome_view(r) == settled(self.cache@, self.findings.deep_view(), entry_point@),
    {
        if self.cache.contains(entry_point) {
            Ok(assemble_success(entry_point, self.cache))
        } else {
            Err(assemble_failure(self.findings))
        }
    }
}

/// Compiles the units of `order` one after the other with `compile_unit`.
///
/// A unit is handed to `compile_unit` together with the artifacts of the
/// units it depends on, in the order in which it declares them; the last
/// unit of `order`, the entry point, also with `contracts_mode`, every
/// other unit with `false`. An artifact goes into the cache. A failure is
/// recorded as a fatal finding about the unit, and every unit that depends
/// on a unit without an artifact is passed over. When all units have had
/// their turn, the result is the entry point's artifact with all the others,
/// if the entry point has one, and else the findings in the order in which
/// they were made.
pub fn run<F: Fn(&CompilationUnit, &Vec<ArtifactEntry>, bool) -> Result<
    UnitArtifact,
    UnitDiagnostic,
>>(
    order: &Vec<String>,
    graph: &ValidatedGraph,
    contracts_mode: bool,
    compile_unit: F,
) -> (r: Result<CompileResult, CompileError>)
    requires
        order.len() > 0,
        is_ordered(graph@, order.deep_view()),
        forall|unit: &CompilationUnit, artifacts: &Vec<ArtifactEntry>, flag: bool|
            call_requires(compile_unit, (unit, artifacts, flag)),
    ensures
        run_post(compile_unit, graph@, order.deep_view(), contracts_mode, outcome_view(r)),
{
    let ghost g = graph@;
    let ghost ord = order.deep_view();
    let units = graph.units();
    let n = order.len();
    let mut pass = Pass::new();
    let ghost mut trace: Seq<Option<Invocation>> = Seq::empty();
    let mut i: usize = 0;
    while i < n
        invariant
            i <= n,
            n == order.len(),
            n > 0,
            g == graph@,
            ord == order.deep_view(),
            units.deep_view() == g,
            is_ordered(g, ord),
            forall|unit: &CompilationUnit, artifacts: &Vec<ArtifactEntry>, flag: bool|
                call_requires(compile_unit, (unit, artifacts, flag)),
            trace.len() == i,
            forall|j: int|
                0 <= j < i ==> #[trigger] step_as_owed(
                    compile_unit,
                    g,
                    ord,
                    contracts_mode,
                    trace,
                    j,
                ),
            pass.cache@ == cache_after(ord, steps_of(trace), i as int),
            pass.findings.deep_view() == findings_after(ord, steps_of(trace), i as int),
        decreases n - i,
    {
        let id = &order[i];
        proof {
            assert(ord[i as int] == id@);
            assert(ready(g, ord.take(i as int), ord[i as int]));
            lemma_position(g, id@);
        }
        let unit = match find_unit(units, id) {
            Some(p) => &units[p],
            None => unreached(),
        };
        proof {
            assert(unit@ == definition(g, id@));
        }
        match pass.artifacts_for(unit) {
            None => {
                proof {
                    lemma_extend(compile_unit, g, ord, contracts_mode, trace, None);
                    trace = trace.push(None);
                }
            },
            Some(artifacts) => {
                let flag = contracts_mode && i == n - 1;
                let outcome = compile_unit(unit, &artifacts, flag);
                proof {
                    if holds(pass.cache@, id@) {
                        lemma_cache_origin(ord, steps_of(trace), i as int, id@);
                        let j = choose|j: int|
                            0 <= j < i && ord[j] == id@ && #[trigger] steps_of(
                                trace,
                            )[j] is Compiled;
                        assert(ord.take(i as int)[j] == id@);
                    }
                    let call = Some(
                        Invocation {
                            unit: *unit,
                            dependency_artifacts: artifacts,
                            contracts: flag,
                            outcome,
                        },
                    );
                    lemma_extend(compile_unit, g, ord, contracts_mode, trace, call);
                    trace = trace.push(call);
                }
                pass.record(id, outcome);
            },
        }
        i += 1;
    }
    proof {
        assert(ord.last() == order[n - 1]@);
        assert(is_pass(compile_unit, g, ord, contracts_mode, trace));
    }
    pass.finish(&order[n - 1])
}

} // verus!
