//! The data that travels through a compilation: units and their graph,
//! artifacts, diagnostics, and the result or error handed back to the caller.
//!
//! Every type has a view made of `Seq`, `Option` and plain values only; the
//! contracts of the crate are stated over these views.

use vstd::prelude::*;

verus! {

/// The mathematical form of a unit's identity: its characters.
pub type Id = Seq<char>;

/// How serious a finding is.
#[derive(Clone, Copy, Debug, PartialEq, Eq, Structural)]
pub enum Severity {
    /// The unit could not be compiled; its dependents cannot be compiled either.
    Fatal,
    /// A remark that rides along with a successful artifact.
    Advisory,
}

/// A region of a unit's source text, as offsets.
#[derive(Clone, Copy, Debug, PartialEq, Eq, Structural)]
pub struct SourceSpan {
    pub start: u32,
    pub end: u32,
}

/// One finding about one unit.
#[derive(Debug, PartialEq, Eq)]
pub struct UnitDiagnostic {
    /// The unit the finding is about; `None` for a finding about the graph as a whole.
    pub unit: Option<String>,
    pub severity: Severity,
    pub message: String,
    pub span: Option<SourceSpan>,
}

pub struct UnitDiagnosticView {
    pub unit: Option<Id>,
    pub severity: Severity,
    pub message: Seq<char>,
    pub span: Option<SourceSpan>,
}

impl View for UnitDiagnostic {
    type V = UnitDiagnosticView;

    open spec fn view(&self) -> UnitDiagnosticView {
        UnitDiagnosticView {
            unit: match self.unit {
                Some(u) => Some(u@),
                None => None,
            },
            severity: self.severity,
            message: self.message@,
            span: self.span,
        }
    }
}

impl DeepView for UnitDiagnostic {
    type V = UnitDiagnosticView;

    open spec fn deep_view(&self) -> UnitDiagnosticView {
        self@
    }
}

impl Clone for UnitDiagnostic {
    fn clone(&self) -> (r: Self)
        ensures
            r@ == self@,
    {
        UnitDiagnostic {
            unit: match &self.unit {
                Some(u) => Some(u.clone()),
                None => None,
            },
            severity: self.severity,
            message: self.message.clone(),
            span: self.span,
        }
    }
}

/// The compiled output of one unit.
#[derive(Debug, PartialEq, Eq)]
pub struct UnitArtifact {
    /// The compiled code; never inspected by this crate.
    pub payload: Vec<u8>,
    /// What the unit offers to the units that depend on it.
    pub exports: Vec<String>,
    /// Remarks the compiler made while it compiled the unit.
    pub advisories: Vec<UnitDiagnostic>,
}

pub struct UnitArtifactView {
    pub payload: Seq<u8>,
    pub exports: Seq<Seq<char>>,
    pub advisories: Seq<UnitDiagnosticView>,
}

impl View for UnitArtifact {
    type V = UnitArtifactView;

    open spec fn view(&self) -> UnitArtifactView {
        UnitArtifactView {
            payload: self.payload@,
            exports: self.exports.deep_view(),
            advisories: self.advisories.deep_view(),
        }
    }
}

impl DeepView for UnitArtifact {
    type V = UnitArtifactView;

    open spec fn deep_view(&self) -> UnitArtifactView {
        self@
    }
}

impl Clone for UnitArtifact {
    fn clone(&self) -> (r: Self)
        ensures
            r@ == self@,
    {
        let payload = self.payload.clone();
        let exports = self.exports.clone();
        let advisories = self.advisories.clone();
        assert(payload@ =~= self.payload@);
        assert(exports.deep_view() =~= self.exports.deep_view());
        assert(advisories.deep_view() =~= self.advisories.deep_view());
        UnitArtifact { payload, exports, advisories }
    }
}

/// An artifact together with the identity of the unit it was compiled from.
#[derive(Debug, PartialEq, Eq)]
pub struct ArtifactEntry {
    pub identity: String,
    pub artifact: UnitArtifact,
}

pub struct ArtifactEntryView {
    pub identity: Id,
    pub artifact: UnitArtifactView,
}

impl View for ArtifactEntry {
    type V = ArtifactEntryView;

    open spec fn view(&self) -> ArtifactEntryView {
        ArtifactEntryView { identity: self.identity@, artifact: self.artifact@ }
    }
}

impl DeepView for ArtifactEntry {
    type V = ArtifactEntryView;

    open spec fn deep_view(&self) -> ArtifactEntryView {
        self@
    }
}

impl Clone for ArtifactEntry {
    fn clone(&self) -> (r: Self)
        ensures
            r@ == self@,
    {
        ArtifactEntry { identity: self.identity.clone(), artifact: self.artifact.clone() }
    }
}

/// One node of the dependency graph.
#[derive(Debug, PartialEq, Eq)]
pub struct CompilationUnit {
    /// The unit's unique name or path.
    pub identity: String,
    /// Where the unit's source is to be found; never inspected by this crate.
    pub source: String,
    /// The identities of the units this unit requires, in declaration order.
    pub dependencies: Vec<String>,
    /// Whether the unit declares itself a contract, if it says.
    pub is_contract: Option<bool>,
}

pub struct CompilationUnitView {
    pub identity: Id,
    pub source: Seq<char>,
    pub dependencies: Seq<Id>,
    pub is_contract: Option<bool>,
}

impl View for CompilationUnit {
    type V = CompilationUnitView;

    open spec fn view(&self) -> CompilationUnitView {
        CompilationUnitView {
            identity: self.identity@,
            source: self.source@,
            dependencies: self.dependencies.deep_view(),
            is_contract: self.is_contract,
        }
    }
}

impl DeepView for CompilationUnit {
    type V = CompilationUnitView;

    open spec fn deep_view(&self) -> CompilationUnitView {
        self@
    }
}

impl Clone for CompilationUnit {
    fn clone(&self) -> (r: Self)
        ensures
            r@ == self@,
    {
        let dependencies = self.dependencies.clone();
        assert(dependencies.deep_view() =~= self.dependencies.deep_view());
        CompilationUnit {
            identity: self.identity.clone(),
            source: self.source.clone(),
            dependencies,
            is_contract: self.is_contract,
        }
    }
}

/// The units a caller supplies, in the order it declared them.
#[derive(Debug, PartialEq, Eq)]
pub struct DependencyGraph {
    pub units: Vec<CompilationUnit>,
}

/// The mathematical form of a graph: its units in declaration order.
pub type GraphView = Seq<CompilationUnitView>;

impl View for DependencyGraph {
    type V = GraphView;

    open spec fn view(&self) -> GraphView {
        self.units.deep_view()
    }
}

/// What a successful compilation hands back.
#[derive(Debug, PartialEq, Eq)]
pub struct CompileResult {
    /// The artifact of the entry point.
    pub artifact: UnitArtifact,
    /// The artifact of every unit the entry point needs, dependencies before dependents.
    pub dependencies: Vec<ArtifactEntry>,
}

pub struct CompileResultView {
    pub artifact: UnitArtifactView,
    pub dependencies: Seq<ArtifactEntryView>,
}

impl View for CompileResult {
    type V = CompileResultView;

    open spec fn view(&self) -> CompileResultView {
        CompileResultView {
            artifact: self.artifact@,
            dependencies: self.dependencies.deep_view(),
        }
    }
}

/// What a failed compilation hands back.
#[derive(Debug, PartialEq, Eq)]
pub struct CompileError {
    /// The findings, in the order they were made.
    pub diagnostics: Vec<UnitDiagnostic>,
    /// The units the findings name, in the same order.
    pub failed_units: Vec<String>,
}

pub struct CompileErrorView {
    pub diagnostics: Seq<UnitDiagnosticView>,
    pub failed_units: Seq<Id>,
}

impl View for CompileError {
    type V = CompileErrorView;

    open spec fn view(&self) -> CompileErrorView {
        CompileErrorView {
            diagnostics: self.diagnostics.deep_view(),
            failed_units: self.failed_units.deep_view(),
        }
    }
}

/// The view of what `compile` and `run` return.
pub open spec fn outcome_view(r: Result<CompileResult, CompileError>) -> Result<
    CompileResultView,
    CompileErrorView,
> {
    match r {
        Ok(v) => Ok(v@),
        Err(e) => Err(e@),
    }
}

} // verus!
