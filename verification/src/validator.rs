//! Checks that a graph is fit to be scheduled, and wraps it when it is.
//!
//! The checks run in a fixed order and stop at the first that fails: the
//! entry point is declared; no dependency dangles; no dependency chain comes
//! back to where it starts; no identity is declared twice with different
//! dependencies.

use crate::graph::{
    acyclic, closed, conflict_at, consistent, dangling_at, declares, distinct, first_conflict_at,
    first_cycle_of, first_dangling_at, first_declarations, is_cycle, lemma_first_declarations,
    lemma_first_declarations_acyclic, lemma_first_declarations_chain,
    lemma_first_declarations_closed, lemma_index_cycle_names, lemma_position,
    lemma_ranked_acyclic, lemma_resolve, names, position, resolve, valid,
};
use crate::model::{CompilationUnit, DependencyGraph, GraphView, Id};
use crate::search::{adjacency, find_cycle, ranked};
use vstd::pervasive::unreached;
use vstd::prelude::*;

verus! {

/// Why a graph cannot be scheduled.
#[derive(Debug, PartialEq, Eq)]
pub enum GraphError {
    /// No unit carries the identity of the entry point.
    UnknownEntryPoint,
    /// The unit named first lists the identity named second, which no unit carries.
    DanglingDependency(String, String),
    /// A dependency chain that comes back to where it starts, written with its
    /// first identity repeated at the end.
    CyclicDependency(Vec<String>),
    /// The identity is declared more than once, with different dependencies.
    InconsistentDefinition(String),
}

pub enum GraphErrorView {
    UnknownEntryPoint,
    DanglingDependency(Id, Id),
    CyclicDependency(Seq<Id>),
    InconsistentDefinition(Id),
}

impl View for GraphError {
    type V = GraphErrorView;

    open spec fn view(&self) -> GraphErrorView {
        match self {
            GraphError::UnknownEntryPoint => GraphErrorView::UnknownEntryPoint,
            GraphError::DanglingDependency(unit, missing) => GraphErrorView::DanglingDependency(
                unit@,
                missing@,
            ),
            GraphError::CyclicDependency(path) => GraphErrorView::CyclicDependency(
                path.deep_view(),
            ),
            GraphError::InconsistentDefinition(id) => GraphErrorView::InconsistentDefinition(id@),
        }
    }
}

/// A graph known to declare each identity once, to leave no dependency
/// dangling and to have no cycle.
pub struct ValidatedGraph {
    pub(crate) units: Vec<CompilationUnit>,
    pub(crate) links: Vec<Vec<usize>>,
    pub(crate) ranks: Ghost<Seq<nat>>,
}

impl View for ValidatedGraph {
    type V = GraphView;

    open(crate) spec fn view(&self) -> GraphView {
        self.units.deep_view()
    }
}

impl ValidatedGraph {
    #[verifier::type_invariant]
    pub(crate) open spec fn inv(self) -> bool {
        &&& distinct(self.units.deep_view())
        &&& closed(self.units.deep_view())
        &&& adjacency(self.links@) == resolve(self.units.deep_view())
        &&& ranked(resolve(self.units.deep_view()), self.ranks@)
    }

    /// The units of the graph, each identity once, in declaration order.
    pub fn units(&self) -> (r: &Vec<CompilationUnit>)
        ensures
            r.deep_view() == self@,
            valid(self@),
    {
        proof {
            use_type_invariant(self);
            assert(self.units.deep_view().len() == self.units.len());
            lemma_ranked_acyclic(self.units.deep_view(), self.ranks@);
        }
        &self.units
    }
}

/// What `validate` owes for a graph `g` and an entry point: each outcome
/// with the graphs on which it comes.
pub open spec fn validation(g: GraphView, entry: Id, r: Result<GraphView, GraphErrorView>) -> bool {
    match r {
        Ok(v) => {
            &&& declares(g, entry)
            &&& closed(g)
            &&& acyclic(g)
            &&& consistent(g)
            &&& v == first_declarations(g)
        },
        Err(GraphErrorView::UnknownEntryPoint) => !declares(g, entry),
        Err(GraphErrorView::DanglingDependency(unit, missing)) => {
            &&& declares(g, entry)
            &&& exists|i: int, k: int|
                #[trigger] first_dangling_at(g, i, k) && unit == g[i].identity && missing
                    == g[i].dependencies[k]
        },
        Err(GraphErrorView::CyclicDependency(path)) => {
            &&& declares(g, entry)
            &&& closed(g)
            &&& is_cycle(g, path)
            &&& first_cycle_of(g, entry) == Some(path)
        },
        Err(GraphErrorView::InconsistentDefinition(id)) => {
            &&& declares(g, entry)
            &&& closed(g)
            &&& acyclic(g)
            &&& exists|i: int| #[trigger] first_conflict_at(g, i) && id == g[i].identity
        },
    }
}

/// The view of what `validate` returns.
pub open spec fn validation_view(r: Result<ValidatedGraph, GraphError>) -> Result<
    GraphView,
    GraphErrorView,
> {
    match r {
        Ok(v) => Ok(v@),
        Err(e) => Err(e@),
    }
}

/// Where `id` is first declared among `units`, if it is declared.
pub fn find_unit(units: &Vec<CompilationUnit>, id: &String) -> (r: Option<usize>)
    ensures
        match r {
            Some(i) => i < units.len() && i == position(units.deep_view(), id@),
            None => position(units.deep_view(), id@) == units.len(),
        },
        r is Some == declares(units.deep_view(), id@),
{
    let n = units.len();
    let mut i: usize = 0;
    while i < n
        invariant
            i <= n,
            n == units.len(),
            forall|j: int| 0 <= j < i ==> (#[trigger] units.deep_view()[j]).identity != id@,
        decreases n - i,
    {
        if units[i].identity == *id {
            proof {
                lemma_position(units.deep_view(), id@);
                assert(units.deep_view()[i as int].identity == id@);
            }
            return Some(i);
        }
        i += 1;
    }
    proof {
        lemma_position(units.deep_view(), id@);
    }
    None
}

/// Whether two lists name the same identities in the same order.
pub fn same_identities(a: &Vec<String>, b: &Vec<String>) -> (r: bool)
    ensures
        r == (a.deep_view() == b.deep_view()),
{
    if a.len() != b.len() {
        assert(a.deep_view().len() != b.deep_view().len());
        return false;
    }
    let n = a.len();
    let mut i: usize = 0;
    while i < n
        invariant
            i <= n,
            n == a.len(),
            n == b.len(),
            forall|j: int| 0 <= j < i ==> a.deep_view()[j] == b.deep_view()[j],
        decreases n - i,
    {
        if a[i] != b[i] {
            assert(a.deep_view()[i as int] != b.deep_view()[i as int]);
            return false;
        }
        i += 1;
    }
    assert(a.deep_view() =~= b.deep_view());
    true
}

/// The first declaration of every identity of `graph`, in declaration order.
fn collect_first_declarations(graph: &DependencyGraph) -> (units: Vec<CompilationUnit>)
    ensures
        units.deep_view() == first_declarations(graph@),
{
    let ghost g = graph@;
    let n = graph.units.len();
    let mut units: Vec<CompilationUnit> = Vec::new();
    let mut i: usize = 0;
    assert(units.deep_view() =~= first_declarations(g.take(0)));
    while i < n
        invariant
            i <= n,
            n == graph.units.len(),
            g == graph@,
            units.deep_view() == first_declarations(g.take(i as int)),
        decreases n - i,
    {
        let unit = &graph.units[i];
        let ghost before = units.deep_view();
        proof {
            lemma_first_declarations(g.take(i as int), unit.identity@);
            assert(g.take(i + 1).drop_last() =~= g.take(i as int));
            assert(g.take(i + 1).last() == unit@);
        }
        if find_unit(&units, &unit.identity).is_none() {
            units.push(unit.clone());
            assert(units.deep_view() =~= before.push(unit@));
        }
        i += 1;
    }
    assert(g.take(n as int) =~= g);
    units
}

/// The first dependency of `graph` that names no unit, if there is one: the
/// identity of the unit that lists it, and the identity it lists.
fn find_dangling(graph: &DependencyGraph, units: &Vec<CompilationUnit>) -> (r: Option<
    (String, String),
>)
    requires
        units.deep_view() == first_declarations(graph@),
    ensures
        match r {
            Some((unit, missing)) => exists|i: int, k: int|
                #[trigger] first_dangling_at(graph@, i, k) && unit@ == graph@[i].identity
                    && missing@ == graph@[i].dependencies[k],
            None => closed(graph@),
        },
{
    let ghost g = graph@;
    let n = graph.units.len();
    let mut i: usize = 0;
    while i < n
        invariant
            i <= n,
            n == graph.units.len(),
            g == graph@,
            units.deep_view() == first_declarations(g),
            forall|i2: int, k2: int| dangling_at(g, i2, k2) ==> i2 >= i,
        decreases n - i,
    {
        let unit = &graph.units[i];
        let m = unit.dependencies.len();
        let mut k: usize = 0;
        while k < m
            invariant
                k <= m,
                i < n,
                n == graph.units.len(),
                g == graph@,
                unit == &graph.units[i as int],
                m == unit.dependencies.len(),
                units.deep_view() == first_declarations(g),
                forall|i2: int, k2: int| dangling_at(g, i2, k2) ==> i2 > i || (i2 == i && k2 >= k),
            decreases m - k,
        {
            let dep = &unit.dependencies[k];
            proof {
                lemma_first_declarations(g, dep@);
                assert(g[i as int].dependencies[k as int] == dep@);
            }
            if find_unit(units, dep).is_none() {
                proof {
                    assert(dangling_at(g, i as int, k as int));
                    assert(first_dangling_at(g, i as int, k as int));
                }
                return Some((unit.identity.clone(), dep.clone()));
            }
            k += 1;
        }
        i += 1;
    }
    None
}

/// For each unit, the index of each of its dependencies.
fn link_units(units: &Vec<CompilationUnit>) -> (links: Vec<Vec<usize>>)
    requires
        closed(units.deep_view()),
    ensures
        adjacency(links@) == resolve(units.deep_view()),
{
    let ghost u = units.deep_view();
    let n = units.len();
    let mut links: Vec<Vec<usize>> = Vec::new();
    let mut i: usize = 0;
    while i < n
        invariant
            i <= n,
            n == units.len(),
            u == units.deep_view(),
            closed(u),
            links@.len() == i,
            forall|j: int| 0 <= j < i ==> (#[trigger] links@[j])@ == resolve(u)[j],
        decreases n - i,
    {
        let unit = &units[i];
        let m = unit.dependencies.len();
        let mut row: Vec<usize> = Vec::new();
        let mut k: usize = 0;
        while k < m
            invariant
                k <= m,
                i < n,
                n == units.len(),
                u == units.deep_view(),
                closed(u),
                unit == &units[i as int],
                m == unit.dependencies.len(),
                row@.len() == k,
                forall|t: int| 0 <= t < k ==> #[trigger] row@[t] == resolve(u)[i as int][t],
            decreases m - k,
        {
            proof {
                assert(u[i as int].dependencies[k as int] == unit.dependencies[k as int]@);
                lemma_resolve(u, i as int, k as int);
                lemma_position(u, unit.dependencies[k as int]@);
            }
            match find_unit(units, &unit.dependencies[k]) {
                Some(t) => {
                    row.push(t);
                },
                None => {
                    unreached::<()>();
                },
            }
            k += 1;
        }
        assert(row@ =~= resolve(u)[i as int]);
        links.push(row);
        i += 1;
    }
    assert(adjacency(links@) =~= resolve(u));
    links
}

/// The identities of the units at the indices of `path`.
pub(crate) fn name_path(units: &Vec<CompilationUnit>, path: &Vec<usize>) -> (r: Vec<String>)
    requires
        forall|t: int| 0 <= t < path@.len() ==> (#[trigger] path@[t]) < units.len(),
    ensures
        r.deep_view() == names(units.deep_view(), path@),
{
    let n = path.len();
    let mut r: Vec<String> = Vec::new();
    let mut t: usize = 0;
    while t < n
        invariant
            t <= n,
            n == path.len(),
            forall|t: int| 0 <= t < path@.len() ==> (#[trigger] path@[t]) < units.len(),
            r@.len() == t,
            forall|j: int|
                0 <= j < t ==> (#[trigger] r@[j])@ == units.deep_view()[path@[j] as int].identity,
        decreases n - t,
    {
        r.push(units[path[t]].identity.clone());
        t += 1;
    }
    assert(r.deep_view() =~= names(units.deep_view(), path@));
    r
}

/// The identity of the first unit of `graph` that declares other
/// dependencies than the first unit with its identity, if there is one.
fn find_conflict(graph: &DependencyGraph, units: &Vec<CompilationUnit>) -> (r: Option<String>)
    requires
        units.deep_view() == first_declarations(graph@),
    ensures
        match r {
            Some(id) => exists|i: int|
                #[trigger] first_conflict_at(graph@, i) && id@ == graph@[i].identity,
            None => consistent(graph@),
        },
{
    let ghost g = graph@;
    let n = graph.units.len();
    let mut i: usize = 0;
    while i < n
        invariant
            i <= n,
            n == graph.units.len(),
            g == graph@,
            units.deep_view() == first_declarations(g),
            forall|j: int| conflict_at(g, j) ==> j >= i,
        decreases n - i,
    {
        let unit = &graph.units[i];
        proof {
            lemma_first_declarations(g, unit.identity@);
            assert(g[i as int] == unit@);
            assert(declares(g, unit.identity@));
        }
        match find_unit(units, &unit.identity) {
            Some(p) => {
                if !same_identities(&unit.dependencies, &units[p].dependencies) {
                    proof {
                        assert(conflict_at(g, i as int));
                        assert(first_conflict_at(g, i as int));
                    }
                    return Some(unit.identity.clone());
                }
            },
            None => {
                unreached::<()>();
            },
        }
        i += 1;
    }
    None
}

/// Checks `graph` for `entry_point`: that the entry point is declared, then
/// that no dependency dangles, then that there is no cycle, then that no
/// identity is declared twice with different dependencies. Hands back the
/// first failure, or the graph reduced to the first declaration of each
/// identity.
pub fn validate(graph: &DependencyGraph, entry_point: &String) -> (r: Result<
    ValidatedGraph,
    GraphError,
>)
    ensures
        validation(graph@, entry_point@, validation_view(r)),
        r matches Ok(v) ==> valid(v@) && declares(v@, entry_point@),
{
    let ghost g = graph@;
    let units = collect_first_declarations(graph);
    let ghost u = units.deep_view();
    proof {
        lemma_first_declarations(g, entry_point@);
        assert(u.len() == units.len());
    }
    let entry = match find_unit(&units, entry_point) {
        Some(e) => e,
        None => {
            return Err(GraphError::UnknownEntryPoint);
        },
    };
    if let Some((unit, missing)) = find_dangling(graph, &units) {
        return Err(GraphError::DanglingDependency(unit, missing));
    }
    proof {
        lemma_first_declarations_closed(g);
        lemma_first_declarations_acyclic(g);
    }
    let links = link_units(&units);
    proof {
        assert forall|i: int, k: int|
            0 <= i < resolve(u).len() && 0 <= k < resolve(u)[i].len() implies (
        #[trigger] resolve(u)[i][k]) < resolve(u).len() by {
            lemma_resolve(u, i, k);
        }
    }
    let (found, ranks) = find_cycle(&links, entry);
    if let Some(path) = found {
        let cycle = name_path(&units, &path);
        proof {
            lemma_index_cycle_names(u, path@);
            lemma_first_declarations_chain(g, names(u, path@));
        }
        return Err(GraphError::CyclicDependency(cycle));
    }
    proof {
        lemma_ranked_acyclic(u, ranks@);
    }
    if let Some(id) = find_conflict(graph, &units) {
        return Err(GraphError::InconsistentDefinition(id));
    }
    Ok(ValidatedGraph { units, links, ranks })
}

} // verus!
