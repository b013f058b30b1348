//! What a dependency graph means: which identities it declares, which unit
//! stands for an identity, what a cycle is, and when a graph is fit to be
//! scheduled. Everything here is mathematics over the graph's view.

use crate::model::{CompilationUnitView, GraphView, Id};
use crate::search::{all_roots, first_cycle, index_cycle, ranked, Adjacency};
use vstd::prelude::*;

verus! {

/// Some unit of `g` carries the identity `id`.
pub open spec fn declares(g: GraphView, id: Id) -> bool {
    exists|i: int| 0 <= i < g.len() && (#[trigger] g[i]).identity == id
}

/// Where `id` is first declared in `g`, or `g.len()` if it is not declared.
pub open spec fn position(g: GraphView, id: Id) -> int
    decreases g.len(),
{
    if g.len() == 0 {
        0
    } else {
        let before = position(g.drop_last(), id);
        if before < g.len() - 1 {
            before
        } else if g.last().identity == id {
            g.len() - 1
        } else {
            g.len() as int
        }
    }
}

/// The unit that stands for `id`: its first declaration.
pub open spec fn definition(g: GraphView, id: Id) -> CompilationUnitView {
    g[position(g, id)]
}

/// `a` is declared and the unit that stands for it lists `b` as a dependency.
pub open spec fn depends_on(g: GraphView, a: Id, b: Id) -> bool {
    declares(g, a) && definition(g, a).dependencies.contains(b)
}

/// The first declaration of every identity, in declaration order.
pub open spec fn first_declarations(g: GraphView) -> GraphView
    decreases g.len(),
{
    if g.len() == 0 {
        Seq::empty()
    } else if declares(g.drop_last(), g.last().identity) {
        first_declarations(g.drop_last())
    } else {
        first_declarations(g.drop_last()).push(g.last())
    }
}

/// No identity is declared twice.
pub open spec fn distinct(g: GraphView) -> bool {
    forall|i: int, j: int|
        0 <= i < g.len() && 0 <= j < g.len() && i != j ==> (#[trigger] g[i]).identity != (
        #[trigger] g[j]).identity
}

/// The dependency `k` of the unit at `i` names no unit of `g`.
pub open spec fn dangling_at(g: GraphView, i: int, k: int) -> bool {
    0 <= i < g.len() && 0 <= k < g[i].dependencies.len() && !declares(g, g[i].dependencies[k])
}

/// Every dependency of every unit names a unit of `g`.
pub open spec fn closed(g: GraphView) -> bool {
    forall|i: int, k: int| !dangling_at(g, i, k)
}

/// `(i, k)` is the first dangling dependency: no earlier unit has one, and the
/// unit at `i` has none before `k`.
pub open spec fn first_dangling_at(g: GraphView, i: int, k: int) -> bool {
    &&& dangling_at(g, i, k)
    &&& forall|i2: int, k2: int| dangling_at(g, i2, k2) ==> i < i2 || (i == i2 && k <= k2)
}

/// `path[k]` depends on `path[k + 1]`.
pub open spec fn link_at(g: GraphView, path: Seq<Id>, k: int) -> bool {
    depends_on(g, path[k], path[k + 1])
}

/// Each identity of `path` depends on the next one.
pub open spec fn is_chain(g: GraphView, path: Seq<Id>) -> bool {
    &&& path.len() >= 1
    &&& declares(g, path[0])
    &&& forall|k: int| 0 <= k < path.len() - 1 ==> #[trigger] link_at(g, path, k)
}

/// `path` is a dependency chain that comes back to where it starts.
pub open spec fn is_cycle(g: GraphView, path: Seq<Id>) -> bool {
    &&& is_chain(g, path)
    &&& path.len() >= 2
    &&& path[0] == path.last()
}

/// No dependency chain of `g` comes back to where it starts.
pub open spec fn acyclic(g: GraphView) -> bool {
    forall|path: Seq<Id>| !is_cycle(g, path)
}

/// The unit at `i` declares other dependencies than the unit that stands for
/// its identity.
pub open spec fn conflict_at(g: GraphView, i: int) -> bool {
    0 <= i < g.len() && g[i].dependencies != definition(g, g[i].identity).dependencies
}

/// Units with one identity declare the same dependencies.
pub open spec fn consistent(g: GraphView) -> bool {
    forall|i: int| !conflict_at(g, i)
}

/// The unit at `i` is the first that conflicts with an earlier declaration.
pub open spec fn first_conflict_at(g: GraphView, i: int) -> bool {
    &&& conflict_at(g, i)
    &&& forall|j: int| conflict_at(g, j) ==> i <= j
}

/// `id` can be reached from `from` along dependencies; every declared
/// identity reaches itself.
pub open spec fn reaches(g: GraphView, from: Id, id: Id) -> bool {
    exists|path: Seq<Id>| #[trigger] is_chain(g, path) && path[0] == from && path.last() == id
}

/// A graph fit to be scheduled: each identity declared once, every
/// dependency declared, no cycle.
pub open spec fn valid(g: GraphView) -> bool {
    &&& distinct(g)
    &&& closed(g)
    &&& acyclic(g)
}

/// `position` finds the first declaration, or runs off the end.
pub proof fn lemma_position(g: GraphView, id: Id)
    ensures
        0 <= position(g, id) <= g.len(),
        position(g, id) < g.len() ==> g[position(g, id)].identity == id,
        forall|j: int| 0 <= j < position(g, id) ==> (#[trigger] g[j]).identity != id,
        position(g, id) < g.len() <==> declares(g, id),
    decreases g.len(),
{
    if g.len() > 0 {
        let h = g.drop_last();
        lemma_position(h, id);
        assert forall|j: int| 0 <= j < position(g, id) implies (#[trigger] g[j]).identity
            != id by {
            if j < h.len() {
                assert(h[j] == g[j]);
            }
        }
        if position(g, id) < g.len() {
            let p = position(g, id);
            if p < h.len() {
                assert(h[p] == g[p]);
            }
            assert(g[p].identity == id);
        } else {
            assert forall|i: int| 0 <= i < g.len() implies (#[trigger] g[i]).identity != id by {
                if i < h.len() {
                    assert(h[i] == g[i]);
                }
            }
        }
    }
}

/// In a graph without repeated identities, a unit stands for its own identity.
pub proof fn lemma_position_distinct(g: GraphView, i: int)
    requires
        distinct(g),
        0 <= i < g.len(),
    ensures
        position(g, g[i].identity) == i,
        definition(g, g[i].identity) == g[i],
{
    lemma_position(g, g[i].identity);
}

/// The graph by indices: for each unit, where each of its dependencies is
/// first declared.
pub open spec fn resolve(g: GraphView) -> Adjacency {
    Seq::new(
        g.len(),
        |i: int|
            Seq::new(
                g[i].dependencies.len(),
                |k: int| position(g, g[i].dependencies[k]) as usize,
            ),
    )
}

/// The identities of the units at the indices of `path`.
pub open spec fn names(g: GraphView, path: Seq<usize>) -> Seq<Id> {
    Seq::new(path.len(), |t: int| g[path[t] as int].identity)
}

/// The cycle that a depth-first walk over the first declarations of `g` meets
/// first, when it starts at `entry` and then at every unit in declaration
/// order, and follows dependencies in declaration order.
pub open spec fn first_cycle_of(g: GraphView, entry: Id) -> Option<Seq<Id>> {
    let u = first_declarations(g);
    match first_cycle(resolve(u), all_roots(u.len(), position(u, entry) as usize)) {
        Some(path) => Some(names(u, path)),
        None => None,
    }
}

/// The first declarations repeat no identity, declare what the graph
/// declares, and stand for every identity as the graph does.
pub proof fn lemma_first_declarations(g: GraphView, id: Id)
    ensures
        distinct(first_declarations(g)),
        first_declarations(g).len() <= g.len(),
        declares(first_declarations(g), id) == declares(g, id),
        declares(g, id) ==> definition(first_declarations(g), id) == definition(g, id),
    decreases g.len(),
{
    let u = first_declarations(g);
    if g.len() > 0 {
        let h = g.drop_last();
        let x = g.last();
        let uh = first_declarations(h);
        lemma_first_declarations(h, id);
        lemma_first_declarations(h, x.identity);
        lemma_position(g, id);
        lemma_position(h, id);
        lemma_position(u, id);
        lemma_position(uh, id);
        assert(declares(g, id) == (declares(h, id) || x.identity == id)) by {
            if declares(h, id) {
                let i = choose|i: int| 0 <= i < h.len() && (#[trigger] h[i]).identity == id;
                assert(g[i] == h[i]);
            }
            if x.identity == id {
                assert(g[g.len() - 1].identity == id);
            }
            if declares(g, id) {
                let i = choose|i: int| 0 <= i < g.len() && (#[trigger] g[i]).identity == id;
                if i < h.len() {
                    assert(h[i] == g[i]);
                }
            }
        }
        if declares(h, x.identity) {
            assert(u == uh);
            if declares(g, id) {
                assert(g[position(h, id)] == h[position(h, id)]);
            }
        } else {
            assert(u == uh.push(x));
            assert(u.drop_last() =~= uh);
            assert(distinct(u)) by {
                assert forall|i: int, j: int|
                    0 <= i < u.len() && 0 <= j < u.len() && i != j implies (
                #[trigger] u[i]).identity != (#[trigger] u[j]).identity by {
                    if i < uh.len() {
                        assert(u[i] == uh[i]);
                    }
                    if j < uh.len() {
                        assert(u[j] == uh[j]);
                    }
                }
            }
            assert(declares(u, id) == (declares(uh, id) || x.identity == id)) by {
                if declares(uh, id) {
                    let i = choose|i: int| 0 <= i < uh.len() && (#[trigger] uh[i]).identity == id;
                    assert(u[i] == uh[i]);
                }
                if x.identity == id {
                    assert(u[u.len() - 1].identity == id);
                }
                if declares(u, id) {
                    let i = choose|i: int| 0 <= i < u.len() && (#[trigger] u[i]).identity == id;
                    if i < uh.len() {
                        assert(uh[i] == u[i]);
                    }
                }
            }
            if declares(g, id) {
                if declares(h, id) {
                    assert(g[position(h, id)] == h[position(h, id)]);
                    assert(u[position(uh, id)] == uh[position(uh, id)]);
                }
            }
        }
    }
}

/// The first declarations depend on one another as the units of the graph do.
pub proof fn lemma_first_declarations_links(g: GraphView, a: Id, b: Id)
    ensures
        depends_on(first_declarations(g), a, b) == depends_on(g, a, b),
{
    lemma_first_declarations(g, a);
}

/// The first declarations have the dependency chains of the graph.
pub proof fn lemma_first_declarations_chain(g: GraphView, path: Seq<Id>)
    ensures
        is_chain(first_declarations(g), path) == is_chain(g, path),
        is_cycle(first_declarations(g), path) == is_cycle(g, path),
{
    let u = first_declarations(g);
    if path.len() >= 1 {
        lemma_first_declarations(g, path[0]);
        if is_chain(g, path) {
            assert forall|k: int| 0 <= k < path.len() - 1 implies #[trigger] link_at(
                u,
                path,
                k,
            ) by {
                assert(link_at(g, path, k));
                lemma_first_declarations_links(g, path[k], path[k + 1]);
            }
        }
        if is_chain(u, path) {
            assert forall|k: int| 0 <= k < path.len() - 1 implies #[trigger] link_at(
                g,
                path,
                k,
            ) by {
                assert(link_at(u, path, k));
                lemma_first_declarations_links(g, path[k], path[k + 1]);
            }
        }
    }
}

/// The first declarations have a cycle exactly when the graph has one, and
/// reach what the graph reaches.
pub proof fn lemma_first_declarations_acyclic(g: GraphView)
    ensures
        acyclic(first_declarations(g)) == acyclic(g),
        forall|from: Id, id: Id|
            reaches(first_declarations(g), from, id) == #[trigger] reaches(g, from, id),
{
    let u = first_declarations(g);
    assert forall|path: Seq<Id>| is_cycle(u, path) == is_cycle(g, path) by {
        lemma_first_declarations_chain(g, path);
    }
    assert forall|from: Id, id: Id| reaches(u, from, id) == #[trigger] reaches(g, from, id) by {
        if reaches(u, from, id) {
            let path = choose|path: Seq<Id>|
                #[trigger] is_chain(u, path) && path[0] == from && path.last() == id;
            lemma_first_declarations_chain(g, path);
        }
        if reaches(g, from, id) {
            let path = choose|path: Seq<Id>|
                #[trigger] is_chain(g, path) && path[0] == from && path.last() == id;
            lemma_first_declarations_chain(g, path);
        }
    }
}

/// Every first declaration is a unit of the graph.
pub proof fn lemma_first_declarations_source(g: GraphView, j: int)
    requires
        0 <= j < first_declarations(g).len(),
    ensures
        0 <= position(g, first_declarations(g)[j].identity) < g.len(),
        first_declarations(g)[j] == g[position(g, first_declarations(g)[j].identity)],
{
    let u = first_declarations(g);
    let id = u[j].identity;
    lemma_first_declarations(g, id);
    lemma_position_distinct(u, j);
    lemma_position(g, id);
}

/// If the graph leaves no dependency dangling, neither do its first declarations.
pub proof fn lemma_first_declarations_closed(g: GraphView)
    requires
        closed(g),
    ensures
        closed(first_declarations(g)),
{
    let u = first_declarations(g);
    assert forall|j: int, k: int| !dangling_at(u, j, k) by {
        if 0 <= j < u.len() && 0 <= k < u[j].dependencies.len() {
            lemma_first_declarations_source(g, j);
            let i = position(g, u[j].identity);
            assert(!dangling_at(g, i, k));
            lemma_first_declarations(g, u[j].dependencies[k]);
        }
    }
}

/// What the index graph says of a valid graph: dependency `k` of unit `i`
/// leads to the unit that carries the dependency's name.
pub proof fn lemma_resolve(g: GraphView, i: int, k: int)
    requires
        closed(g),
        g.len() <= usize::MAX,
        0 <= i < g.len(),
        0 <= k < g[i].dependencies.len(),
    ensures
        resolve(g)[i][k] < g.len(),
        g[resolve(g)[i][k] as int].identity == g[i].dependencies[k],
        resolve(g)[i][k] == position(g, g[i].dependencies[k]),
{
    assert(!dangling_at(g, i, k));
    lemma_position(g, g[i].dependencies[k]);
}

/// A cycle of indices is a cycle of identities.
pub proof fn lemma_index_cycle_names(g: GraphView, path: Seq<usize>)
    requires
        distinct(g),
        closed(g),
        g.len() <= usize::MAX,
        index_cycle(resolve(g), path),
    ensures
        is_cycle(g, names(g, path)),
{
    let p = names(g, path);
    assert(p[0] == g[path[0] as int].identity);
    assert forall|t: int| 0 <= t < p.len() - 1 implies #[trigger] link_at(g, p, t) by {
        let i = path[t] as int;
        assert(resolve(g)[i].contains(path[t + 1]));
        let k = choose|k: int| 0 <= k < resolve(g)[i].len() && resolve(g)[i][k] == path[t + 1];
        lemma_resolve(g, i, k);
        lemma_position_distinct(g, i);
        assert(g[i].dependencies[k] == p[t + 1]);
    }
}

/// Along a dependency chain the ranks fall.
proof fn lemma_rank_falls(g: GraphView, ranks: Seq<nat>, path: Seq<Id>, k: int)
    requires
        closed(g),
        g.len() <= usize::MAX,
        ranked(resolve(g), ranks),
        is_chain(g, path),
        0 <= k < path.len(),
    ensures
        0 <= position(g, path[k]) < g.len(),
        k > 0 ==> ranks[position(g, path[k])] < ranks[position(g, path[0])],
    decreases k,
{
    lemma_position(g, path[0]);
    if k > 0 {
        lemma_rank_falls(g, ranks, path, k - 1);
        assert(link_at(g, path, k - 1));
        let i = position(g, path[k - 1]);
        let t = choose|t: int|
            0 <= t < g[i].dependencies.len() && g[i].dependencies[t] == path[k];
        lemma_resolve(g, i, t);
    }
}

/// A graph whose units can be ranked above their dependencies has no cycle.
pub proof fn lemma_ranked_acyclic(g: GraphView, ranks: Seq<nat>)
    requires
        closed(g),
        g.len() <= usize::MAX,
        ranked(resolve(g), ranks),
    ensures
        acyclic(g),
{
    assert forall|path: Seq<Id>| !is_cycle(g, path) by {
        if is_cycle(g, path) {
            lemma_rank_falls(g, ranks, path, path.len() - 1);
        }
    }
}

/// Every declared identity reaches itself.
pub proof fn lemma_reaches_self(g: GraphView, id: Id)
    requires
        declares(g, id),
    ensures
        reaches(g, id, id),
{
    let path = seq![id];
    assert(is_chain(g, path) && path[0] == id && path.last() == id);
}

/// What reaches a unit reaches what the unit depends on.
pub proof fn lemma_reaches_step(g: GraphView, a: Id, b: Id, c: Id)
    requires
        reaches(g, a, b),
        depends_on(g, b, c),
    ensures
        reaches(g, a, c),
{
    let path = choose|path: Seq<Id>|
        #[trigger] is_chain(g, path) && path[0] == a && path.last() == b;
    let longer = path.push(c);
    assert forall|k: int| 0 <= k < longer.len() - 1 implies #[trigger] link_at(g, longer, k) by {
        if k < path.len() - 1 {
            assert(link_at(g, path, k));
        }
    }
    assert(is_chain(g, longer) && longer[0] == a && longer.last() == c);
}

/// In a valid graph, a unit depends on the unit that the index graph links it to.
pub proof fn lemma_link(g: GraphView, i: int, k: int)
    requires
        distinct(g),
        closed(g),
        g.len() <= usize::MAX,
        0 <= i < g.len(),
        0 <= k < g[i].dependencies.len(),
    ensures
        resolve(g)[i][k] < g.len(),
        g[resolve(g)[i][k] as int].identity == g[i].dependencies[k],
        depends_on(g, g[i].identity, g[resolve(g)[i][k] as int].identity),
{
    lemma_resolve(g, i, k);
    lemma_position_distinct(g, i);
    assert(g[i].dependencies.contains(g[i].dependencies[k]));
    assert(declares(g, g[i].identity));
}

/// In a graph without dangling dependencies, what is reached is declared.
pub proof fn lemma_reaches_declared(g: GraphView, from: Id, id: Id)
    requires
        closed(g),
        reaches(g, from, id),
    ensures
        declares(g, from),
        declares(g, id),
{
    let path = choose|path: Seq<Id>|
        #[trigger] is_chain(g, path) && path[0] == from && path.last() == id;
    if path.len() > 1 {
        let k = path.len() - 2;
        assert(link_at(g, path, k));
        lemma_position(g, path[k]);
        let i = position(g, path[k]);
        let t = choose|t: int| 0 <= t < g[i].dependencies.len() && g[i].dependencies[t] == id;
        assert(!dangling_at(g, i, t));
    }
}

} // verus!
