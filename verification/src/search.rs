//! Depth-first search for a cycle in a graph given by indices.
//!
//! The graph is an arena: node `i` lists the indices of the nodes it depends
//! on. The search keeps its own stack, so its depth is bounded by memory and
//! not by the call stack.

use crate::tally::{
    lemma_tally_absent, lemma_tally_bound, lemma_tally_positive, lemma_tally_two,
    lemma_tally_update, tally,
};
use vstd::prelude::*;

verus! {

/// For each node, the nodes it depends on, in declaration order.
pub type Adjacency = Seq<Seq<usize>>;

/// Every dependency is the index of a node.
pub open spec fn in_range(adj: Adjacency) -> bool {
    forall|i: int, k: int|
        0 <= i < adj.len() && 0 <= k < adj[i].len() ==> (#[trigger] adj[i][k]) < adj.len()
}

/// What a depth-first walk finds when it stands on the last node of `stack`
/// and still has to follow that node's dependencies from number `k` on: the
/// first dependency that is already on the stack closes a cycle, which is
/// handed back from that node down to the top and back to that node.
///
/// A stack without repeats that is as long as the graph holds every node, so
/// that every dependency of its top is on it; the walk never goes deeper
/// from there, and the definition stops there, which makes it well founded.
pub open spec fn probe(adj: Adjacency, stack: Seq<usize>, k: int) -> Option<Seq<usize>>
    decreases adj.len() - stack.len(),
        (if stack.len() > 0 && stack.last() < adj.len() {
            adj[stack.last() as int].len() - k
        } else {
            0
        }),
{
    if stack.len() == 0 || stack.last() >= adj.len() || k < 0 || k >= adj[stack.last() as int].len(
    ) {
        None
    } else {
        let d = adj[stack.last() as int][k];
        if stack.contains(d) {
            Some(stack.subrange(stack.index_of(d), stack.len() as int).push(d))
        } else if stack.len() >= adj.len() {
            None
        } else {
            match probe(adj, stack.push(d), 0) {
                Some(c) => Some(c),
                None => probe(adj, stack, k + 1),
            }
        }
    }
}

/// The first cycle that depth-first walks from `roots`, taken in order, run into.
pub open spec fn first_cycle(adj: Adjacency, roots: Seq<usize>) -> Option<Seq<usize>>
    decreases roots.len(),
{
    if roots.len() == 0 {
        None
    } else {
        match probe(adj, seq![roots[0]], 0) {
            Some(c) => Some(c),
            None => first_cycle(adj, roots.drop_first()),
        }
    }
}

/// The roots of a full search: `first`, then every node in order.
pub open spec fn all_roots(n: nat, first: usize) -> Seq<usize> {
    seq![first] + Seq::new(n, |i: int| i as usize)
}

/// `path` leads along dependencies from a node back to itself.
pub open spec fn index_cycle(adj: Adjacency, path: Seq<usize>) -> bool {
    &&& path.len() >= 2
    &&& path[0] == path.last()
    &&& forall|t: int| 0 <= t < path.len() ==> (#[trigger] path[t]) < adj.len()
    &&& forall|t: int|
        0 <= t < path.len() - 1 ==> adj[(#[trigger] path[t]) as int].contains(path[t + 1])
}

/// Every node ranks above the nodes it depends on.
pub open spec fn ranked(adj: Adjacency, ranks: Seq<nat>) -> bool {
    &&& ranks.len() == adj.len()
    &&& forall|i: int, k: int|
        0 <= i < adj.len() && 0 <= k < adj[i].len() ==> ranks[(#[trigger] adj[i][k]) as int]
            < ranks[i]
}

/// What the search still has to deliver from a given state: what the walk
/// finds below the top of the stack, else what it finds below the node under
/// it, and so on down to the remaining roots.
spec fn resume(adj: Adjacency, stack: Seq<usize>, cursor: Seq<usize>, rest: Seq<usize>) -> Option<
    Seq<usize>,
>
    decreases stack.len(),
{
    if stack.len() == 0 {
        first_cycle(adj, rest)
    } else {
        match probe(adj, stack, cursor.last() as int) {
            Some(c) => Some(c),
            None => resume(adj, stack.drop_last(), cursor.drop_last(), rest),
        }
    }
}

/// No node of `s` is finished.
spec fn clear(color: Seq<u8>, s: Seq<usize>) -> bool {
    forall|t: int| 0 <= t < s.len() ==> (#[trigger] s[t]) < color.len() && color[s[t] as int] != 2
}

/// A walk that arrives at `v` over unfinished nodes finds nothing below `v`.
spec fn quiet(adj: Adjacency, color: Seq<u8>, v: usize) -> bool {
    forall|s: Seq<usize>| clear(color, s) ==> (#[trigger] probe(adj, s.push(v), 0)) is None
}

/// How many dependencies of the node at `j` of the stack have been followed to the end.
spec fn settled(stack: Seq<usize>, cursor: Seq<usize>, j: int) -> int {
    if j < stack.len() - 1 {
        cursor[j] - 1
    } else {
        cursor[j] as int
    }
}

/// The node at `j + 1` of the stack is the dependency that the node at `j` followed last.
spec fn hop(adj: Adjacency, stack: Seq<usize>, cursor: Seq<usize>, j: int) -> bool {
    cursor[j] >= 1 && adj[stack[j] as int][cursor[j] - 1] == stack[j + 1]
}

/// The state of a search: 0 marks a node not yet met, 1 a node on the stack,
/// 2 a finished node.
struct Search {
    color: Vec<u8>,
    stack: Vec<usize>,
    cursor: Vec<usize>,
    ranks: Ghost<Seq<nat>>,
}

/// What holds of the state of a search between two steps: the stack is a
/// chain of nodes on which the walk stands, without repeats; the marks say
/// which nodes are on it and which are finished; a finished node has only
/// finished dependencies, ranks above them, and is quiet.
#[verifier::opaque]
spec fn coherent(
    adj: Adjacency,
    color: Seq<u8>,
    stack: Seq<usize>,
    cursor: Seq<usize>,
    ranks: Seq<nat>,
) -> bool {
    &&& in_range(adj)
    &&& color.len() == adj.len()
    &&& ranks.len() == adj.len()
    &&& cursor.len() == stack.len()
    &&& stack.len() == tally(color, 1)
    &&& forall|v: int| 0 <= v < color.len() ==> #[trigger] color[v] <= 2
    &&& forall|j: int|
        0 <= j < stack.len() ==> (#[trigger] stack[j]) < adj.len() && color[stack[j] as int] == 1
            && cursor[j] <= adj[stack[j] as int].len()
    &&& forall|i: int, j: int| 0 <= i < j < stack.len() ==> stack[i] != stack[j]
    &&& forall|v: usize| v < color.len() && #[trigger] color[v as int] == 1 ==> stack.contains(v)
    &&& forall|j: int| 0 <= j < stack.len() - 1 ==> #[trigger] hop(adj, stack, cursor, j)
    &&& forall|j: int, k: int|
        0 <= j < stack.len() && 0 <= k < settled(stack, cursor, j) ==> color[(
        #[trigger] adj[stack[j] as int][k]) as int] == 2
    &&& forall|v: int, k: int|
        0 <= v < adj.len() && color[v] == 2 && 0 <= k < adj[v].len() ==> color[(
        #[trigger] adj[v][k]) as int] == 2 && ranks[adj[v][k] as int] < ranks[v]
    &&& forall|v: int| 0 <= v < adj.len() && #[trigger] color[v] == 2 ==> ranks[v] < tally(color, 2)
    &&& forall|v: usize| v < adj.len() && #[trigger] color[v as int] == 2 ==> quiet(adj, color, v)
}

impl Search {
    spec fn inv(&self, adj: Adjacency) -> bool {
        coherent(adj, self.color@, self.stack@, self.cursor@, self.ranks@)
    }
}

/// Finishing more nodes leaves the finished ones quiet.
proof fn lemma_quiet_stays(adj: Adjacency, color: Seq<u8>, after: Seq<u8>, v: usize)
    requires
        quiet(adj, color, v),
        after.len() == color.len(),
        forall|x: int| 0 <= x < color.len() && color[x] == 2 ==> after[x] == 2,
    ensures
        quiet(adj, after, v),
{
    assert forall|s: Seq<usize>| clear(after, s) implies (#[trigger] probe(adj, s.push(v), 0))
        is None by {
        assert(clear(color, s));
    }
}

/// Below a node whose dependencies are all finished, a walk finds nothing.
proof fn lemma_probe_finished(adj: Adjacency, color: Seq<u8>, v: usize, s: Seq<usize>, k: int)
    requires
        in_range(adj),
        color.len() == adj.len(),
        v < adj.len(),
        color[v as int] != 2,
        forall|i: int|
            0 <= i < adj[v as int].len() ==> color[(#[trigger] adj[v as int][i]) as int] == 2
                && quiet(adj, color, adj[v as int][i]),
        clear(color, s),
        0 <= k,
    ensures
        probe(adj, s.push(v), k) is None,
    decreases adj[v as int].len() - k,
{
    let stack = s.push(v);
    if k < adj[v as int].len() {
        let d = adj[v as int][k];
        assert(color[d as int] == 2);
        assert(!stack.contains(d)) by {
            if stack.contains(d) {
                let t = choose|t: int| 0 <= t < stack.len() && stack[t] == d;
                if t < s.len() {
                    assert(s[t] == d);
                }
            }
        }
        assert(clear(color, stack));
        assert(probe(adj, stack.push(d), 0) is None);
        lemma_probe_finished(adj, color, v, s, k + 1);
    }
}

/// Stepping over a finished dependency keeps the state coherent and the goal unchanged.
proof fn lemma_step_over(
    adj: Adjacency,
    color: Seq<u8>,
    stack: Seq<usize>,
    cursor: Seq<usize>,
    ranks: Seq<nat>,
    rest: Seq<usize>,
    next: usize,
)
    requires
        coherent(adj, color, stack, cursor, ranks),
        stack.len() > 0,
        cursor.last() < adj[stack.last() as int].len(),
        color[adj[stack.last() as int][cursor.last() as int] as int] == 2,
        next == cursor.last() + 1,
    ensures
        coherent(adj, color, stack, cursor.update(stack.len() - 1, next), ranks),
        resume(adj, stack, cursor.update(stack.len() - 1, next), rest) == resume(
            adj,
            stack,
            cursor,
            rest,
        ),
{
    reveal(coherent);
    let top = stack.len() - 1;
    let v = stack[top];
    let k = cursor[top] as int;
    let d = adj[v as int][k];
    let after = cursor.update(top, next);
    assert forall|j: int, i: int|
        0 <= j < stack.len() && 0 <= i < settled(stack, after, j) implies color[(
    #[trigger] adj[stack[j] as int][i]) as int] == 2 by {
        if j == top && i == k {
        } else {
            assert(i < settled(stack, cursor, j));
        }
    }
    assert forall|j: int| 0 <= j < stack.len() - 1 implies #[trigger] hop(
        adj,
        stack,
        after,
        j,
    ) by {
        assert(hop(adj, stack, cursor, j));
    }
    assert(coherent(adj, color, stack, after, ranks));
    assert(!stack.contains(d));
    lemma_tally_positive(color, 2, d as int);
    lemma_tally_two(color, 1, 2);
    assert(clear(color, stack));
    assert(probe(adj, stack.push(d), 0) is None);
    assert(probe(adj, stack, k) == probe(adj, stack, k + 1));
    assert(after.drop_last() =~= cursor.drop_last());
}

/// Descending into a dependency not met before keeps the state coherent and
/// the goal unchanged.
proof fn lemma_descend(
    adj: Adjacency,
    color: Seq<u8>,
    stack: Seq<usize>,
    cursor: Seq<usize>,
    ranks: Seq<nat>,
    rest: Seq<usize>,
    next: usize,
)
    requires
        coherent(adj, color, stack, cursor, ranks),
        stack.len() > 0,
        cursor.last() < adj[stack.last() as int].len(),
        color[adj[stack.last() as int][cursor.last() as int] as int] == 0,
        next == cursor.last() + 1,
    ensures
        ({
            let d = adj[stack.last() as int][cursor.last() as int];
            let below = cursor.update(stack.len() - 1, next).push(0);
            &&& coherent(adj, color.update(d as int, 1), stack.push(d), below, ranks)
            &&& resume(adj, stack.push(d), below, rest) == resume(adj, stack, cursor, rest)
        }),
{
    reveal(coherent);
    let top = stack.len() - 1;
    let v = stack[top];
    let k = cursor[top] as int;
    let d = adj[v as int][k];
    let moved = cursor.update(top, next);
    let below = moved.push(0);
    let after = color.update(d as int, 1);
    let deeper = stack.push(d);
    lemma_tally_update(color, d as int, 1, 1);
    lemma_tally_update(color, d as int, 1, 2);
    lemma_tally_positive(color, 0, d as int);
    lemma_tally_two(color, 0, 1);
    assert(!stack.contains(d));
    assert forall|x: usize|
        x < after.len() && #[trigger] after[x as int] == 1 implies deeper.contains(x) by {
        if x == d {
            assert(deeper[top + 1] == d);
        } else {
            assert(color[x as int] == 1);
            let t = choose|t: int| 0 <= t < stack.len() && stack[t] == x;
            assert(deeper[t] == x);
        }
    }
    assert forall|j: int, i: int|
        0 <= j < deeper.len() && 0 <= i < settled(deeper, below, j) implies after[(
    #[trigger] adj[deeper[j] as int][i]) as int] == 2 by {
        assert(j <= top);
        assert(i < settled(stack, cursor, j));
    }
    assert forall|x: usize| x < adj.len() && #[trigger] after[x as int] == 2 implies quiet(
        adj,
        after,
        x,
    ) by {
        lemma_quiet_stays(adj, color, after, x);
    }
    assert forall|j: int| 0 <= j < deeper.len() - 1 implies #[trigger] hop(
        adj,
        deeper,
        below,
        j,
    ) by {
        if j < top {
            assert(hop(adj, stack, cursor, j));
        }
    }
    assert(coherent(adj, after, deeper, below, ranks));
    assert(deeper.drop_last() =~= stack);
    assert(below.drop_last() =~= moved);
    assert(moved.drop_last() =~= cursor.drop_last());
    assert(resume(adj, deeper, below, rest) == match probe(adj, deeper, 0) {
        Some(c) => Some(c),
        None => resume(adj, stack, moved, rest),
    });
}

/// Leaving a node whose dependencies have all been followed keeps the state
/// coherent and the goal unchanged.
proof fn lemma_ascend(
    adj: Adjacency,
    color: Seq<u8>,
    stack: Seq<usize>,
    cursor: Seq<usize>,
    ranks: Seq<nat>,
    rest: Seq<usize>,
)
    requires
        coherent(adj, color, stack, cursor, ranks),
        stack.len() > 0,
        cursor.last() >= adj[stack.last() as int].len(),
    ensures
        ({
            let v = stack.last();
            &&& coherent(
                adj,
                color.update(v as int, 2),
                stack.drop_last(),
                cursor.drop_last(),
                ranks.update(v as int, tally(color, 2)),
            )
            &&& resume(adj, stack.drop_last(), cursor.drop_last(), rest) == resume(
                adj,
                stack,
                cursor,
                rest,
            )
        }),
{
    reveal(coherent);
    let top = stack.len() - 1;
    let v = stack[top];
    let after = color.update(v as int, 2);
    let shorter = stack.drop_last();
    let marks = cursor.drop_last();
    let ranked = ranks.update(v as int, tally(color, 2));
    lemma_tally_update(color, v as int, 2, 1);
    lemma_tally_update(color, v as int, 2, 2);
    assert forall|x: usize|
        x < after.len() && #[trigger] after[x as int] == 1 implies shorter.contains(x) by {
        assert(color[x as int] == 1);
        let t = choose|t: int| 0 <= t < stack.len() && stack[t] == x;
        assert(shorter[t] == x);
    }
    assert forall|j: int, i: int|
        0 <= j < shorter.len() && 0 <= i < settled(shorter, marks, j) implies after[(
    #[trigger] adj[shorter[j] as int][i]) as int] == 2 by {
        if i < settled(stack, cursor, j) {
        } else {
            assert(j == top - 1);
            assert(hop(adj, stack, cursor, j));
        }
    }
    assert forall|j: int| 0 <= j < shorter.len() - 1 implies #[trigger] hop(
        adj,
        shorter,
        marks,
        j,
    ) by {
        assert(hop(adj, stack, cursor, j));
    }
    assert forall|i: int| 0 <= i < adj[v as int].len() implies color[(
    #[trigger] adj[v as int][i]) as int] == 2 && quiet(adj, color, adj[v as int][i]) by {
        assert(i < settled(stack, cursor, top));
    }
    assert forall|x: int, i: int|
        0 <= x < adj.len() && after[x] == 2 && 0 <= i < adj[x].len() implies after[(
    #[trigger] adj[x][i]) as int] == 2 && ranked[adj[x][i] as int] < ranked[x] by {
        if x == v {
            assert(color[adj[v as int][i] as int] == 2);
        }
    }
    assert forall|x: usize| x < adj.len() && #[trigger] after[x as int] == 2 implies quiet(
        adj,
        after,
        x,
    ) by {
        if x == v {
            assert forall|s: Seq<usize>| clear(after, s) implies (#[trigger] probe(
                adj,
                s.push(v),
                0,
            )) is None by {
                assert(clear(color, s));
                lemma_probe_finished(adj, color, v, s, 0);
            }
        } else {
            lemma_quiet_stays(adj, color, after, x);
        }
    }
    assert(coherent(adj, after, shorter, marks, ranked));
    assert(probe(adj, stack, cursor.last() as int) is None);
}

/// Stepping onto a root not met before makes it the whole stack.
proof fn lemma_enter(adj: Adjacency, color: Seq<u8>, ranks: Seq<nat>, root: usize)
    requires
        coherent(adj, color, Seq::empty(), Seq::empty(), ranks),
        root < adj.len(),
        color[root as int] == 0,
    ensures
        coherent(adj, color.update(root as int, 1), seq![root], seq![0usize], ranks),
{
    reveal(coherent);
    let after = color.update(root as int, 1);
    let stack = seq![root];
    let cursor = seq![0usize];
    lemma_tally_update(color, root as int, 1, 1);
    lemma_tally_update(color, root as int, 1, 2);
    assert forall|x: usize|
        x < after.len() && #[trigger] after[x as int] == 1 implies stack.contains(x) by {
        if x != root {
            assert(color[x as int] == 1);
            assert(Seq::<usize>::empty().contains(x));
        }
        assert(stack[0] == root);
    }
    assert forall|x: int| 0 <= x < after.len() implies #[trigger] after[x] <= 2 by {
        assert(color[x] <= 2);
    }
    assert forall|x: usize| x < adj.len() && #[trigger] after[x as int] == 2 implies quiet(
        adj,
        after,
        x,
    ) by {
        lemma_quiet_stays(adj, color, after, x);
    }
}

/// What the loop of a walk reads off a coherent state.
proof fn lemma_top(
    adj: Adjacency,
    color: Seq<u8>,
    stack: Seq<usize>,
    cursor: Seq<usize>,
    ranks: Seq<nat>,
)
    requires
        coherent(adj, color, stack, cursor, ranks),
    ensures
        in_range(adj),
        color.len() == adj.len(),
        cursor.len() == stack.len(),
        tally(color, 2) <= adj.len(),
        forall|v: int| 0 <= v < color.len() ==> #[trigger] color[v] <= 2,
        forall|v: usize| v < color.len() && #[trigger] color[v as int] == 1 ==> stack.contains(v),
        stack.len() > 0 ==> stack.last() < adj.len() && cursor.last()
            <= adj[stack.last() as int].len() && color[stack.last() as int] == 1,
{
    reveal(coherent);
    lemma_tally_bound(color, 2);
}

/// A dependency that is on the stack closes a cycle, and it is the first one.
proof fn lemma_closing(
    adj: Adjacency,
    color: Seq<u8>,
    stack: Seq<usize>,
    cursor: Seq<usize>,
    ranks: Seq<nat>,
    rest: Seq<usize>,
    j: int,
)
    requires
        coherent(adj, color, stack, cursor, ranks),
        stack.len() > 0,
        cursor.last() < adj[stack.last() as int].len(),
        0 <= j < stack.len(),
        stack[j] == adj[stack.last() as int][cursor.last() as int],
    ensures
        ({
            let d = adj[stack.last() as int][cursor.last() as int];
            let path = stack.subrange(j, stack.len() as int).push(d);
            &&& resume(adj, stack, cursor, rest) == Some(path)
            &&& index_cycle(adj, path)
        }),
{
    reveal(coherent);
    let top = stack.len() - 1;
    let v = stack[top];
    let k = cursor[top] as int;
    let d = adj[v as int][k];
    let path = stack.subrange(j, stack.len() as int).push(d);
    assert(stack.contains(d));
    assert(stack.index_of(d) == j);
    assert(probe(adj, stack, k) == Some(path));
    assert forall|i: int| 0 <= i < path.len() implies (#[trigger] path[i]) < adj.len() by {
        if i < path.len() - 1 {
            assert(path[i] == stack[j + i]);
        }
    }
    assert forall|i: int| 0 <= i < path.len() - 1 implies adj[(#[trigger] path[i]) as int].contains(
        path[i + 1],
    ) by {
        assert(path[i] == stack[j + i]);
        if j + i < top {
            assert(hop(adj, stack, cursor, j + i));
            assert(path[i + 1] == stack[j + i + 1]);
            assert(adj[stack[j + i] as int][cursor[j + i] - 1] == path[i + 1]);
        } else {
            assert(adj[v as int][k] == d);
        }
    }
}

/// Before anything is met, the state is coherent.
proof fn lemma_fresh(adj: Adjacency, color: Seq<u8>, ranks: Seq<nat>)
    requires
        in_range(adj),
        color.len() == adj.len(),
        ranks.len() == adj.len(),
        forall|v: int| 0 <= v < color.len() ==> color[v] == 0,
    ensures
        coherent(adj, color, Seq::empty(), Seq::empty(), ranks),
{
    reveal(coherent);
    lemma_tally_absent(color, 1);
}

/// A walk from a finished root finds nothing.
proof fn lemma_finished_root(adj: Adjacency, color: Seq<u8>, ranks: Seq<nat>, root: usize)
    requires
        coherent(adj, color, Seq::empty(), Seq::empty(), ranks),
        root < adj.len(),
        color[root as int] != 0,
    ensures
        color[root as int] == 2,
        probe(adj, seq![root], 0) is None,
{
    reveal(coherent);
    if color[root as int] == 1 {
        assert(Seq::<usize>::empty().contains(root));
    }
    assert(color[root as int] <= 2);
    assert(clear(color, Seq::empty()));
    assert(Seq::<usize>::empty().push(root) =~= seq![root]);
    assert(probe(adj, Seq::<usize>::empty().push(root), 0) is None);
}

/// Once every node is finished, the ranks found rank the graph.
proof fn lemma_all_finished(adj: Adjacency, color: Seq<u8>, ranks: Seq<nat>)
    requires
        coherent(adj, color, Seq::empty(), Seq::empty(), ranks),
        forall|v: int| 0 <= v < adj.len() ==> color[v] == 2,
    ensures
        ranked(adj, ranks),
{
    reveal(coherent);
}

/// The dependency lists of `links`, as mathematics.
pub open spec fn adjacency(links: Seq<Vec<usize>>) -> Adjacency {
    Seq::new(links.len(), |i: int| links[i]@)
}

/// Walks depth-first from `root`, a node not met before, until the walk
/// comes back to the root or runs into a node on its own stack.
fn explore(
    links: &Vec<Vec<usize>>,
    search: Search,
    root: usize,
    Ghost(rest): Ghost<Seq<usize>>,
) -> (r: (Search, Option<Vec<usize>>))
    requires
        search.inv(adjacency(links@)),
        search.stack@.len() == 0,
        root < links.len(),
        search.color@[root as int] == 0,
    ensures
        match r.1 {
            Some(path) => {
                &&& first_cycle(adjacency(links@), seq![root] + rest) == Some(path@)
                &&& index_cycle(adjacency(links@), path@)
            },
            None => {
                &&& r.0.inv(adjacency(links@))
                &&& r.0.stack@.len() == 0
                &&& r.0.color@.len() == links.len()
                &&& r.0.color@[root as int] == 2
                &&& forall|v: int|
                    0 <= v < links.len() && search.color@[v] == 2 ==> r.0.color@[v] == 2
                &&& first_cycle(adjacency(links@), seq![root] + rest) == first_cycle(
                    adjacency(links@),
                    rest,
                )
            },
        },
{
    let ghost adj = adjacency(links@);
    let ghost goal = first_cycle(adj, seq![root] + rest);
    let ghost before = search.color@;
    let Search { color, stack, cursor, ranks } = search;
    let mut color = color;
    let mut stack = stack;
    let mut cursor = cursor;
    let mut ranks = ranks;
    proof {
        lemma_top(adj, color@, stack@, cursor@, ranks@);
        assert(stack@ =~= Seq::empty());
        assert(cursor@ =~= Seq::empty());
        lemma_enter(adj, color@, ranks@, root);
    }
    color.set(root, 1);
    stack.push(root);
    cursor.push(0);
    proof {
        assert(stack@ =~= seq![root]);
        assert(cursor@ =~= seq![0usize]);
        assert((seq![root] + rest).drop_first() =~= rest);
        assert(stack@.drop_last() =~= Seq::<usize>::empty());
        assert(cursor@.drop_last() =~= Seq::<usize>::empty());
        assert(resume(adj, Seq::empty(), Seq::empty(), rest) == first_cycle(adj, rest));
        assert(resume(adj, stack@, cursor@, rest) == goal);
    }
    while stack.len() > 0
        invariant
            adj == adjacency(links@),
            coherent(adj, color@, stack@, cursor@, ranks@),
            resume(adj, stack@, cursor@, rest) == goal,
            goal == first_cycle(adj, seq![root] + rest),
            color.len() == links.len(),
            root < color.len(),
            color@[root as int] != 0,
            before.len() == color.len(),
            forall|v: int| 0 <= v < before.len() && before[v] == 2 ==> color@[v] == 2,
        decreases
            adj.len() - tally(color@, 2),
            tally(color@, 0),
            (if stack.len() > 0 {
                adj[stack@.last() as int].len() - cursor@.last()
            } else {
                0
            }),
    {
        proof {
            lemma_top(adj, color@, stack@, cursor@, ranks@);
        }
        let top = stack.len() - 1;
        let v = stack[top];
        let k = cursor[top];
        if k < links[v].len() {
            let d = links[v][k];
            let c = color[d];
            if c == 1 {
                let mut j: usize = 0;
                while stack[j] != d
                    invariant
                        j < stack.len(),
                        stack@.contains(d),
                        forall|t: int| 0 <= t < j ==> stack@[t] != d,
                    decreases stack.len() - j,
                {
                    j += 1;
                }
                let mut path: Vec<usize> = Vec::new();
                let mut t: usize = j;
                while t < stack.len()
                    invariant
                        j <= t <= stack.len(),
                        path@ == stack@.subrange(j as int, t as int),
                    decreases stack.len() - t,
                {
                    path.push(stack[t]);
                    t += 1;
                    assert(path@ =~= stack@.subrange(j as int, t as int));
                }
                path.push(d);
                proof {
                    lemma_closing(adj, color@, stack@, cursor@, ranks@, rest, j as int);
                    assert(path@ =~= stack@.subrange(j as int, stack@.len() as int).push(d));
                }
                return (Search { color, stack, cursor, ranks }, Some(path));
            } else if c == 0 {
                proof {
                    lemma_descend(adj, color@, stack@, cursor@, ranks@, rest, (k + 1) as usize);
                    lemma_tally_update(color@, d as int, 1, 0);
                    lemma_tally_update(color@, d as int, 1, 2);
                }
                cursor.set(top, k + 1);
                color.set(d, 1);
                stack.push(d);
                cursor.push(0);
            } else {
                proof {
                    lemma_step_over(adj, color@, stack@, cursor@, ranks@, rest, (k + 1) as usize);
                }
                cursor.set(top, k + 1);
            }
        } else {
            proof {
                lemma_ascend(adj, color@, stack@, cursor@, ranks@, rest);
                lemma_tally_update(color@, v as int, 2, 2);
                ranks@ = ranks@.update(v as int, tally(color@, 2));
            }
            color.set(v, 2);
            stack.pop();
            cursor.pop();
            proof {
                lemma_tally_bound(color@, 2);
            }
        }
    }
    proof {
        lemma_top(adj, color@, stack@, cursor@, ranks@);
        if color@[root as int] == 1 {
            assert(stack@.contains(root));
        }
        assert(color@[root as int] <= 2);
        assert(goal == first_cycle(adj, rest));
    }
    (Search { color, stack, cursor, ranks }, None)
}

/// Searches below `root` unless an earlier walk has been there.
fn visit(
    links: &Vec<Vec<usize>>,
    search: Search,
    root: usize,
    Ghost(rest): Ghost<Seq<usize>>,
) -> (r: (Search, Option<Vec<usize>>))
    requires
        search.inv(adjacency(links@)),
        search.stack@.len() == 0,
        search.color@.len() == links.len(),
        root < links.len(),
    ensures
        match r.1 {
            Some(path) => {
                &&& first_cycle(adjacency(links@), seq![root] + rest) == Some(path@)
                &&& index_cycle(adjacency(links@), path@)
            },
            None => {
                &&& r.0.inv(adjacency(links@))
                &&& r.0.stack@.len() == 0
                &&& r.0.color@.len() == links.len()
                &&& r.0.color@[root as int] == 2
                &&& forall|v: int|
                    0 <= v < links.len() && search.color@[v] == 2 ==> r.0.color@[v] == 2
                &&& first_cycle(adjacency(links@), seq![root] + rest) == first_cycle(
                    adjacency(links@),
                    rest,
                )
            },
        },
{
    if search.color[root] == 0 {
        explore(links, search, root, Ghost(rest))
    } else {
        proof {
            assert(search.stack@ =~= Seq::empty());
            assert(search.cursor@ =~= Seq::empty()) by {
                lemma_top(
                    adjacency(links@),
                    search.color@,
                    search.stack@,
                    search.cursor@,
                    search.ranks@,
                );
            }
            lemma_finished_root(adjacency(links@), search.color@, search.ranks@, root);
            assert((seq![root] + rest).drop_first() =~= rest);
        }
        (search, None)
    }
}

/// Searches the whole graph depth-first for a cycle, starting below `first`
/// and then below every node in order. Hands back the first cycle met, or
/// for a graph without one a ranking of its nodes.
pub(crate) fn find_cycle(links: &Vec<Vec<usize>>, first: usize) -> (r: (
    Option<Vec<usize>>,
    Ghost<Seq<nat>>,
))
    requires
        in_range(adjacency(links@)),
        first < links.len(),
    ensures
        match r.0 {
            Some(path) => {
                &&& first_cycle(adjacency(links@), all_roots(links@.len(), first)) == Some(path@)
                &&& index_cycle(adjacency(links@), path@)
            },
            None => {
                &&& first_cycle(adjacency(links@), all_roots(links@.len(), first)) is None
                &&& ranked(adjacency(links@), r.1@)
            },
        },
{
    let n = links.len();
    let ghost adj = adjacency(links@);
    let ghost others = Seq::new(n as nat, |i: int| i as usize);
    let mut color: Vec<u8> = Vec::new();
    let mut i: usize = 0;
    while i < n
        invariant
            i <= n,
            color@.len() == i,
            forall|t: int| 0 <= t < i ==> color@[t] == 0,
        decreases n - i,
    {
        color.push(0);
        i += 1;
    }
    let mut search = Search {
        color,
        stack: Vec::new(),
        cursor: Vec::new(),
        ranks: Ghost(Seq::new(n as nat, |i: int| 0nat)),
    };
    proof {
        assert(search.stack@ =~= Seq::empty());
        assert(search.cursor@ =~= Seq::empty());
        lemma_fresh(adj, search.color@, search.ranks@);
        assert(all_roots(n as nat, first) =~= seq![first] + others);
    }
    let (after, found) = visit(links, search, first, Ghost(others));
    if found.is_some() {
        return (found, Ghost(Seq::empty()));
    }
    search = after;
    proof {
        assert(others.subrange(0, n as int) =~= others);
    }
    let mut i: usize = 0;
    while i < n
        invariant
            i <= n,
            n == links.len(),
            adj == adjacency(links@),
            others == Seq::new(n as nat, |i: int| i as usize),
            search.inv(adj),
            search.stack@.len() == 0,
            search.color@.len() == n,
            first_cycle(adj, all_roots(n as nat, first)) == first_cycle(
                adj,
                others.subrange(i as int, n as int),
            ),
            forall|t: int| 0 <= t < i ==> search.color@[t] == 2,
        decreases n - i,
    {
        proof {
            assert(seq![i] + others.subrange(i + 1, n as int) =~= others.subrange(
                i as int,
                n as int,
            ));
        }
        let ghost before = search.color@;
        let (after, found) = visit(links, search, i, Ghost(others.subrange(i + 1, n as int)));
        if found.is_some() {
            return (found, Ghost(Seq::empty()));
        }
        search = after;
        proof {
            assert forall|t: int| 0 <= t < i + 1 implies search.color@[t] == 2 by {
                if t < i {
                    assert(before[t] == 2);
                }
            }
        }
        i += 1;
    }
    proof {
        assert(others.subrange(n as int, n as int) =~= Seq::<usize>::empty());
        assert(search.stack@ =~= Seq::empty());
        assert(search.cursor@ =~= Seq::empty()) by {
            lemma_top(adj, search.color@, search.stack@, search.cursor@, search.ranks@);
        }
        lemma_all_finished(adj, search.color@, search.ranks@);
    }
    (None, search.ranks)
}

} // verus!
