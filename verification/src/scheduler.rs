//! Puts the units that an entry point needs in the order in which they are
//! to be compiled: dependencies before dependents, and of the units that
//! could come next the one whose identity is least.

use crate::graph::{
    closed, declares, definition, distinct, is_chain, lemma_link, lemma_position,
    lemma_position_distinct, lemma_reaches_declared, lemma_reaches_self, lemma_reaches_step,
    lemma_resolve, link_at, names, position, reaches, resolve,
};
use crate::lex::{lemma_lex_le_transitive, lemma_lex_total, lex_le, lex_less, to_chars};
use crate::model::{GraphView, Id};
use crate::search::{adjacency, ranked, Adjacency};
use crate::tally::{lemma_tally_absent, lemma_tally_bound, lemma_tally_update, tally};
use crate::validator::{find_unit, name_path, ValidatedGraph};
use vstd::prelude::*;

verus! {

/// `id` can come next after the units of `placed`: it is declared, it is not
/// among them, and all its dependencies are.
pub open spec fn ready(g: GraphView, placed: Seq<Id>, id: Id) -> bool {
    &&& declares(g, id)
    &&& !placed.contains(id)
    &&& forall|k: int|
        0 <= k < definition(g, id).dependencies.len() ==> placed.contains(
            #[trigger] definition(g, id).dependencies[k],
        )
}

/// Every unit of `ord` is declared, stands there once, and stands after all
/// its dependencies.
pub open spec fn is_ordered(g: GraphView, ord: Seq<Id>) -> bool {
    forall|i: int| 0 <= i < ord.len() ==> #[trigger] ready(g, ord.take(i), ord[i])
}

/// `ord` holds exactly the units that `entry` reaches, each one once and
/// after all its dependencies.
pub open spec fn is_schedule(g: GraphView, entry: Id, ord: Seq<Id>) -> bool {
    &&& forall|id: Id| #[trigger] ord.contains(id) <==> reaches(g, entry, id)
    &&& is_ordered(g, ord)
}

/// At every place of `ord` stands the least of the identities that `entry`
/// reaches and that could stand there.
pub open spec fn least_first(g: GraphView, entry: Id, ord: Seq<Id>) -> bool {
    forall|i: int, id: Id|
        0 <= i < ord.len() && reaches(g, entry, id) && #[trigger] ready(g, ord.take(i), id)
            ==> lex_le(ord[i], id)
}

/// Where `id` stands in `ord`.
proof fn lemma_place_of(ord: Seq<Id>, id: Id) -> (t: int)
    requires
        ord.contains(id),
    ensures
        0 <= t < ord.len(),
        ord[t] == id,
{
    choose|t: int| 0 <= t < ord.len() && ord[t] == id
}

/// In an ordered list no identity stands twice.
pub proof fn lemma_ordered_once(g: GraphView, ord: Seq<Id>, i: int, j: int)
    requires
        is_ordered(g, ord),
        0 <= i < ord.len(),
        0 <= j < ord.len(),
        ord[i] == ord[j],
    ensures
        i == j,
{
    if i < j {
        assert(ready(g, ord.take(j), ord[j]));
        assert(ord.take(j)[i] == ord[i]);
    }
    if j < i {
        assert(ready(g, ord.take(i), ord[i]));
        assert(ord.take(i)[j] == ord[j]);
    }
}

/// In an ordered list, a unit that stands in it stands after every other
/// unit it reaches, and they all stand in it.
pub proof fn lemma_reached_before(
    g: GraphView,
    ord: Seq<Id>,
    path: Seq<Id>,
    i: int,
    k: int,
) -> (j: int)
    requires
        is_ordered(g, ord),
        is_chain(g, path),
        0 <= i < ord.len(),
        ord[i] == path[0],
        0 <= k < path.len(),
    ensures
        0 <= j <= i,
        ord[j] == path[k],
        k > 0 ==> j < i,
    decreases k,
{
    if k == 0 {
        i
    } else {
        let before = lemma_reached_before(g, ord, path, i, k - 1);
        assert(link_at(g, path, k - 1));
        assert(ready(g, ord.take(before), ord[before]));
        let deps = definition(g, path[k - 1]).dependencies;
        let t = choose|t: int| 0 <= t < deps.len() && deps[t] == path[k];
        assert(ord.take(before).contains(deps[t]));
        let j = lemma_place_of(ord.take(before), path[k]);
        assert(ord[j] == path[k]);
        j
    }
}

/// The entry point is the last unit of its schedule.
pub proof fn lemma_entry_last(g: GraphView, entry: Id, ord: Seq<Id>)
    requires
        is_schedule(g, entry, ord),
        declares(g, entry),
    ensures
        ord.len() > 0,
        ord.last() == entry,
{
    lemma_reaches_self(g, entry);
    let e = lemma_place_of(ord, entry);
    let last = ord.last();
    assert(ord.contains(last)) by {
        assert(ord[ord.len() - 1] == last);
    }
    let path = choose|path: Seq<Id>|
        #[trigger] is_chain(g, path) && path[0] == entry && path.last() == last;
    let j = lemma_reached_before(g, ord, path, e, path.len() - 1);
    lemma_ordered_once(g, ord, j, ord.len() - 1);
}

/// The dependencies of `v` before number `upto` are all marked.
spec fn row_marked(adj: Adjacency, marks: Seq<u8>, v: int, upto: int) -> bool {
    forall|k: int|
        0 <= k < upto ==> (#[trigger] adj[v][k]) < marks.len() && marks[adj[v][k] as int] == 1
}

/// Every marked node outside `work` has all its dependencies marked.
spec fn marks_settled(adj: Adjacency, marks: Seq<u8>, work: Seq<usize>, but: int) -> bool {
    forall|v: int|
        0 <= v < adj.len() && #[trigger] marks[v] == 1 && !work.contains(v as usize) && v != but
            ==> row_marked(adj, marks, v, adj[v].len() as int)
}

/// Every marked node is one that the unit at `e` reaches.
spec fn marks_sound(g: GraphView, marks: Seq<u8>, e: int) -> bool {
    forall|v: int|
        0 <= v < g.len() && #[trigger] marks[v] == 1 ==> reaches(g, g[e].identity, g[v].identity)
}

/// Marks that hold a node and the dependencies of every node they hold, hold
/// every node that node reaches.
proof fn lemma_marks_cover(g: GraphView, marks: Seq<u8>, e: int, path: Seq<Id>, k: int)
    requires
        distinct(g),
        closed(g),
        g.len() <= usize::MAX,
        marks.len() == g.len(),
        0 <= e < g.len(),
        marks[e] == 1,
        marks_settled(resolve(g), marks, Seq::empty(), -1),
        is_chain(g, path),
        path[0] == g[e].identity,
        0 <= k < path.len(),
    ensures
        0 <= position(g, path[k]) < g.len(),
        marks[position(g, path[k])] == 1,
    decreases k,
{
    lemma_position(g, path[k]);
    if k == 0 {
        lemma_position_distinct(g, e);
    } else {
        lemma_marks_cover(g, marks, e, path, k - 1);
        assert(link_at(g, path, k - 1));
        let i = position(g, path[k - 1]);
        let t = choose|t: int|
            0 <= t < g[i].dependencies.len() && g[i].dependencies[t] == path[k];
        lemma_resolve(g, i, t);
        assert(!Seq::<usize>::empty().contains(i as usize));
        assert(row_marked(resolve(g), marks, i, resolve(g)[i].len() as int));
    }
}

/// Marking more nodes leaves a marked row marked.
proof fn lemma_row_kept(adj: Adjacency, before: Seq<u8>, after: Seq<u8>, v: int, upto: int)
    requires
        row_marked(adj, before, v, upto),
        after.len() == before.len(),
        forall|x: int| 0 <= x < before.len() && before[x] == 1 ==> after[x] == 1,
    ensures
        row_marked(adj, after, v, upto),
{
    assert forall|k: int| 0 <= k < upto implies (#[trigger] adj[v][k]) < after.len()
        && after[adj[v][k] as int] == 1 by {
        assert(before[adj[v][k] as int] == 1);
    }
}

/// A list of `n` zeros.
fn zeros(n: usize) -> (v: Vec<u8>)
    ensures
        v@.len() == n,
        forall|i: int| 0 <= i < n ==> v@[i] == 0,
{
    let mut v: Vec<u8> = Vec::new();
    let mut i: usize = 0;
    while i < n
        invariant
            i <= n,
            v@.len() == i,
            forall|t: int| 0 <= t < i ==> v@[t] == 0,
        decreases n - i,
    {
        v.push(0);
        i += 1;
    }
    v
}

/// Marks with 1 the units that the unit at `e` reaches, itself included.
fn mark_needed(graph: &ValidatedGraph, e: usize) -> (marks: Vec<u8>)
    requires
        e < graph.units.len(),
    ensures
        marks@.len() == graph.units.len(),
        forall|v: int| 0 <= v < marks@.len() ==> #[trigger] marks@[v] <= 1,
        forall|v: int|
            0 <= v < marks@.len() ==> (#[trigger] marks@[v] == 1 <==> reaches(
                graph.units.deep_view(),
                graph.units.deep_view()[e as int].identity,
                graph.units.deep_view()[v].identity,
            )),
        marks@[e as int] == 1,
        marks_settled(resolve(graph.units.deep_view()), marks@, Seq::empty(), -1),
{
    proof {
        use_type_invariant(graph);
    }
    let n = graph.units.len();
    let ghost g = graph.units.deep_view();
    let ghost adj = resolve(g);
    let mut marks = zeros(n);
    let mut work: Vec<usize> = Vec::new();
    marks.set(e, 1);
    work.push(e);
    proof {
        assert(g.len() == n);
        assert(declares(g, g[e as int].identity));
        lemma_reaches_self(g, g[e as int].identity);
        assert(work@[0] == e);
        assert forall|v: int|
            0 <= v < adj.len() && #[trigger] marks@[v] == 1 && !work@.contains(v as usize) && v
                != -1 implies row_marked(adj, marks@, v, adj[v].len() as int) by {
            assert(v == e);
        }
    }
    while work.len() > 0
        invariant
            n == graph.units.len(),
            g == graph.units.deep_view(),
            g.len() == n,
            adj == resolve(g),
            adj == adjacency(graph.links@),
            distinct(g),
            closed(g),
            e < n,
            marks@.len() == n,
            marks@[e as int] == 1,
            forall|v: int| 0 <= v < n ==> #[trigger] marks@[v] <= 1,
            forall|t: int|
                0 <= t < work@.len() ==> (#[trigger] work@[t]) < n && marks@[work@[t] as int] == 1,
            marks_sound(g, marks@, e as int),
            marks_settled(adj, marks@, work@, -1),
        decreases tally(marks@, 0), work@.len(),
    {
        let ghost t0 = tally(marks@, 0);
        let ghost w0 = work@.len();
        let ghost full = work@;
        let v = work.pop().unwrap();
        let m = graph.links[v].len();
        let mut k: usize = 0;
        proof {
            assert(v == full[full.len() - 1]);
            assert forall|x: int|
                0 <= x < adj.len() && #[trigger] marks@[x] == 1 && !work@.contains(x as usize) && x
                    != v implies row_marked(adj, marks@, x, adj[x].len() as int) by {
                if full.contains(x as usize) {
                    let t = choose|t: int| 0 <= t < full.len() && full[t] == x as usize;
                    assert(work@[t] == x as usize);
                }
            }
        }
        while k < m
            invariant
                k <= m,
                m == graph.links@[v as int]@.len(),
                n == graph.units.len(),
                g == graph.units.deep_view(),
                g.len() == n,
                adj == resolve(g),
                adj == adjacency(graph.links@),
                distinct(g),
                closed(g),
                e < n,
                v < n,
                marks@.len() == n,
                marks@[e as int] == 1,
                marks@[v as int] == 1,
                forall|x: int| 0 <= x < n ==> #[trigger] marks@[x] <= 1,
                forall|t: int|
                    0 <= t < work@.len() ==> (#[trigger] work@[t]) < n && marks@[work@[t] as int]
                        == 1,
                marks_sound(g, marks@, e as int),
                marks_settled(adj, marks@, work@, v as int),
                row_marked(adj, marks@, v as int, k as int),
                tally(marks@, 0) < t0 || (tally(marks@, 0) == t0 && work@.len() == w0 - 1),
            decreases m - k,
        {
            let d = graph.links[v][k];
            proof {
                assert(adj[v as int] == graph.links@[v as int]@);
                assert(adj[v as int].len() == g[v as int].dependencies.len());
                lemma_link(g, v as int, k as int);
                assert(adj[v as int][k as int] == d);
            }
            if marks[d] == 0 {
                let ghost before = marks@;
                let ghost queue = work@;
                proof {
                    lemma_tally_update(marks@, d as int, 1, 0);
                    lemma_reaches_step(
                        g,
                        g[e as int].identity,
                        g[v as int].identity,
                        g[d as int].identity,
                    );
                }
                marks.set(d, 1);
                work.push(d);
                proof {
                    assert(work@[queue.len() as int] == d);
                    assert forall|x: int|
                        0 <= x < adj.len() && #[trigger] marks@[x] == 1 && !work@.contains(
                            x as usize,
                        ) && x != v implies row_marked(adj, marks@, x, adj[x].len() as int) by {
                        assert(x != d);
                        assert(before[x] == 1);
                        if queue.contains(x as usize) {
                            let t = choose|t: int| 0 <= t < queue.len() && queue[t] == x as usize;
                            assert(work@[t] == x as usize);
                        }
                        assert(row_marked(adj, before, x, adj[x].len() as int));
                        lemma_row_kept(adj, before, marks@, x, adj[x].len() as int);
                    }
                    lemma_row_kept(adj, before, marks@, v as int, k as int);
                    assert(marks_sound(g, marks@, e as int)) by {
                        assert forall|x: int|
                            0 <= x < g.len() && #[trigger] marks@[x] == 1 implies reaches(
                            g,
                            g[e as int].identity,
                            g[x].identity,
                        ) by {
                            if x != d {
                                assert(before[x] == 1);
                            }
                        }
                    }
                }
            }
            assert(row_marked(adj, marks@, v as int, k as int + 1));
            k += 1;
        }
        proof {
            assert(adj[v as int] == graph.links@[v as int]@);
        }
    }
    proof {
        assert(work@ =~= Seq::empty());
        assert forall|x: int| 0 <= x < marks@.len() implies (#[trigger] marks@[x] == 1 <==> reaches(
            g,
            g[e as int].identity,
            g[x].identity,
        )) by {
            if reaches(g, g[e as int].identity, g[x].identity) {
                let path = choose|path: Seq<Id>|
                    #[trigger] is_chain(g, path) && path[0] == g[e as int].identity && path.last()
                        == g[x].identity;
                lemma_marks_cover(g, marks@, e as int, path, path.len() - 1);
                lemma_position_distinct(g, x);
            }
        }
    }
    marks
}

/// The node `v` is needed, not yet placed, and all its dependencies are placed.
spec fn eligible(adj: Adjacency, marks: Seq<u8>, placed: Seq<u8>, v: int) -> bool {
    &&& 0 <= v < adj.len()
    &&& marks[v] == 1
    &&& placed[v] == 0
    &&& row_marked(adj, placed, v, adj[v].len() as int)
}

/// The marks are those of the units that `entry` reaches.
spec fn marks_exact(g: GraphView, entry: Id, marks: Seq<u8>) -> bool {
    &&& marks.len() == g.len()
    &&& forall|v: int|
        0 <= v < g.len() ==> (#[trigger] marks[v] == 1 <==> reaches(g, entry, g[v].identity))
}

/// What holds of the nodes placed so far.
spec fn progress(
    g: GraphView,
    entry: Id,
    marks: Seq<u8>,
    placed: Seq<u8>,
    line: Seq<usize>,
) -> bool {
    &&& placed.len() == g.len()
    &&& line.len() == tally(placed, 1)
    &&& forall|v: int| 0 <= v < placed.len() ==> #[trigger] placed[v] <= 1
    &&& forall|t: int|
        0 <= t < line.len() ==> (#[trigger] line[t]) < g.len() && placed[line[t] as int] == 1
            && marks[line[t] as int] == 1
    &&& forall|v: usize| v < placed.len() && #[trigger] placed[v as int] == 1 ==> line.contains(v)
    &&& forall|i: int|
        0 <= i < line.len() ==> #[trigger] ready(g, names(g, line).take(i), names(g, line)[i])
    &&& forall|i: int, id: Id|
        0 <= i < line.len() && reaches(g, entry, id) && #[trigger] ready(
            g,
            names(g, line).take(i),
            id,
        ) ==> lex_le(names(g, line)[i], id)
}

/// Placing the least eligible node keeps what holds of the nodes placed.
proof fn lemma_place(
    g: GraphView,
    entry: Id,
    marks: Seq<u8>,
    placed: Seq<u8>,
    line: Seq<usize>,
    b: usize,
)
    requires
        distinct(g),
        closed(g),
        g.len() <= usize::MAX,
        marks_exact(g, entry, marks),
        progress(g, entry, marks, placed, line),
        eligible(resolve(g), marks, placed, b as int),
        forall|v: int| #[trigger]
            eligible(resolve(g), marks, placed, v) ==> lex_le(g[b as int].identity, g[v].identity),
    ensures
        progress(g, entry, marks, placed.update(b as int, 1), line.push(b)),
{
    let adj = resolve(g);
    let after = placed.update(b as int, 1);
    let longer = line.push(b);
    let ord = names(g, line);
    let next = names(g, longer);
    let own = g[b as int].identity;
    lemma_tally_update(placed, b as int, 1, 1);
    lemma_position_distinct(g, b as int);
    assert(next.take(line.len() as int) =~= ord);
    assert forall|v: usize|
        v < after.len() && #[trigger] after[v as int] == 1 implies longer.contains(v) by {
        if v == b {
            assert(longer[line.len() as int] == b);
        } else {
            let t = choose|t: int| 0 <= t < line.len() && line[t] == v;
            assert(longer[t] == v);
        }
    }
    assert(!ord.contains(own)) by {
        if ord.contains(own) {
            let t = choose|t: int| 0 <= t < ord.len() && ord[t] == own;
            assert(line[t] == b);
        }
    }
    assert forall|k: int| 0 <= k < definition(g, own).dependencies.len() implies ord.contains(
        #[trigger] definition(g, own).dependencies[k],
    ) by {
        lemma_resolve(g, b as int, k);
        let d = adj[b as int][k];
        assert(placed[d as int] == 1);
        let t = choose|t: int| 0 <= t < line.len() && line[t] == d;
        assert(ord[t] == g[d as int].identity);
    }
    assert(ready(g, ord, own));
    assert forall|i: int| 0 <= i < longer.len() implies #[trigger] ready(
        g,
        next.take(i),
        next[i],
    ) by {
        if i < line.len() {
            assert(next.take(i) =~= ord.take(i));
            assert(ready(g, ord.take(i), ord[i]));
        }
    }
    assert forall|i: int, id: Id|
        0 <= i < longer.len() && reaches(g, entry, id) && #[trigger] ready(
            g,
            next.take(i),
            id,
        ) implies lex_le(next[i], id) by {
        if i < line.len() {
            assert(next.take(i) =~= ord.take(i));
            assert(ready(g, ord.take(i), id));
        } else {
            lemma_position(g, id);
            let v = position(g, id);
            lemma_position_distinct(g, v);
            if placed[v] == 1 {
                let t = choose|t: int| 0 <= t < line.len() && line[t] == v as usize;
                assert(ord[t] == id);
            }
            assert(placed[v] <= 1);
            assert forall|k: int| 0 <= k < adj[v].len() implies (#[trigger] adj[v][k])
                < placed.len() && placed[adj[v][k] as int] == 1 by {
                lemma_resolve(g, v, k);
                let d = adj[v][k];
                let dep = definition(g, id).dependencies[k];
                assert(ord.contains(dep));
                let t = choose|t: int| 0 <= t < ord.len() && ord[t] == dep;
                assert(g[line[t] as int].identity == g[d as int].identity);
            }
            assert(eligible(adj, marks, placed, v));
        }
    }
}

/// While a needed node is not placed, some node is eligible.
proof fn lemma_never_stuck(
    g: GraphView,
    ranks: Seq<nat>,
    marks: Seq<u8>,
    placed: Seq<u8>,
    v: int,
)
    requires
        closed(g),
        g.len() <= usize::MAX,
        ranked(resolve(g), ranks),
        marks.len() == g.len(),
        placed.len() == g.len(),
        forall|x: int| 0 <= x < placed.len() ==> #[trigger] placed[x] <= 1,
        marks_settled(resolve(g), marks, Seq::empty(), -1),
        0 <= v < g.len(),
        marks[v] == 1,
        placed[v] != 1,
    ensures
        exists|x: int| eligible(resolve(g), marks, placed, x),
    decreases ranks[v],
{
    let adj = resolve(g);
    assert(placed[v] <= 1);
    if !eligible(adj, marks, placed, v) {
        let k = choose|k: int|
            0 <= k < adj[v].len() && !((#[trigger] adj[v][k]) < placed.len()
                && placed[adj[v][k] as int] == 1);
        lemma_resolve(g, v, k);
        assert(!Seq::<usize>::empty().contains(v as usize));
        assert(row_marked(adj, marks, v, adj[v].len() as int));
        lemma_never_stuck(g, ranks, marks, placed, adj[v][k] as int);
    }
}

/// Once no node is eligible, the nodes placed are a schedule that takes the
/// least identity first.
proof fn lemma_finished(
    g: GraphView,
    ranks: Seq<nat>,
    e: int,
    marks: Seq<u8>,
    placed: Seq<u8>,
    line: Seq<usize>,
)
    requires
        distinct(g),
        closed(g),
        g.len() <= usize::MAX,
        ranked(resolve(g), ranks),
        0 <= e < g.len(),
        marks_exact(g, g[e].identity, marks),
        marks_settled(resolve(g), marks, Seq::empty(), -1),
        progress(g, g[e].identity, marks, placed, line),
        forall|x: int| !eligible(resolve(g), marks, placed, x),
    ensures
        is_schedule(g, g[e].identity, names(g, line)),
        least_first(g, g[e].identity, names(g, line)),
{
    let entry = g[e].identity;
    let ord = names(g, line);
    assert forall|id: Id| #[trigger] ord.contains(id) <==> reaches(g, entry, id) by {
        if ord.contains(id) {
            let t = choose|t: int| 0 <= t < ord.len() && ord[t] == id;
            assert(marks[line[t] as int] == 1);
        }
        if reaches(g, entry, id) {
            lemma_reaches_declared(g, entry, id);
            lemma_position(g, id);
            let v = position(g, id);
            assert(marks[v] == 1);
            if placed[v] != 1 {
                lemma_never_stuck(g, ranks, marks, placed, v);
            }
            let t = choose|t: int| 0 <= t < line.len() && line[t] == v as usize;
            assert(ord[t] == id);
        }
    }
}

/// Whether the node `v` is eligible.
fn check_eligible(graph: &ValidatedGraph, marks: &Vec<u8>, placed: &Vec<u8>, v: usize) -> (r: bool)
    requires
        v < graph.units.len(),
        marks@.len() == graph.units.len(),
        placed@.len() == graph.units.len(),
    ensures
        r == eligible(resolve(graph@), marks@, placed@, v as int),
{
    proof {
        use_type_invariant(graph);
    }
    let ghost g = graph@;
    let ghost adj = resolve(g);
    if marks[v] != 1 || placed[v] != 0 {
        return false;
    }
    proof {
        assert(adjacency(graph.links@).len() == g.len());
    }
    let m = graph.links[v].len();
    let mut k: usize = 0;
    proof {
        assert(adj[v as int] == graph.links@[v as int]@);
    }
    while k < m
        invariant
            k <= m,
            v < graph.units.len(),
            graph.links@.len() == graph.units.len(),
            m == graph.links@[v as int]@.len(),
            g == graph@,
            adj == resolve(g),
            adj == adjacency(graph.links@),
            closed(g),
            g.len() <= usize::MAX,
            placed@.len() == g.len(),
            row_marked(adj, placed@, v as int, k as int),
        decreases m - k,
    {
        let d = graph.links[v][k];
        proof {
            assert(adj[v as int] == graph.links@[v as int]@);
            assert(adj[v as int].len() == g[v as int].dependencies.len());
            lemma_resolve(g, v as int, k as int);
        }
        if placed[d] != 1 {
            return false;
        }
        k += 1;
    }
    true
}

/// The eligible node with the least identity, if any node is eligible.
fn pick(
    graph: &ValidatedGraph,
    marks: &Vec<u8>,
    placed: &Vec<u8>,
    keys: &Vec<Vec<char>>,
) -> (r: Option<usize>)
    requires
        marks@.len() == graph.units.len(),
        placed@.len() == graph.units.len(),
        keys@.len() == graph.units.len(),
        forall|v: int| 0 <= v < keys@.len() ==> (#[trigger] keys@[v])@ == graph@[v].identity,
    ensures
        match r {
            Some(b) => {
                &&& eligible(resolve(graph@), marks@, placed@, b as int)
                &&& forall|v: int| #[trigger]
                    eligible(resolve(graph@), marks@, placed@, v) ==> lex_le(
                        graph@[b as int].identity,
                        graph@[v].identity,
                    )
            },
            None => forall|v: int| !eligible(resolve(graph@), marks@, placed@, v),
        },
{
    let ghost g = graph@;
    let ghost adj = resolve(g);
    let n = graph.units.len();
    let mut best: Option<usize> = None;
    let mut v: usize = 0;
    while v < n
        invariant
            v <= n,
            n == graph.units.len(),
            g == graph@,
            adj == resolve(g),
            adj.len() == n,
            marks@.len() == n,
            placed@.len() == n,
            keys@.len() == n,
            forall|x: int| 0 <= x < keys@.len() ==> (#[trigger] keys@[x])@ == g[x].identity,
            match best {
                Some(b) => {
                    &&& b < v
                    &&& eligible(adj, marks@, placed@, b as int)
                    &&& forall|x: int|
                        0 <= x < v && #[trigger] eligible(adj, marks@, placed@, x) ==> lex_le(
                            g[b as int].identity,
                            g[x].identity,
                        )
                },
                None => forall|x: int| 0 <= x < v ==> !eligible(adj, marks@, placed@, x),
            },
        decreases n - v,
    {
        if check_eligible(graph, marks, placed, v) {
            match best {
                Some(b) => {
                    if lex_less(&keys[v], &keys[b]) {
                        proof {
                            assert forall|x: int|
                                0 <= x < v + 1 && #[trigger] eligible(
                                    adj,
                                    marks@,
                                    placed@,
                                    x,
                                ) implies lex_le(g[v as int].identity, g[x].identity) by {
                                if x < v {
                                    lemma_lex_le_transitive(
                                        g[v as int].identity,
                                        g[b as int].identity,
                                        g[x].identity,
                                    );
                                }
                            }
                        }
                        best = Some(v);
                    } else {
                        proof {
                            lemma_lex_total(g[v as int].identity, g[b as int].identity);
                        }
                    }
                },
                None => {
                    best = Some(v);
                },
            }
        }
        v += 1;
    }
    best
}

/// The characters of every unit's identity.
fn identity_keys(graph: &ValidatedGraph) -> (keys: Vec<Vec<char>>)
    ensures
        keys@.len() == graph.units.len(),
        forall|v: int| 0 <= v < keys@.len() ==> (#[trigger] keys@[v])@ == graph@[v].identity,
{
    let n = graph.units.len();
    let mut keys: Vec<Vec<char>> = Vec::new();
    let mut v: usize = 0;
    while v < n
        invariant
            v <= n,
            n == graph.units.len(),
            keys@.len() == v,
            forall|x: int| 0 <= x < v ==> (#[trigger] keys@[x])@ == graph@[x].identity,
        decreases n - v,
    {
        keys.push(to_chars(graph.units[v].identity.as_str()));
        v += 1;
    }
    keys
}

/// The order in which to compile what `entry_point` needs: every unit it
/// reaches, itself included, each after its dependencies, and wherever
/// several units could come next the one with the least identity. The list
/// is empty when the graph does not declare the entry point.
pub fn order(graph: &ValidatedGraph, entry_point: &String) -> (r: Vec<String>)
    ensures
        is_schedule(graph@, entry_point@, r.deep_view()),
        least_first(graph@, entry_point@, r.deep_view()),
        declares(graph@, entry_point@) ==> r.len() > 0 && r.deep_view().last() == entry_point@,
{
    proof {
        use_type_invariant(graph);
    }
    let ghost g = graph@;
    let ghost adj = resolve(g);
    let n = graph.units.len();
    let e = match find_unit(&graph.units, entry_point) {
        Some(e) => e,
        None => {
            let r: Vec<String> = Vec::new();
            proof {
                assert(r.deep_view() =~= Seq::empty());
                assert forall|id: Id| !reaches(g, entry_point@, id) by {
                    if reaches(g, entry_point@, id) {
                        lemma_reaches_declared(g, entry_point@, id);
                    }
                }
            }
            return r;
        },
    };
    let marks = mark_needed(graph, e);
    let keys = identity_keys(graph);
    let mut placed = zeros(n);
    let mut line: Vec<usize> = Vec::new();
    let mut open = true;
    proof {
        lemma_position(g, entry_point@);
        lemma_tally_absent(placed@, 1);
        assert(names(g, line@) =~= Seq::empty());
    }
    while open
        invariant
            n == graph.units.len(),
            g == graph@,
            g.len() == n,
            adj == resolve(g),
            distinct(g),
            closed(g),
            e < n,
            g[e as int].identity == entry_point@,
            keys@.len() == n,
            forall|v: int| 0 <= v < keys@.len() ==> (#[trigger] keys@[v])@ == g[v].identity,
            marks_exact(g, entry_point@, marks@),
            progress(g, entry_point@, marks@, placed@, line@),
            !open ==> forall|x: int| !eligible(adj, marks@, placed@, x),
        decreases n - line@.len(), (if open { 1int } else { 0int }),
    {
        proof {
            lemma_tally_bound(placed@, 1);
        }
        match pick(graph, &marks, &placed, &keys) {
            Some(b) => {
                proof {
                    lemma_place(g, entry_point@, marks@, placed@, line@, b);
                    lemma_tally_update(placed@, b as int, 1, 1);
                    lemma_tally_bound(placed@.update(b as int, 1), 1);
                }
                placed.set(b, 1);
                line.push(b);
            },
            None => {
                open = false;
            },
        }
    }
    proof {
        lemma_finished(g, graph.ranks@, e as int, marks@, placed@, line@);
        lemma_entry_last(g, entry_point@, names(g, line@));
    }
    name_path(&graph.units, &line)
}

/// Whether the unit `from` needs the unit `id`: whether it is `id` or
/// depends on it, directly or through other units. No unit needs, or is
/// needed by, an identity that the graph does not declare.
pub fn needs(graph: &ValidatedGraph, from: &String, id: &String) -> (r: bool)
    ensures
        r == reaches(graph@, from@, id@),
{
    proof {
        use_type_invariant(graph);
        lemma_position(graph@, from@);
        lemma_position(graph@, id@);
        if reaches(graph@, from@, id@) {
            lemma_reaches_declared(graph@, from@, id@);
        }
    }
    match find_unit(&graph.units, from) {
        Some(a) => match find_unit(&graph.units, id) {
            Some(b) => {
                let marks = mark_needed(graph, a);
                marks[b] == 1
            },
            None => false,
        },
        None => false,
    }
}

/// Whether two units can be compiled side by side: both are declared and
/// neither needs the other.
pub fn independent(graph: &ValidatedGraph, a: &String, b: &String) -> (r: bool)
    ensures
        r == (declares(graph@, a@) && declares(graph@, b@) && !reaches(graph@, a@, b@) && !reaches(
            graph@,
            b@,
            a@,
        )),
{
    proof {
        use_type_invariant(graph);
    }
    if find_unit(&graph.units, a).is_none() || find_unit(&graph.units, b).is_none() {
        return false;
    }
    !needs(graph, a, b) && !needs(graph, b, a)
}

} // verus!
