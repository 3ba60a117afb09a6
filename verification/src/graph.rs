//! Paths in the table dependency graph.
//!
//! A graph maps each table to the tables its edges lead to, in order. The
//! search is depth first; among all simple paths it finds the first one in
//! edge order.

use crate::map::{among, has_key, TextMap};
use crate::text::{same, texts};
use crate::lists::{lemma_filter_contains, lemma_filter_none, lemma_filter_push};
use vstd::prelude::*;

verus! {

/// The model of a graph: the tables that edges lead to from each table that
/// has edges, in order.
pub type Graph = Map<Seq<char>, Seq<Seq<char>>>;

/// The model of an adjacency map.
pub open spec fn graph_of(adjacency: Map<Seq<char>, Vec<String>>) -> Graph {
    Map::new(|n: Seq<char>| adjacency.contains_key(n), |n: Seq<char>| texts(adjacency[n]@))
}

/// The tables that edges lead to from `node`.
pub open spec fn successors(graph: Graph, node: Seq<char>) -> Seq<Seq<char>> {
    if graph.contains_key(node) {
        graph[node]
    } else {
        seq![]
    }
}

/// The position of the first `x` in `s`; the length of `s` where there is none.
pub open spec fn place(s: Seq<Seq<char>>, x: Seq<char>) -> int
    decreases s.len(),
{
    if s.len() == 0 || s[0] == x {
        0
    } else {
        1 + place(s.drop_first(), x)
    }
}

proof fn lemma_place(s: Seq<Seq<char>>, x: Seq<char>)
    ensures
        0 <= place(s, x) <= s.len(),
        place(s, x) < s.len() ==> s[place(s, x)] == x,
        forall|j: int| 0 <= j < place(s, x) ==> s[j] != x,
    decreases s.len(),
{
    if s.len() > 0 && s[0] != x {
        let rest = s.drop_first();
        lemma_place(rest, x);
        assert forall|j: int| 0 <= j < place(s, x) implies s[j] != x by {
            if j > 0 {
                assert(s[j] == rest[j - 1]);
            }
        }
    }
}

/// Whether an edge leads from `a` to `b`.
pub open spec fn has_edge(graph: Graph, a: Seq<char>, b: Seq<char>) -> bool {
    successors(graph, a).contains(b)
}

/// Whether the nodes follow one another along edges.
pub open spec fn is_walk(graph: Graph, walk: Seq<Seq<char>>) -> bool {
    &&& walk.len() >= 1
    &&& forall|i: int| 0 <= i < walk.len() - 1 ==> has_edge(graph, #[trigger] walk[i], walk[i + 1])
}

/// Whether edges lead from `a` to `b` without visiting a node of `avoided`.
pub open spec fn reaches(
    graph: Graph,
    a: Seq<char>,
    b: Seq<char>,
    avoided: Set<Seq<char>>,
) -> bool {
    exists|walk: Seq<Seq<char>>| #[trigger] is_walk(graph, walk) && walk[0] == a && walk.last() == b && avoids(walk, avoided)
}

pub open spec fn avoids(walk: Seq<Seq<char>>, avoided: Set<Seq<char>>) -> bool {
    forall|i: int| 0 <= i < walk.len() ==> !avoided.contains(#[trigger] walk[i])
}

/// Whether each step of the path takes the first edge that leads on to `to`
/// without coming back to the path so far.
pub open spec fn takes_first_edges(graph: Graph, path: Seq<Seq<char>>, to: Seq<char>, from: int) -> bool {
    forall|i: int, k: int|
        from <= i < path.len() - 1 && 0 <= k < place(successors(graph, path[i]), path[i + 1]) ==> !reaches(
            graph,
            #[trigger] successors(graph, path[i])[k],
            to,
            path.take(i + 1).to_set(),
        )
}

/// Whether `path` is the first simple path from `from` to `to`, in edge order.
pub open spec fn is_first_path(
    graph: Graph,
    path: Seq<Seq<char>>,
    from: Seq<char>,
    to: Seq<char>,
) -> bool {
    &&& is_walk(graph, path)
    &&& path[0] == from
    &&& path.last() == to
    &&& path.no_duplicates()
    &&& takes_first_edges(graph, path, to, 0)
}

/// How many nodes of `order` are not among `visited`.
spec fn left_over(order: Seq<Seq<char>>, visited: Seq<String>) -> nat
    decreases order.len(),
{
    if order.len() == 0 {
        0
    } else {
        left_over(order.drop_last(), visited) + if among(visited, order.last()) {
            0nat
        } else {
            1nat
        }
    }
}

proof fn lemma_left_over_shrinks(order: Seq<Seq<char>>, a: Seq<String>, b: Seq<String>)
    requires
        forall|k: Seq<char>| #[trigger] among(a, k) ==> among(b, k),
    ensures
        left_over(order, b) <= left_over(order, a),
        forall|k: Seq<char>| order.contains(k) && !among(a, k) && #[trigger] among(b, k) ==> left_over(order, b)
            < left_over(order, a),
    decreases order.len(),
{
    if order.len() > 0 {
        lemma_left_over_shrinks(order.drop_last(), a, b);
        assert forall|k: Seq<char>| order.contains(k) && !among(a, k) && #[trigger] among(b, k) implies left_over(order, b)
            < left_over(order, a) by {
            if k != order.last() {
                let j = choose|j: int| 0 <= j < order.len() && order[j] == k;
                assert(order.drop_last()[j] == k);
                assert(order.drop_last().contains(k));
            }
        }
    }
}

/// What holds of the nodes visited so far while `stack` is being explored: the
/// stack is visited, the destination is not, and every edge of a node that is
/// done leads to a visited node.
spec fn explored(
    graph: Graph,
    visited: Seq<String>,
    stack: Seq<Seq<char>>,
    to: Seq<char>,
) -> bool {
    &&& forall|n: Seq<char>| stack.contains(n) ==> #[trigger] among(visited, n)
    &&& !among(visited, to)
    &&& forall|a: Seq<char>, b: Seq<char>|
        among(visited, a) && !stack.contains(a) && #[trigger] has_edge(graph, a, b) ==> among(visited, b)
}

/// A visited node leads to the destination only through the stack.
proof fn lemma_visited_is_dead(
    graph: Graph,
    visited: Seq<String>,
    stack: Seq<Seq<char>>,
    to: Seq<char>,
    node: Seq<char>,
)
    requires
        explored(graph, visited, stack, to),
        among(visited, node),
    ensures
        !reaches(graph, node, to, stack.to_set()),
{
    if reaches(graph, node, to, stack.to_set()) {
        let walk = choose|walk: Seq<Seq<char>>| #[trigger]
            is_walk(graph, walk) && walk[0] == node && walk.last() == to && avoids(walk, stack.to_set());
        lemma_walk_stays(graph, visited, stack, to, walk, walk.len() - 1);
    }
}

proof fn lemma_walk_stays(
    graph: Graph,
    visited: Seq<String>,
    stack: Seq<Seq<char>>,
    to: Seq<char>,
    walk: Seq<Seq<char>>,
    i: int,
)
    requires
        explored(graph, visited, stack, to),
        is_walk(graph, walk),
        avoids(walk, stack.to_set()),
        among(visited, walk[0]),
        0 <= i < walk.len(),
    ensures
        among(visited, walk[i]),
    decreases i,
{
    if i > 0 {
        lemma_walk_stays(graph, visited, stack, to, walk, i - 1);
        assert(!stack.to_set().contains(walk[i - 1]));
        assert(!stack.contains(walk[i - 1]));
        assert(has_edge(graph, walk[i - 1], walk[i - 1 + 1]));
    }
}

/// Explores `node` at the end of `path`. Where it finds the destination, the
/// path goes on to it; else the path stays and all that was seen is visited.
fn find_table_path_from(
    adjacency: &TextMap<Vec<String>>,
    node: &str,
    to: &str,
    visited: &mut Vec<String>,
    path: &mut Vec<String>,
) -> (r: bool)
    requires
        explored(graph_of(adjacency@), old(visited)@, texts(old(path)@), to@),
        !among(old(visited)@, node@),
        texts(old(path)@).no_duplicates(),
        forall|k: Seq<char>| adjacency@.contains_key(k) <==> #[trigger] adjacency.order().contains(k),
    ensures
        forall|k: Seq<char>| among(old(visited)@, k) ==> #[trigger] among(final(visited)@, k),
        !r ==> final(path)@ == old(path)@ && among(final(visited)@, node@) && explored(
            graph_of(adjacency@),
            final(visited)@,
            texts(old(path)@),
            to@,
        ),
        r ==> ({
            let before = texts(old(path)@);
            let after = texts(final(path)@);
            &&& after.len() > before.len()
            &&& after.take(before.len() as int) == before
            &&& after[before.len() as int] == node@
            &&& after.last() == to@
            &&& after.no_duplicates()
            &&& is_walk(graph_of(adjacency@), after.skip(before.len() as int))
            &&& takes_first_edges(graph_of(adjacency@), after, to@, before.len() as int)
        }),
    decreases left_over(adjacency.order(), old(visited)@),
{
    let ghost before = texts(path@);
    let ghost path_before = path@;
    let ghost visited_before = visited@;
    path.push(node.to_owned());
    let ghost stack = texts(path@);
    proof {
        assert(stack =~= before.push(node@));
        assert(stack.take(before.len() as int) =~= before);
        assert(stack.skip(before.len() as int) =~= seq![node@]);
        assert(!before.contains(node@));
        assert(stack.no_duplicates());
    }
    if same(node, to) {
        return true;
    }
    visited.push(node.to_owned());
    proof {
        let n = visited@.len() - 1;
        assert(visited@[n]@ == node@);
        assert forall|k: Seq<char>| #[trigger] among(visited@, k) <==> (among(visited_before, k) || k == node@) by {
            if among(visited_before, k) {
                let j = choose|j: int| 0 <= j < visited_before.len() && #[trigger] visited_before[j]@ == k;
                assert(visited@[j]@ == k);
            }
            if among(visited@, k) && k != node@ {
                let j = choose|j: int| 0 <= j < visited@.len() && #[trigger] visited@[j]@ == k;
                assert(visited_before[j]@ == k);
            }
        }
        assert forall|n: Seq<char>| stack.contains(n) implies #[trigger] among(visited@, n) by {
            if n != node@ {
                let j = choose|j: int| 0 <= j < stack.len() && stack[j] == n;
                assert(before[j] == n);
                assert(before.contains(n));
            }
        }
        assert forall|a: Seq<char>, b: Seq<char>|
            among(visited@, a) && !stack.contains(a) && #[trigger] has_edge(graph_of(adjacency@), a, b) implies among(visited@, b) by {
            assert(stack[before.len() as int] == node@);
            assert(a != node@);
            if before.contains(a) {
                let j = choose|j: int| 0 <= j < before.len() && before[j] == a;
                assert(stack[j] == a);
            }
        }
    }
    if let Some(neighbors) = adjacency.get(node) {
        let ghost marked = visited@;
        let mut i: usize = 0;
        proof {
            lemma_left_over_shrinks(adjacency.order(), visited_before, visited@);
            assert(adjacency.order().contains(node@));
            assert(among(visited@, node@));
            assert(left_over(adjacency.order(), visited@) < left_over(adjacency.order(), visited_before));
        }
        while i < neighbors.len()
            invariant
                i <= neighbors@.len(),
                visited_before == old(visited)@,
                path_before == old(path)@,
                adjacency@.contains_key(node@),
                *neighbors == adjacency@[node@],
                stack == before.push(node@),
                stack.no_duplicates(),
                texts(path@) == stack,
                path@.drop_last() == path_before,
                path@.len() > 0,
                before == texts(path_before),
                explored(graph_of(adjacency@), visited@, stack, to@),
                node@ != to@,
                forall|k: Seq<char>| among(visited_before, k) ==> #[trigger] among(marked, k),
                among(marked, node@),
                forall|k: Seq<char>| among(marked, k) ==> #[trigger] among(visited@, k),
                forall|j: int| 0 <= j < i ==> among(visited@, #[trigger] neighbors@[j]@),
                forall|k: Seq<char>| adjacency@.contains_key(k) <==> #[trigger] adjacency.order().contains(k),
                left_over(adjacency.order(), marked) < left_over(adjacency.order(), visited_before),
            decreases neighbors@.len() - i,
        {
            let neighbor = neighbors[i].as_str();
            let ghost seen = visited@;
            if !has_key(visited, neighbor) {
                proof {
                    lemma_left_over_shrinks(adjacency.order(), marked, visited@);
                }
                if find_table_path_from(adjacency, neighbor, to, visited, path) {
                    proof {
                        let after = texts(path@);
                        let n = before.len() as int;
                        assert(after.take(n + 1) == stack);
                        assert(after.take(n) =~= before) by {
                            assert(after.take(n) =~= stack.take(n));
                            assert(stack.take(n) =~= before);
                        }
                        assert(after[n] == after.take(n + 1)[n]);
                        assert(after[n] == node@);
                        assert(after[n + 1] == neighbor@);
                        let whole = after.skip(n);
                        let tail = after.skip(n + 1);
                        assert(has_edge(graph_of(adjacency@), node@, neighbor@)) by {
                            assert(successors(graph_of(adjacency@), node@)[i as int] == neighbor@);
                        }
                        assert forall|j: int| 0 <= j < whole.len() - 1 implies has_edge(
                            graph_of(adjacency@),
                            #[trigger] whole[j],
                            whole[j + 1],
                        ) by {
                            if j > 0 {
                                assert(whole[j] == tail[j - 1]);
                                assert(whole[j + 1] == tail[j - 1 + 1]);
                            }
                        }
                        assert forall|a: int, k: int|
                            n <= a < after.len() - 1 && 0 <= k < place(
                                successors(graph_of(adjacency@), after[a]),
                                after[a + 1],
                            ) implies !reaches(
                            graph_of(adjacency@),
                            #[trigger] successors(graph_of(adjacency@), after[a])[k],
                            to@,
                            after.take(a + 1).to_set(),
                        ) by {
                            if a == n {
                                lemma_place(successors(graph_of(adjacency@), node@), neighbor@);
                                assert(k < i) by {
                                    if k >= i {
                                        assert(successors(graph_of(adjacency@), node@)[i as int] == neighbor@);
                                    }
                                }
                                assert(among(seen, neighbors@[k]@));
                                lemma_visited_is_dead(graph_of(adjacency@), seen, stack, to@, neighbors@[k]@);
                            }
                        }
                    }
                    return true;
                }
            }
            i = i + 1;
        }
    }
    proof {
        assert forall|a: Seq<char>, b: Seq<char>|
            among(visited@, a) && !before.contains(a) && #[trigger] has_edge(graph_of(adjacency@), a, b) implies among(visited@, b) by {
            if a == node@ {
                let out = successors(graph_of(adjacency@), a);
                let j = choose|j: int| 0 <= j < out.len() && out[j] == b;
                assert(graph_of(adjacency@)[node@][j] == b);
                assert(adjacency@[node@]@[j]@ == b);
                assert(adjacency@.contains_key(node@));
                assert(among(visited@, b));
            } else {
                if stack.contains(a) {
                    let j = choose|j: int| 0 <= j < stack.len() && stack[j] == a;
                    assert(before[j] == a);
                }
            }
        }
        assert forall|n: Seq<char>| before.contains(n) implies #[trigger] among(visited@, n) by {
            let j = choose|j: int| 0 <= j < before.len() && before[j] == n;
            assert(stack[j] == n);
            assert(stack.contains(n));
        }
    }
    path.pop();
    assert(path@ =~= path_before);
    false
}

/// A path from `from` to `to`, both included, if there is one: the first in
/// edge order.
pub fn find_table_path(adjacency: &TextMap<Vec<String>>, from: &str, to: &str) -> (r: Option<Vec<String>>)
    ensures
        r is Some <==> reaches(graph_of(adjacency@), from@, to@, Set::empty()),
        r matches Some(path) ==> is_first_path(graph_of(adjacency@), texts(path@), from@, to@),
{
    let mut visited: Vec<String> = Vec::new();
    let mut path: Vec<String> = Vec::new();
    let _ = adjacency.len();
    proof {
        assert(texts(path@) =~= Seq::<Seq<char>>::empty());
    }
    let ghost nothing = Seq::<Seq<char>>::empty();
    if find_table_path_from(adjacency, from, to, &mut visited, &mut path) {
        proof {
            let found = texts(path@);
            assert(found.skip(0) =~= found);
            assert(avoids(found, Set::<Seq<char>>::empty()));
            assert(is_walk(graph_of(adjacency@), found));
        }
        Some(path)
    } else {
        proof {
            lemma_visited_is_dead(graph_of(adjacency@), visited@, nothing, to@, from@);
            assert(nothing.to_set() =~= Set::<Seq<char>>::empty());
        }
        None
    }
}

/// The tables that a list of edges leads to from `node`, in list order.
pub open spec fn edge_targets(edges: Seq<(String, String)>, node: Seq<char>) -> Seq<Seq<char>>
    decreases edges.len(),
{
    if edges.len() == 0 {
        seq![]
    } else if edges.last().0@ == node {
        edge_targets(edges.drop_last(), node).push(edges.last().1@)
    } else {
        edge_targets(edges.drop_last(), node)
    }
}

/// The graph of a list of edges.
pub open spec fn edge_graph(edges: Seq<(String, String)>) -> Graph {
    Map::new(|n: Seq<char>| edge_targets(edges, n).len() > 0, |n: Seq<char>| edge_targets(edges, n))
}

/// The graph of a list of edges.
pub fn adjacency_of(edges: &Vec<(String, String)>) -> (r: TextMap<Vec<String>>)
    ensures
        graph_of(r@) == edge_graph(edges@),
{
    let mut r: TextMap<Vec<String>> = TextMap::new();
    assert(graph_of(r@) =~= edge_graph(edges@.take(0)));
    for i in 0..edges.len()
        invariant
            graph_of(r@) == edge_graph(edges@.take(i as int)),
    {
        let ghost before = r@;
        let ghost done = edges@.take(i as int);
        let ghost next = edges@.take(i + 1);
        let from = &edges[i].0;
        let mut targets: Vec<String> = match r.get(from.as_str()) {
            Some(known) => known.clone(),
            None => Vec::new(),
        };
        proof {
            assert(graph_of(before).contains_key(from@) <==> edge_graph(done).contains_key(from@));
            if before.contains_key(from@) {
                assert(graph_of(before)[from@] == edge_targets(done, from@));
            }
            assert(texts(targets@) =~= edge_targets(done, from@));
        }
        let ghost targets_before = targets@;
        targets.push(edges[i].1.clone());
        assert(texts(targets@) =~= texts(targets_before).push(edges@[i as int].1@));
        r = r.insert(from.clone(), targets);
        proof {
            assert(next.drop_last() =~= done);
            assert(next.last() == edges@[i as int]);
            assert(graph_of(r@) =~= edge_graph(next)) by {
                assert forall|n: Seq<char>| #[trigger] graph_of(r@).contains_key(n) <==> edge_graph(next).contains_key(n) by {
                    assert(graph_of(before).contains_key(n) <==> edge_graph(done).contains_key(n));
                }
                assert forall|n: Seq<char>| #[trigger] graph_of(r@).contains_key(n) implies graph_of(r@)[n]
                    == edge_graph(next)[n] by {
                    if n != from@ {
                        assert(graph_of(before).contains_key(n));
                        assert(graph_of(before)[n] == edge_graph(done)[n]);
                    }
                }
            }
        }
    }
    assert(edges@.take(edges@.len() as int) =~= edges@);
    r
}

/// There is at most one first path.
pub proof fn law_first_path_is_unique(
    graph: Graph,
    a: Seq<Seq<char>>,
    b: Seq<Seq<char>>,
    from: Seq<char>,
    to: Seq<char>,
)
    requires
        is_first_path(graph, a, from, to),
        is_first_path(graph, b, from, to),
    ensures
        a == b,
{
    lemma_paths_agree(graph, a, b, from, to, if a.len() <= b.len() {
        a.len() as int
    } else {
        b.len() as int
    });
    if a.len() < b.len() {
        assert(b[a.len() - 1] == a[a.len() - 1]);
        assert(b[b.len() - 1] == b[a.len() - 1]);
    } else if b.len() < a.len() {
        assert(a[b.len() - 1] == b[b.len() - 1]);
        assert(a[a.len() - 1] == a[b.len() - 1]);
    }
    assert(a =~= b);
}

proof fn lemma_paths_agree(
    graph: Graph,
    a: Seq<Seq<char>>,
    b: Seq<Seq<char>>,
    from: Seq<char>,
    to: Seq<char>,
    n: int,
)
    requires
        is_first_path(graph, a, from, to),
        is_first_path(graph, b, from, to),
        1 <= n <= a.len(),
        n <= b.len(),
    ensures
        forall|i: int| 0 <= i < n ==> a[i] == b[i],
    decreases n,
{
    if n > 1 {
        lemma_paths_agree(graph, a, b, from, to, n - 1);
        let i = n - 2;
        assert(a.take(i + 1) =~= b.take(i + 1));
        let out = successors(graph, a[i]);
        assert(has_edge(graph, a[i], a[i + 1]));
        assert(has_edge(graph, b[i], b[i + 1]));
        let p = place(out, a[i + 1]);
        let q = place(out, b[i + 1]);
        lemma_place(out, a[i + 1]);
        lemma_place(out, b[i + 1]);
        lemma_rest_reaches(graph, a, to, i + 1);
        lemma_rest_reaches(graph, b, to, i + 1);
        if p < q {
            assert(!reaches(graph, successors(graph, b[i])[p], to, b.take(i + 1).to_set()));
        } else if q < p {
            assert(!reaches(graph, successors(graph, a[i])[q], to, a.take(i + 1).to_set()));
        } else if p < out.len() {
            assert(out[p] == a[i + 1]);
            assert(out[p] == b[i + 1]);
        } else {
            let j = choose|j: int| 0 <= j < out.len() && out[j] == a[i + 1];
            assert(false);
        }
    }
}

/// The rest of a simple path reaches its end without coming back.
proof fn lemma_rest_reaches(graph: Graph, path: Seq<Seq<char>>, to: Seq<char>, k: int)
    requires
        is_walk(graph, path),
        path.no_duplicates(),
        path.last() == to,
        0 <= k < path.len(),
    ensures
        reaches(graph, path[k], to, path.take(k).to_set()),
{
    let rest = path.skip(k);
    assert forall|j: int| 0 <= j < rest.len() - 1 implies has_edge(graph, #[trigger] rest[j], rest[j + 1]) by {
        assert(has_edge(graph, path[k + j], path[k + j + 1]));
    }
    assert(is_walk(graph, rest));
    assert forall|j: int| 0 <= j < rest.len() implies !path.take(k).to_set().contains(#[trigger] rest[j]) by {
        if path.take(k).contains(rest[j]) {
            let m = choose|m: int| 0 <= m < path.take(k).len() && path.take(k)[m] == rest[j];
            assert(path[m] == path[k + j]);
        }
    }
    assert(avoids(rest, path.take(k).to_set()));
}

/// Whether no table depends on itself: no walk along edges comes back to its start.
pub open spec fn acyclic(graph: Graph) -> bool {
    forall|walk: Seq<Seq<char>>| #[trigger] is_walk(graph, walk) && walk.len() >= 2 ==> walk[0] != walk.last()
}

/// Whether `after` is `before` with one edge more.
pub open spec fn adds_edge(before: Graph, after: Graph, from: Seq<char>, to: Seq<char>) -> bool {
    forall|a: Seq<char>, b: Seq<char>| #[trigger]
        has_edge(after, a, b) <==> has_edge(before, a, b) || (a == from && b == to)
}

/// Whether edges lead from `a` to `b`; every node leads to itself.
spec fn leads(graph: Graph, a: Seq<char>, b: Seq<char>) -> bool {
    reaches(graph, a, b, Set::empty())
}

proof fn lemma_leads_self(graph: Graph, a: Seq<char>)
    ensures
        leads(graph, a, a),
{
    let walk = seq![a];
    assert(is_walk(graph, walk));
    assert(avoids(walk, Set::empty()));
}

proof fn lemma_leads_walk(graph: Graph, walk: Seq<Seq<char>>)
    requires
        is_walk(graph, walk),
    ensures
        leads(graph, walk[0], walk.last()),
{
    assert(avoids(walk, Set::empty()));
}

proof fn lemma_leads_on(graph: Graph, a: Seq<char>, b: Seq<char>, c: Seq<char>)
    requires
        leads(graph, a, b),
        has_edge(graph, b, c),
    ensures
        leads(graph, a, c),
{
    let walk = choose|walk: Seq<Seq<char>>| #[trigger]
        is_walk(graph, walk) && walk[0] == a && walk.last() == b && avoids(walk, Set::empty());
    let longer = walk.push(c);
    assert forall|i: int| 0 <= i < longer.len() - 1 implies has_edge(graph, #[trigger] longer[i], longer[i + 1]) by {
        if i < walk.len() - 1 {
            assert(has_edge(graph, walk[i], walk[i + 1]));
        }
    }
    lemma_leads_walk(graph, longer);
}

proof fn lemma_leads_through(graph: Graph, a: Seq<char>, b: Seq<char>, c: Seq<char>)
    requires
        leads(graph, a, b),
        leads(graph, b, c),
    ensures
        leads(graph, a, c),
{
    let walk = choose|walk: Seq<Seq<char>>| #[trigger]
        is_walk(graph, walk) && walk[0] == b && walk.last() == c && avoids(walk, Set::empty());
    lemma_leads_along(graph, a, walk, walk.len() - 1);
}

proof fn lemma_leads_along(graph: Graph, a: Seq<char>, walk: Seq<Seq<char>>, i: int)
    requires
        is_walk(graph, walk),
        leads(graph, a, walk[0]),
        0 <= i < walk.len(),
    ensures
        leads(graph, a, walk[i]),
    decreases i,
{
    if i > 0 {
        lemma_leads_along(graph, a, walk, i - 1);
        assert(has_edge(graph, walk[i - 1], walk[i - 1 + 1]));
        lemma_leads_on(graph, a, walk[i - 1], walk[i]);
    }
}

/// A walk in the larger graph either needs no new edge, or leads to the new
/// edge's start and from its end.
proof fn lemma_walk_splits(
    before: Graph,
    after: Graph,
    from: Seq<char>,
    to: Seq<char>,
    walk: Seq<Seq<char>>,
    i: int,
)
    requires
        adds_edge(before, after, from, to),
        is_walk(after, walk),
        0 <= i < walk.len(),
    ensures
        leads(before, walk[0], walk[i]) || (leads(before, walk[0], from) && leads(before, to, walk[i])),
    decreases i,
{
    lemma_leads_self(before, walk[0]);
    lemma_leads_self(before, to);
    if i > 0 {
        lemma_walk_splits(before, after, from, to, walk, i - 1);
        let a = walk[i - 1];
        let b = walk[i - 1 + 1];
        assert(has_edge(after, a, b));
        if has_edge(before, a, b) {
            if leads(before, walk[0], a) {
                lemma_leads_on(before, walk[0], a, b);
            } else {
                lemma_leads_on(before, to, a, b);
            }
        }
    }
}

/// A graph without circles has none after an edge is added that was checked:
/// one whose end did not lead to its start.
pub proof fn law_checked_edges_keep_the_graph_acyclic(before: Graph, after: Graph, from: Seq<char>, to: Seq<char>)
    requires
        acyclic(before),
        adds_edge(before, after, from, to),
        !reaches(before, to, from, Set::empty()),
    ensures
        acyclic(after),
{
    assert forall|walk: Seq<Seq<char>>| #[trigger] is_walk(after, walk) && walk.len() >= 2 implies walk[0] != walk.last() by {
        if walk[0] == walk.last() {
            let a = walk[0];
            let b = walk[1];
            assert(has_edge(after, walk[0], walk[1]));
            let rest = walk.skip(1);
            assert forall|i: int| 0 <= i < rest.len() - 1 implies has_edge(after, #[trigger] rest[i], rest[i + 1]) by {
                assert(has_edge(after, walk[i + 1], walk[i + 1 + 1]));
            }
            lemma_walk_splits(before, after, from, to, rest, rest.len() - 1);
            assert(rest[0] == b);
            assert(rest[rest.len() - 1] == a);
            if has_edge(before, a, b) {
                if leads(before, b, a) {
                    let back = choose|w: Seq<Seq<char>>| #[trigger]
                        is_walk(before, w) && w[0] == b && w.last() == a && avoids(w, Set::empty());
                    let circle = seq![a] + back;
                    assert forall|i: int| 0 <= i < circle.len() - 1 implies has_edge(
                        before,
                        #[trigger] circle[i],
                        circle[i + 1],
                    ) by {
                        if i > 0 {
                            assert(has_edge(before, back[i - 1], back[i - 1 + 1]));
                        }
                    }
                    assert(is_walk(before, circle));
                    assert(circle[0] == circle.last());
                } else {
                    lemma_leads_on(before, to, a, b);
                    lemma_leads_through(before, to, b, from);
                }
            }
        }
    }
}

/// A list of edges with one more is the graph with that edge more.
proof fn lemma_push_edge(edges: Seq<(String, String)>, edge: (String, String))
    ensures
        adds_edge(edge_graph(edges), edge_graph(edges.push(edge)), edge.0@, edge.1@),
{
    let after = edges.push(edge);
    assert(after.drop_last() =~= edges);
    assert forall|a: Seq<char>, b: Seq<char>| #[trigger]
        has_edge(edge_graph(after), a, b) <==> has_edge(edge_graph(edges), a, b) || (a == edge.0@ && b == edge.1@) by {
        let before = edge_targets(edges, a);
        let now = edge_targets(after, a);
        if before.contains(b) {
            let i = choose|i: int| 0 <= i < before.len() && before[i] == b;
            assert(now[i] == b);
        }
        if a == edge.0@ && b == edge.1@ {
            assert(now[before.len() as int] == b);
        }
        if now.contains(b) {
            let i = choose|i: int| 0 <= i < now.len() && now[i] == b;
            if i < before.len() {
                assert(before[i] == b);
            }
        }
    }
}

/// Storing a dependency that was checked keeps the tables free of circles.
pub proof fn law_accepted_dependencies_stay_acyclic(edges: Seq<(String, String)>, edge: (String, String))
    requires
        acyclic(edge_graph(edges)),
        !reaches(edge_graph(edges), edge.1@, edge.0@, Set::empty()),
    ensures
        acyclic(edge_graph(edges.push(edge))),
{
    lemma_push_edge(edges, edge);
    law_checked_edges_keep_the_graph_acyclic(
        edge_graph(edges),
        edge_graph(edges.push(edge)),
        edge.0@,
        edge.1@,
    );
}

/// An edge whose end leads to its start closes a circle.
pub proof fn law_rejected_edges_close_a_circle(before: Graph, after: Graph, from: Seq<char>, to: Seq<char>)
    requires
        adds_edge(before, after, from, to),
        reaches(before, to, from, Set::empty()),
    ensures
        !acyclic(after),
{
    let back = choose|w: Seq<Seq<char>>| #[trigger]
        is_walk(before, w) && w[0] == to && w.last() == from && avoids(w, Set::empty());
    let circle = seq![from] + back;
    assert(has_edge(after, from, to));
    assert forall|i: int| 0 <= i < circle.len() - 1 implies has_edge(after, #[trigger] circle[i], circle[i + 1]) by {
        if i > 0 {
            assert(has_edge(before, back[i - 1], back[i - 1 + 1]));
        }
    }
    assert(is_walk(after, circle));
    assert(circle[0] == circle.last());
}

/// The tables that edges lead to from a node, and no others, in list order.
pub proof fn law_successors_follow_the_list(edges: Seq<(String, String)>, node: Seq<char>)
    ensures
        edge_targets(edges, node) == edges.filter(|e: (String, String)| e.0@ == node).map_values(|e: (String, String)| e.1@),
    decreases edges.len(),
{
    let pass = |e: (String, String)| e.0@ == node;
    let f = |e: (String, String)| e.1@;
    if edges.len() == 0 {
        lemma_filter_none(edges, pass);
        assert(edges.take(0) =~= edges);
        assert(edge_targets(edges, node) =~= edges.filter(pass).map_values(f));
    } else {
        let front = edges.drop_last();
        law_successors_follow_the_list(front, node);
        lemma_filter_push(front, edges.last(), pass);
        assert(edges =~= front.push(edges.last()));
        assert(front.filter(pass).push(edges.last()).map_values(f) =~= front.filter(pass).map_values(f).push(
            f(edges.last()),
        ));
        assert(edge_targets(edges, node) =~= edges.filter(pass).map_values(f));
    }
}

/// An edge leads from one table to another exactly where it is listed.
pub proof fn law_edges_are_those_listed(edges: Seq<(String, String)>, a: Seq<char>, b: Seq<char>)
    ensures
        has_edge(edge_graph(edges), a, b) <==> exists|i: int|
            0 <= i < edges.len() && (#[trigger] edges[i]).0@ == a && edges[i].1@ == b,
{
    law_successors_follow_the_list(edges, a);
    let from = |e: (String, String)| e.0@ == a;
    let kept = edges.filter(from);
    let targets = edge_targets(edges, a);
    if targets.contains(b) {
        let k = choose|k: int| 0 <= k < targets.len() && targets[k] == b;
        assert(kept[k].1@ == b);
        assert(kept.contains(kept[k]));
        lemma_filter_contains(edges, kept[k], from);
        let i = choose|i: int| 0 <= i < edges.len() && edges[i] == kept[k];
        assert(edges[i].0@ == a);
    }
    if exists|i: int| 0 <= i < edges.len() && (#[trigger] edges[i]).0@ == a && edges[i].1@ == b {
        let i = choose|i: int| 0 <= i < edges.len() && (#[trigger] edges[i]).0@ == a && edges[i].1@ == b;
        assert(edges.contains(edges[i]));
        lemma_filter_contains(edges, edges[i], from);
        let k = choose|k: int| 0 <= k < kept.len() && kept[k] == edges[i];
        assert(targets[k] == b);
    }
}

/// Whether a list of tables follows listed edges.
pub open spec fn follows_edges(edges: Seq<(String, String)>, walk: Seq<Seq<char>>) -> bool {
    walk.len() >= 1 && forall|k: int|
        0 <= k < walk.len() - 1 ==> is_listed(edges, #[trigger] walk[k], walk[k + 1])
}

/// Whether an edge is listed.
pub open spec fn is_listed(edges: Seq<(String, String)>, a: Seq<char>, b: Seq<char>) -> bool {
    exists|i: int| 0 <= i < edges.len() && (#[trigger] edges[i]).0@ == a && edges[i].1@ == b
}

/// One table leads to another exactly where listed edges can be followed from it to
/// the other.
pub proof fn law_tables_are_reached_along_listed_edges(edges: Seq<(String, String)>, a: Seq<char>, b: Seq<char>)
    ensures
        reaches(edge_graph(edges), a, b, Set::empty()) <==> exists|walk: Seq<Seq<char>>| #[trigger]
            follows_edges(edges, walk) && walk[0] == a && walk.last() == b,
{
    let graph = edge_graph(edges);
    assert forall|walk: Seq<Seq<char>>| #[trigger] is_walk(graph, walk) <==> follows_edges(edges, walk) by {
        assert forall|k: int| 0 <= k < walk.len() - 1 implies (has_edge(graph, #[trigger] walk[k], walk[k + 1])
            <==> is_listed(edges, walk[k], walk[k + 1])) by {
            law_edges_are_those_listed(edges, walk[k], walk[k + 1]);
        }
    }
    if reaches(graph, a, b, Set::empty()) {
        let walk = choose|walk: Seq<Seq<char>>| #[trigger]
            is_walk(graph, walk) && walk[0] == a && walk.last() == b && avoids(walk, Set::empty());
        assert(follows_edges(edges, walk));
    }
    if exists|walk: Seq<Seq<char>>| #[trigger] follows_edges(edges, walk) && walk[0] == a && walk.last() == b {
        let walk = choose|walk: Seq<Seq<char>>| #[trigger]
            follows_edges(edges, walk) && walk[0] == a && walk.last() == b;
        assert(is_walk(graph, walk));
        assert(avoids(walk, Set::empty()));
    }
}

/// A dependency closes a circle exactly where the tables were free of circles
/// without it and are not with it.
pub proof fn law_circles_are_closed_by_what_leads_back(edges: Seq<(String, String)>, edge: (String, String))
    requires
        acyclic(edge_graph(edges)),
    ensures
        acyclic(edge_graph(edges.push(edge))) <==> !reaches(edge_graph(edges), edge.1@, edge.0@, Set::empty()),
{
    if reaches(edge_graph(edges), edge.1@, edge.0@, Set::empty()) {
        lemma_push_edge(edges, edge);
        law_rejected_edges_close_a_circle(edge_graph(edges), edge_graph(edges.push(edge)), edge.0@, edge.1@);
    } else {
        law_accepted_dependencies_stay_acyclic(edges, edge);
    }
}

/// The first path takes, where another simple path to the same table first leaves
/// it, the edge that is listed earlier.
pub proof fn law_the_first_path_takes_earlier_edges(
    graph: Graph,
    path: Seq<Seq<char>>,
    other: Seq<Seq<char>>,
    from: Seq<char>,
    to: Seq<char>,
    i: int,
    k: int,
)
    requires
        is_first_path(graph, path, from, to),
        is_walk(graph, other),
        other.no_duplicates(),
        other.last() == to,
        0 <= i < path.len() - 1,
        i < other.len() - 1,
        forall|j: int| 0 <= j <= i ==> path[j] == #[trigger] other[j],
        path[i + 1] != other[i + 1],
        0 <= k < successors(graph, path[i]).len(),
        successors(graph, path[i])[k] == other[i + 1],
    ensures
        exists|j: int| 0 <= j < k && #[trigger] successors(graph, path[i])[j] == path[i + 1],
{
    let next = successors(graph, path[i]);
    let at = place(next, path[i + 1]);
    lemma_place(next, path[i + 1]);
    assert(has_edge(graph, path[i], path[i + 1]));
    assert(at < next.len()) by {
        let m = choose|m: int| 0 <= m < next.len() && next[m] == path[i + 1];
        if at == next.len() {
            assert(next[m] != path[i + 1]);
        }
    }
    if k < at {
        let avoided = path.take(i + 1).to_set();
        let rest = other.skip(i + 1);
        assert forall|m: int| 0 <= m < rest.len() - 1 implies has_edge(graph, #[trigger] rest[m], rest[m + 1]) by {
            assert(has_edge(graph, other[i + 1 + m], other[i + 1 + m + 1]));
        }
        assert(is_walk(graph, rest));
        assert forall|m: int| 0 <= m < rest.len() implies !avoided.contains(#[trigger] rest[m]) by {
            if avoided.contains(rest[m]) {
                let prefix = path.take(i + 1);
                assert(prefix.contains(rest[m]));
                let j = choose|j: int| 0 <= j < prefix.len() && prefix[j] == rest[m];
                assert(path[j] == other[j]);
                assert(other[j] == other[i + 1 + m]);
            }
        }
        assert(avoids(rest, avoided));
        assert(rest[0] == next[k] && rest.last() == to);
        assert(reaches(graph, next[k], to, avoided));
    }
    assert(at != k);
    assert(next[at] == path[i + 1]);
}

} // verus!
