//! Directed graphs over the nodes `0..n`, held as adjacency lists, with
//! breadth-first closure and depth-first topological ordering.

use vstd::prelude::*;

verus! {

/// The adjacency lists of `lists`, each as a sequence.
pub open spec fn adjacency(lists: Seq<Vec<usize>>) -> Seq<Seq<usize>> {
    lists.map_values(|l: Vec<usize>| l@)
}

/// Every listed neighbour is a node of the graph.
pub open spec fn adj_wf(adj: Seq<Seq<usize>>) -> bool {
    forall|a: int, k: int|
        0 <= a < adj.len() && 0 <= k < adj[a].len() ==> (#[trigger] adj[a][k]) < adj.len()
}

/// There is an edge from `a` to `b`.
pub open spec fn has_edge(adj: Seq<Seq<usize>>, a: int, b: int) -> bool {
    &&& 0 <= a < adj.len()
    &&& 0 <= b < adj.len()
    &&& exists|k: int| 0 <= k < adj[a].len() && #[trigger] adj[a][k] == b
}

/// The `k`-th step of `p` follows an edge.
pub open spec fn walk_step(adj: Seq<Seq<usize>>, p: Seq<int>, k: int) -> bool {
    has_edge(adj, p[k], p[k + 1])
}

/// `p` is a walk: a non-empty sequence of nodes, each joined to the next by an edge.
pub open spec fn is_walk(adj: Seq<Seq<usize>>, p: Seq<int>) -> bool {
    &&& p.len() > 0
    &&& 0 <= p[0] < adj.len()
    &&& forall|k: int| 0 <= k < p.len() - 1 ==> #[trigger] walk_step(adj, p, k)
}

/// `b` can be reached from `a` by following zero or more edges.
pub open spec fn reaches(adj: Seq<Seq<usize>>, a: int, b: int) -> bool {
    exists|p: Seq<int>| #[trigger] is_walk(adj, p) && p.first() == a && p.last() == b
}

/// `b` can be reached from one of `seeds`.
pub open spec fn reached_from(adj: Seq<Seq<usize>>, seeds: Seq<usize>, b: int) -> bool {
    exists|i: int| 0 <= i < seeds.len() && #[trigger] reaches(adj, seeds[i] as int, b)
}

/// Some node lies on a closed walk of at least one edge.
pub open spec fn has_cycle(adj: Seq<Seq<usize>>) -> bool {
    exists|a: int, b: int| #[trigger] has_edge(adj, a, b) && reaches(adj, b, a)
}

/// `order` lists every node once, and each node after all nodes it has an edge to.
pub open spec fn is_topological(adj: Seq<Seq<usize>>, order: Seq<usize>) -> bool {
    &&& order.no_duplicates()
    &&& forall|k: int| 0 <= k < order.len() ==> (#[trigger] order[k]) < adj.len()
    &&& forall|v: usize| v < adj.len() ==> #[trigger] order.contains(v)
    &&& forall|k: int, w: int|
        0 <= k < order.len() && #[trigger] has_edge(adj, order[k] as int, w) ==> exists|j: int|
            0 <= j < k && #[trigger] order[j] == w
}

/// The transpose of `adj` holds exactly the reversed edges.
pub open spec fn is_transpose(adj: Seq<Seq<usize>>, rev: Seq<Seq<usize>>) -> bool {
    &&& adj.len() == rev.len()
    &&& forall|a: int, b: int| #[trigger] has_edge(adj, a, b) <==> has_edge(rev, b, a)
}

pub proof fn lemma_reaches_self(adj: Seq<Seq<usize>>, a: int)
    requires
        0 <= a < adj.len(),
    ensures
        reaches(adj, a, a),
{
    let p = seq![a];
    assert(is_walk(adj, p));
    assert(p.first() == a && p.last() == a);
}

pub proof fn lemma_walk_push(adj: Seq<Seq<usize>>, p: Seq<int>, c: int)
    requires
        is_walk(adj, p),
        has_edge(adj, p.last(), c),
    ensures
        is_walk(adj, p.push(c)),
        p.push(c).first() == p.first(),
        p.push(c).last() == c,
{
    let q = p.push(c);
    assert forall|k: int| 0 <= k < q.len() - 1 implies #[trigger] walk_step(adj, q, k) by {
        if k < p.len() - 1 {
            assert(walk_step(adj, p, k));
        }
    }
}

pub proof fn lemma_reaches_step(adj: Seq<Seq<usize>>, a: int, b: int, c: int)
    requires
        reaches(adj, a, b),
        has_edge(adj, b, c),
    ensures
        reaches(adj, a, c),
{
    let p = choose|p: Seq<int>| #[trigger] is_walk(adj, p) && p.first() == a && p.last() == b;
    lemma_walk_push(adj, p, c);
    assert(is_walk(adj, p.push(c)));
}

/// Every node of a walk is a node of the graph.
pub proof fn lemma_walk_nodes(adj: Seq<Seq<usize>>, p: Seq<int>, k: int)
    requires
        is_walk(adj, p),
        0 <= k < p.len(),
    ensures
        0 <= p[k] < adj.len(),
{
    if k > 0 {
        assert(walk_step(adj, p, k - 1));
    }
}

/// A suffix of a walk is a walk.
pub proof fn lemma_walk_suffix(adj: Seq<Seq<usize>>, p: Seq<int>, n: int)
    requires
        is_walk(adj, p),
        0 <= n < p.len(),
    ensures
        is_walk(adj, p.skip(n)),
        p.skip(n).first() == p[n],
        p.skip(n).last() == p.last(),
{
    let q = p.skip(n);
    lemma_walk_nodes(adj, p, n);
    assert forall|k: int| 0 <= k < q.len() - 1 implies #[trigger] walk_step(adj, q, k) by {
        assert(walk_step(adj, p, n + k));
    }
}

/// Two walks that meet end to start join into one walk.
pub proof fn lemma_walk_join(adj: Seq<Seq<usize>>, p: Seq<int>, q: Seq<int>)
    requires
        is_walk(adj, p),
        is_walk(adj, q),
        p.last() == q.first(),
    ensures
        is_walk(adj, p + q.skip(1)),
        (p + q.skip(1)).first() == p.first(),
        (p + q.skip(1)).last() == q.last(),
{
    let r = p + q.skip(1);
    assert forall|k: int| 0 <= k < r.len() - 1 implies #[trigger] walk_step(adj, r, k) by {
        if k < p.len() - 1 {
            assert(walk_step(adj, p, k));
        } else {
            assert(walk_step(adj, q, k - (p.len() - 1)));
        }
    }
}

/// Reachability is transitive.
pub proof fn lemma_reaches_trans(adj: Seq<Seq<usize>>, a: int, b: int, c: int)
    requires
        reaches(adj, a, b),
        reaches(adj, b, c),
    ensures
        reaches(adj, a, c),
{
    let p = choose|p: Seq<int>| #[trigger] is_walk(adj, p) && p.first() == a && p.last() == b;
    let q = choose|q: Seq<int>| #[trigger] is_walk(adj, q) && q.first() == b && q.last() == c;
    lemma_walk_join(adj, p, q);
    assert(is_walk(adj, p + q.skip(1)));
}

/// A walk read backwards is a walk of the transposed graph.
pub proof fn lemma_walk_reverse(adj: Seq<Seq<usize>>, rev: Seq<Seq<usize>>, p: Seq<int>)
    requires
        is_transpose(adj, rev),
        is_walk(adj, p),
    ensures
        is_walk(rev, p.reverse()),
        p.reverse().first() == p.last(),
        p.reverse().last() == p.first(),
{
    let q = p.reverse();
    lemma_walk_nodes(adj, p, p.len() - 1);
    assert forall|k: int| 0 <= k < q.len() - 1 implies #[trigger] walk_step(rev, q, k) by {
        let j = p.len() - 2 - k;
        assert(walk_step(adj, p, j));
        assert(q[k] == p[j + 1]);
        assert(q[k + 1] == p[j]);
    }
}

/// Reachability in the transposed graph is reachability read backwards.
pub proof fn lemma_reaches_transpose(adj: Seq<Seq<usize>>, rev: Seq<Seq<usize>>, a: int, b: int)
    requires
        is_transpose(adj, rev),
    ensures
        reaches(adj, a, b) <==> reaches(rev, b, a),
{
    if reaches(adj, a, b) {
        let p = choose|p: Seq<int>| #[trigger] is_walk(adj, p) && p.first() == a && p.last() == b;
        lemma_walk_reverse(adj, rev, p);
        assert(is_walk(rev, p.reverse()));
    }
    if reaches(rev, b, a) {
        let p = choose|p: Seq<int>| #[trigger] is_walk(rev, p) && p.first() == b && p.last() == a;
        assert(is_transpose(rev, adj));
        lemma_walk_reverse(rev, adj, p);
        assert(is_walk(adj, p.reverse()));
    }
}

/// A set of nodes that holds `a` and is closed under edges holds all that `a` reaches.
proof fn lemma_closed_holds_reachable(adj: Seq<Seq<usize>>, inside: Seq<bool>, a: int, b: int)
    requires
        inside.len() == adj.len(),
        0 <= a < adj.len() && inside[a],
        forall|u: int, v: int| 0 <= u < adj.len() && inside[u] && #[trigger] has_edge(adj, u, v) ==> inside[v],
        reaches(adj, a, b),
    ensures
        0 <= b < adj.len() && inside[b],
{
    let p = choose|p: Seq<int>| #[trigger] is_walk(adj, p) && p.first() == a && p.last() == b;
    lemma_walk_inside(adj, inside, p, p.len() - 1);
}

proof fn lemma_walk_inside(adj: Seq<Seq<usize>>, inside: Seq<bool>, p: Seq<int>, k: int)
    requires
        inside.len() == adj.len(),
        is_walk(adj, p),
        inside[p[0]],
        forall|u: int, v: int| 0 <= u < adj.len() && inside[u] && #[trigger] has_edge(adj, u, v) ==> inside[v],
        0 <= k < p.len(),
    ensures
        0 <= p[k] < adj.len() && inside[p[k]],
    decreases k,
{
    if k > 0 {
        lemma_walk_inside(adj, inside, p, k - 1);
        assert(walk_step(adj, p, k - 1));
    }
}

/// Distinct nodes of a graph are no more than the graph has.
proof fn lemma_distinct_bounded(s: Seq<usize>, n: nat)
    requires
        s.no_duplicates(),
        forall|k: int| 0 <= k < s.len() ==> (#[trigger] s[k]) < n,
    ensures
        s.len() <= n,
{
    let nodes = s.map_values(|v: usize| v as int);
    assert(nodes.no_duplicates());
    nodes.unique_seq_to_set();
    let range = vstd::set_lib::set_int_range(0, n as int);
    vstd::set_lib::lemma_int_range(0, n as int);
    assert forall|x: int| nodes.to_set().contains(x) implies range.contains(x) by {
        let k = choose|k: int| 0 <= k < nodes.len() && nodes[k] == x;
        assert(s[k] < n);
    }
    vstd::set_lib::lemma_len_subset(nodes.to_set(), range);
}

/// What the breadth-first search has when a round starts or ends: `order`
/// lists the marked nodes once each, and each was reached from a seed.
spec fn search_inv(
    adj: Seq<Seq<usize>>,
    seeds: Seq<usize>,
    visited: Seq<bool>,
    order: Seq<usize>,
) -> bool {
    &&& visited.len() == adj.len()
    &&& order.no_duplicates()
    &&& forall|k: int| 0 <= k < order.len() ==> (#[trigger] order[k]) < adj.len()
    &&& forall|k: int| 0 <= k < order.len() ==> visited[(#[trigger] order[k]) as int]
    &&& forall|v: usize| v < adj.len() && visited[v as int] ==> #[trigger] order.contains(v)
    &&& forall|k: int| 0 <= k < order.len() ==> reached_from(adj, seeds, (#[trigger] order[k]) as int)
}

/// The first `head` nodes of `order` have all their neighbours marked.
spec fn expanded(adj: Seq<Seq<usize>>, visited: Seq<bool>, order: Seq<usize>, head: int) -> bool {
    forall|k: int, v: int|
        0 <= k < head && #[trigger] has_edge(adj, order[k] as int, v) ==> visited[v]
}

proof fn lemma_search_push(
    adj: Seq<Seq<usize>>,
    seeds: Seq<usize>,
    visited: Seq<bool>,
    order: Seq<usize>,
    v: usize,
)
    requires
        search_inv(adj, seeds, visited, order),
        v < adj.len(),
        !visited[v as int],
        reached_from(adj, seeds, v as int),
    ensures
        search_inv(adj, seeds, visited.update(v as int, true), order.push(v)),
{
    let visited2 = visited.update(v as int, true);
    let order2 = order.push(v);
    assert(order2.no_duplicates()) by {
        assert forall|i: int, j: int| 0 <= i < order2.len() && 0 <= j < order2.len() && i != j implies order2[i]
            != order2[j] by {
            if i < order.len() {
                assert(visited[order[i] as int]);
            }
            if j < order.len() {
                assert(visited[order[j] as int]);
            }
        }
    }
    assert forall|w: usize| w < adj.len() && visited2[w as int] implies #[trigger] order2.contains(w) by {
        if w == v {
            assert(order2[order.len() as int] == v);
        } else {
            assert(order.contains(w));
            let k = choose|k: int| 0 <= k < order.len() && order[k] == w;
            assert(order2[k] == w);
        }
    }
    assert forall|k: int| 0 <= k < order2.len() implies reached_from(adj, seeds, (#[trigger] order2[k]) as int) by {
        if k < order.len() {
            assert(order2[k] == order[k]);
        }
    }
    assert forall|k: int| 0 <= k < order2.len() implies visited2[(#[trigger] order2[k]) as int] by {
        if k < order.len() {
            assert(order2[k] == order[k]);
            assert(visited[order[k] as int]);
        }
    }
}

/// `order` after the neighbours of `u` from the `j`-th on were looked at:
/// each that `order` does not hold yet is put at its end.
pub open spec fn after_neighbours(adj: Seq<Seq<usize>>, order: Seq<usize>, u: int, j: int) -> Seq<usize>
    decreases adj[u].len() - j,
{
    if j < 0 || j >= adj[u].len() {
        order
    } else {
        after_neighbours(
            adj,
            if order.contains(adj[u][j]) {
                order
            } else {
                order.push(adj[u][j])
            },
            u,
            j + 1,
        )
    }
}

/// `order` after its nodes from position `head` on, those that were there
/// and those that came to stand there, had their neighbours looked at in turn.
pub open spec fn breadth_first_from(adj: Seq<Seq<usize>>, order: Seq<usize>, head: int) -> Seq<usize>
    decreases adj.len() - head,
{
    if head < 0 || head >= order.len() || head >= adj.len() || order[head] >= adj.len() {
        order
    } else {
        breadth_first_from(adj, after_neighbours(adj, order, order[head] as int, 0), head + 1)
    }
}

/// The nodes met in a breadth-first search from the first `k` of `seeds`,
/// in the order in which they are met: seed by seed, a seed that was met
/// before or is no node of the graph being passed over.
pub open spec fn breadth_first(adj: Seq<Seq<usize>>, seeds: Seq<usize>, k: int) -> Seq<usize>
    decreases k,
{
    if k <= 0 {
        Seq::empty()
    } else {
        let before = breadth_first(adj, seeds, k - 1);
        if seeds[k - 1] < adj.len() && !before.contains(seeds[k - 1]) {
            breadth_first_from(adj, before.push(seeds[k - 1]), before.len() as int)
        } else {
            before
        }
    }
}

/// The nodes that can be reached from `seeds`, each once: for every seed in
/// turn, the nodes not met before in breadth-first order from that seed.
/// A seed that is no node of the graph is passed over.
fn closure(lists: &Vec<Vec<usize>>, seeds: &Vec<usize>) -> (order: Vec<usize>)
    requires
        adj_wf(adjacency(lists@)),
    ensures
        order@ == breadth_first(adjacency(lists@), seeds@, seeds.len() as int),
        order@.no_duplicates(),
        forall|k: int| 0 <= k < order.len() ==> (#[trigger] order[k]) < lists.len(),
        forall|v: usize| #[trigger] order@.contains(v) <==> reached_from(adjacency(lists@), seeds@, v as int),
{
    let ghost adj = adjacency(lists@);
    let n = lists.len();
    let mut visited: Vec<bool> = vec![false; n];
    let mut order: Vec<usize> = Vec::new();
    let mut si: usize = 0;
    while si < seeds.len()
        invariant
            adj == adjacency(lists@),
            adj_wf(adj),
            n == lists.len(),
            si <= seeds.len(),
            search_inv(adj, seeds@, visited@, order@),
            expanded(adj, visited@, order@, order.len() as int),
            forall|i: int| 0 <= i < si && seeds[i] < n ==> visited[(#[trigger] seeds[i]) as int],
            order@ == breadth_first(adj, seeds@, si as int),
        decreases seeds.len() - si,
    {
        let s = seeds[si];
        let ghost found = order@;
        assert(s < n ==> (visited[s as int] <==> order@.contains(s)));
        if s < n && !visited[s] {
            proof {
                lemma_reaches_self(adj, s as int);
                assert(reaches(adj, seeds[si as int] as int, s as int));
                lemma_search_push(adj, seeds@, visited@, order@, s);
            }
            let mut head: usize = order.len();
            visited.set(s, true);
            order.push(s);
            let ghost goal = breadth_first_from(adj, found.push(s), found.len() as int);
            while head < order.len()
                invariant
                    adj == adjacency(lists@),
                    adj_wf(adj),
                    n == lists.len(),
                    si < seeds.len(),
                    head <= order.len(),
                    breadth_first_from(adj, order@, head as int) == goal,
                    search_inv(adj, seeds@, visited@, order@),
                    expanded(adj, visited@, order@, head as int),
                    forall|i: int| 0 <= i < si && seeds[i] < n ==> visited[(#[trigger] seeds[i]) as int],
                    seeds[si as int] < n && visited[seeds[si as int] as int],
                decreases n - head,
            {
                proof {
                    lemma_distinct_bounded(order@, n as nat);
                }
                let u = order[head];
                let ghost queue = order@;
                assert(head < n);
                assert(breadth_first_from(adj, queue, head as int) == breadth_first_from(
                    adj,
                    after_neighbours(adj, queue, u as int, 0),
                    head + 1,
                ));
                let mut j: usize = 0;
                while j < lists[u].len()
                    invariant
                        adj == adjacency(lists@),
                        adj_wf(adj),
                        n == lists.len(),
                        si < seeds.len(),
                        head < order.len(),
                        u == order[head as int],
                        u < n,
                        j <= lists[u as int].len(),
                        after_neighbours(adj, order@, u as int, j as int) == after_neighbours(
                            adj,
                            queue,
                            u as int,
                            0,
                        ),
                        search_inv(adj, seeds@, visited@, order@),
                        expanded(adj, visited@, order@, head as int),
                        forall|t: int| 0 <= t < j ==> visited[(#[trigger] adj[u as int][t]) as int],
                        forall|i: int| 0 <= i < si && seeds[i] < n ==> visited[(#[trigger] seeds[i]) as int],
                        seeds[si as int] < n && visited[seeds[si as int] as int],
                    decreases lists[u as int].len() - j,
                {
                    let v = lists[u][j];
                    assert(v == adj[u as int][j as int]);
                    assert(v < n);
                    assert(visited[v as int] <==> order@.contains(v));
                    if !visited[v] {
                        proof {
                            assert(has_edge(adj, u as int, v as int));
                            assert(reached_from(adj, seeds@, order[head as int] as int));
                            let i = choose|i: int| 0 <= i < seeds.len() && #[trigger] reaches(adj, seeds[i] as int, u as int);
                            lemma_reaches_step(adj, seeds[i] as int, u as int, v as int);
                            lemma_search_push(adj, seeds@, visited@, order@, v);
                        }
                        visited.set(v, true);
                        order.push(v);
                    }
                    j += 1;
                }
                proof {
                    assert forall|k: int, v: int| 0 <= k < head + 1 && #[trigger] has_edge(adj, order[k] as int, v)
                        implies visited[v] by {
                        if k == head {
                            let t = choose|t: int| 0 <= t < adj[u as int].len() && #[trigger] adj[u as int][t] == v;
                            assert(visited[adj[u as int][t] as int]);
                        }
                    }
                    assert(order@ == after_neighbours(adj, queue, u as int, 0));
                }
                head += 1;
            }
            assert(order@ == goal);
        }
        si += 1;
    }
    proof {
        assert forall|v: usize| #[trigger] order@.contains(v) <==> reached_from(adj, seeds@, v as int) by {
            if order@.contains(v) {
                let k = choose|k: int| 0 <= k < order.len() && order[k] == v;
                assert(reached_from(adj, seeds@, order[k] as int));
            }
            if reached_from(adj, seeds@, v as int) {
                let i = choose|i: int| 0 <= i < seeds.len() && #[trigger] reaches(adj, seeds[i] as int, v as int);
                let p = choose|p: Seq<int>| #[trigger] is_walk(adj, p) && p.first() == seeds[i] as int && p.last() == v as int;
                assert(seeds[i] < n);
                assert(visited[seeds[i] as int]);
                assert forall|a: int, b: int| 0 <= a < adj.len() && visited@[a] && #[trigger] has_edge(adj, a, b)
                    implies visited@[b] by {
                    assert(order@.contains(a as usize));
                    let k = choose|k: int| 0 <= k < order.len() && order[k] == a as usize;
                    assert(has_edge(adj, order[k] as int, b));
                }
                lemma_closed_holds_reachable(adj, visited@, seeds[i] as int, v as int);
            }
        }
    }
    order
}

/// How many entries of `s` are `false`.
spec fn count_false(s: Seq<bool>) -> nat
    decreases s.len(),
{
    if s.len() == 0 {
        0
    } else {
        count_false(s.drop_last()) + if s.last() {
            0nat
        } else {
            1nat
        }
    }
}

/// Setting a `false` entry leaves one `false` entry fewer.
proof fn lemma_count_false_set(s: Seq<bool>, i: int)
    requires
        0 <= i < s.len(),
        !s[i],
    ensures
        count_false(s.update(i, true)) + 1 == count_false(s),
    decreases s.len(),
{
    let t = s.update(i, true);
    if i == s.len() - 1 {
        assert(t.drop_last() =~= s.drop_last());
    } else {
        assert(t.drop_last() =~= s.drop_last().update(i, true));
        lemma_count_false_set(s.drop_last(), i);
    }
}

/// What the depth-first search has between two steps. `order` lists the
/// finished nodes, each after the nodes it has an edge to; `stack` is the walk
/// of the nodes that were entered and are not finished.
spec fn dfs_inv(
    adj: Seq<Seq<usize>>,
    entered: Seq<bool>,
    placed: Seq<bool>,
    order: Seq<usize>,
    stack: Seq<int>,
) -> bool {
    &&& entered.len() == adj.len()
    &&& placed.len() == adj.len()
    &&& forall|v: int| 0 <= v < adj.len() && placed[v] ==> entered[v]
    &&& order.no_duplicates()
    &&& forall|k: int| 0 <= k < order.len() ==> (#[trigger] order[k]) < adj.len()
    &&& forall|k: int| 0 <= k < order.len() ==> placed[(#[trigger] order[k]) as int]
    &&& forall|v: usize| v < adj.len() && placed[v as int] ==> #[trigger] order.contains(v)
    &&& forall|k: int, w: int|
        0 <= k < order.len() && #[trigger] has_edge(adj, order[k] as int, w) ==> exists|j: int|
            0 <= j < k && #[trigger] order[j] == w
    &&& forall|t: int|
        0 <= t < stack.len() ==> 0 <= (#[trigger] stack[t]) < adj.len() && entered[stack[t]]
            && !placed[stack[t]]
    &&& forall|v: int| 0 <= v < adj.len() && entered[v] && !placed[v] ==> #[trigger] stack.contains(v)
    &&& forall|t: int| 0 <= t < stack.len() - 1 ==> #[trigger] walk_step(adj, stack, t)
}

/// The search only ever adds: marks stay set and `order` grows at its end.
spec fn dfs_grows(
    entered0: Seq<bool>,
    placed0: Seq<bool>,
    order0: Seq<usize>,
    entered: Seq<bool>,
    placed: Seq<bool>,
    order: Seq<usize>,
) -> bool {
    &&& entered.len() == entered0.len()
    &&& placed.len() == placed0.len()
    &&& forall|v: int| 0 <= v < entered0.len() && entered0[v] ==> entered[v]
    &&& forall|v: int| 0 <= v < placed0.len() && placed0[v] ==> placed[v]
    &&& order0.len() <= order.len()
    &&& forall|k: int| 0 <= k < order0.len() ==> order[k] == #[trigger] order0[k]
    &&& count_false(entered) <= count_false(entered0)
}

proof fn lemma_back_edge_is_cycle(adj: Seq<Seq<usize>>, stack: Seq<int>, u: int, v: int)
    requires
        stack.len() > 0,
        stack.last() == u,
        0 <= stack[0] < adj.len(),
        forall|t: int| 0 <= t < stack.len() - 1 ==> #[trigger] walk_step(adj, stack, t),
        stack.contains(v),
        has_edge(adj, u, v),
    ensures
        has_cycle(adj),
{
    let t = choose|t: int| 0 <= t < stack.len() && stack[t] == v;
    assert(is_walk(adj, stack));
    lemma_walk_suffix(adj, stack, t);
    assert(is_walk(adj, stack.skip(t)));
    assert(reaches(adj, v, u));
}

proof fn lemma_finish_node(
    adj: Seq<Seq<usize>>,
    entered: Seq<bool>,
    placed: Seq<bool>,
    order: Seq<usize>,
    stack: Seq<int>,
    u: usize,
)
    requires
        dfs_inv(adj, entered, placed, order, stack.push(u as int)),
        u < adj.len(),
        entered[u as int] && !placed[u as int],
        !stack.contains(u as int),
        forall|t: int| 0 <= t < adj[u as int].len() ==> placed[(#[trigger] adj[u as int][t]) as int],
    ensures
        dfs_inv(adj, entered, placed.update(u as int, true), order.push(u), stack),
{
    let stack2 = stack.push(u as int);
    let placed2 = placed.update(u as int, true);
    let order2 = order.push(u);
    assert(order2.no_duplicates()) by {
        assert forall|i: int, j: int| 0 <= i < order2.len() && 0 <= j < order2.len() && i != j implies order2[i]
            != order2[j] by {
            if i < order.len() {
                assert(placed[order[i] as int]);
            }
            if j < order.len() {
                assert(placed[order[j] as int]);
            }
        }
    }
    assert forall|k: int| 0 <= k < order2.len() implies placed2[(#[trigger] order2[k]) as int] by {
        if k < order.len() {
            assert(placed[order[k] as int]);
        }
    }
    assert forall|w: usize| w < adj.len() && placed2[w as int] implies #[trigger] order2.contains(w) by {
        if w == u {
            assert(order2[order.len() as int] == u);
        } else {
            assert(order.contains(w));
            let k = choose|k: int| 0 <= k < order.len() && order[k] == w;
            assert(order2[k] == w);
        }
    }
    assert forall|k: int, w: int| 0 <= k < order2.len() && #[trigger] has_edge(adj, order2[k] as int, w) implies exists|
        j: int,
    | 0 <= j < k && #[trigger] order2[j] == w by {
        if k < order.len() {
            assert(has_edge(adj, order[k] as int, w));
            let j = choose|j: int| 0 <= j < k && #[trigger] order[j] == w;
            assert(order2[j] == w);
        } else {
            let t = choose|t: int| 0 <= t < adj[u as int].len() && #[trigger] adj[u as int][t] == w;
            assert(placed[adj[u as int][t] as int]);
            assert(order.contains(w as usize));
            let j = choose|j: int| 0 <= j < order.len() && order[j] == w as usize;
            assert(order2[j] == w);
        }
    }
    assert forall|t: int| 0 <= t < stack.len() implies 0 <= (#[trigger] stack[t]) < adj.len() && entered[stack[t]]
        && !placed2[stack[t]] by {
        assert(stack2[t] == stack[t]);
    }
    assert forall|v: int| 0 <= v < adj.len() && entered[v] && !placed2[v] implies #[trigger] stack.contains(v) by {
        assert(stack2.contains(v));
        let t = choose|t: int| 0 <= t < stack2.len() && stack2[t] == v;
        assert(stack[t] == v);
    }
    assert forall|t: int| 0 <= t < stack.len() - 1 implies #[trigger] walk_step(adj, stack, t) by {
        assert(walk_step(adj, stack2, t));
    }
}

proof fn lemma_enter_node(
    adj: Seq<Seq<usize>>,
    entered: Seq<bool>,
    placed: Seq<bool>,
    order: Seq<usize>,
    stack: Seq<int>,
    u: usize,
)
    requires
        dfs_inv(adj, entered, placed, order, stack),
        u < adj.len(),
        !entered[u as int],
        stack.len() > 0 ==> has_edge(adj, stack.last(), u as int),
    ensures
        dfs_inv(adj, entered.update(u as int, true), placed, order, stack.push(u as int)),
        !stack.contains(u as int),
{
    let entered2 = entered.update(u as int, true);
    let stack2 = stack.push(u as int);
    assert forall|v: int| 0 <= v < adj.len() && entered2[v] && !placed[v] implies #[trigger] stack2.contains(v) by {
        if v == u {
            assert(stack2[stack.len() as int] == v);
        } else {
            assert(stack.contains(v));
            let t = choose|t: int| 0 <= t < stack.len() && stack[t] == v;
            assert(stack2[t] == v);
        }
    }
    assert forall|t: int| 0 <= t < stack2.len() - 1 implies #[trigger] walk_step(adj, stack2, t) by {
        if t < stack.len() - 1 {
            assert(walk_step(adj, stack, t));
        }
    }
    assert forall|t: int| 0 <= t < stack2.len() implies 0 <= (#[trigger] stack2[t]) < adj.len()
        && entered2[stack2[t]] && !placed[stack2[t]] by {
        if t < stack.len() {
            assert(stack[t] == stack2[t]);
        }
    }
}

/// Finishes `u` and all that it reaches and was not entered before, each
/// after the nodes it has an edge to. Returns `false` on meeting an edge back
/// into the walk that leads to `u`.
fn visit(
    lists: &Vec<Vec<usize>>,
    u: usize,
    entered: &mut Vec<bool>,
    placed: &mut Vec<bool>,
    order: &mut Vec<usize>,
    Ghost(stack): Ghost<Seq<int>>,
) -> (done: bool)
    requires
        adj_wf(adjacency(lists@)),
        u < lists.len(),
        !old(entered)[u as int],
        dfs_inv(adjacency(lists@), old(entered)@, old(placed)@, old(order)@, stack),
        stack.len() > 0 ==> has_edge(adjacency(lists@), stack.last(), u as int),
    ensures
        !done ==> has_cycle(adjacency(lists@)),
        done ==> dfs_inv(adjacency(lists@), final(entered)@, final(placed)@, final(order)@, stack),
        done ==> dfs_grows(
            old(entered)@,
            old(placed)@,
            old(order)@,
            final(entered)@,
            final(placed)@,
            final(order)@,
        ),
        done ==> final(placed)[u as int],
        done ==> final(order)@.len() > old(order)@.len() && final(order)@.last() == u,
        done ==> count_false(final(entered)@) < count_false(old(entered)@),
    decreases count_false(old(entered)@),
{
    let ghost adj = adjacency(lists@);
    let ghost stack2 = stack.push(u as int);
    proof {
        lemma_enter_node(adj, entered@, placed@, order@, stack, u);
        lemma_count_false_set(entered@, u as int);
    }
    entered.set(u, true);
    let mut j: usize = 0;
    while j < lists[u].len()
        invariant
            adj == adjacency(lists@),
            adj_wf(adj),
            u < lists.len(),
            j <= lists[u as int].len(),
            stack2 == stack.push(u as int),
            !stack.contains(u as int),
            dfs_inv(adj, entered@, placed@, order@, stack2),
            dfs_grows(old(entered)@, old(placed)@, old(order)@, entered@, placed@, order@),
            entered[u as int] && !placed[u as int],
            count_false(entered@) < count_false(old(entered)@),
            forall|t: int| 0 <= t < j ==> placed[(#[trigger] adj[u as int][t]) as int],
        decreases lists[u as int].len() - j,
    {
        let v = lists[u][j];
        assert(v == adj[u as int][j as int]);
        assert(v < lists.len());
        assert(has_edge(adj, u as int, v as int));
        if !entered[v] {
            let ghost entered1 = entered@;
            let ghost placed1 = placed@;
            let ghost order1 = order@;
            let ok = visit(lists, v, entered, placed, order, Ghost(stack2));
            if !ok {
                return false;
            }
            assert(dfs_grows(old(entered)@, old(placed)@, old(order)@, entered@, placed@, order@));
            assert(!placed[u as int]) by {
                assert(stack2[stack.len() as int] == u as int);
            }
            assert forall|t: int| 0 <= t < j implies placed[(#[trigger] adj[u as int][t]) as int] by {
                assert(placed1[adj[u as int][t] as int]);
            }
        } else if !placed[v] {
            proof {
                assert(stack2.contains(v as int));
                assert(0 <= stack2[0] < adj.len());
                lemma_back_edge_is_cycle(adj, stack2, u as int, v as int);
            }
            return false;
        }
        j += 1;
    }
    proof {
        lemma_finish_node(adj, entered@, placed@, order@, stack, u);
    }
    placed.set(u, true);
    order.push(u);
    true
}

/// A topological order makes a closed walk impossible.
pub proof fn lemma_topological_no_cycle(adj: Seq<Seq<usize>>, order: Seq<usize>)
    requires
        is_topological(adj, order),
    ensures
        !has_cycle(adj),
{
    if has_cycle(adj) {
        let (a, b) = choose|a: int, b: int| #[trigger] has_edge(adj, a, b) && reaches(adj, b, a);
        let p = choose|p: Seq<int>| #[trigger] is_walk(adj, p) && p.first() == b && p.last() == a;
        assert(order.contains(b as usize));
        let kb = choose|k: int| 0 <= k < order.len() && order[k] == b as usize;
        lemma_walk_descends(adj, order, p, kb, p.len() - 1);
        let ka = choose|k: int| 0 <= k <= kb && #[trigger] order[k] as int == a;
        assert(has_edge(adj, order[ka] as int, b));
        let j = choose|j: int| 0 <= j < ka && #[trigger] order[j] == b;
        assert(order[j] == order[kb]);
    }
}

proof fn lemma_walk_descends(adj: Seq<Seq<usize>>, order: Seq<usize>, p: Seq<int>, k0: int, i: int)
    requires
        is_topological(adj, order),
        is_walk(adj, p),
        0 <= k0 < order.len(),
        order[k0] == p[0],
        0 <= i < p.len(),
    ensures
        exists|k: int| 0 <= k <= k0 && #[trigger] order[k] as int == p[i],
    decreases i,
{
    if i > 0 {
        lemma_walk_descends(adj, order, p, k0, i - 1);
        let k = choose|k: int| 0 <= k <= k0 && #[trigger] order[k] as int == p[i - 1];
        assert(walk_step(adj, p, i - 1));
        assert(has_edge(adj, order[k] as int, p[i]));
        let j = choose|j: int| 0 <= j < k && #[trigger] order[j] == p[i];
        assert(order[j] as int == p[i]);
    }
}

/// Takes up the node `u` when no walk is under way. A node that was entered
/// before is left as it is, and nothing changes. Otherwise `u` is finished
/// with all that it reaches, and stands last in the order.
fn visit_root(
    lists: &Vec<Vec<usize>>,
    u: usize,
    entered: &mut Vec<bool>,
    placed: &mut Vec<bool>,
    order: &mut Vec<usize>,
) -> (done: bool)
    requires
        adj_wf(adjacency(lists@)),
        u < lists.len(),
        dfs_inv(adjacency(lists@), old(entered)@, old(placed)@, old(order)@, Seq::<int>::empty()),
    ensures
        !done ==> has_cycle(adjacency(lists@)),
        done ==> dfs_inv(adjacency(lists@), final(entered)@, final(placed)@, final(order)@, Seq::<int>::empty()),
        done ==> dfs_grows(
            old(entered)@,
            old(placed)@,
            old(order)@,
            final(entered)@,
            final(placed)@,
            final(order)@,
        ),
        done ==> final(placed)[u as int],
        done && old(entered)[u as int] ==> final(entered)@ == old(entered)@ && final(placed)@ == old(placed)@
            && final(order)@ == old(order)@,
        done && !old(entered)[u as int] ==> final(order)@.len() > old(order)@.len() && final(order)@.last() == u,
{
    if entered[u] {
        assert(placed[u as int]) by {
            if !placed[u as int] {
                assert(Seq::<int>::empty().contains(u as int));
            }
        }
        return true;
    }
    visit(lists, u, entered, placed, order, Ghost(Seq::<int>::empty()))
}

/// All nodes, each after the nodes it has an edge to, or `None` where the
/// graph has a cycle. Nodes are taken up in rising order, and each node's
/// neighbours in the order of its list, depth first.
fn sorted_nodes(lists: &Vec<Vec<usize>>) -> (r: Option<Vec<usize>>)
    requires
        adj_wf(adjacency(lists@)),
    ensures
        r is None <==> has_cycle(adjacency(lists@)),
        r matches Some(order) ==> is_topological(adjacency(lists@), order@),
{
    let ghost adj = adjacency(lists@);
    let n = lists.len();
    let mut entered: Vec<bool> = vec![false; n];
    let mut placed: Vec<bool> = vec![false; n];
    let mut order: Vec<usize> = Vec::new();
    let ghost empty = Seq::<int>::empty();
    let mut i: usize = 0;
    while i < n
        invariant
            adj == adjacency(lists@),
            adj_wf(adj),
            n == lists.len(),
            i <= n,
            empty == Seq::<int>::empty(),
            dfs_inv(adj, entered@, placed@, order@, empty),
            forall|v: int| 0 <= v < i ==> placed[v],
        decreases n - i,
    {
        let ghost placed1 = placed@;
        let ok = visit_root(lists, i, &mut entered, &mut placed, &mut order);
        if !ok {
            return None;
        }
        assert forall|v: int| 0 <= v < i implies placed[v] by {
            assert(placed1[v]);
        }
        i += 1;
    }
    proof {
        assert(is_topological(adj, order@));
        lemma_topological_no_cycle(adj, order@);
    }
    Some(order)
}

/// Adds the edge from `a` to `b` to the lists `succ` and its mirror image to `pred`.
fn push_edge(succ: &mut Vec<Vec<usize>>, pred: &mut Vec<Vec<usize>>, a: usize, b: usize)
    requires
        a < old(succ).len(),
        b < old(succ).len(),
        adj_wf(adjacency(old(succ)@)),
        adj_wf(adjacency(old(pred)@)),
        is_transpose(adjacency(old(succ)@), adjacency(old(pred)@)),
    ensures
        final(succ).len() == old(succ).len(),
        adj_wf(adjacency(final(succ)@)),
        adj_wf(adjacency(final(pred)@)),
        is_transpose(adjacency(final(succ)@), adjacency(final(pred)@)),
        forall|x: int, y: int| #[trigger]
            has_edge(adjacency(final(succ)@), x, y) <==> has_edge(adjacency(old(succ)@), x, y) || (x == a
                && y == b),
        adjacency(final(succ)@) == adjacency(old(succ)@).update(
            a as int,
            adjacency(old(succ)@)[a as int].push(b),
        ),
        adjacency(final(pred)@) == adjacency(old(pred)@).update(
            b as int,
            adjacency(old(pred)@)[b as int].push(a),
        ),
{
    let ghost fwd0 = adjacency(succ@);
    let ghost rev0 = adjacency(pred@);
    succ[a].push(b);
    pred[b].push(a);
    proof {
        let fwd1 = adjacency(succ@);
        let rev1 = adjacency(pred@);
        assert(fwd1.len() == fwd0.len());
        assert(rev1.len() == rev0.len());
        assert(fwd1[a as int] == fwd0[a as int].push(b));
        assert(rev1[b as int] == rev0[b as int].push(a));
        assert forall|x: int| 0 <= x < fwd0.len() && x != a implies fwd1[x] == fwd0[x] by {}
        assert forall|x: int| 0 <= x < rev0.len() && x != b implies rev1[x] == rev0[x] by {}
        assert forall|x: int, y: int| #[trigger]
            has_edge(fwd1, x, y) <==> has_edge(fwd0, x, y) || (x == a && y == b) by {
            lemma_edge_after_push(fwd0, fwd1, a as int, b, x, y);
        }
        assert forall|x: int, y: int| #[trigger]
            has_edge(rev1, x, y) <==> has_edge(rev0, x, y) || (x == b && y == a) by {
            lemma_edge_after_push(rev0, rev1, b as int, a, x, y);
        }
        assert forall|x: int, y: int| #[trigger] has_edge(fwd1, x, y) <==> has_edge(rev1, y, x) by {
            assert(has_edge(fwd0, x, y) <==> has_edge(rev0, y, x));
        }
        assert(adj_wf(fwd1)) by {
            assert forall|x: int, k: int| 0 <= x < fwd1.len() && 0 <= k < fwd1[x].len() implies (#[trigger] fwd1[x][k])
                < fwd1.len() by {
                if x == a && k == fwd0[x].len() {
                } else {
                    assert(fwd1[x][k] == fwd0[x][k]);
                }
            }
        }
        assert(fwd1 =~= fwd0.update(a as int, fwd0[a as int].push(b)));
        assert(rev1 =~= rev0.update(b as int, rev0[b as int].push(a)));
        assert(adj_wf(rev1)) by {
            assert forall|x: int, k: int| 0 <= x < rev1.len() && 0 <= k < rev1[x].len() implies (#[trigger] rev1[x][k])
                < rev1.len() by {
                if x == b && k == rev0[x].len() {
                } else {
                    assert(rev1[x][k] == rev0[x][k]);
                }
            }
        }
    }
}

proof fn lemma_edge_after_push(fwd0: Seq<Seq<usize>>, fwd1: Seq<Seq<usize>>, a: int, b: usize, x: int, y: int)
    requires
        fwd1.len() == fwd0.len(),
        0 <= a < fwd0.len(),
        b < fwd0.len(),
        fwd1[a] == fwd0[a].push(b),
        forall|z: int| 0 <= z < fwd0.len() && z != a ==> fwd1[z] == fwd0[z],
    ensures
        has_edge(fwd1, x, y) <==> has_edge(fwd0, x, y) || (x == a && y == b),
{
    if has_edge(fwd1, x, y) {
        let k = choose|k: int| 0 <= k < fwd1[x].len() && #[trigger] fwd1[x][k] == y;
        if x == a && k == fwd0[a].len() {
        } else {
            assert(fwd0[x][k] == y);
        }
    }
    if has_edge(fwd0, x, y) {
        let k = choose|k: int| 0 <= k < fwd0[x].len() && #[trigger] fwd0[x][k] == y;
        assert(fwd1[x][k] == y);
    }
    if x == a && y == b {
        assert(fwd1[a][fwd0[a].len() as int] == b);
    }
}

/// `n` empty lists.
fn empty_lists(n: usize) -> (lists: Vec<Vec<usize>>)
    ensures
        lists.len() == n,
        forall|a: int| 0 <= a < n ==> (#[trigger] lists[a])@.len() == 0,
{
    let mut lists: Vec<Vec<usize>> = Vec::new();
    let mut i: usize = 0;
    while i < n
        invariant
            i <= n,
            lists.len() == i,
            forall|a: int| 0 <= a < i ==> (#[trigger] lists[a])@.len() == 0,
        decreases n - i,
    {
        lists.push(Vec::new());
        i += 1;
    }
    lists
}

/// What an edge from `a` adds to the list of the nodes with an edge to `b`:
/// `a`, if the edge leads to `b`.
pub open spec fn source_if(a: int, b: int) -> spec_fn(usize) -> Option<usize> {
    |v: usize|
        if v == b {
            Some(a as usize)
        } else {
            None
        }
}

/// The nodes among the first `n` that have an edge to `b`, in rising order,
/// each as often as it names `b`.
pub open spec fn sources_upto(adj: Seq<Seq<usize>>, b: int, n: int) -> Seq<usize>
    decreases n,
{
    if n <= 0 {
        Seq::empty()
    } else {
        sources_upto(adj, b, n - 1) + adj[n - 1].filter_map(source_if(n - 1, b))
    }
}

/// The adjacency lists of the transpose: for each node the nodes that have
/// an edge to it, in rising order.
pub open spec fn transposed(adj: Seq<Seq<usize>>) -> Seq<Seq<usize>> {
    Seq::new(adj.len(), |b: int| sources_upto(adj, b, adj.len() as int))
}

/// A directed graph over the nodes `0..size`, kept with its transpose so that
/// edges can be followed both ways.
pub struct Graph {
    succ: Vec<Vec<usize>>,
    pred: Vec<Vec<usize>>,
}

impl Graph {
    #[verifier::type_invariant]
    spec fn inv(&self) -> bool {
        self.wf()
    }

    /// The adjacency lists: `edges()[a]` holds the nodes that `a` has an edge to.
    pub closed spec fn edges(&self) -> Seq<Seq<usize>> {
        adjacency(self.succ@)
    }

    /// The adjacency lists of the transpose.
    pub closed spec fn back_edges(&self) -> Seq<Seq<usize>> {
        adjacency(self.pred@)
    }

    /// Both lists name nodes of the graph only, and each mirrors the other.
    pub closed spec fn wf(&self) -> bool {
        &&& adj_wf(self.edges())
        &&& adj_wf(self.back_edges())
        &&& is_transpose(self.edges(), self.back_edges())
    }

    /// The number of nodes.
    pub open spec fn size(&self) -> nat {
        self.edges().len()
    }

    /// The graph over `n` nodes with an edge for each pair of `pairs` that
    /// names two of its nodes.
    pub fn build(n: usize, pairs: &Vec<(usize, usize)>) -> (g: Graph)
        ensures
            g.wf(),
            g.size() == n,
            forall|a: int, b: int| #[trigger]
                has_edge(g.edges(), a, b) <==> 0 <= a < n && 0 <= b < n && pairs@.contains(
                    (a as usize, b as usize),
                ),
    {
        let mut succ = empty_lists(n);
        let mut pred = empty_lists(n);
        let mut i: usize = 0;
        assert(is_transpose(adjacency(succ@), adjacency(pred@))) by {
            assert forall|a: int, b: int| !has_edge(adjacency(succ@), a, b) && !has_edge(adjacency(pred@), b, a) by {
                if 0 <= a < n {
                    assert(succ[a]@.len() == 0);
                }
                if 0 <= b < n {
                    assert(pred[b]@.len() == 0);
                }
            }
        }
        assert forall|a: int, b: int| !has_edge(adjacency(succ@), a, b) by {
            if 0 <= a < n {
                assert(succ[a]@.len() == 0);
            }
        }
        while i < pairs.len()
            invariant
                i <= pairs.len(),
                succ.len() == n,
                pred.len() == n,
                adj_wf(adjacency(succ@)),
                adj_wf(adjacency(pred@)),
                is_transpose(adjacency(succ@), adjacency(pred@)),
                forall|a: int, b: int| #[trigger]
                    has_edge(adjacency(succ@), a, b) <==> 0 <= a < n && 0 <= b < n && pairs@.take(
                        i as int,
                    ).contains((a as usize, b as usize)),
            decreases pairs.len() - i,
        {
            let (a, b) = pairs[i];
            let ghost before = adjacency(succ@);
            if a < n && b < n {
                push_edge(&mut succ, &mut pred, a, b);
            }
            proof {
                let done = pairs@.take(i as int);
                let next = pairs@.take(i + 1);
                assert(next =~= done.push((a, b)));
                assert forall|x: int, y: int| #[trigger]
                    has_edge(adjacency(succ@), x, y) <==> 0 <= x < n && 0 <= y < n && next.contains(
                        (x as usize, y as usize),
                    ) by {
                    assert(has_edge(before, x, y) <==> 0 <= x < n && 0 <= y < n && done.contains(
                        (x as usize, y as usize),
                    ));
                    if 0 <= x < n && 0 <= y < n {
                        if done.contains((x as usize, y as usize)) {
                            let t = choose|t: int| 0 <= t < done.len() && done[t] == (x as usize, y as usize);
                            assert(next[t] == (x as usize, y as usize));
                        }
                        if next.contains((x as usize, y as usize)) {
                            let t = choose|t: int| 0 <= t < next.len() && next[t] == (x as usize, y as usize);
                            if t < done.len() {
                                assert(done[t] == (x as usize, y as usize));
                            }
                        }
                        if x == a && y == b {
                            assert(next[i as int] == (a, b));
                        }
                    }
                }
            }
            i += 1;
        }
        assert(pairs@.take(pairs.len() as int) =~= pairs@);
        Graph { succ, pred }
    }

    /// The graph with the adjacency lists `lists`.
    pub fn from_lists(lists: &Vec<Vec<usize>>) -> (g: Graph)
        requires
            adj_wf(adjacency(lists@)),
        ensures
            g.wf(),
            g.edges() == adjacency(lists@),
            g.back_edges() == transposed(adjacency(lists@)),
    {
        let ghost adj = adjacency(lists@);
        let n = lists.len();
        let mut succ = empty_lists(n);
        let mut pred = empty_lists(n);
        assert(is_transpose(adjacency(succ@), adjacency(pred@))) by {
            assert forall|a: int, b: int| !has_edge(adjacency(succ@), a, b) && !has_edge(adjacency(pred@), b, a) by {
                if 0 <= a < n {
                    assert(succ[a]@.len() == 0);
                }
                if 0 <= b < n {
                    assert(pred[b]@.len() == 0);
                }
            }
        }
        let mut a: usize = 0;
        assert forall|x: int| 0 <= x < n implies (#[trigger] adjacency(pred@)[x]) == sources_upto(adj, x, 0) by {
            assert(pred[x]@.len() == 0);
            assert(adjacency(pred@)[x] =~= Seq::<usize>::empty());
        }
        assert forall|x: int| 0 <= x < n implies (#[trigger] adjacency(succ@)[x]).len() == 0 by {
            assert(succ[x]@.len() == 0);
        }
        while a < n
            invariant
                a <= n,
                n == lists.len(),
                adj == adjacency(lists@),
                adj_wf(adj),
                succ.len() == n,
                pred.len() == n,
                adj_wf(adjacency(succ@)),
                adj_wf(adjacency(pred@)),
                is_transpose(adjacency(succ@), adjacency(pred@)),
                forall|x: int| 0 <= x < a ==> (#[trigger] adjacency(succ@)[x]) == adj[x],
                forall|x: int| a <= x < n ==> (#[trigger] adjacency(succ@)[x]).len() == 0,
                forall|x: int| 0 <= x < n ==> (#[trigger] adjacency(pred@)[x]) == sources_upto(adj, x, a as int),
            decreases n - a,
        {
            let mut k: usize = 0;
            proof {
                assert(adjacency(succ@)[a as int] =~= adj[a as int].take(0));
                assert forall|x: int| 0 <= x < n implies (#[trigger] adjacency(pred@)[x]) == sources_upto(
                    adj,
                    x,
                    a as int,
                ) + adj[a as int].take(0).filter_map(source_if(a as int, x)) by {
                    assert(adj[a as int].take(0) =~= Seq::<usize>::empty());
                    assert(sources_upto(adj, x, a as int) + Seq::<usize>::empty() =~= sources_upto(
                        adj,
                        x,
                        a as int,
                    ));
                }
            }
            while k < lists[a].len()
                invariant
                    a < n,
                    n == lists.len(),
                    k <= lists[a as int].len(),
                    adj == adjacency(lists@),
                    adj_wf(adj),
                    succ.len() == n,
                    pred.len() == n,
                    adj_wf(adjacency(succ@)),
                    adj_wf(adjacency(pred@)),
                    is_transpose(adjacency(succ@), adjacency(pred@)),
                    forall|x: int| 0 <= x < a ==> (#[trigger] adjacency(succ@)[x]) == adj[x],
                    adjacency(succ@)[a as int] == adj[a as int].take(k as int),
                    forall|x: int| a < x < n ==> (#[trigger] adjacency(succ@)[x]).len() == 0,
                    forall|x: int|
                        0 <= x < n ==> (#[trigger] adjacency(pred@)[x]) == sources_upto(adj, x, a as int)
                            + adj[a as int].take(k as int).filter_map(source_if(a as int, x)),
                decreases lists[a as int].len() - k,
            {
                let b = lists[a][k];
                assert(b == adj[a as int][k as int]);
                let ghost fwd = adjacency(succ@);
                let ghost rev = adjacency(pred@);
                push_edge(&mut succ, &mut pred, a, b);
                proof {
                    assert(adjacency(succ@)[a as int] =~= adj[a as int].take(k + 1));
                    assert forall|x: int| 0 <= x < a implies (#[trigger] adjacency(succ@)[x]) == adj[x] by {
                        assert(fwd[x] == adj[x]);
                    }
                    assert forall|x: int| a < x < n implies (#[trigger] adjacency(succ@)[x]).len() == 0 by {
                        assert(fwd[x].len() == 0);
                    }
                    assert forall|x: int| 0 <= x < n implies (#[trigger] adjacency(pred@)[x]) == sources_upto(
                        adj,
                        x,
                        a as int,
                    ) + adj[a as int].take(k + 1).filter_map(source_if(a as int, x)) by {
                        adj[a as int].lemma_filter_map_take_succ(source_if(a as int, x), k as int);
                        let so_far = adj[a as int].take(k as int).filter_map(source_if(a as int, x));
                        assert(rev[x] == sources_upto(adj, x, a as int) + so_far);
                        if x == b {
                            assert(adjacency(pred@)[x] == rev[x].push(a));
                            assert((sources_upto(adj, x, a as int) + so_far).push(a) =~= sources_upto(
                                adj,
                                x,
                                a as int,
                            ) + (so_far + seq![a]));
                        } else {
                            assert(adjacency(pred@)[x] == rev[x]);
                            assert(so_far + Seq::<usize>::empty() =~= so_far);
                        }
                    }
                }
                k += 1;
            }
            proof {
                assert(adj[a as int].take(lists[a as int].len() as int) =~= adj[a as int]);
            }
            a += 1;
        }
        assert(adjacency(succ@) =~= adj);
        assert(adjacency(pred@) =~= transposed(adj));
        Graph { succ, pred }
    }

    /// The number of nodes.
    pub fn len(&self) -> (n: usize)
        ensures
            n == self.size(),
    {
        self.succ.len()
    }

    /// The nodes that the seeds reach along the edges, each once, in the
    /// order of a breadth-first search.
    pub fn reachable(&self, seeds: &Vec<usize>) -> (order: Vec<usize>)
        ensures
            order@ == breadth_first(self.edges(), seeds@, seeds.len() as int),
            order@.no_duplicates(),
            forall|k: int| 0 <= k < order.len() ==> (#[trigger] order[k]) < self.size(),
            forall|v: usize| #[trigger] order@.contains(v) <==> reached_from(self.edges(), seeds@, v as int),
    {
        proof {
            use_type_invariant(self);
        }
        closure(&self.succ, seeds)
    }

    /// The nodes that reach a seed along the edges, each once, in the order
    /// of a breadth-first search against the edges.
    pub fn reaching(&self, seeds: &Vec<usize>) -> (order: Vec<usize>)
        ensures
            order@ == breadth_first(self.back_edges(), seeds@, seeds.len() as int),
            order@.no_duplicates(),
            forall|k: int| 0 <= k < order.len() ==> (#[trigger] order[k]) < self.size(),
            forall|v: usize| #[trigger] order@.contains(v) <==> reached_from(self.back_edges(), seeds@, v as int),
    {
        proof {
            use_type_invariant(self);
        }
        closure(&self.pred, seeds)
    }

    /// All nodes, each after the nodes it has an edge to; `None` where the
    /// graph has a cycle.
    pub fn topological_order(&self) -> (r: Option<Vec<usize>>)
        ensures
            r is None <==> has_cycle(self.edges()),
            r matches Some(order) ==> is_topological(self.edges(), order@),
    {
        proof {
            use_type_invariant(self);
        }
        sorted_nodes(&self.succ)
    }

    /// The nodes that `a` has an edge to, in the order in which the edges were given.
    pub fn successors(&self, a: usize) -> (list: &Vec<usize>)
        requires
            a < self.size(),
        ensures
            list@ == self.edges()[a as int],
    {
        &self.succ[a]
    }

    /// The nodes that have an edge to `a`.
    pub fn predecessors(&self, a: usize) -> (list: &Vec<usize>)
        requires
            a < self.size(),
        ensures
            list@ == self.back_edges()[a as int],
    {
        proof {
            use_type_invariant(self);
        }
        &self.pred[a]
    }

    /// The transpose mirrors the edges.
    pub proof fn lemma_transpose(&self)
        requires
            self.wf(),
        ensures
            adj_wf(self.edges()),
            adj_wf(self.back_edges()),
            is_transpose(self.edges(), self.back_edges()),
    {
    }
}

} // verus!
