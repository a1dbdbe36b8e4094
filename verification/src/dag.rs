//! Acyclicity of the graph that a binary adjacency matrix describes,
//! decided by Kahn's algorithm.

use vstd::prelude::*;
use crate::adjacency::{
    AdjacencyMatrix, edge_list, has_edge, has_shape, lemma_edges_are_the_positive_entries,
    lemma_loopless_edge_count_bound, positive_count,
};

verus! {

/// `path` is a directed cycle of the `n`-node graph of `m`: a non-empty
/// sequence of nodes, each with an edge to the next, and the last with an
/// edge back to the first.
pub open spec fn is_cycle(m: Seq<Seq<i32>>, n: int, path: Seq<int>) -> bool {
    &&& path.len() > 0
    &&& forall|k: int| 0 <= k < path.len() ==> 0 <= #[trigger] path[k] < n
    &&& forall|k: int| 0 <= k < path.len() - 1 ==> has_edge(m, #[trigger] path[k], path[k + 1])
    &&& has_edge(m, path.last(), path[0])
}

/// The `n`-node graph of `m` has no directed cycle.
pub open spec fn is_acyclic_graph(m: Seq<Seq<i32>>, n: int) -> bool {
    !exists|path: Seq<int>| is_cycle(m, n, path)
}

/// `rank` gives each of the `n` nodes a number that strictly increases
/// along every edge (a topological numbering).
pub open spec fn is_topological_rank(m: Seq<Seq<i32>>, n: int, rank: Seq<int>) -> bool {
    &&& rank.len() == n
    &&& forall|i: int, j: int| 0 <= i < n && 0 <= j < n && has_edge(m, i, j) ==> #[trigger] rank[i] < #[trigger] rank[j]
}

/// Number of nodes `u < k` still present (not `removed`) with an edge `u -> w`.
pub open spec fn pred_count(m: Seq<Seq<i32>>, removed: Seq<bool>, w: int, k: int) -> nat
    decreases k,
{
    if k <= 0 {
        0
    } else {
        pred_count(m, removed, w, k - 1) + if !removed[k - 1] && has_edge(m, k - 1, w) {
            1nat
        } else {
            0nat
        }
    }
}

/// Number of `true` flags among the first `k`.
pub open spec fn count_true(flags: Seq<bool>, k: int) -> nat
    decreases k,
{
    if k <= 0 {
        0
    } else {
        count_true(flags, k - 1) + if flags[k - 1] { 1nat } else { 0nat }
    }
}

proof fn lemma_pred_count_bound(m: Seq<Seq<i32>>, removed: Seq<bool>, w: int, k: int)
    requires
        0 <= k,
    ensures
        pred_count(m, removed, w, k) <= k,
    decreases k,
{
    if k > 0 {
        lemma_pred_count_bound(m, removed, w, k - 1);
    }
}

/// No present predecessor below `k` exactly when the count is zero.
proof fn lemma_pred_count_zero(m: Seq<Seq<i32>>, removed: Seq<bool>, w: int, k: int)
    requires
        0 <= k,
    ensures
        pred_count(m, removed, w, k) == 0 <==> forall|u: int|
            0 <= u < k ==> removed[u] || !has_edge(m, u, w),
    decreases k,
{
    if k > 0 {
        lemma_pred_count_zero(m, removed, w, k - 1);
    }
}

/// Removing a present node `v` lowers the count of `w` by one exactly when
/// `v -> w` is an edge that the count covers.
proof fn lemma_pred_count_remove(m: Seq<Seq<i32>>, removed: Seq<bool>, v: int, w: int, k: int)
    requires
        0 <= k <= removed.len(),
        0 <= v < removed.len(),
        !removed[v],
    ensures
        pred_count(m, removed.update(v, true), w, k) + (if v < k && has_edge(m, v, w) {
            1nat
        } else {
            0nat
        }) == pred_count(m, removed, w, k),
    decreases k,
{
    if k > 0 {
        lemma_pred_count_remove(m, removed, v, w, k - 1);
    }
}

proof fn lemma_count_true_bound(flags: Seq<bool>, k: int)
    requires
        0 <= k,
    ensures
        count_true(flags, k) <= k,
        count_true(flags, k) == k <==> forall|i: int| 0 <= i < k ==> #[trigger] flags[i],
    decreases k,
{
    if k > 0 {
        lemma_count_true_bound(flags, k - 1);
    }
}

proof fn lemma_count_true_set(flags: Seq<bool>, v: int, k: int)
    requires
        0 <= k <= flags.len(),
        0 <= v < flags.len(),
        !flags[v],
    ensures
        count_true(flags.update(v, true), k) == count_true(flags, k) + if v < k { 1nat } else { 0nat },
    decreases k,
{
    if k > 0 {
        lemma_count_true_set(flags, v, k - 1);
    }
}

/// Along a path, ranks grow by at least one per step.
proof fn lemma_rank_grows_along_path(m: Seq<Seq<i32>>, n: int, rank: Seq<int>, path: Seq<int>, k: int)
    requires
        is_topological_rank(m, n, rank),
        is_cycle(m, n, path),
        0 <= k < path.len(),
    ensures
        rank[path[k]] >= rank[path[0]] + k,
    decreases k,
{
    if k > 0 {
        lemma_rank_grows_along_path(m, n, rank, path, k - 1);
        assert(has_edge(m, path[k - 1], path[k]));
        assert(rank[path[k - 1]] < rank[path[k]]);
    }
}

/// Law: a graph that has a topological numbering has no directed cycle.
pub proof fn lemma_topological_rank_excludes_cycles(m: Seq<Seq<i32>>, n: int, rank: Seq<int>)
    requires
        is_topological_rank(m, n, rank),
    ensures
        is_acyclic_graph(m, n),
{
    assert forall|path: Seq<int>| !is_cycle(m, n, path) by {
        if is_cycle(m, n, path) {
            lemma_rank_grows_along_path(m, n, rank, path, path.len() - 1);
            assert(has_edge(m, path.last(), path[0]));
            assert(rank[path.last()] < rank[path[0]]);
        }
    }
}

/// A present predecessor of `x`, where one exists.
spec fn present_pred(m: Seq<Seq<i32>>, n: int, removed: Seq<bool>, x: int) -> int {
    choose|u: int| 0 <= u < n && !removed[u] && has_edge(m, u, x)
}

/// Walking `t` steps backwards from `start` along present predecessors.
spec fn back_walk(m: Seq<Seq<i32>>, n: int, removed: Seq<bool>, start: int, t: nat) -> int
    decreases t,
{
    if t == 0 {
        start
    } else {
        present_pred(m, n, removed, back_walk(m, n, removed, start, (t - 1) as nat))
    }
}

/// Every present node has a present predecessor.
spec fn all_present_have_pred(m: Seq<Seq<i32>>, n: int, removed: Seq<bool>) -> bool {
    forall|x: int| 0 <= x < n && !removed[x] ==> exists|u: int| 0 <= u < n && !removed[u] && has_edge(m, u, x)
}

proof fn lemma_back_walk(m: Seq<Seq<i32>>, n: int, removed: Seq<bool>, start: int, t: nat)
    requires
        all_present_have_pred(m, n, removed),
        0 <= start < n,
        !removed[start],
    ensures
        0 <= back_walk(m, n, removed, start, t) < n,
        !removed[back_walk(m, n, removed, start, t)],
        has_edge(m, back_walk(m, n, removed, start, t + 1), back_walk(m, n, removed, start, t)),
        0 <= back_walk(m, n, removed, start, t + 1) < n,
    decreases t,
{
    if t > 0 {
        lemma_back_walk(m, n, removed, start, (t - 1) as nat);
    }
    let x = back_walk(m, n, removed, start, t);
    assert(exists|u: int| 0 <= u < n && !removed[u] && has_edge(m, u, x));
}

/// Among `n + 1` values in `[0, n)`, two are equal.
proof fn lemma_pigeonhole(s: Seq<int>, n: int)
    requires
        0 <= n,
        s.len() == n + 1,
        forall|k: int| 0 <= k < s.len() ==> 0 <= #[trigger] s[k] < n,
    ensures
        exists|a: int, b: int| 0 <= a < b < s.len() && s[a] == s[b],
{
    if s.no_duplicates() {
        s.unique_seq_to_set();
        vstd::set_lib::lemma_int_range(0, n);
        assert(s.to_set().subset_of(vstd::set_lib::set_int_range(0, n)));
        vstd::set_lib::lemma_len_subset(s.to_set(), vstd::set_lib::set_int_range(0, n));
    }
    let (a, b) = choose|a: int, b: int| 0 <= a < s.len() && 0 <= b < s.len() && a != b && s[a] == s[b];
    if a < b {
        assert(0 <= a < b < s.len() && s[a] == s[b]);
    } else {
        assert(0 <= b < a < s.len() && s[b] == s[a]);
    }
}

/// When every present node has a present predecessor and some node is
/// present, the graph has a directed cycle.
proof fn lemma_stuck_has_cycle(m: Seq<Seq<i32>>, n: int, removed: Seq<bool>, start: int)
    requires
        all_present_have_pred(m, n, removed),
        0 <= start < n,
        !removed[start],
    ensures
        !is_acyclic_graph(m, n),
{
    let s = Seq::new((n + 1) as nat, |t: int| back_walk(m, n, removed, start, t as nat));
    assert forall|k: int| 0 <= k < s.len() implies 0 <= #[trigger] s[k] < n by {
        lemma_back_walk(m, n, removed, start, k as nat);
    }
    lemma_pigeonhole(s, n);
    let (a, b) = choose|a: int, b: int| 0 <= a < b < s.len() && s[a] == s[b];
    let path = Seq::new((b - a) as nat, |k: int| s[b - k]);
    assert forall|k: int| 0 <= k < path.len() implies 0 <= #[trigger] path[k] < n by {
        assert(path[k] == s[b - k]);
    }
    assert forall|k: int| 0 <= k < path.len() - 1 implies has_edge(m, #[trigger] path[k], path[k + 1]) by {
        lemma_back_walk(m, n, removed, start, (b - k - 1) as nat);
        assert(path[k] == s[b - k]);
        assert(path[k + 1] == s[b - k - 1]);
    }
    lemma_back_walk(m, n, removed, start, a as nat);
    assert(path.last() == s[a + 1]);
    assert(path[0] == s[b]);
    assert(has_edge(m, path.last(), path[0]));
    assert(is_cycle(m, n, path));
}

/// Law: an acyclic graph has no self-loop (a self-loop is a cycle of one node).
pub proof fn lemma_acyclic_has_no_self_loops(m: Seq<Seq<i32>>, n: int)
    requires
        is_acyclic_graph(m, n),
    ensures
        forall|i: int| 0 <= i < n ==> !#[trigger] has_edge(m, i, i),
{
    assert forall|i: int| 0 <= i < n implies !#[trigger] has_edge(m, i, i) by {
        if has_edge(m, i, i) {
            assert(is_cycle(m, n, seq![i]));
        }
    }
}

/// Law: every edge that the edge list of an acyclic square matrix holds
/// joins two different nodes.
pub proof fn lemma_acyclic_edges_join_distinct_nodes(m: Seq<Seq<i32>>, n: usize)
    requires
        has_shape(m, n as nat, n as nat),
        is_acyclic_graph(m, n as int),
    ensures
        forall|k: int| 0 <= k < edge_list(m, n as int, n as int).len()
            ==> (#[trigger] edge_list(m, n as int, n as int)[k]).0 != edge_list(m, n as int, n as int)[k].1,
{
    lemma_edges_are_the_positive_entries(m, n);
    lemma_acyclic_has_no_self_loops(m, n as int);
    assert forall|k: int| 0 <= k < edge_list(m, n as int, n as int).len()
        implies (#[trigger] edge_list(m, n as int, n as int)[k]).0 != edge_list(m, n as int, n as int)[k].1 by {
        let e = edge_list(m, n as int, n as int)[k];
        assert(has_edge(m, e.0 as int, e.1 as int));
        if e.0 == e.1 {
            assert(has_edge(m, e.0 as int, e.0 as int));
        }
    }
}

/// Law: an acyclic square matrix of `n` nodes has at most `n * (n - 1)`
/// edges.
pub proof fn lemma_acyclic_edge_count_bound(m: Seq<Seq<i32>>, n: usize)
    requires
        has_shape(m, n as nat, n as nat),
        is_acyclic_graph(m, n as int),
    ensures
        positive_count(m, n as int) <= n * (n - 1),
{
    lemma_acyclic_has_no_self_loops(m, n as int);
    lemma_loopless_edge_count_bound(m, n as nat);
}

/// Law: a graph without edges is acyclic.
pub proof fn lemma_edgeless_graph_is_acyclic(m: Seq<Seq<i32>>, n: int)
    requires
        forall|i: int, j: int| 0 <= i < n && 0 <= j < n ==> !#[trigger] has_edge(m, i, j),
    ensures
        is_acyclic_graph(m, n),
{
    assert forall|path: Seq<int>| !is_cycle(m, n, path) by {
        if is_cycle(m, n, path) {
            assert(0 <= path.last() < n);
            assert(0 <= path[0] < n);
            assert(has_edge(m, path.last(), path[0]));
        }
    }
}

/// Whether the adjacency matrix is square and its graph (edge `i -> j`
/// where the entry at row `i`, column `j` is positive) has no directed
/// cycle. A self-loop counts as a cycle.
///
/// Kahn's algorithm: repeatedly remove a node none of whose present
/// predecessors remain, keeping the in-degree of every node among the
/// present ones; the graph is acyclic exactly when every node is removed.
pub fn is_acyclic_adjacency(adjacency: &AdjacencyMatrix) -> (r: bool)
    ensures
        r == (adjacency.rows() == adjacency.cols() && is_acyclic_graph(adjacency.entries(), adjacency.rows() as int)),
        r ==> exists|rank: Seq<int>| is_topological_rank(adjacency.entries(), adjacency.rows() as int, rank),
{
    let (n, cols) = adjacency.shape();
    if n != cols {
        return false;
    }
    let ghost m = adjacency.entries();

    // No node is removed yet.
    let mut removed: Vec<bool> = Vec::new();
    let mut k: usize = 0;
    while k < n
        invariant
            k <= n,
            removed@.len() == k,
            forall|i: int| 0 <= i < k ==> !#[trigger] removed@[i],
        decreases n - k,
    {
        removed.push(false);
        k += 1;
    }

    // In-degree of every node.
    let mut indeg: Vec<usize> = Vec::new();
    let mut w: usize = 0;
    while w < n
        invariant
            w <= n,
            n == adjacency.rows(),
            n == adjacency.cols(),
            m == adjacency.entries(),
            removed@.len() == n,
            forall|i: int| 0 <= i < n ==> !#[trigger] removed@[i],
            indeg@.len() == w,
            forall|x: int| 0 <= x < w ==> #[trigger] indeg@[x] == pred_count(m, removed@, x, n as int),
        decreases n - w,
    {
        let mut c: usize = 0;
        let mut u: usize = 0;
        while u < n
            invariant
                u <= n,
                w < n,
                n == adjacency.rows(),
                n == adjacency.cols(),
                m == adjacency.entries(),
                removed@.len() == n,
                forall|i: int| 0 <= i < n ==> !#[trigger] removed@[i],
                c == pred_count(m, removed@, w as int, u as int),
            decreases n - u,
        {
            proof {
                lemma_pred_count_bound(m, removed@, w as int, u as int);
            }
            if adjacency.get(u, w) > 0 {
                c += 1;
            }
            u += 1;
        }
        indeg.push(c);
        w += 1;
    }

    // Nodes without predecessors.
    let mut ready: Vec<usize> = Vec::new();
    let mut x: usize = 0;
    while x < n
        invariant
            x <= n,
            indeg@.len() == n,
            removed@.len() == n,
            forall|i: int| 0 <= i < n ==> !#[trigger] removed@[i],
            ready@.no_duplicates(),
            forall|k: int| 0 <= k < ready@.len() ==> #[trigger] ready@[k] < x && indeg@[ready@[k] as int] == 0,
            forall|y: int| 0 <= y < x && indeg@[y] == 0 ==> #[trigger] ready@.contains(y as usize),
        decreases n - x,
    {
        let ghost old_ready = ready@;
        if indeg[x] == 0 {
            ready.push(x);
            proof {
                assert forall|y: int| 0 <= y < x + 1 && indeg@[y] == 0 implies #[trigger] ready@.contains(y as usize) by {
                    if y == x {
                        assert(ready@[ready@.len() - 1] == x);
                    } else {
                        assert(old_ready.contains(y as usize));
                        let k = choose|k: int| 0 <= k < old_ready.len() && old_ready[k] == y as usize;
                        assert(ready@[k] == y as usize);
                    }
                }
            }
        }
        x += 1;
    }

    let ghost mut rank: Seq<int> = Seq::new(n as nat, |i: int| 0int);
    let mut processed: usize = 0;
    proof {
        assert(count_true(removed@, n as int) == 0) by {
            lemma_count_true_zero(removed@, n as int);
        }
    }
    while ready.len() > 0
        invariant
            n == adjacency.rows(),
            n == adjacency.cols(),
            m == adjacency.entries(),
            has_shape(m, n as nat, n as nat),
            removed@.len() == n,
            indeg@.len() == n,
            rank.len() == n,
            processed == count_true(removed@, n as int),
            processed <= n,
            forall|y: int| 0 <= y < n ==> #[trigger] indeg@[y] == pred_count(m, removed@, y, n as int),
            ready@.no_duplicates(),
            forall|k: int| 0 <= k < ready@.len() ==> {
                &&& #[trigger] ready@[k] < n
                &&& !removed@[ready@[k] as int]
                &&& indeg@[ready@[k] as int] == 0
            },
            forall|y: int| 0 <= y < n && !removed@[y] && indeg@[y] == 0 ==> #[trigger] ready@.contains(y as usize),
            forall|u: int, y: int| #![trigger has_edge(m, u, y)] 0 <= u < n && 0 <= y < n && removed@[y] && has_edge(m, u, y) ==> {
                &&& removed@[u]
                &&& rank[u] < rank[y]
            },
            forall|u: int| 0 <= u < n && removed@[u] ==> #[trigger] rank[u] < processed,
        decreases n - processed,
    {
        let ghost before_pop = ready@;
        let v = ready.pop().unwrap();
        let ghost old_removed = removed@;
        let ghost old_indeg = indeg@;
        proof {
            assert(ready@ == before_pop.drop_last());
            assert(v == before_pop.last());
            assert forall|y: int| 0 <= y < n && !old_removed.update(v as int, true)[y] && indeg@[y] == 0
                implies #[trigger] ready@.contains(y as usize) by {
                assert(before_pop.contains(y as usize));
                let k = choose|k: int| 0 <= k < before_pop.len() && before_pop[k] == y as usize;
                assert(k != before_pop.len() - 1);
                assert(ready@[k] == y as usize);
            }
            assert forall|k: int| 0 <= k < ready@.len() implies #[trigger] ready@[k] != v by {
                assert(ready@[k] == before_pop[k]);
                assert(before_pop[before_pop.len() - 1] == v);
            }
            assert(old_removed[v as int] == false);
            lemma_pred_count_zero(m, old_removed, v as int, n as int);
            lemma_count_true_set(old_removed, v as int, n as int);
            lemma_count_true_bound(old_removed.update(v as int, true), n as int);
            rank = rank.update(v as int, processed as int);
        }
        removed.set(v, true);
        processed += 1;

        let mut w: usize = 0;
        while w < n
            invariant
                w <= n,
                v < n,
                n == adjacency.rows(),
                n == adjacency.cols(),
                m == adjacency.entries(),
                has_shape(m, n as nat, n as nat),
                removed@.len() == n,
                indeg@.len() == n,
                old_indeg.len() == n,
                old_removed.len() == n,
                !old_removed[v as int],
                removed@ == old_removed.update(v as int, true),
                old_indeg[v as int] == 0,
                forall|y: int| 0 <= y < n ==> #[trigger] old_indeg[y] == pred_count(m, old_removed, y, n as int),
                forall|y: int| 0 <= y < w ==> #[trigger] indeg@[y] == pred_count(m, removed@, y, n as int),
                forall|y: int| w <= y < n ==> #[trigger] indeg@[y] == old_indeg[y],
                forall|u: int, y: int| #![trigger has_edge(m, u, y)] 0 <= u < n && 0 <= y < n && old_removed[y] && has_edge(m, u, y) ==> old_removed[u],
                ready@.no_duplicates(),
                forall|k: int| 0 <= k < ready@.len() ==> {
                    &&& #[trigger] ready@[k] < n
                    &&& !removed@[ready@[k] as int]
                    &&& indeg@[ready@[k] as int] == 0
                },
                forall|y: int| 0 <= y < n && !removed@[y] && indeg@[y] == 0 ==> #[trigger] ready@.contains(y as usize),
            decreases n - w,
        {
            proof {
                lemma_pred_count_remove(m, old_removed, v as int, w as int, n as int);
            }
            if adjacency.get(v, w) > 0 {
                proof {
                    // `w` is neither `v` (whose in-degree is zero) nor an
                    // earlier removed node (all of whose predecessors are removed).
                    if w == v {
                        assert(pred_count(m, old_removed, v as int, n as int) >= 1);
                    }
                    assert(!old_removed[w as int]);
                    assert(!removed@[w as int]);
                    assert(!ready@.contains(w)) by {
                        if ready@.contains(w) {
                            let k = choose|k: int| 0 <= k < ready@.len() && ready@[k] == w;
                            assert(indeg@[ready@[k] as int] == 0);
                        }
                    }
                }
                let ghost pre_ready = ready@;
                let d = indeg[w] - 1;
                indeg.set(w, d);
                if d == 0 {
                    ready.push(w);
                }
                proof {
                    assert forall|y: int| 0 <= y < n && !removed@[y] && indeg@[y] == 0
                        implies #[trigger] ready@.contains(y as usize) by {
                        if y == w {
                            assert(ready@[ready@.len() - 1] == w);
                        } else {
                            assert(pre_ready.contains(y as usize));
                            let k = choose|k: int| 0 <= k < pre_ready.len() && pre_ready[k] == y as usize;
                            assert(ready@[k] == y as usize);
                        }
                    }
                }
            }
            w += 1;
        }
    }

    if processed == n {
        proof {
            lemma_count_true_bound(removed@, n as int);
            assert(is_topological_rank(m, n as int, rank));
            lemma_topological_rank_excludes_cycles(m, n as int, rank);
        }
        true
    } else {
        proof {
            lemma_count_true_bound(removed@, n as int);
            let start = choose|s: int| 0 <= s < n && !removed@[s];
            assert forall|y: int| 0 <= y < n && !removed@[y] implies exists|u: int|
                0 <= u < n && !removed@[u] && has_edge(m, u, y) by {
                assert(!ready@.contains(y as usize));
                lemma_pred_count_zero(m, removed@, y, n as int);
            }
            lemma_stuck_has_cycle(m, n as int, removed@, start);
        }
        false
    }
}

proof fn lemma_count_true_zero(flags: Seq<bool>, k: int)
    requires
        0 <= k <= flags.len(),
        forall|i: int| 0 <= i < k ==> !#[trigger] flags[i],
    ensures
        count_true(flags, k) == 0,
    decreases k,
{
    if k > 0 {
        lemma_count_true_zero(flags, k - 1);
    }
}

} // verus!
