//! Dependency graph between source files, for detecting circular imports and ordering
//! compilation.
//!
//! Files are numbered in the order they are first named. A file added as a node, or
//! given a dependency, has an entry of its own; a file only ever named as a dependency
//! has none. Edges go from a file to the files it depends on.

use vstd::prelude::*;
use vstd::set_lib::{lemma_int_range, lemma_len_subset, set_int_range};
use crate::text::str_eq;

verus! {

/// `u -> v` is an edge of the adjacency lists `adj`.
pub open spec fn edge(adj: Seq<Seq<int>>, u: int, v: int) -> bool {
    0 <= u < adj.len() && adj[u].contains(v)
}

/// `w` is a walk: a nonempty sequence of files, each with an edge to the next.
pub open spec fn is_walk(adj: Seq<Seq<int>>, w: Seq<int>) -> bool {
    &&& w.len() >= 1
    &&& forall|i: int| 0 <= i < w.len() - 1 ==> edge(adj, #[trigger] w[i], w[i + 1])
}

/// There is a walk from `x` to `y` (possibly empty: `x == y`).
pub open spec fn reachable(adj: Seq<Seq<int>>, x: int, y: int) -> bool {
    exists|w: Seq<int>| is_walk(adj, w) && w[0] == x && w.last() == y
}

/// Every file of `s` is below `n`.
pub open spec fn all_below(s: Seq<int>, n: int) -> bool {
    forall|i: int| 0 <= i < s.len() ==> 0 <= #[trigger] s[i] < n
}

/// The adjacency lists form a graph over `n` files without repeated edges.
pub open spec fn graph_ok(adj: Seq<Seq<int>>, n: int) -> bool {
    &&& adj.len() == n
    &&& forall|u: int| 0 <= u < n ==> all_below(#[trigger] adj[u], n) && adj[u].no_duplicates()
}

/// The files after naming `name`: appended when new.
pub open spec fn files_with(files: Seq<Seq<char>>, name: Seq<char>) -> Seq<Seq<char>> {
    if files.contains(name) { files } else { files.push(name) }
}

/// Which files have entries after `name` gets one.
pub open spec fn keyed_with_node(files: Seq<Seq<char>>, keyed: Seq<bool>, name: Seq<char>) -> Seq<bool> {
    if files.contains(name) { keyed.update(files.index_of(name), true) } else { keyed.push(true) }
}

/// Which files have entries after `name` is named as a dependency.
pub open spec fn keyed_with_target(files: Seq<Seq<char>>, keyed: Seq<bool>, name: Seq<char>) -> Seq<bool> {
    if files.contains(name) { keyed } else { keyed.push(false) }
}

/// The adjacency lists after naming `name`: a new file has no dependencies.
pub open spec fn adj_with(files: Seq<Seq<char>>, adj: Seq<Seq<int>>, name: Seq<char>) -> Seq<Seq<int>> {
    if files.contains(name) { adj } else { adj.push(Seq::<int>::empty()) }
}

/// The adjacency lists after adding the edge `i -> j`, unless it is there already.
pub open spec fn adj_with_edge(adj: Seq<Seq<int>>, i: int, j: int) -> Seq<Seq<int>> {
    if adj[i].contains(j) { adj } else { adj.update(i, adj[i].push(j)) }
}

/// Number of `true` entries.
pub open spec fn count_true(s: Seq<bool>) -> nat
    decreases s.len(),
{
    if s.len() == 0 {
        0
    } else {
        count_true(s.drop_last()) + if s.last() { 1nat } else { 0nat }
    }
}

/// Every successor of a seen file in `done` is seen.
pub open spec fn successors_seen(adj: Seq<Seq<int>>, seen: Seq<bool>, u: int) -> bool {
    forall|m: int| 0 <= m < adj[u].len() ==> #[trigger] seen[adj[u][m]]
}

/// A walk that starts at a seen file stays among seen files when every seen file has
/// its successors seen.
proof fn lemma_walk_stays_seen(adj: Seq<Seq<int>>, seen: Seq<bool>, w: Seq<int>, k: int)
    requires
        is_walk(adj, w),
        0 <= k < w.len(),
        0 <= w[0] < seen.len(),
        seen[w[0]],
        graph_ok(adj, seen.len() as int),
        forall|u: int| 0 <= u < seen.len() && seen[u] ==> successors_seen(adj, seen, u),
    ensures
        0 <= w[k] < seen.len(),
        seen[w[k]],
    decreases k,
{
    if k > 0 {
        lemma_walk_stays_seen(adj, seen, w, k - 1);
        let u = w[k - 1];
        assert(edge(adj, w[k - 1], w[k]));
        let m = adj[u].index_of(w[k]);
        assert(adj[u][m] == w[k]);
        assert(all_below(adj[u], seen.len() as int));
        assert(seen[adj[u][m]]);
    }
}

/// The walks found so far: each seen file has a walk from `src`, whose last step comes
/// from the file's recorded parent, whose own walk is this one without its last file.
pub open spec fn walks_ok(adj: Seq<Seq<int>>, seen: Seq<bool>, parent: Seq<usize>, walks: Map<int, Seq<int>>, src: int) -> bool {
    forall|v: int| 0 <= v < seen.len() && #[trigger] seen[v] ==> {
        &&& walks.contains_key(v)
        &&& is_walk(adj, walks[v])
        &&& walks[v][0] == src
        &&& walks[v].last() == v
        &&& v == src ==> walks[v] == seq![src]
        &&& v != src ==> {
            &&& walks[v].len() >= 2
            &&& 0 <= parent[v] < seen.len()
            &&& parent[v] as int == walks[v][walks[v].len() - 2]
            &&& seen[parent[v] as int]
            &&& walks[parent[v] as int] == walks[v].drop_last()
        }
    }
}

proof fn lemma_count_true_set(s: Seq<bool>, i: int)
    requires
        0 <= i < s.len(),
        !s[i],
    ensures
        count_true(s.update(i, true)) == count_true(s) + 1,
    decreases s.len(),
{
    if i == s.len() - 1 {
        assert(s.update(i, true).drop_last() =~= s.drop_last());
    } else {
        lemma_count_true_set(s.drop_last(), i);
        assert(s.update(i, true).drop_last() =~= s.drop_last().update(i, true));
    }
}

proof fn lemma_count_true_bound(s: Seq<bool>)
    ensures
        count_true(s) <= s.len(),
    decreases s.len(),
{
    if s.len() > 0 {
        lemma_count_true_bound(s.drop_last());
    }
}

proof fn lemma_count_true_none(s: Seq<bool>)
    requires
        forall|i: int| 0 <= i < s.len() ==> !s[i],
    ensures
        count_true(s) == 0,
    decreases s.len(),
{
    if s.len() > 0 {
        lemma_count_true_none(s.drop_last());
    }
}

/// Numbers below `n` without repeats are at most `n`.
proof fn lemma_distinct_below(s: Seq<int>, n: int)
    requires
        s.no_duplicates(),
        all_below(s, n),
        n >= 0,
    ensures
        s.len() <= n,
{
    s.unique_seq_to_set();
    lemma_int_range(0, n);
    assert(s.to_set().subset_of(set_int_range(0, n))) by {
        assert forall|x: int| s.to_set().contains(x) implies set_int_range(0, n).contains(x) by {
            let j = choose|j: int| 0 <= j < s.len() && s[j] == x;
        }
    }
    lemma_len_subset(s.to_set(), set_int_range(0, n));
}

/// Numbers below `n` without repeats, `n` of them, take in every number below `n`.
proof fn lemma_distinct_all(s: Seq<int>, n: int, x: int)
    requires
        s.no_duplicates(),
        all_below(s, n),
        s.len() == n,
        0 <= x < n,
    ensures
        s.contains(x),
{
    if !s.contains(x) {
        s.unique_seq_to_set();
        lemma_int_range(0, n);
        let r = set_int_range(0, n).remove(x);
        assert(s.to_set().subset_of(r)) by {
            assert forall|y: int| s.to_set().contains(y) implies r.contains(y) by {
                let j = choose|j: int| 0 <= j < s.len() && s[j] == y;
            }
        }
        lemma_len_subset(s.to_set(), r);
    }
}

/// Number of files below `k`, not yet done, with an edge to `v`.
pub open spec fn pred_count(adj: Seq<Seq<int>>, done: Seq<bool>, v: int, k: int) -> nat
    decreases k,
{
    if k <= 0 {
        0
    } else {
        pred_count(adj, done, v, k - 1) + if !done[k - 1] && adj[k - 1].contains(v) { 1nat } else { 0nat }
    }
}

proof fn lemma_pred_count_bound(adj: Seq<Seq<int>>, done: Seq<bool>, v: int, k: int)
    requires
        k >= 0,
    ensures
        pred_count(adj, done, v, k) <= k,
    decreases k,
{
    if k > 0 {
        lemma_pred_count_bound(adj, done, v, k - 1);
    }
}

proof fn lemma_pred_count_flip(adj: Seq<Seq<int>>, done: Seq<bool>, x: int, v: int, k: int)
    requires
        0 <= x < done.len(),
        !done[x],
        0 <= k <= done.len(),
    ensures
        pred_count(adj, done.update(x, true), v, k) + (if x < k && adj[x].contains(v) { 1int } else { 0int })
            == pred_count(adj, done, v, k),
    decreases k,
{
    if k > 0 {
        lemma_pred_count_flip(adj, done, x, v, k - 1);
    }
}

proof fn lemma_pred_count_zero(adj: Seq<Seq<int>>, done: Seq<bool>, v: int, k: int, u: int)
    requires
        pred_count(adj, done, v, k) == 0,
        0 <= u < k,
        adj[u].contains(v),
    ensures
        done[u],
    decreases k,
{
    if u < k - 1 {
        lemma_pred_count_zero(adj, done, v, k - 1, u);
    }
}

proof fn lemma_pred_count_pos(adj: Seq<Seq<int>>, done: Seq<bool>, v: int, k: int)
    requires
        pred_count(adj, done, v, k) > 0,
    ensures
        exists|u: int| 0 <= u < k && !done[u] && adj[u].contains(v),
    decreases k,
{
    if k > 0 {
        if !(!done[k - 1] && adj[k - 1].contains(v)) {
            lemma_pred_count_pos(adj, done, v, k - 1);
        }
    }
}

/// `q` is the order in which files can be taken when each file is taken after every file
/// with an edge to it: no file twice, every file of `q` after all files with an edge to it,
/// and every file left out has an edge to it from a file left out.
pub open spec fn kahn_ok(adj: Seq<Seq<int>>, n: int, q: Seq<int>) -> bool {
    &&& q.no_duplicates()
    &&& all_below(q, n)
    &&& forall|i: int, u: int| 0 <= i < q.len() && 0 <= u < n && #[trigger] edge(adj, u, q[i]) ==>
        exists|j: int| 0 <= j < i && q[j] == u
    &&& forall|v: int| 0 <= v < n && !q.contains(v) ==>
        exists|u: int| 0 <= u < n && !q.contains(u) && #[trigger] edge(adj, u, v)
}

proof fn lemma_kahn_prefix_in(adj: Seq<Seq<int>>, n: int, q1: Seq<int>, q2: Seq<int>, i: int)
    requires
        kahn_ok(adj, n, q1),
        kahn_ok(adj, n, q2),
        0 <= i < q1.len(),
    ensures
        forall|j: int| 0 <= j <= i ==> q2.contains(#[trigger] q1[j]),
    decreases i,
{
    if i > 0 {
        lemma_kahn_prefix_in(adj, n, q1, q2, i - 1);
    }
    let v = q1[i];
    if !q2.contains(v) {
        let u = choose|u: int| 0 <= u < n && !q2.contains(u) && #[trigger] edge(adj, u, v);
        assert(edge(adj, u, q1[i]));
        let j = choose|j: int| 0 <= j < i && q1[j] == u;
        assert(q2.contains(q1[j]));
    }
}

/// Walking edges backwards from a file left out of a Kahn order `q`, through files left
/// out: the `k + 1` files met, starting from `v`.
pub open spec fn back_walk(adj: Seq<Seq<int>>, n: int, q: Seq<int>, v: int, k: nat) -> Seq<int>
    decreases k,
{
    if k == 0 {
        seq![v]
    } else {
        let w = back_walk(adj, n, q, v, (k - 1) as nat);
        w.push(choose|u: int| 0 <= u < n && !q.contains(u) && edge(adj, u, w.last()))
    }
}

proof fn lemma_back_walk(adj: Seq<Seq<int>>, n: int, q: Seq<int>, v: int, k: nat)
    requires
        kahn_ok(adj, n, q),
        0 <= v < n,
        !q.contains(v),
    ensures
        back_walk(adj, n, q, v, k).len() == k + 1,
        back_walk(adj, n, q, v, k)[0] == v,
        forall|i: int| 0 <= i <= k ==> 0 <= #[trigger] back_walk(adj, n, q, v, k)[i] < n
            && !q.contains(back_walk(adj, n, q, v, k)[i]),
        forall|i: int| 0 <= i < k ==> edge(adj, #[trigger] back_walk(adj, n, q, v, k)[i + 1], back_walk(adj, n, q, v, k)[i]),
    decreases k,
{
    if k > 0 {
        lemma_back_walk(adj, n, q, v, (k - 1) as nat);
        let w = back_walk(adj, n, q, v, (k - 1) as nat);
        let x = w.last();
        assert(0 <= x < n && !q.contains(x));
        let u = choose|u: int| 0 <= u < n && !q.contains(u) && edge(adj, u, x);
        assert(edge(adj, u, x));
        let w2 = back_walk(adj, n, q, v, k);
        assert(w2 == w.push(u));
        assert forall|i: int| 0 <= i < k implies edge(adj, #[trigger] w2[i + 1], w2[i]) by {
            if i < k - 1 {
                assert(w2[i + 1] == w[i + 1] && w2[i] == w[i]);
            }
        }
    }
}

/// A file of a Kahn order comes after every file of the order with an edge to it.
proof fn lemma_kahn_before(adj: Seq<Seq<int>>, n: int, q: Seq<int>, u: int, v: int)
    requires
        kahn_ok(adj, n, q),
        q.contains(u),
        q.contains(v),
        0 <= u < n,
        edge(adj, u, v),
    ensures
        q.index_of(u) < q.index_of(v),
{
    let iv = q.index_of(v);
    let iu = q.index_of(u);
    assert(q[iv] == v && q[iu] == u);
    assert(edge(adj, u, q[iv]));
    let j = choose|j: int| 0 <= j < iv && q[j] == u;
    assert(j == iu);
}

/// A Kahn order that takes in every file leaves no room for a cycle.
proof fn lemma_kahn_full_acyclic(adj: Seq<Seq<int>>, n: int, q: Seq<int>)
    requires
        graph_ok(adj, n),
        kahn_ok(adj, n, q),
        q.len() == n,
    ensures
        acyclic(adj),
{
    assert forall|c: Seq<int>| !#[trigger] is_cycle(adj, c) by {
        if is_cycle(adj, c) {
            assert forall|i: int| 0 <= i < c.len() - 1 implies 0 <= #[trigger] c[i] < n && q.contains(c[i])
                && 0 <= c[i + 1] < n && q.contains(c[i + 1]) by {
                assert(edge(adj, c[i], c[i + 1]));
                let m = adj[c[i]].index_of(c[i + 1]);
                assert(all_below(adj[c[i]], n));
                assert(adj[c[i]][m] == c[i + 1]);
                lemma_distinct_all(q, n, c[i]);
                lemma_distinct_all(q, n, c[i + 1]);
            }
            lemma_cycle_positions(adj, n, q, c, c.len() - 1);
        }
    }
}

/// Fewer than `n` numbers below `n` miss one of them.
proof fn lemma_one_missing(q: Seq<int>, n: int)
    requires
        q.no_duplicates(),
        q.len() < n,
    ensures
        exists|v: int| 0 <= v < n && !q.contains(v),
{
    if forall|v: int| 0 <= v < n ==> q.contains(v) {
        q.unique_seq_to_set();
        lemma_int_range(0, n);
        assert(set_int_range(0, n).subset_of(q.to_set()));
        lemma_len_subset(set_int_range(0, n), q.to_set());
    }
}

/// A backward walk that meets a file twice closes a cycle.
proof fn lemma_repeat_cycle(adj: Seq<Seq<int>>, w: Seq<int>)
    requires
        forall|i: int| 0 <= i < w.len() - 1 ==> edge(adj, #[trigger] w[i + 1], w[i]),
        !w.no_duplicates(),
    ensures
        !acyclic(adj),
{
    let (a0, b0) = choose|a: int, b: int| 0 <= a < w.len() && 0 <= b < w.len() && a != b && w[a] == w[b];
    let a = if a0 < b0 { a0 } else { b0 };
    let b = if a0 < b0 { b0 } else { a0 };
    let c = Seq::new((b - a + 1) as nat, |i: int| w[b - i]);
    assert forall|i: int| 0 <= i < c.len() - 1 implies edge(adj, #[trigger] c[i], c[i + 1]) by {
        assert(edge(adj, w[b - i - 1 + 1], w[b - i - 1]));
    }
    assert(is_cycle(adj, c));
}

/// Without cycles, a Kahn order takes in every file: a file left out would start an
/// endless backward walk through files left out, which must repeat a file.
proof fn lemma_acyclic_kahn_full(adj: Seq<Seq<int>>, n: int, q: Seq<int>)
    requires
        graph_ok(adj, n),
        kahn_ok(adj, n, q),
        acyclic(adj),
    ensures
        q.len() == n,
{
    lemma_distinct_below(q, n);
    if q.len() < n {
        lemma_one_missing(q, n);
        let v = choose|v: int| 0 <= v < n && !q.contains(v);
        let w = back_walk(adj, n, q, v, n as nat);
        lemma_back_walk(adj, n, q, v, n as nat);
        if w.no_duplicates() {
            assert(all_below(w, n));
            lemma_distinct_below(w, n);
        }
        lemma_repeat_cycle(adj, w);
    }
}

/// A Kahn order takes in every file exactly when the graph has no cycle.
pub proof fn lemma_kahn_full_iff_acyclic(adj: Seq<Seq<int>>, n: int, q: Seq<int>)
    requires
        graph_ok(adj, n),
        kahn_ok(adj, n, q),
    ensures
        q.len() == n <==> acyclic(adj),
{
    if q.len() == n {
        lemma_kahn_full_acyclic(adj, n, q);
    }
    if acyclic(adj) {
        lemma_acyclic_kahn_full(adj, n, q);
    }
}

/// Along a cycle through files of a Kahn order, each file comes later than the first.
proof fn lemma_cycle_positions(adj: Seq<Seq<int>>, n: int, q: Seq<int>, c: Seq<int>, k: int)
    requires
        kahn_ok(adj, n, q),
        is_cycle(adj, c),
        forall|i: int| 0 <= i < c.len() - 1 ==> 0 <= #[trigger] c[i] < n && q.contains(c[i]) && 0 <= c[i + 1] < n
            && q.contains(c[i + 1]),
        1 <= k < c.len(),
    ensures
        q.index_of(c[0]) < q.index_of(c[k]),
    decreases k,
{
    assert(edge(adj, c[k - 1], c[k]));
    assert(0 <= c[k - 1] < n && q.contains(c[k - 1]) && q.contains(c[k]));
    lemma_kahn_before(adj, n, q, c[k - 1], c[k]);
    if k > 1 {
        lemma_cycle_positions(adj, n, q, c, k - 1);
    }
}

/// The order taken is unique as a set: any two such orders have the same length.
pub proof fn lemma_kahn_unique(adj: Seq<Seq<int>>, n: int, q1: Seq<int>, q2: Seq<int>)
    requires
        kahn_ok(adj, n, q1),
        kahn_ok(adj, n, q2),
    ensures
        q1.len() == q2.len(),
{
    if q1.len() > 0 {
        lemma_kahn_prefix_in(adj, n, q1, q2, q1.len() - 1);
    }
    if q2.len() > 0 {
        lemma_kahn_prefix_in(adj, n, q2, q1, q2.len() - 1);
    }
    assert(q1.to_set() =~= q2.to_set()) by {
        assert forall|x: int| q1.to_set().contains(x) implies q2.to_set().contains(x) by {
            let j = choose|j: int| 0 <= j < q1.len() && q1[j] == x;
            assert(q2.contains(q1[j]));
        }
        assert forall|x: int| q2.to_set().contains(x) implies q1.to_set().contains(x) by {
            let j = choose|j: int| 0 <= j < q2.len() && q2[j] == x;
            assert(q1.contains(q2[j]));
        }
    }
    q1.unique_seq_to_set();
    q2.unique_seq_to_set();
}

/// A sequence of file numbers as integers.
pub open spec fn ints(s: Seq<usize>) -> Seq<int> {
    s.map_values(|x: usize| x as int)
}

/// `c` is a cycle: a walk that ends where it starts, with at least one edge.
pub open spec fn is_cycle(adj: Seq<Seq<int>>, c: Seq<int>) -> bool {
    &&& is_walk(adj, c)
    &&& c.len() >= 2
    &&& c[0] == c.last()
}

/// `c` is a simple cycle: a cycle that meets no file twice before coming back.
pub open spec fn simple_cycle(adj: Seq<Seq<int>>, c: Seq<int>) -> bool {
    is_cycle(adj, c) && c.drop_last().no_duplicates()
}

/// The cycle `c` (first file repeated at the end) started at its `j`-th file instead.
pub open spec fn rotate_cycle(c: Seq<int>, j: int) -> Seq<int> {
    Seq::new(c.len(), |i: int| if j + i < c.len() - 1 { c[j + i] } else { c[j + i - (c.len() - 1)] })
}

/// The `j`-th file of the cycle `c` is its lowest-numbered one.
pub open spec fn min_at(c: Seq<int>, j: int) -> bool {
    &&& 0 <= j < c.len() - 1
    &&& forall|i: int| 0 <= i < c.len() - 1 ==> c[j] <= #[trigger] c[i]
}

/// The cycle `c` is among the recorded ones.
pub open spec fn has_cycle(cycles: Seq<Vec<usize>>, c: Seq<int>) -> bool {
    exists|k: int| 0 <= k < cycles.len() && ints(#[trigger] cycles[k]@) == c
}

/// Every recorded cycle is a simple cycle.
pub open spec fn cycles_ok(adj: Seq<Seq<int>>, cycles: Seq<Vec<usize>>) -> bool {
    forall|k: int| 0 <= k < cycles.len() ==> #[trigger] simple_cycle(adj, ints(cycles[k]@))
}

/// The search state: `path` is a walk from `s` meeting no file twice, through files
/// numbered above `s`, and `on_path` marks exactly its files.
pub open spec fn path_ok(adj: Seq<Seq<int>>, n: int, s: int, on_path: Seq<bool>, path: Seq<usize>) -> bool {
    &&& on_path.len() == n
    &&& 0 <= s < n
    &&& path.len() > 0
    &&& path[0] == s
    &&& is_walk(adj, ints(path))
    &&& path.no_duplicates()
    &&& forall|k: int| 0 <= k < path.len() ==> #[trigger] path[k] < n
    &&& forall|k: int| 1 <= k < path.len() ==> #[trigger] path[k] > s
    &&& forall|x: int| 0 <= x < n ==> (#[trigger] on_path[x] <==> path.contains(x as usize))
}

/// `rest` closes the walk `p` into a simple cycle back to `s`: an edge from the end of
/// `p` to `rest`'s first file, edges along `rest`, which ends at `s`, and before that only
/// new files numbered above `s`, none twice.
pub open spec fn ext_ok(adj: Seq<Seq<int>>, s: int, p: Seq<int>, rest: Seq<int>) -> bool {
    &&& rest.len() >= 1
    &&& p.len() >= 1
    &&& edge(adj, p.last(), rest[0])
    &&& is_walk(adj, rest)
    &&& rest.last() == s
    &&& rest.drop_last().no_duplicates()
    &&& forall|i: int| 0 <= i < rest.len() - 1 ==> #[trigger] rest[i] > s && !p.contains(rest[i])
}

/// File numbers without repeats, all below `n`, stay so as integers.
proof fn lemma_ints_distinct(p: Seq<usize>, n: int)
    requires
        p.no_duplicates(),
        forall|k: int| 0 <= k < p.len() ==> #[trigger] p[k] < n,
    ensures
        ints(p).no_duplicates(),
        all_below(ints(p), n),
{
}

proof fn lemma_has_cycle_grow(a: Seq<Vec<usize>>, b: Seq<Vec<usize>>, c: Seq<int>)
    requires
        has_cycle(a, c),
        a.len() <= b.len(),
        forall|k: int| 0 <= k < a.len() ==> #[trigger] b[k] == a[k],
    ensures
        has_cycle(b, c),
{
    let k = choose|k: int| 0 <= k < a.len() && ints(a[k]@) == c;
    assert(b[k] == a[k]);
}

/// A walk from `s` meeting no file twice, with an edge back to `s`, is a simple cycle.
proof fn lemma_closed_walk(adj: Seq<Seq<int>>, p: Seq<int>, s: int)
    requires
        is_walk(adj, p),
        p[0] == s,
        p.no_duplicates(),
        edge(adj, p.last(), s),
    ensures
        simple_cycle(adj, p + seq![s]),
{
    let c = p + seq![s];
    assert forall|i: int| 0 <= i < c.len() - 1 implies edge(adj, #[trigger] c[i], c[i + 1]) by {
        if i < p.len() - 1 {
            assert(c[i] == p[i] && c[i + 1] == p[i + 1]);
        } else {
            assert(c[i] == p.last());
        }
    }
    assert(c.drop_last() =~= p);
}

/// Extending the search path by a new file numbered above `s` keeps the search state.
proof fn lemma_path_push(adj: Seq<Seq<int>>, n: int, s: int, on_path: Seq<bool>, path: Seq<usize>, old_on: Seq<bool>, v: usize)
    requires
        path_ok(adj, n, s, old_on, path),
        s < v < n,
        n <= usize::MAX,
        !old_on[v as int],
        on_path == old_on.update(v as int, true),
        edge(adj, path.last() as int, v as int),
    ensures
        path_ok(adj, n, s, on_path, path.push(v)),
{
    let p2 = path.push(v);
    assert(!path.contains(v));
    assert(p2[path.len() as int] == v);
    assert(ints(p2) =~= ints(path).push(v as int)) by {
        assert forall|i: int| 0 <= i < p2.len() implies ints(p2)[i] == ints(path).push(v as int)[i] by {
            if i < path.len() {
                assert(p2[i] == path[i]);
            }
        }
    }
    let w = ints(p2);
    assert forall|i: int| 0 <= i < w.len() - 1 implies edge(adj, #[trigger] w[i], w[i + 1]) by {
        if i < w.len() - 2 {
            assert(edge(adj, ints(path)[i], ints(path)[i + 1]));
        }
    }
    assert forall|x: int| 0 <= x < n implies (#[trigger] on_path[x] <==> p2.contains(x as usize)) by {
        if x == v as int {
            assert(p2[path.len() as int] == v);
        } else {
            if path.contains(x as usize) {
                let k = choose|k: int| 0 <= k < path.len() && path[k] == x as usize;
                assert(p2[k] == x as usize);
            }
            if p2.contains(x as usize) {
                let k = choose|k: int| 0 <= k < p2.len() && p2[k] == x as usize;
                assert(k < path.len());
                assert(path[k] == x as usize);
            }
        }
    }
}

/// What can close a walk from its last file's successor `rest[0]`: `s` itself, ending
/// there, or a new file numbered above `s`.
proof fn lemma_ext_first(adj: Seq<Seq<int>>, s: int, p: Seq<int>, rest: Seq<int>)
    requires
        ext_ok(adj, s, p, rest),
    ensures
        rest[0] == s ==> rest.len() == 1,
        rest.len() > 1 ==> rest[0] > s && !p.contains(rest[0]),
{
}

/// Past its first file `v`, a closing `rest` closes the walk extended by `v`.
proof fn lemma_ext_step(adj: Seq<Seq<int>>, s: int, p: Seq<int>, rest: Seq<int>)
    requires
        ext_ok(adj, s, p, rest),
        rest[0] != s,
    ensures
        rest.len() > 1,
        ext_ok(adj, s, p.push(rest[0]), rest.skip(1)),
{
    let v = rest[0];
    let r2 = rest.skip(1);
    assert(rest.len() > 1);
    assert(edge(adj, rest[0], rest[1]));
    assert forall|i: int| 0 <= i < r2.len() - 1 implies edge(adj, #[trigger] r2[i], r2[i + 1]) by {
        assert(edge(adj, rest[i + 1], rest[i + 2]));
    }
    assert(r2.drop_last() =~= rest.drop_last().skip(1));
    assert forall|i: int| 0 <= i < r2.len() - 1 implies #[trigger] r2[i] > s && !p.push(v).contains(r2[i]) by {
        assert(r2[i] == rest[i + 1]);
        assert(rest.drop_last()[0] != rest.drop_last()[i + 1]);
        if p.push(v).contains(r2[i]) {
            let k = choose|k: int| 0 <= k < p.push(v).len() && p.push(v)[k] == r2[i];
            if k < p.len() {
                assert(p[k] == r2[i]);
            }
        }
    }
    assert(p.push(v).last() == v);
}

/// The files of a rotated cycle, by where they stand in the cycle.
proof fn lemma_rotate_index(c: Seq<int>, j: int, i: int)
    requires
        c.len() >= 2,
        0 <= j < c.len() - 1,
        0 <= i < c.len(),
    ensures
        rotate_cycle(c, j).len() == c.len(),
        j + i < c.len() - 1 ==> rotate_cycle(c, j)[i] == c[j + i],
        j + i >= c.len() - 1 ==> rotate_cycle(c, j)[i] == c[j + i - (c.len() - 1)],
        0 <= (if j + i < c.len() - 1 { j + i } else { j + i - (c.len() - 1) }) < c.len() - 1
            || i == c.len() - 1,
{
}

/// A rotated simple cycle is a walk.
proof fn lemma_rotate_walk(adj: Seq<Seq<int>>, c: Seq<int>, j: int)
    requires
        is_cycle(adj, c),
        0 <= j < c.len() - 1,
    ensures
        is_walk(adj, rotate_cycle(c, j)),
        rotate_cycle(c, j)[0] == c[j],
        rotate_cycle(c, j).last() == c[j],
{
    let m = c.len() - 1;
    let rc = rotate_cycle(c, j);
    lemma_rotate_index(c, j, 0);
    lemma_rotate_index(c, j, m);
    assert forall|i: int| 0 <= i < rc.len() - 1 implies edge(adj, #[trigger] rc[i], rc[i + 1]) by {
        lemma_rotate_index(c, j, i);
        lemma_rotate_index(c, j, i + 1);
        let a = if j + i < m { j + i } else { j + i - m };
        assert(edge(adj, c[a], c[a + 1]));
        if a + 1 == m {
            assert(c[a + 1] == c[0]);
        }
    }
}

/// The rotation of a simple cycle to its lowest-numbered file is that file followed by a
/// closing of the one-file walk.
#[verifier::rlimit(30)]
proof fn lemma_rotate_ext(adj: Seq<Seq<int>>, c: Seq<int>, j: int)
    requires
        simple_cycle(adj, c),
        min_at(c, j),
    ensures
        rotate_cycle(c, j).len() == c.len(),
        rotate_cycle(c, j)[0] == c[j],
        ext_ok(adj, c[j], seq![c[j]], rotate_cycle(c, j).skip(1)),
{
    let m = c.len() - 1;
    let rc = rotate_cycle(c, j);
    let o = c.drop_last();
    lemma_rotate_walk(adj, c, j);
    lemma_rotate_index(c, j, 0);
    let r2 = rc.skip(1);
    assert forall|i: int| 0 <= i < r2.len() - 1 implies edge(adj, #[trigger] r2[i], r2[i + 1]) by {
        assert(edge(adj, rc[i + 1], rc[i + 2]));
    }
    assert(edge(adj, rc[0], rc[1]));
    assert(r2.last() == c[j]);
    assert forall|a: int, b: int| 0 <= a < r2.len() - 1 && 0 <= b < r2.len() - 1 && a != b
        implies r2.drop_last()[a] != r2.drop_last()[b] by {
        lemma_rotate_index(c, j, a + 1);
        lemma_rotate_index(c, j, b + 1);
        let ia = if j + a + 1 < m { j + a + 1 } else { j + a + 1 - m };
        let ib = if j + b + 1 < m { j + b + 1 } else { j + b + 1 - m };
        assert(o[ia] == c[ia] && o[ib] == c[ib]);
    }
    assert forall|i: int| 0 <= i < r2.len() - 1 implies #[trigger] r2[i] > c[j] && !seq![c[j]].contains(r2[i]) by {
        lemma_rotate_index(c, j, i + 1);
        let ia = if j + i + 1 < m { j + i + 1 } else { j + i + 1 - m };
        assert(r2[i] == c[ia]);
        assert(ia != j);
        assert(o[ia] != o[j]);
        assert(c[j] <= c[ia]);
        if seq![c[j]].contains(r2[i]) {
            assert(seq![c[j]][0] == c[j]);
        }
    }
}

/// Among the first `k` files of `c`, one numbered lowest.
proof fn lemma_min_prefix(c: Seq<int>, k: int) -> (j: int)
    requires
        1 <= k <= c.len(),
    ensures
        0 <= j < k,
        forall|i: int| 0 <= i < k ==> c[j] <= #[trigger] c[i],
    decreases k,
{
    if k == 1 {
        0
    } else {
        let j0 = lemma_min_prefix(c, k - 1);
        if c[k - 1] < c[j0] { k - 1 } else { j0 }
    }
}

/// Every simple cycle has a lowest-numbered file.
proof fn lemma_min_exists(adj: Seq<Seq<int>>, n: int, c: Seq<int>) -> (j: int)
    requires
        simple_cycle(adj, c),
    ensures
        min_at(c, j),
{
    lemma_min_prefix(c, c.len() - 1)
}

/// Every cycle holds a simple cycle.
proof fn lemma_simple_inside(adj: Seq<Seq<int>>, c: Seq<int>) -> (d: Seq<int>)
    requires
        is_cycle(adj, c),
    ensures
        simple_cycle(adj, d),
    decreases c.len(),
{
    if c.drop_last().no_duplicates() {
        c
    } else {
        let o = c.drop_last();
        let (a0, b0) = choose|a: int, b: int| 0 <= a < o.len() && 0 <= b < o.len() && a != b && o[a] == o[b];
        let a = if a0 < b0 { a0 } else { b0 };
        let b = if a0 < b0 { b0 } else { a0 };
        let e = c.subrange(a, b + 1);
        assert forall|i: int| 0 <= i < e.len() - 1 implies edge(adj, #[trigger] e[i], e[i + 1]) by {
            assert(edge(adj, c[a + i], c[a + i + 1]));
        }
        assert(e[0] == o[a] && e.last() == o[b]);
        lemma_simple_inside(adj, e)
    }
}

/// The reverse of a sequence.
pub open spec fn rev(s: Seq<int>) -> Seq<int> {
    Seq::new(s.len(), |i: int| s[s.len() - 1 - i])
}

/// Dependency graph for detecting circular imports.
#[derive(Debug)]
pub struct DependencyGraph {
    names: Vec<String>,
    keyed: Vec<bool>,
    deps: Vec<Vec<usize>>,
}


/// No walk with at least one edge ends where it starts.
pub open spec fn acyclic(adj: Seq<Seq<int>>) -> bool {
    forall|c: Seq<int>| !#[trigger] is_cycle(adj, c)
}

/// Every edge of `small` is an edge of `big`.
pub open spec fn has_edges_of(big: Seq<Seq<int>>, small: Seq<Seq<int>>) -> bool {
    forall|u: int, v: int| #[trigger] edge(small, u, v) ==> edge(big, u, v)
}

proof fn lemma_walk_widen(small: Seq<Seq<int>>, big: Seq<Seq<int>>, w: Seq<int>)
    requires
        is_walk(small, w),
        has_edges_of(big, small),
    ensures
        is_walk(big, w),
{
    assert forall|i: int| 0 <= i < w.len() - 1 implies edge(big, #[trigger] w[i], w[i + 1]) by {
        assert(edge(small, w[i], w[i + 1]));
    }
}

proof fn lemma_reach_refl(adj: Seq<Seq<int>>, x: int)
    ensures
        reachable(adj, x, x),
{
    let w = seq![x];
    assert(is_walk(adj, w) && w[0] == x && w.last() == x);
}

proof fn lemma_reach_prepend(adj: Seq<Seq<int>>, x: int, y: int, z: int)
    requires
        edge(adj, x, y),
        reachable(adj, y, z),
    ensures
        reachable(adj, x, z),
{
    let w = choose|w: Seq<int>| is_walk(adj, w) && w[0] == y && w.last() == z;
    let v = seq![x] + w;
    assert forall|i: int| 0 <= i < v.len() - 1 implies edge(adj, #[trigger] v[i], v[i + 1]) by {
        if i > 0 {
            assert(v[i] == w[i - 1]);
            assert(v[i + 1] == w[i]);
            assert(edge(adj, w[i - 1], w[i]));
        }
    }
    assert(is_walk(adj, v) && v[0] == x && v.last() == z);
}

proof fn lemma_reach_trans(adj: Seq<Seq<int>>, x: int, y: int, z: int)
    requires
        reachable(adj, x, y),
        reachable(adj, y, z),
    ensures
        reachable(adj, x, z),
{
    let w = choose|w: Seq<int>| is_walk(adj, w) && w[0] == x && w.last() == y;
    lemma_reach_along(adj, w, 0, z);
}

proof fn lemma_reach_along(adj: Seq<Seq<int>>, w: Seq<int>, k: int, z: int)
    requires
        is_walk(adj, w),
        0 <= k < w.len(),
        reachable(adj, w.last(), z),
    ensures
        reachable(adj, w[k], z),
    decreases w.len() - k,
{
    if k < w.len() - 1 {
        lemma_reach_along(adj, w, k + 1, z);
        assert(edge(adj, w[k], w[k + 1]));
        lemma_reach_prepend(adj, w[k], w[k + 1], z);
    }
}

proof fn lemma_reach_widen(small: Seq<Seq<int>>, big: Seq<Seq<int>>, x: int, y: int)
    requires
        reachable(small, x, y),
        has_edges_of(big, small),
    ensures
        reachable(big, x, y),
{
    let w = choose|w: Seq<int>| is_walk(small, w) && w[0] == x && w.last() == y;
    lemma_walk_widen(small, big, w);
}

/// A walk through the graph with the extra edge `f -> t` either never needs that edge, or
/// reaches `f` first and goes on from `t`.
proof fn lemma_walk_split(base: Seq<Seq<int>>, f: int, t: int, w: Seq<int>)
    requires
        0 <= f < base.len(),
        is_walk(adj_with_edge(base, f, t), w),
    ensures
        reachable(base, w[0], w.last()) || (reachable(base, w[0], f) && reachable(base, t, w.last())),
    decreases w.len(),
{
    let big = adj_with_edge(base, f, t);
    if w.len() == 1 {
        lemma_reach_refl(base, w[0]);
    } else {
        let rest = w.subrange(1, w.len() as int);
        assert forall|i: int| 0 <= i < rest.len() - 1 implies edge(big, #[trigger] rest[i], rest[i + 1]) by {
            assert(rest[i] == w[i + 1]);
            assert(edge(big, w[i + 1], w[i + 2]));
        }
        lemma_walk_split(base, f, t, rest);
        assert(rest[0] == w[1] && rest.last() == w.last());
        assert(edge(big, w[0], w[1]));
        if w[0] == f && w[1] == t {
            lemma_reach_refl(base, f);
            if !reachable(base, t, w.last()) {
                assert(reachable(base, t, f) && reachable(base, t, w.last()));
            }
        } else {
            if w[0] != f {
                assert(big[w[0]] == base[w[0]]);
            } else if !base[f].contains(t) {
                assert(big[f] == base[f].push(t));
                let m = big[f].index_of(w[1]);
                assert(big[f][m] == w[1]);
                assert(base[f][m] == w[1]);
            }
            assert(edge(base, w[0], w[1]));
            if reachable(base, w[1], w.last()) {
                lemma_reach_prepend(base, w[0], w[1], w.last());
            } else {
                lemma_reach_prepend(base, w[0], w[1], f);
            }
        }
    }
}

proof fn lemma_edges_with_edge(base: Seq<Seq<int>>, f: int, t: int)
    requires
        0 <= f < base.len(),
    ensures
        has_edges_of(adj_with_edge(base, f, t), base),
        edge(adj_with_edge(base, f, t), f, t),
{
    let big = adj_with_edge(base, f, t);
    assert forall|u: int, v: int| #[trigger] edge(base, u, v) implies edge(big, u, v) by {
        if u == f && !base[f].contains(t) {
            let m = base[f].index_of(v);
            assert(big[f][m] == v);
        }
    }
    if !base[f].contains(t) {
        assert(big[f][base[f].len() as int] == t);
    }
}

proof fn lemma_edges_with_file(files: Seq<Seq<char>>, adj: Seq<Seq<int>>, name: Seq<char>)
    ensures
        has_edges_of(adj_with(files, adj, name), adj),
        has_edges_of(adj, adj_with(files, adj, name)),
{
    let big = adj_with(files, adj, name);
    assert forall|u: int, v: int| #[trigger] edge(big, u, v) implies edge(adj, u, v) by {
        if !files.contains(name) && u == adj.len() {
            assert(big[u] == Seq::<int>::empty());
        }
    }
    assert forall|u: int, v: int| #[trigger] edge(adj, u, v) implies edge(big, u, v) by {
        if !files.contains(name) {
            assert(big[u] == adj[u]);
        }
    }
}

proof fn lemma_reach_ends_named(adj: Seq<Seq<int>>, n: int, x: int, y: int)
    requires
        graph_ok(adj, n),
        reachable(adj, x, y),
        x != y,
    ensures
        0 <= x < n,
        0 <= y < n,
{
    let w = choose|w: Seq<int>| is_walk(adj, w) && w[0] == x && w.last() == y;
    assert(edge(adj, w[0], w[1]));
    let u = w[w.len() - 2];
    assert(edge(adj, u, w[w.len() - 2 + 1]));
    let m = adj[u].index_of(y);
    assert(all_below(adj[u], n));
    assert(adj[u][m] == y);
}


proof fn lemma_no_dup_index<A>(s: Seq<A>, i: int, j: int)
    requires
        s.no_duplicates(),
        0 <= i < s.len(),
        0 <= j < s.len(),
        s[i] == s[j],
    ensures
        i == j,
{
}

impl DependencyGraph {
    /// The files, in the order they were first named.
    pub closed spec fn files(&self) -> Seq<Seq<char>> {
        self.names@.map_values(|s: String| s@)
    }

    /// Which files have an entry of their own.
    pub closed spec fn keyed(&self) -> Seq<bool> {
        self.keyed@
    }

    /// For each file, the files it depends on (by number), in the order they were added.
    pub closed spec fn adj(&self) -> Seq<Seq<int>> {
        self.deps@.map_values(|d: Vec<usize>| d@.map_values(|v: usize| v as int))
    }

    /// Files are named once each; only files with an entry have dependencies.
    pub closed spec fn wf(&self) -> bool {
        &&& self.names@.len() == self.keyed@.len()
        &&& graph_ok(self.adj(), self.names@.len() as int)
        &&& self.files().no_duplicates()
        &&& forall|u: int| 0 <= u < self.keyed@.len() && !self.keyed@[u] ==> #[trigger] self.adj()[u].len() == 0
    }

    /// The number of file `name`, if it was named.
    pub open spec fn number_of(&self, name: Seq<char>) -> Option<int> {
        if self.files().contains(name) {
            Some(self.files().index_of(name))
        } else {
            None
        }
    }

    /// The dependency lists once `from -> to` is added: both files named, then the edge.
    pub open spec fn adj_after(&self, from: Seq<char>, to: Seq<char>) -> Seq<Seq<int>> {
        let files1 = files_with(self.files(), from);
        let files2 = files_with(files1, to);
        adj_with_edge(
            adj_with(files1, adj_with(self.files(), self.adj(), from), to),
            files2.index_of(from),
            files2.index_of(to),
        )
    }

    /// Whether the dependency `from -> to` closes a cycle: `from` is `to`, or both are
    /// named and `from` can be reached from `to`.
    pub open spec fn closes_cycle(&self, from: Seq<char>, to: Seq<char>) -> bool {
        from == to || match (self.number_of(to), self.number_of(from)) {
            (Some(t), Some(f)) => reachable(self.adj(), t, f),
            _ => false,
        }
    }

    /// In a graph without cycles, adding a dependency keeps it without cycles exactly
    /// when the dependency does not close a cycle (which `would_create_cycle` reports).
    pub proof fn law_added_dependency_acyclic(&self, from: Seq<char>, to: Seq<char>)
        requires
            self.wf(),
            acyclic(self.adj()),
        ensures
            acyclic(self.adj_after(from, to)) <==> !self.closes_cycle(from, to),
    {
        let files = self.files();
        let adj = self.adj();
        let n = files.len() as int;
        let files1 = files_with(files, from);
        let files2 = files_with(files1, to);
        let adj1 = adj_with(files, adj, from);
        let base = adj_with(files1, adj1, to);
        let f = files2.index_of(from);
        let t = files2.index_of(to);
        let big = self.adj_after(from, to);
        assert(files2.contains(from)) by {
            if files.contains(from) {
                let k = files.index_of(from);
                assert(files2[k] == from);
            } else {
                assert(files1[files.len() as int] == from);
                assert(files2[files.len() as int] == from);
            }
        }
        assert(files2.contains(to)) by {
            if !files1.contains(to) {
                assert(files2[files1.len() as int] == to);
            }
        }
        assert(base.len() == files2.len());
        assert(0 <= f < base.len() && files2[f] == from);
        assert(0 <= t < base.len() && files2[t] == to);
        assert(big == adj_with_edge(base, f, t));
        lemma_edges_with_file(files, adj, from);
        lemma_edges_with_file(files1, adj1, to);
        lemma_edges_with_edge(base, f, t);
        assert(has_edges_of(adj, base));
        assert(has_edges_of(big, adj));
        assert forall|k: int| 0 <= k < n implies #[trigger] files2[k] == files[k] by {
            if !files.contains(from) {
                assert(files1[k] == files[k]);
            }
        }
        if self.closes_cycle(from, to) {
            if from == to {
                let c = seq![f, f];
                assert(edge(big, c[0], c[1]));
                assert(is_cycle(big, c));
            } else {
                let tt = files.index_of(to);
                let ff = files.index_of(from);
                assert(files2[tt] == to && files2[ff] == from);
                lemma_no_dup_index(files2, tt, t);
                lemma_no_dup_index(files2, ff, f);
                assert(reachable(adj, t, f));
                let w = choose|w: Seq<int>| is_walk(adj, w) && w[0] == t && w.last() == f;
                lemma_walk_widen(adj, big, w);
                let c = seq![f] + w;
                assert forall|i: int| 0 <= i < c.len() - 1 implies edge(big, #[trigger] c[i], c[i + 1]) by {
                    if i > 0 {
                        assert(c[i] == w[i - 1] && c[i + 1] == w[i]);
                        assert(edge(big, w[i - 1], w[i]));
                    }
                }
                assert(is_cycle(big, c));
            }
        } else {
            assert(from != to);
            assert forall|c: Seq<int>| !#[trigger] is_cycle(big, c) by {
                if is_cycle(big, c) {
                    self.lemma_cycle_with_edge(from, to, c);
                }
            }
        }
    }

    #[verifier::spinoff_prover]
    proof fn lemma_cycle_with_edge(&self, from: Seq<char>, to: Seq<char>, c: Seq<int>)
        requires
            self.wf(),
            acyclic(self.adj()),
            from != to,
            is_cycle(self.adj_after(from, to), c),
        ensures
            self.closes_cycle(from, to),
    {
        let files = self.files();
        let adj = self.adj();
        let n = files.len() as int;
        let files1 = files_with(files, from);
        let files2 = files_with(files1, to);
        let adj1 = adj_with(files, adj, from);
        let base = adj_with(files1, adj1, to);
        let f = files2.index_of(from);
        let t = files2.index_of(to);
        let big = self.adj_after(from, to);
        assert(files2.contains(from)) by {
            if files.contains(from) {
                let k = files.index_of(from);
                assert(files2[k] == from);
            } else {
                assert(files1[files.len() as int] == from);
                assert(files2[files.len() as int] == from);
            }
        }
        assert(files2.contains(to)) by {
            if !files1.contains(to) {
                assert(files2[files1.len() as int] == to);
            }
        }
        assert(base.len() == files2.len());
        assert(0 <= f < base.len() && files2[f] == from);
        assert(0 <= t < base.len() && files2[t] == to);
        assert(f != t);
        lemma_edges_with_file(files, adj, from);
        lemma_edges_with_file(files1, adj1, to);
        assert(has_edges_of(adj, base));
        assert forall|k: int| 0 <= k < n implies #[trigger] files2[k] == files[k] by {
            if !files.contains(from) {
                assert(files1[k] == files[k]);
            }
        }
        let x = c[0];
        // A step f -> t occurs, or the cycle is one of the graph before.
        if forall|i: int| 0 <= i < c.len() - 1 ==> !(#[trigger] c[i] == f && c[i + 1] == t) {
            assert forall|i: int| 0 <= i < c.len() - 1 implies edge(base, #[trigger] c[i], c[i + 1]) by {
                assert(edge(big, c[i], c[i + 1]));
                if c[i] != f {
                    assert(big[c[i]] == base[c[i]]);
                } else if !base[f].contains(t) {
                    let m = big[f].index_of(c[i + 1]);
                    assert(big[f][m] == c[i + 1]);
                    assert(base[f][m] == c[i + 1]);
                }
            }
            lemma_walk_widen(base, adj, c);
            assert(is_cycle(adj, c));
        } else {
            let i = choose|i: int| 0 <= i < c.len() - 1 && #[trigger] c[i] == f && c[i + 1] == t;
            let tail = c.subrange(i + 1, c.len() as int);
            let head = c.subrange(0, i + 1);
            assert forall|k: int| 0 <= k < tail.len() - 1 implies edge(big, #[trigger] tail[k], tail[k + 1]) by {
                assert(tail[k] == c[i + 1 + k] && tail[k + 1] == c[i + 1 + k + 1]);
                assert(edge(big, c[i + 1 + k], c[i + 1 + k + 1]));
            }
            assert forall|k: int| 0 <= k < head.len() - 1 implies edge(big, #[trigger] head[k], head[k + 1]) by {
                assert(head[k] == c[k] && head[k + 1] == c[k + 1]);
            }
            lemma_walk_split(base, f, t, tail);
            lemma_walk_split(base, f, t, head);
            assert(tail[0] == t && tail.last() == x && head[0] == x && head.last() == f);
            assert(reachable(base, t, x));
            assert(reachable(base, x, f));
            lemma_reach_trans(base, t, x, f);
            lemma_reach_widen(base, adj, t, f);
            lemma_reach_ends_named(adj, n, t, f);
            assert(files[t] == to && files[f] == from);
            let tt = files.index_of(to);
            let ff = files.index_of(from);
            lemma_no_dup_index(files, tt, t);
            lemma_no_dup_index(files, ff, f);
        }
    }

    proof fn lemma_view_lens(&self)
        requires
            self.wf(),
        ensures
            self.files().len() == self.names@.len(),
            self.keyed().len() == self.names@.len(),
            self.adj().len() == self.names@.len(),
            self.deps@.len() == self.names@.len(),
    {
    }

    /// An empty graph.
    pub fn new() -> (r: Self)
        ensures
            r.wf(),
            r.files() == Seq::<Seq<char>>::empty(),
            r.keyed() == Seq::<bool>::empty(),
            r.adj() == Seq::<Seq<int>>::empty(),
    {
        let r = DependencyGraph { names: Vec::new(), keyed: Vec::new(), deps: Vec::new() };
        proof {
            assert(r.files() =~= Seq::<Seq<char>>::empty());
            assert(r.adj() =~= Seq::<Seq<int>>::empty());
        }
        r
    }

    /// The number of file `name`, if it was named.
    fn find(&self, name: &str) -> (r: Option<usize>)
        requires
            self.wf(),
        ensures
            r == (match self.number_of(name@) {
                Some(i) => Some(i as usize),
                None => None::<usize>,
            }),
            r matches Some(i) ==> i < self.files().len() && self.files()[i as int] == name@,
            r is None ==> !self.files().contains(name@),
    {
        let n = self.names.len();
        let mut i: usize = 0;
        while i < n
            invariant
                self.wf(),
                n == self.names@.len(),
                n == self.files().len(),
                0 <= i <= n,
                forall|j: int| 0 <= j < i ==> self.files()[j] != name@,
            decreases n - i,
        {
            if str_eq(self.names[i].as_str(), name) {
                proof {
                    assert(self.files()[i as int] == name@);
                    assert(self.files().contains(name@));
                    let k = self.files().index_of(name@);
                    assert(self.files()[k] == name@);
                    assert(self.files().no_duplicates());
                    assert(k == i);
                }
                return Some(i);
            }
            i = i + 1;
        }
        proof {
            assert(!self.files().contains(name@));
        }
        None
    }

    /// Names `name`, giving it an entry when `key`; returns its number.
    fn add_file(&mut self, name: String, key: bool) -> (r: usize)
        requires
            old(self).wf(),
        ensures
            final(self).wf(),
            final(self).files() == files_with(old(self).files(), name@),
            final(self).keyed() == (if key {
                keyed_with_node(old(self).files(), old(self).keyed(), name@)
            } else {
                keyed_with_target(old(self).files(), old(self).keyed(), name@)
            }),
            final(self).adj() == adj_with(old(self).files(), old(self).adj(), name@),
            r < final(self).files().len(),
            final(self).files()[r as int] == name@,
            r == final(self).files().index_of(name@),
    {
        let found = self.find(name.as_str());
        match found {
            Some(i) => {
                if key {
                    self.keyed.set(i, true);
                }
                proof {
                    let k = self.files().index_of(name@);
                    assert(self.files()[k] == name@);
                    assert(self.files().no_duplicates());
                    assert(k == i as int);
                }
                i
            },
            None => {
                let ghost old_files = self.files();
                let ghost old_adj = self.adj();
                let n = self.names.len();
                self.names.push(name);
                self.keyed.push(key);
                self.deps.push(Vec::new());
                proof {
                    assert(self.files() =~= old_files.push(name@));
                    assert(self.adj()[n as int] =~= Seq::<int>::empty());
                    assert forall|u: int| 0 <= u < n implies self.adj()[u] == old_adj[u] by {
                        assert(self.deps@[u] == old(self).deps@[u]);
                    }
                    assert(self.adj() =~= old_adj.push(Seq::<int>::empty()));
                    assert(self.files()[n as int] == name@);
                    assert forall|a: int, b: int|
                        0 <= a < self.files().len() && 0 <= b < self.files().len() && a != b
                        implies self.files()[a] != self.files()[b] by {
                        if a < n && b < n {
                        } else if a == n {
                            assert(!old_files.contains(name@));
                            assert(old_files[b] != name@);
                        } else {
                            assert(!old_files.contains(name@));
                            assert(old_files[a] != name@);
                        }
                    }
                    let k = self.files().index_of(name@);
                    assert(self.files()[k] == name@);
                    assert(k == n);
                    assert forall|u: int| 0 <= u < n + 1 implies all_below(#[trigger] self.adj()[u], n + 1)
                        && self.adj()[u].no_duplicates() by {
                        if u < n {
                            assert(self.adj()[u] == old_adj[u]);
                            assert(all_below(old_adj[u], n as int));
                        }
                    }
                }
                n
            },
        }
    }

    /// Adds `file` as a node (with an entry of its own, and no new dependencies).
    pub fn add_node(&mut self, file: String)
        requires
            old(self).wf(),
        ensures
            final(self).wf(),
            final(self).files() == files_with(old(self).files(), file@),
            final(self).keyed() == keyed_with_node(old(self).files(), old(self).keyed(), file@),
            final(self).adj() == adj_with(old(self).files(), old(self).adj(), file@),
    {
        let _ = self.add_file(file, true);
    }

    /// Records that `from` depends on `to`.
    pub fn add_dependency(&mut self, from: String, to: String)
        requires
            old(self).wf(),
        ensures
            final(self).wf(),
            ({
                let files1 = files_with(old(self).files(), from@);
                let keyed1 = keyed_with_node(old(self).files(), old(self).keyed(), from@);
                let files2 = files_with(files1, to@);
                &&& final(self).files() == files2
                &&& final(self).keyed() == keyed_with_target(files1, keyed1, to@)
                &&& final(self).adj() == old(self).adj_after(from@, to@)
            }),
    {
        let i = self.add_file(from, true);
        let ghost files1 = self.files();
        let j = self.add_file(to, false);
        proof {
            assert(self.files()[i as int] == files1[i as int]);
            let k = self.files().index_of(files1[i as int]);
            assert(self.files()[k] == self.files()[i as int]);
        }
        let n = self.deps[i].len();
        let mut k: usize = 0;
        let mut present = false;
        while k < n
            invariant
                i < self.deps@.len(),
                n == self.deps@[i as int]@.len(),
                0 <= k <= n,
                present == (exists|m: int| 0 <= m < k && self.deps@[i as int]@[m] == j),
            decreases n - k,
        {
            if self.deps[i][k] == j {
                present = true;
            }
            k = k + 1;
        }
        let ghost adj2 = self.adj();
        proof {
            if present {
                let m = choose|m: int| 0 <= m < k && self.deps@[i as int]@[m] == j;
                assert(adj2[i as int][m] == j as int);
            } else {
                assert forall|m: int| 0 <= m < adj2[i as int].len() implies adj2[i as int][m] != j as int by {
                    assert(self.deps@[i as int]@[m] != j);
                }
            }
        }
        if !present {
            self.deps[i].push(j);
            proof {
                assert(self.adj()[i as int] =~= adj2[i as int].push(j as int));
                assert(self.adj() =~= adj2.update(i as int, adj2[i as int].push(j as int)));
                let nn = self.names@.len() as int;
                assert(self.keyed@[i as int]);
                assert forall|u: int| 0 <= u < nn implies all_below(#[trigger] self.adj()[u], nn)
                    && self.adj()[u].no_duplicates() by {
                    if u != i {
                        assert(self.adj()[u] == adj2[u]);
                    } else {
                        assert(all_below(adj2[u], nn));
                    }
                }
            }
        }
    }

    /// The files `file` depends on, if it has an entry.
    pub fn dependencies(&self, file: &str) -> (r: Option<Vec<String>>)
        requires
            self.wf(),
        ensures
            match self.number_of(file@) {
                Some(i) => if self.keyed()[i] {
                    r matches Some(v) && v@.map_values(|s: String| s@) == self.adj()[i].map_values(
                        |d: int| self.files()[d],
                    )
                } else {
                    r is None
                },
                None => r is None,
            },
    {
        let found = self.find(file);
        match found {
            None => {
                proof {
                    if self.files().contains(file@) {
                        let k = self.files().index_of(file@);
                        assert(self.files()[k] == file@);
                    }
                }
                None
            },
            Some(i) => {
                proof {
                    assert(self.files().contains(file@));
                    let k = self.files().index_of(file@);
                    assert(self.files()[k] == file@);
                    assert(self.number_of(file@) == Some(i as int));
                }
                if !self.keyed[i] {
                    return None;
                }
                let ghost adj_i = self.adj()[i as int];
                let n = self.deps[i].len();
                let mut out: Vec<String> = Vec::new();
                let mut k: usize = 0;
                while k < n
                    invariant
                        self.wf(),
                        i < self.deps@.len(),
                        i < self.names@.len(),
                        n == self.deps@[i as int]@.len(),
                        adj_i == self.adj()[i as int],
                        adj_i.len() == n,
                        0 <= k <= n,
                        out@.len() == k,
                        forall|m: int| 0 <= m < k ==> #[trigger] out@[m]@ == self.files()[adj_i[m]],
                    decreases n - k,
                {
                    let d = self.deps[i][k];
                    proof {
                        assert(adj_i[k as int] == d as int);
                        assert(all_below(adj_i, self.names@.len() as int));
                        assert(0 <= adj_i[k as int] < self.names@.len());
                    }
                    let name = self.names[d].clone();
                    out.push(name);
                    k = k + 1;
                }
                proof {
                    assert(out@.map_values(|s: String| s@) =~= adj_i.map_values(|d: int| self.files()[d]));
                }
                Some(out)
            },
        }
    }

    /// A walk from `src` to `dst`, found breadth first: the files before `dst` on it, last
    /// to first. `None` when `dst` cannot be reached from `src`.
    #[verifier::spinoff_prover]
    fn search(&self, src: usize, dst: usize) -> (r: Option<Vec<usize>>)
        requires
            self.wf(),
            src < self.names@.len(),
            dst < self.names@.len(),
        ensures
            r matches Some(p) ==> exists|w: Seq<int>| {
                &&& is_walk(self.adj(), w)
                &&& w[0] == src
                &&& w.last() == dst
                &&& p@.len() == w.len() - 1
                &&& forall|i: int| 0 <= i < p@.len() ==> #[trigger] p@[i] as int == rev(w.drop_last())[i]
            },
            r is None ==> !reachable(self.adj(), src as int, dst as int),
    {
        let n = self.names.len();
        let ghost adj = self.adj();
        proof {
            self.lemma_view_lens();
        }
        let mut seen: Vec<bool> = vec![false; n];
        let mut parent: Vec<usize> = vec![0usize; n];
        let mut queue: Vec<usize> = Vec::new();
        proof {
            assert forall|i: int| 0 <= i < seen@.len() implies !seen@[i] by {
                assert(cloned(false, seen@[i]));
            }
            lemma_count_true_none(seen@);
            lemma_count_true_set(seen@, src as int);
        }
        seen.set(src, true);
        queue.push(src);
        let ghost mut walks: Map<int, Seq<int>> = Map::empty().insert(src as int, seq![src as int]);
        proof {
            assert forall|v: int| 0 <= v < seen@.len() && seen@[v] implies exists|k: int|
                0 <= k < queue@.len() && queue@[k] == v by {
                assert(queue@[0] == v);
            }
        }
        let mut head: usize = 0;
        while head < queue.len()
            invariant
                self.wf(),
                adj == self.adj(),
                n == self.names@.len(),
                adj.len() == n,
                seen@.len() == n,
                parent@.len() == n,
                src < n,
                dst < n,
                seen@[src as int],
                0 <= head <= queue@.len(),
                queue@.len() == count_true(seen@),
                forall|k: int| 0 <= k < queue@.len() ==> #[trigger] queue@[k] < n && seen@[queue@[k] as int],
                forall|v: int| 0 <= v < n && seen@[v] ==> exists|k: int| 0 <= k < queue@.len() && queue@[k] == v,
                forall|k: int| 0 <= k < head ==> successors_seen(adj, seen@, #[trigger] queue@[k] as int),
                walks_ok(adj, seen@, parent@, walks, src as int),
            decreases n - head,
        {
            proof {
                lemma_count_true_bound(seen@);
            }
            let u = queue[head];
            let len_u = self.deps[u].len();
            let ghost adj_u = adj[u as int];
            proof {
                assert(adj_u.len() == len_u);
                assert(all_below(adj_u, n as int));
            }
            let mut m: usize = 0;
            while m < len_u
                invariant
                    self.wf(),
                    adj == self.adj(),
                    n == self.names@.len(),
                    adj.len() == n,
                    seen@.len() == n,
                    parent@.len() == n,
                    src < n,
                    dst < n,
                    seen@[src as int],
                    0 <= head < queue@.len(),
                    queue@[head as int] == u,
                    u < n,
                    adj_u == adj[u as int],
                    len_u == adj_u.len(),
                    all_below(adj_u, n as int),
                    0 <= m <= len_u,
                    queue@.len() == count_true(seen@),
                    forall|k: int| 0 <= k < queue@.len() ==> #[trigger] queue@[k] < n && seen@[queue@[k] as int],
                    forall|v: int| 0 <= v < n && seen@[v] ==> exists|k: int| 0 <= k < queue@.len() && queue@[k] == v,
                    forall|k: int| 0 <= k < head ==> successors_seen(adj, seen@, #[trigger] queue@[k] as int),
                    forall|j: int| 0 <= j < m ==> #[trigger] seen@[adj_u[j]],
                    walks_ok(adj, seen@, parent@, walks, src as int),
                decreases len_u - m,
            {
                let v = self.deps[u][m];
                proof {
                    assert(adj_u[m as int] == v as int);
                }
                if !seen[v] {
                    proof {
                        lemma_count_true_set(seen@, v as int);
                        lemma_count_true_bound(seen@.update(v as int, true));
                        assert(seen@[u as int]);
                    }
                    let ghost old_seen = seen@;
                    let ghost old_queue = queue@;
                    let ghost old_parent = parent@;
                    let ghost wu = walks[u as int];
                    seen.set(v, true);
                    parent.set(v, u);
                    queue.push(v);
                    proof {
                        walks = walks.insert(v as int, wu.push(v as int));
                        assert(edge(adj, u as int, v as int)) by {
                            assert(adj[u as int][m as int] == v as int);
                        }
                        let wv = wu.push(v as int);
                        assert(is_walk(adj, wv)) by {
                            assert forall|i: int| 0 <= i < wv.len() - 1 implies edge(adj, #[trigger] wv[i], wv[i + 1]) by {
                                if i < wu.len() - 1 {
                                    assert(wv[i] == wu[i] && wv[i + 1] == wu[i + 1]);
                                } else {
                                    assert(wv[i] == u as int);
                                }
                            }
                        }
                        assert(wv.drop_last() =~= wu);
                        assert forall|w: int| 0 <= w < n && #[trigger] seen@[w] implies exists|k: int|
                            0 <= k < queue@.len() && queue@[k] == w by {
                            if w == v as int {
                                assert(queue@[old_queue.len() as int] == w);
                            } else {
                                assert(old_seen[w]);
                                let k = choose|k: int| 0 <= k < old_queue.len() && old_queue[k] == w;
                                assert(queue@[k] == w);
                            }
                        }
                        assert forall|k: int| 0 <= k < head implies successors_seen(adj, seen@, #[trigger] queue@[k] as int) by {
                            assert(queue@[k] == old_queue[k]);
                            assert(successors_seen(adj, old_seen, old_queue[k] as int));
                        }
                        assert forall|x: int| 0 <= x < n && #[trigger] seen@[x] implies ({
                            &&& walks.contains_key(x)
                            &&& is_walk(adj, walks[x])
                            &&& walks[x][0] == src
                            &&& walks[x].last() == x
                            &&& x == src ==> walks[x] == seq![src as int]
                            &&& x != src ==> {
                                &&& walks[x].len() >= 2
                                &&& 0 <= parent@[x] < seen@.len()
                                &&& parent@[x] as int == walks[x][walks[x].len() - 2]
                                &&& seen@[parent@[x] as int]
                                &&& walks[parent@[x] as int] == walks[x].drop_last()
                            }
                        }) by {
                            if x == v as int {
                                assert(x != src);
                            } else {
                                assert(old_seen[x]);
                                if x != src {
                                    assert(old_parent[x] != v);
                                }
                            }
                        }
                    }
                }
                m = m + 1;
            }
            head = head + 1;
        }
        if !seen[dst] {
            proof {
                assert forall|x: int| 0 <= x < n && seen@[x] implies successors_seen(adj, seen@, x) by {
                    let k = choose|k: int| 0 <= k < queue@.len() && queue@[k] == x;
                    assert(successors_seen(adj, seen@, queue@[k] as int));
                }
                assert forall|w: Seq<int>| is_walk(adj, w) && w[0] == src implies w.last() != dst by {
                    lemma_walk_stays_seen(adj, seen@, w, w.len() - 1);
                }
            }
            return None;
        }
        let ghost w = walks[dst as int];
        let mut out: Vec<usize> = Vec::new();
        let mut cur = dst;
        while cur != src
            invariant
                seen@.len() == n,
                parent@.len() == n,
                cur < n,
                seen@[cur as int],
                walks_ok(adj, seen@, parent@, walks, src as int),
                is_walk(adj, w),
                w[0] == src,
                w.last() == dst,
                1 <= walks[cur as int].len() <= w.len(),
                w.subrange(0, walks[cur as int].len() as int) == walks[cur as int],
                out@.len() == w.len() - walks[cur as int].len(),
                forall|i: int| 0 <= i < out@.len() ==> #[trigger] out@[i] as int == w[w.len() - 2 - i],
            decreases walks[cur as int].len(),
        {
            let ghost wc = walks[cur as int];
            cur = parent[cur];
            out.push(cur);
            proof {
                assert(walks[cur as int] == wc.drop_last());
                assert(w.subrange(0, walks[cur as int].len() as int) =~= walks[cur as int]);
                assert(w[wc.len() - 2] == wc[wc.len() - 2]);
            }
        }
        proof {
            assert(walks[src as int].len() == 1);
        }
        Some(out)
    }

    /// `p` is the cycle the new edge `from -> to` closes: `from`, then the files of a walk
    /// from `to` (number `t`) to `from` (number `f`), each with a dependency on the next.
    pub open spec fn cycle_path(&self, p: Seq<Seq<char>>, from: Seq<char>, to: Seq<char>, t: int, f: int) -> bool {
        exists|w: Seq<int>| {
            &&& is_walk(self.adj(), w)
            &&& w[0] == t
            &&& w.last() == f
            &&& p.len() == w.len() + 1
            &&& p[0] == from
            &&& p[1] == to
            &&& p.last() == from
            &&& forall|i: int| 0 <= i < w.len() ==> #[trigger] p[i + 1] == self.files()[w[i]]
        }
    }

    /// Whether adding the dependency `from -> to` would close a cycle, that is whether
    /// `from` can be reached from `to`; if so, the cycle as a path of files.
    pub fn would_create_cycle(&self, from: &str, to: &str) -> (r: Option<Vec<String>>)
        requires
            self.wf(),
        ensures
            r is Some <==> self.closes_cycle(from@, to@),
            from@ == to@ ==> (r matches Some(p) && p@.len() == 2 && p@[0]@ == from@ && p@[1]@ == to@),
            from@ != to@ ==> match (self.number_of(to@), self.number_of(from@)) {
                (Some(t), Some(f)) => {
                    &&& (r is Some <==> reachable(self.adj(), t, f))
                    &&& (r matches Some(p) ==> self.cycle_path(p@.map_values(|s: String| s@), from@, to@, t, f))
                },
                _ => r is None,
            },
    {
        if str_eq(from, to) {
            let mut p: Vec<String> = Vec::new();
            p.push(from.to_owned());
            p.push(to.to_owned());
            return Some(p);
        }
        let ti = self.find(to);
        let fi = self.find(from);
        match (ti, fi) {
            (Some(t), Some(f)) => {
                let found = self.search(t, f);
                match found {
                    None => None,
                    Some(back) => {
                        let ghost w = choose|w: Seq<int>| {
                            &&& is_walk(self.adj(), w)
                            &&& w[0] == t
                            &&& w.last() == f
                            &&& back@.len() == w.len() - 1
                            &&& forall|i: int| 0 <= i < back@.len() ==> #[trigger] back@[i] as int == rev(w.drop_last())[i]
                        };
                        let mut p: Vec<String> = Vec::new();
                        p.push(from.to_owned());
                        let nb = back.len();
                        let mut k: usize = 0;
                        while k < nb
                            invariant
                                self.wf(),
                                nb == back@.len(),
                                nb == w.len() - 1,
                                0 <= k <= nb,
                                p@.len() == k + 1,
                                p@[0]@ == from@,
                                forall|i: int| 0 <= i < back@.len() ==> #[trigger] back@[i] as int == rev(w.drop_last())[i],
                                forall|i: int| 0 <= i < back@.len() ==> 0 <= #[trigger] back@[i] < self.names@.len(),
                                forall|i: int| 0 <= i < k ==> #[trigger] p@[i + 1]@ == self.files()[back@[nb - 1 - i] as int],
                            decreases nb - k,
                        {
                            let x = back[nb - 1 - k];
                            p.push(self.names[x].clone());
                            k = k + 1;
                        }
                        p.push(from.to_owned());
                        proof {
                            let pv = p@.map_values(|s: String| s@);
                            assert(reachable(self.adj(), t as int, f as int));
                            assert(self.files()[f as int] == from@);
                            assert(self.files()[t as int] == to@);
                            assert forall|i: int| 0 <= i < w.len() implies #[trigger] pv[i + 1] == self.files()[w[i]] by {
                                if i < w.len() - 1 {
                                    assert(p@[i + 1]@ == self.files()[back@[nb - 1 - i] as int]);
                                    assert(rev(w.drop_last())[nb - 1 - i] == w.drop_last()[i]);
                                }
                            }
                            assert(pv[1] == self.files()[w[0]]);
                        }
                        Some(p)
                    },
                }
            },
            _ => None,
        }
    }

    /// For each file, the number of files with an edge to it.
    fn in_degrees(&self) -> (r: Vec<usize>)
        requires
            self.wf(),
        ensures
            r@.len() == self.names@.len(),
            forall|v: int| 0 <= v < r@.len() ==> #[trigger] r@[v] == pred_count(
                self.adj(),
                Seq::new(self.names@.len(), |i: int| false),
                v,
                self.names@.len() as int,
            ),
    {
        let n = self.names.len();
        let ghost adj = self.adj();
        let ghost none = Seq::new(n as nat, |i: int| false);
        proof {
            self.lemma_view_lens();
        }
        let mut indeg: Vec<usize> = vec![0usize; n];
        proof {
            assert forall|v: int| 0 <= v < n implies #[trigger] indeg@[v] == pred_count(adj, none, v, 0) by {
                assert(cloned(0usize, indeg@[v]));
            }
        }
        let mut u: usize = 0;
        while u < n
            invariant
                self.wf(),
                adj == self.adj(),
                n == self.names@.len(),
                adj.len() == n,
                none == Seq::new(n as nat, |i: int| false),
                indeg@.len() == n,
                0 <= u <= n,
                forall|v: int| 0 <= v < n ==> #[trigger] indeg@[v] == pred_count(adj, none, v, u as int),
            decreases n - u,
        {
            let len_u = self.deps[u].len();
            let ghost adj_u = adj[u as int];
            proof {
                assert(adj_u.len() == len_u);
                assert(all_below(adj_u, n as int) && adj_u.no_duplicates());
            }
            let mut m: usize = 0;
            while m < len_u
                invariant
                    self.wf(),
                    adj == self.adj(),
                    n == self.names@.len(),
                    adj.len() == n,
                    none == Seq::new(n as nat, |i: int| false),
                    indeg@.len() == n,
                    0 <= u < n,
                    adj_u == adj[u as int],
                    len_u == adj_u.len(),
                    all_below(adj_u, n as int),
                    adj_u.no_duplicates(),
                    0 <= m <= len_u,
                    forall|v: int| 0 <= v < n ==> #[trigger] indeg@[v] == pred_count(adj, none, v, u as int)
                        + if adj_u.subrange(0, m as int).contains(v) { 1int } else { 0int },
                decreases len_u - m,
            {
                let v = self.deps[u][m];
                proof {
                    assert(adj_u[m as int] == v as int);
                    assert(!adj_u.subrange(0, m as int).contains(v as int)) by {
                        if adj_u.subrange(0, m as int).contains(v as int) {
                            let j = choose|j: int| 0 <= j < m && adj_u.subrange(0, m as int)[j] == v as int;
                            assert(adj_u[j] == adj_u[m as int]);
                        }
                    }
                    lemma_pred_count_bound(adj, none, v as int, u as int);
                }
                indeg.set(v, indeg[v] + 1);
                proof {
                    assert forall|x: int| 0 <= x < n implies #[trigger] indeg@[x] == pred_count(adj, none, x, u as int)
                        + if adj_u.subrange(0, m + 1).contains(x) { 1int } else { 0int } by {
                        if adj_u.subrange(0, m + 1).contains(x) && x != v {
                            let j = choose|j: int| 0 <= j < m + 1 && #[trigger] adj_u.subrange(0, m + 1)[j] == x;
                            assert(adj_u.subrange(0, m as int)[j] == x);
                        }
                        if adj_u.subrange(0, m as int).contains(x) {
                            let j = choose|j: int| 0 <= j < m && adj_u.subrange(0, m as int)[j] == x;
                            assert(adj_u.subrange(0, m + 1)[j] == x);
                        }
                        if x == v {
                            assert(adj_u.subrange(0, m + 1)[m as int] == x);
                        }
                    }
                }
                m = m + 1;
            }
            proof {
                assert(adj_u.subrange(0, len_u as int) =~= adj_u);
            }
            u = u + 1;
        }
        indeg
    }

    /// The files in an order where every file comes after the files it depends on, taking
    /// files whose dependents are all taken (Kahn's algorithm). `None` exactly when the
    /// graph has a cycle, so that some file is never taken.
    pub fn topological_order(&self) -> (r: Option<Vec<String>>)
        requires
            self.wf(),
        ensures
            r is Some <==> acyclic(self.adj()),
            exists|q: Seq<int>| kahn_ok(self.adj(), self.files().len() as int, q),
            forall|q: Seq<int>| kahn_ok(self.adj(), self.files().len() as int, q) ==> (r is Some <==> q.len()
                == self.files().len()),
            r matches Some(order) ==> exists|q: Seq<int>| {
                &&& kahn_ok(self.adj(), self.files().len() as int, q)
                &&& order@.len() == q.len()
                &&& forall|i: int| 0 <= i < q.len() ==> #[trigger] order@[i]@ == self.files()[rev(q)[i]]
            },
    {
        let n = self.names.len();
        let ghost adj = self.adj();
        proof {
            self.lemma_view_lens();
        }
        let mut indeg = self.in_degrees();
        let ghost mut done = Seq::new(n as nat, |i: int| false);
        let mut queue: Vec<usize> = Vec::new();
        let mut v: usize = 0;
        while v < n
            invariant
                n == self.names@.len(),
                indeg@.len() == n,
                done == Seq::new(n as nat, |i: int| false),
                0 <= v <= n,
                queue@.no_duplicates(),
                forall|k: int| 0 <= k < queue@.len() ==> #[trigger] queue@[k] < v && indeg@[queue@[k] as int] == 0,
                forall|x: int| 0 <= x < v && indeg@[x] == 0 ==> queue@.contains(x as usize),
            decreases n - v,
        {
            if indeg[v] == 0 {
                let ghost old_q = queue@;
                queue.push(v);
                proof {
                    assert forall|x: int| 0 <= x < v + 1 && indeg@[x] == 0 implies queue@.contains(x as usize) by {
                        if x < v {
                            let k = choose|k: int| 0 <= k < old_q.len() && old_q[k] == x as usize;
                            assert(queue@[k] == x as usize);
                        } else {
                            assert(queue@[old_q.len() as int] == x as usize);
                        }
                    }
                }
            }
            v = v + 1;
        }
        let mut result: Vec<usize> = Vec::new();
        proof {
            lemma_count_true_none(done);
        }
        while queue.len() > 0
            invariant
                self.wf(),
                adj == self.adj(),
                n == self.names@.len(),
                adj.len() == n,
                indeg@.len() == n,
                done.len() == n,
                result@.len() == count_true(done),
                forall|x: int| 0 <= x < n ==> #[trigger] indeg@[x] == pred_count(adj, done, x, n as int),
                queue@.no_duplicates(),
                forall|k: int| 0 <= k < queue@.len() ==> #[trigger] queue@[k] < n && indeg@[queue@[k] as int] == 0
                    && !done[queue@[k] as int],
                forall|x: int| 0 <= x < n && !done[x] && indeg@[x] == 0 ==> queue@.contains(x as usize),
                result@.no_duplicates(),
                forall|k: int| 0 <= k < result@.len() ==> #[trigger] result@[k] < n && done[result@[k] as int],
                forall|x: int| 0 <= x < n && done[x] ==> result@.contains(x as usize),
                forall|i: int, u: int| 0 <= i < result@.len() && 0 <= u < n && #[trigger] edge(adj, u, result@[i] as int) ==>
                    exists|j: int| 0 <= j < i && result@[j] == u as usize,
            decreases n - result@.len(),
        {
            proof {
                lemma_count_true_bound(done);
            }
            let ghost q_before = queue@;
            let node = queue.pop().unwrap();
            proof {
                assert(!done[node as int]);
                lemma_count_true_set(done, node as int);
                lemma_count_true_bound(done.update(node as int, true));
                assert forall|u: int| 0 <= u < n && #[trigger] edge(adj, u, node as int) implies
                    exists|j: int| 0 <= j < result@.len() && result@[j] == u as usize by {
                    let m = adj[u].index_of(node as int);
                    assert(adj[u][m] == node as int);
                    lemma_pred_count_zero(adj, done, node as int, n as int, u);
                    assert(result@.contains(u as usize));
                }
            }
            let ghost old_result = result@;
            result.push(node);
            proof {
                assert forall|i: int, u: int| 0 <= i < result@.len() && 0 <= u < n && #[trigger] edge(adj, u, result@[i] as int) implies
                    exists|j: int| 0 <= j < i && result@[j] == u as usize by {
                    if i < old_result.len() {
                        assert(result@[i] == old_result[i]);
                        let j = choose|j: int| 0 <= j < i && old_result[j] == u as usize;
                        assert(result@[j] == u as usize);
                    } else {
                        let j = choose|j: int| 0 <= j < old_result.len() && old_result[j] == u as usize;
                        assert(result@[j] == u as usize);
                    }
                }
                assert forall|a: int, b: int| 0 <= a < result@.len() && 0 <= b < result@.len() && a != b
                    implies result@[a] != result@[b] by {
                    if a < old_result.len() && b < old_result.len() {
                    } else if a == old_result.len() {
                        assert(done[old_result[b] as int]);
                    } else {
                        assert(done[old_result[a] as int]);
                    }
                }
            }
            let ghost done0 = done;
            proof {
                done = done.update(node as int, true);
                assert forall|x: int| 0 <= x < n && done[x] implies result@.contains(x as usize) by {
                    if x == node as int {
                        assert(result@[old_result.len() as int] == node);
                    } else {
                        assert(done0[x]);
                        let j = choose|j: int| 0 <= j < old_result.len() && old_result[j] == x as usize;
                        assert(result@[j] == x as usize);
                    }
                }
            }
            let ghost adj_n = adj[node as int];
            let len_n = self.deps[node].len();
            proof {
                assert(adj_n.len() == len_n);
                assert(all_below(adj_n, n as int) && adj_n.no_duplicates());
                assert forall|x: int| 0 <= x < n implies #[trigger] indeg@[x] == pred_count(adj, done, x, n as int)
                    + if adj_n.subrange(0, len_n as int).contains(x) { 1int } else { 0int } by {
                    lemma_pred_count_flip(adj, done0, node as int, x, n as int);
                    assert(adj_n.subrange(0, len_n as int) =~= adj_n);
                }
                assert forall|k: int| 0 <= k < queue@.len() implies !done[#[trigger] queue@[k] as int] by {
                    assert(queue@[k] == q_before[k]);
                    assert(q_before[q_before.len() - 1] == node);
                    assert(queue@[k] != node);
                }
                assert forall|x: int| 0 <= x < n && !done[x] && indeg@[x] == 0 implies queue@.contains(x as usize) by {
                    assert(!done0[x]);
                    let k = choose|k: int| 0 <= k < q_before.len() && q_before[k] == x as usize;
                    assert(k != q_before.len() - 1);
                    assert(queue@[k] == x as usize);
                }
                assert forall|m: int| 0 <= m < len_n implies !done[#[trigger] adj_n[m]] by {
                    let x = adj_n[m];
                    assert(adj[node as int][m] == x);
                    if x == node as int {
                        lemma_pred_count_zero(adj, done0, node as int, n as int, node as int);
                    }
                    if done0[x] {
                        let i = choose|i: int| 0 <= i < old_result.len() && old_result[i] == x as usize;
                        assert(edge(adj, node as int, old_result[i] as int));
                        let j = choose|j: int| 0 <= j < i && old_result[j] == node;
                        assert(done0[old_result[j] as int]);
                    }
                }
            }
            let mut mi: usize = 0;
            while mi < len_n
                invariant
                    self.wf(),
                    adj == self.adj(),
                    n == self.names@.len(),
                    adj.len() == n,
                    indeg@.len() == n,
                    done.len() == n,
                    node < n,
                    done[node as int],
                    adj_n == adj[node as int],
                    len_n == adj_n.len(),
                    all_below(adj_n, n as int),
                    adj_n.no_duplicates(),
                    forall|m: int| 0 <= m < len_n ==> !done[#[trigger] adj_n[m]],
                    0 <= mi <= len_n,
                    forall|x: int| 0 <= x < n ==> #[trigger] indeg@[x] == pred_count(adj, done, x, n as int)
                        + if adj_n.subrange(mi as int, len_n as int).contains(x) { 1int } else { 0int },
                    queue@.no_duplicates(),
                    forall|k: int| 0 <= k < queue@.len() ==> #[trigger] queue@[k] < n && indeg@[queue@[k] as int] == 0
                        && !done[queue@[k] as int],
                    forall|x: int| 0 <= x < n && !done[x] && indeg@[x] == 0 ==> queue@.contains(x as usize),
                decreases len_n - mi,
            {
                let d = self.deps[node][mi];
                proof {
                    assert(adj_n[mi as int] == d as int);
                    assert(adj_n.subrange(mi as int, len_n as int)[0] == d as int);
                }
                let ghost old_indeg = indeg@;
                let ghost old_q = queue@;
                indeg.set(d, indeg[d] - 1);
                proof {
                    assert forall|x: int| 0 <= x < n implies #[trigger] indeg@[x] == pred_count(adj, done, x, n as int)
                        + if adj_n.subrange(mi + 1, len_n as int).contains(x) { 1int } else { 0int } by {
                        let rest = adj_n.subrange(mi as int, len_n as int);
                        let rest1 = adj_n.subrange(mi + 1, len_n as int);
                        if rest1.contains(x) {
                            let j = choose|j: int| 0 <= j < rest1.len() && #[trigger] rest1[j] == x;
                            assert(rest[j + 1] == x);
                            if x == d as int {
                                assert(adj_n[mi + 1 + j] == adj_n[mi as int]);
                            }
                        }
                        if rest.contains(x) && x != d as int {
                            let j = choose|j: int| 0 <= j < rest.len() && #[trigger] rest[j] == x;
                            assert(j != 0);
                            assert(rest1[j - 1] == x);
                        }
                    }
                    assert forall|k: int| 0 <= k < queue@.len() implies #[trigger] queue@[k] != d by {
                        assert(old_indeg[queue@[k] as int] == 0);
                    }
                }
                if indeg[d] == 0 {
                    queue.push(d);
                    proof {
                        assert(!done[adj_n[mi as int]]);
                        assert forall|a: int, b: int| 0 <= a < queue@.len() && 0 <= b < queue@.len() && a != b
                            implies queue@[a] != queue@[b] by {
                            if a < old_q.len() && b < old_q.len() {
                            } else if a == old_q.len() {
                                assert(old_q[b] != d);
                            } else {
                                assert(old_q[a] != d);
                            }
                        }
                        assert forall|x: int| 0 <= x < n && !done[x] && indeg@[x] == 0 implies queue@.contains(x as usize) by {
                            if x == d as int {
                                assert(queue@[old_q.len() as int] == d);
                            } else {
                                assert(old_indeg[x] == indeg@[x]);
                                let k = choose|k: int| 0 <= k < old_q.len() && old_q[k] == x as usize;
                                assert(queue@[k] == x as usize);
                            }
                        }
                    }
                } else {
                    proof {
                        assert forall|x: int| 0 <= x < n && !done[x] && indeg@[x] == 0 implies queue@.contains(x as usize) by {
                            assert(old_indeg[x] == indeg@[x]);
                        }
                    }
                }
                mi = mi + 1;
            }
            proof {
                assert forall|x: int| 0 <= x < n implies #[trigger] indeg@[x] == pred_count(adj, done, x, n as int) by {
                    assert(adj_n.subrange(len_n as int, len_n as int).len() == 0);
                }
            }
        }
        proof {
            let q =ints(result@);
            assert(kahn_ok(adj, n as int, q)) by {
                assert forall|a: int, b: int| 0 <= a < q.len() && 0 <= b < q.len() && a != b implies q[a] != q[b] by {
                    assert(result@[a] != result@[b]);
                }
                assert forall|i: int, u: int| 0 <= i < q.len() && 0 <= u < n && #[trigger] edge(adj, u, q[i]) implies
                    exists|j: int| 0 <= j < i && q[j] == u by {
                    assert(edge(adj, u, result@[i] as int));
                    let j = choose|j: int| 0 <= j < i && result@[j] == u as usize;
                    assert(q[j] == u);
                }
                assert forall|x: int| 0 <= x < n && !q.contains(x) implies
                    exists|u: int| 0 <= u < n && !q.contains(u) && #[trigger] edge(adj, u, x) by {
                    if done[x] {
                        let j = choose|j: int| 0 <= j < result@.len() && result@[j] == x as usize;
                        assert(q[j] == x);
                    }
                    assert(indeg@[x] != 0) by {
                        if indeg@[x] == 0 {
                            assert(queue@.contains(x as usize));
                        }
                    }
                    lemma_pred_count_pos(adj, done, x, n as int);
                    let u = choose|u: int| 0 <= u < n && !done[u] && adj[u].contains(x);
                    assert(!q.contains(u)) by {
                        if q.contains(u) {
                            let j = choose|j: int| 0 <= j < q.len() && q[j] == u;
                            assert(done[result@[j] as int]);
                        }
                    }
                    assert(edge(adj, u, x));
                }
            }
            assert forall|q2: Seq<int>| kahn_ok(adj, n as int, q2) implies q2.len() == result@.len() by {
                lemma_kahn_unique(adj, n as int, q, q2);
            }
        }
        proof {
            lemma_kahn_full_iff_acyclic(adj, n as int, ints(result@));
        }
        if result.len() != n {
            return None;
        }
        let len = result.len();
        let mut order: Vec<String> = Vec::new();
        let mut k: usize = 0;
        while k < len
            invariant
                self.wf(),
                n == self.names@.len(),
                len == result@.len(),
                forall|i: int| 0 <= i < result@.len() ==> #[trigger] result@[i] < n,
                0 <= k <= len,
                order@.len() == k,
                forall|i: int| 0 <= i < k ==> #[trigger] order@[i]@ == self.files()[result@[len - 1 - i] as int],
            decreases len - k,
        {
            let x = result[len - 1 - k];
            order.push(self.names[x].clone());
            k = k + 1;
        }
        proof {
            let q =ints(result@);
            assert forall|i: int| 0 <= i < q.len() implies #[trigger] order@[i]@ == self.files()[rev(q)[i]] by {
                assert(rev(q)[i] == result@[len - 1 - i] as int);
            }
        }
        Some(order)
    }

    /// `names` are the files of the cycle `c`, in order.
    pub open spec fn lists_cycle(&self, names: Seq<String>, c: Seq<int>) -> bool {
        &&& names.len() == c.len()
        &&& forall|i: int| 0 <= i < c.len() ==> #[trigger] names[i]@ == self.files()[c[i]]
    }

    /// `names` are the files of a cycle of the graph, in order.
    pub open spec fn names_cycle(&self, names: Seq<String>) -> bool {
        exists|c: Seq<int>| is_cycle(self.adj(), c) && #[trigger] self.lists_cycle(names, c)
    }

    /// Records every simple cycle that goes on from the walk `path` (from `s`, ending at
    /// `u`) through files numbered above `s` and back to `s`.
    fn cycles_from(
        &self,
        s: usize,
        u: usize,
        on_path: &mut Vec<bool>,
        path: &mut Vec<usize>,
        cycles: &mut Vec<Vec<usize>>,
    )
        requires
            self.wf(),
            path_ok(self.adj(), self.names@.len() as int, s as int, old(on_path)@, old(path)@),
            old(path)@.last() == u,
            cycles_ok(self.adj(), old(cycles)@),
        ensures
            final(path)@ == old(path)@,
            final(on_path)@ == old(on_path)@,
            cycles_ok(self.adj(), final(cycles)@),
            old(cycles)@.len() <= final(cycles)@.len(),
            forall|k: int| 0 <= k < old(cycles)@.len() ==> #[trigger] final(cycles)@[k] == old(cycles)@[k],
            forall|rest: Seq<int>| ext_ok(self.adj(), s as int, ints(old(path)@), rest)
                ==> has_cycle(final(cycles)@, ints(old(path)@) + rest),
        decreases self.names@.len() - old(path)@.len(),
    {
        let n = self.names.len();
        let ghost adj = self.adj();
        proof {
            self.lemma_view_lens();
            lemma_distinct_below(ints(path@), n as int);
        }
        let ghost path0 = path@;
        let ghost p0 = ints(path@);
        let ghost cycles0 = cycles@;
        let len_u = self.deps[u].len();
        let ghost adj_u = adj[u as int];
        proof {
            assert(adj_u.len() == len_u);
            assert(all_below(adj_u, n as int));
        }
        let mut m: usize = 0;
        while m < len_u
            invariant
                self.wf(),
                adj == self.adj(),
                n == self.names@.len(),
                adj.len() == n,
                u < n,
                adj_u == adj[u as int],
                len_u == adj_u.len(),
                all_below(adj_u, n as int),
                adj_u.no_duplicates(),
                0 <= m <= len_u,
                path_ok(adj, n as int, s as int, on_path@, path@),
                path@ == path0,
                old(path)@ == path0,
                p0 == ints(path0),
                path0.last() == u,
                cycles_ok(adj, cycles@),
                cycles0.len() <= cycles@.len(),
                forall|k: int| 0 <= k < cycles0.len() ==> #[trigger] cycles@[k] == cycles0[k],
                forall|rest: Seq<int>| ext_ok(adj, s as int, p0, rest) && adj_u.subrange(0, m as int).contains(rest[0])
                    ==> has_cycle(cycles@, p0 + rest),
            decreases len_u - m,
        {
            let v = self.deps[u][m];
            proof {
                assert(adj_u[m as int] == v as int);
                assert(edge(adj, u as int, v as int));
            }
            let ghost before = cycles@;
            if v == s {
                let mut c: Vec<usize> = Vec::new();
                let plen = path.len();
                let mut k: usize = 0;
                while k < plen
                    invariant
                        plen == path@.len(),
                        0 <= k <= plen,
                        c@ == path@.subrange(0, k as int),
                    decreases plen - k,
                {
                    c.push(path[k]);
                    proof {
                        assert(c@ =~= path@.subrange(0, k + 1));
                    }
                    k = k + 1;
                }
                c.push(s);
                cycles.push(c);
                proof {
                    assert(path@.subrange(0, plen as int) =~= path@);
                    let cc = ints(cycles@.last()@);
                    assert(cc =~= p0 + seq![s as int]);
                    lemma_closed_walk(adj, p0, s as int);
                    assert forall|q: int| 0 <= q < cycles@.len() implies #[trigger] simple_cycle(adj, ints(cycles@[q]@)) by {
                        if q < before.len() {
                            assert(cycles@[q] == before[q]);
                        }
                    }
                    assert(has_cycle(cycles@, p0 + seq![s as int]));
                }
            } else if v > s && !on_path[v] {
                let ghost on0 = on_path@;
                path.push(v);
                on_path.set(v, true);
                proof {
                    lemma_path_push(adj, n as int, s as int, on_path@, path0, on0, v);
                }
                let ghost mid = path@;
                proof {
                    lemma_ints_distinct(mid, n as int);
                    lemma_distinct_below(ints(mid), n as int);
                    assert(ints(mid).len() == mid.len());
                    assert(mid.len() <= n);
                    assert(mid.len() == path0.len() + 1);
                }
                self.cycles_from(s, v, on_path, path, cycles);
                path.pop();
                on_path.set(v, false);
                proof {
                    assert(path@ =~= path0);
                    assert(ints(mid) =~= p0.push(v as int));
                    assert forall|rest: Seq<int>| ext_ok(adj, s as int, p0, rest) && rest[0] == v as int
                        implies has_cycle(cycles@, p0 + rest) by {
                        lemma_ext_step(adj, s as int, p0, rest);
                        assert(ext_ok(adj, s as int, ints(mid), rest.skip(1)));
                        assert(has_cycle(cycles@, ints(mid) + rest.skip(1)));
                        assert(ints(mid) + rest.skip(1) =~= p0 + rest);
                    }
                }
            }
            proof {
                assert forall|rest: Seq<int>| ext_ok(adj, s as int, p0, rest) && adj_u.subrange(0, m + 1).contains(rest[0])
                    implies has_cycle(cycles@, p0 + rest) by {
                    let x = choose|x: int| 0 <= x < m + 1 && #[trigger] adj_u.subrange(0, m + 1)[x] == rest[0];
                    if x < m {
                        assert(adj_u.subrange(0, m as int)[x] == rest[0]);
                        assert(has_cycle(before, p0 + rest));
                        lemma_has_cycle_grow(before, cycles@, p0 + rest);
                    } else {
                        assert(rest[0] == v as int);
                        lemma_ext_first(adj, s as int, p0, rest);
                        if v == s {
                            assert(rest =~= seq![s as int]);
                        } else if v > s && !on_path@[v as int] {
                        } else {
                            assert(rest.len() > 1);
                            assert(v > s);
                            assert(on_path@[v as int]);
                            assert(path@.contains(v));
                            let k = choose|k: int| 0 <= k < path@.len() && path@[k] == v;
                            assert(p0[k] == v as int);
                            assert(p0.contains(rest[0]));
                        }
                    }
                }
            }
            m = m + 1;
        }
        proof {
            assert forall|rest: Seq<int>| ext_ok(adj, s as int, p0, rest) implies has_cycle(cycles@, p0 + rest) by {
                assert(edge(adj, p0.last(), rest[0]));
                assert(p0.last() == u as int);
                let x = adj_u.index_of(rest[0]);
                assert(adj_u.subrange(0, len_u as int) =~= adj_u);
            }
        }
    }

    /// Every simple cycle of the graph, found by walking from each file through files
    /// numbered above it: each starts and ends with its lowest-numbered file, and every
    /// simple cycle occurs once, started at that file. None is found exactly when the graph
    /// has no cycle.
    pub fn find_cycles(&self) -> (r: Vec<Vec<String>>)
        requires
            self.wf(),
        ensures
            forall|k: int| 0 <= k < r@.len() ==> self.names_cycle(#[trigger] r@[k]@),
            forall|c: Seq<int>| #[trigger] simple_cycle(self.adj(), c) ==> exists|k: int, j: int|
                0 <= k < r@.len() && 0 <= j < c.len() - 1 && self.lists_cycle(r@[k]@, rotate_cycle(c, j)),
            r@.len() == 0 <==> acyclic(self.adj()),
    {
        let n = self.names.len();
        let ghost adj = self.adj();
        proof {
            self.lemma_view_lens();
        }
        let mut on_path: Vec<bool> = vec![false; n];
        let mut path: Vec<usize> = Vec::new();
        let mut cycles: Vec<Vec<usize>> = Vec::new();
        proof {
            assert forall|x: int| 0 <= x < n implies !on_path@[x] by {
                assert(cloned(false, on_path@[x]));
            }
        }
        let mut s: usize = 0;
        while s < n
            invariant
                self.wf(),
                adj == self.adj(),
                n == self.names@.len(),
                adj.len() == n,
                0 <= s <= n,
                on_path@.len() == n,
                forall|x: int| 0 <= x < n ==> !#[trigger] on_path@[x],
                path@.len() == 0,
                cycles_ok(adj, cycles@),
                forall|c: Seq<int>, j: int| #[trigger] simple_cycle(adj, c) && min_at(c, j) && c[j] < s
                    ==> has_cycle(cycles@, #[trigger] rotate_cycle(c, j)),
            decreases n - s,
        {
            let ghost before = cycles@;
            path.push(s);
            on_path.set(s, true);
            proof {
                assert(path_ok(adj, n as int, s as int, on_path@, path@)) by {
                    assert(ints(path@) =~= seq![s as int]);
                    assert forall|x: int| 0 <= x < n implies (#[trigger] on_path@[x] <==> path@.contains(x as usize)) by {
                        if x == s {
                            assert(path@[0] == s);
                        }
                    }
                }
            }
            let ghost p_call = path@;
            proof {
                assert(ints(p_call) =~= seq![s as int]);
            }
            self.cycles_from(s, s, &mut on_path, &mut path, &mut cycles);
            path.pop();
            on_path.set(s, false);
            proof {
                assert forall|x: int| 0 <= x < n implies !#[trigger] on_path@[x] by {
                    if x != s {
                        assert(!seq![s].contains(x as usize)) by {
                            if seq![s].contains(x as usize) {
                                assert(seq![s][0] == s);
                            }
                        }
                    }
                }
                assert(path@ =~= Seq::<usize>::empty());
                assert forall|c: Seq<int>, j: int| #[trigger] simple_cycle(adj, c) && min_at(c, j) && c[j] < s + 1
                    implies has_cycle(cycles@, #[trigger] rotate_cycle(c, j)) by {
                    if c[j] < s {
                        lemma_has_cycle_grow(before, cycles@, rotate_cycle(c, j));
                    } else {
                        lemma_rotate_ext(adj, c, j);
                        let rc = rotate_cycle(c, j);
                        assert(c[j] == s as int);
                        assert(ext_ok(adj, s as int, ints(p_call), rc.skip(1)));
                        assert(has_cycle(cycles@, ints(p_call) + rc.skip(1)));
                        assert(ints(p_call) + rc.skip(1) =~= rc);
                    }
                }
            }
            s = s + 1;
        }
        let mut out: Vec<Vec<String>> = Vec::new();
        let nc = cycles.len();
        let mut k: usize = 0;
        while k < nc
            invariant
                self.wf(),
                adj == self.adj(),
                n == self.names@.len(),
                nc == cycles@.len(),
                0 <= k <= nc,
                out@.len() == k,
                cycles_ok(adj, cycles@),
                forall|q: int| 0 <= q < k ==> #[trigger] self.lists_cycle(out@[q]@, ints(cycles@[q]@)),
            decreases nc - k,
        {
            let ghost c = ints(cycles@[k as int]@);
            proof {
                assert(simple_cycle(adj, c));
            }
            let cl = cycles[k].len();
            let mut names: Vec<String> = Vec::new();
            let mut i: usize = 0;
            while i < cl
                invariant
                    self.wf(),
                    adj == self.adj(),
                    n == self.names@.len(),
                    k < cycles@.len(),
                    cl == cycles@[k as int]@.len(),
                    c == ints(cycles@[k as int]@),
                    is_cycle(adj, c),
                    0 <= i <= cl,
                    names@.len() == i,
                    forall|j: int| 0 <= j < i ==> #[trigger] names@[j]@ == self.files()[c[j]],
                decreases cl - i,
            {
                let x = cycles[k][i];
                proof {
                    assert(c[i as int] == x as int);
                    if i < cl - 1 {
                        assert(edge(adj, c[i as int], c[i + 1]));
                    } else {
                        assert(c[i as int] == c[0]);
                        assert(edge(adj, c[0], c[1]));
                    }
                }
                names.push(self.names[x].clone());
                i = i + 1;
            }
            let ghost out0 = out@;
            out.push(names);
            proof {
                assert forall|q: int| 0 <= q < k + 1 implies #[trigger] self.lists_cycle(out@[q]@, ints(cycles@[q]@)) by {
                    if q < k {
                        assert(out@[q] == out0[q]);
                    }
                }
            }
            k = k + 1;
        }
        proof {
            assert forall|q: int| 0 <= q < out@.len() implies self.names_cycle(#[trigger] out@[q]@) by {
                assert(simple_cycle(adj, ints(cycles@[q]@)));
                assert(self.lists_cycle(out@[q]@, ints(cycles@[q]@)));
            }
            assert forall|c: Seq<int>| #[trigger] simple_cycle(adj, c) implies exists|q: int, j: int|
                0 <= q < out@.len() && 0 <= j < c.len() - 1 && self.lists_cycle(out@[q]@, rotate_cycle(c, j)) by {
                let j = lemma_min_exists(adj, n as int, c);
                assert(has_cycle(cycles@, rotate_cycle(c, j)));
                let q = choose|q: int| 0 <= q < cycles@.len() && ints(cycles@[q]@) == rotate_cycle(c, j);
                assert(self.lists_cycle(out@[q]@, ints(cycles@[q]@)));
            }
            if out@.len() > 0 {
                assert(self.names_cycle(out@[0]@));
                let c = choose|c: Seq<int>| is_cycle(adj, c) && #[trigger] self.lists_cycle(out@[0]@, c);
                assert(!acyclic(adj));
            } else {
                assert forall|c: Seq<int>| !#[trigger] is_cycle(adj, c) by {
                    if is_cycle(adj, c) {
                        let d = lemma_simple_inside(adj, c);
                        let j = lemma_min_exists(adj, n as int, d);
                        assert(has_cycle(cycles@, rotate_cycle(d, j)));
                    }
                }
            }
        }
        out
    }
}

impl Default for DependencyGraph {
    fn default() -> (r: Self)
        ensures
            r.wf(),
            r.files() == Seq::<Seq<char>>::empty(),
            r.keyed() == Seq::<bool>::empty(),
            r.adj() == Seq::<Seq<int>>::empty(),
    {
        DependencyGraph::new()
    }
}

} // verus!
