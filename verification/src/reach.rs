//! Reachability over adjacency lists, and the breadth-first search that
//! computes it.

use vstd::prelude::*;

verus! {

/// The adjacency rows of `adj` as sequences.
pub open spec fn rows(adj: Seq<Vec<usize>>) -> Seq<Seq<usize>> {
    Seq::new(adj.len(), |i: int| adj[i]@)
}

/// Every neighbour named in `adj` is a node of `adj`.
pub open spec fn adjacency_wf(adj: Seq<Seq<usize>>) -> bool {
    forall|i: int, k: int|
        0 <= i < adj.len() && 0 <= k < adj[i].len() ==> (#[trigger] adj[i][k]) < adj.len()
}

/// `p` is a non-empty walk through `adj`: each node is followed by one of
/// its neighbours.
pub open spec fn is_path(adj: Seq<Seq<usize>>, p: Seq<usize>) -> bool {
    &&& p.len() > 0
    &&& forall|i: int| 0 <= i < p.len() ==> (#[trigger] p[i]) < adj.len()
    &&& forall|i: int| 0 <= i < p.len() - 1 ==> adj[p[i] as int].contains(#[trigger] p[i + 1])
}

/// Node `t` is a seed or can be reached from one by following edges.
pub open spec fn reachable(adj: Seq<Seq<usize>>, seeds: Set<usize>, t: usize) -> bool {
    exists|p: Seq<usize>| is_path(adj, p) && seeds.contains(p[0]) && p.last() == t
}

/// Number of `true` entries of `flags`.
pub open spec fn count_true(flags: Seq<bool>) -> nat
    decreases flags.len(),
{
    if flags.len() == 0 {
        0
    } else {
        count_true(flags.drop_last()) + if flags.last() { 1nat } else { 0nat }
    }
}

/// Number of nodes below `n` that can be reached from `seeds`.
pub open spec fn reach_count(adj: Seq<Seq<usize>>, seeds: Set<usize>, n: nat) -> nat
    decreases n,
{
    if n == 0 {
        0
    } else {
        reach_count(adj, seeds, (n - 1) as nat) + if reachable(adj, seeds, (n - 1) as usize) {
            1nat
        } else {
            0nat
        }
    }
}

pub proof fn lemma_count_true_bound(flags: Seq<bool>)
    ensures
        count_true(flags) <= flags.len(),
    decreases flags.len(),
{
    if flags.len() > 0 {
        lemma_count_true_bound(flags.drop_last());
    }
}

pub proof fn lemma_count_true_set(flags: Seq<bool>, i: int)
    requires
        0 <= i < flags.len(),
        !flags[i],
    ensures
        count_true(flags.update(i, true)) == count_true(flags) + 1,
    decreases flags.len(),
{
    let updated = flags.update(i, true);
    if i == flags.len() - 1 {
        assert(updated.drop_last() =~= flags.drop_last());
    } else {
        lemma_count_true_set(flags.drop_last(), i);
        assert(updated.drop_last() =~= flags.drop_last().update(i, true));
    }
}

proof fn lemma_count_true_all_false(flags: Seq<bool>)
    requires
        forall|i: int| 0 <= i < flags.len() ==> !flags[i],
    ensures
        count_true(flags) == 0,
    decreases flags.len(),
{
    if flags.len() > 0 {
        lemma_count_true_all_false(flags.drop_last());
    }
}

/// A seed that is a node reaches itself.
pub proof fn lemma_seed_reachable(adj: Seq<Seq<usize>>, seeds: Set<usize>, s: usize)
    requires
        seeds.contains(s),
        s < adj.len(),
    ensures
        reachable(adj, seeds, s),
{
    let p = seq![s];
    assert(is_path(adj, p));
    assert(p.last() == s);
}

/// A neighbour of a reachable node is reachable.
pub proof fn lemma_step_reachable(adj: Seq<Seq<usize>>, seeds: Set<usize>, v: usize, w: usize)
    requires
        reachable(adj, seeds, v),
        v < adj.len(),
        adj[v as int].contains(w),
        w < adj.len(),
    ensures
        reachable(adj, seeds, w),
{
    let p = choose|p: Seq<usize>| is_path(adj, p) && seeds.contains(p[0]) && p.last() == v;
    let q = p.push(w);
    assert forall|i: int| 0 <= i < q.len() - 1 implies adj[q[i] as int].contains(
        #[trigger] q[i + 1],
    ) by {
        if i < p.len() - 1 {
            assert(q[i] == p[i]);
            assert(q[i + 1] == p[i + 1]);
        }
    }
    assert(is_path(adj, q));
    assert(q[0] == p[0]);
    assert(q.last() == w);
}

/// A set of nodes that holds the seeds and is closed under edges holds every
/// node along a walk from a seed.
proof fn lemma_closed_holds_path(adj: Seq<Seq<usize>>, marks: Seq<bool>, p: Seq<usize>, i: int)
    requires
        marks.len() == adj.len(),
        is_path(adj, p),
        marks[p[0] as int],
        forall|v: int, k: int|
            0 <= v < adj.len() && marks[v] && 0 <= k < adj[v].len() ==> adj[v][k] < adj.len()
                && marks[(#[trigger] adj[v][k]) as int],
        0 <= i < p.len(),
    ensures
        marks[p[i] as int],
    decreases i,
{
    if i > 0 {
        lemma_closed_holds_path(adj, marks, p, i - 1);
        let v = p[i - 1];
        assert(adj[v as int].contains(p[i - 1 + 1]));
        let k = choose|k: int| 0 <= k < adj[v as int].len() && adj[v as int][k] == p[i];
        assert(marks[adj[v as int][k] as int]);
    }
}

/// Walks compose: what is reachable from a reachable node is reachable.
pub proof fn lemma_reachable_trans(adj: Seq<Seq<usize>>, seeds: Set<usize>, mid: usize, t: usize)
    requires
        reachable(adj, seeds, mid),
        reachable(adj, set![mid], t),
    ensures
        reachable(adj, seeds, t),
{
    let p = choose|p: Seq<usize>| is_path(adj, p) && seeds.contains(p[0]) && p.last() == mid;
    let q = choose|q: Seq<usize>| is_path(adj, q) && set![mid].contains(q[0]) && q.last() == t;
    assert(q[0] == mid);
    let r = p + q.drop_first();
    assert forall|i: int| 0 <= i < r.len() implies (#[trigger] r[i]) < adj.len() by {
        if i >= p.len() {
            assert(r[i] == q[i - p.len() + 1]);
        }
    }
    assert forall|i: int| 0 <= i < r.len() - 1 implies adj[r[i] as int].contains(
        #[trigger] r[i + 1],
    ) by {
        if i < p.len() - 1 {
            assert(r[i + 1] == p[i + 1]);
        } else if i == p.len() - 1 {
            assert(r[i] == q[0]);
            assert(r[i + 1] == q[1]);
        } else {
            let j = i - p.len() + 1;
            assert(r[i] == q[j]);
            assert(r[i + 1] == q[j + 1]);
        }
    }
    assert(is_path(adj, r));
    assert(r[0] == p[0]);
    if q.len() == 1 {
        assert(r =~= p);
    } else {
        assert(r.last() == q.last());
    }
}

/// Reachability grows with the seed set.
pub proof fn lemma_reachable_monotone(
    adj: Seq<Seq<usize>>,
    small: Set<usize>,
    large: Set<usize>,
    t: usize,
)
    requires
        small.subset_of(large),
        reachable(adj, small, t),
    ensures
        reachable(adj, large, t),
{
    let p = choose|p: Seq<usize>| is_path(adj, p) && small.contains(p[0]) && p.last() == t;
    assert(large.contains(p[0]));
}

/// Breadth-first search from `seeds`: marks exactly the nodes that can be
/// reached. A node is marked when it is enqueued, so it is enqueued once.
pub(crate) fn bfs(adj: &Vec<Vec<usize>>, seeds: &Vec<usize>) -> (visited: Vec<bool>)
    requires
        adjacency_wf(rows(adj@)),
        forall|k: int| 0 <= k < seeds@.len() ==> seeds@[k] < adj@.len(),
    ensures
        visited@.len() == adj@.len(),
        forall|t: int|
            0 <= t < adj@.len() ==> visited@[t] == reachable(
                rows(adj@),
                seeds@.to_set(),
                t as usize,
            ),
{
    let n = adj.len();
    let ghost g = rows(adj@);
    let ghost roots = seeds@.to_set();
    let mut visited: Vec<bool> = Vec::new();
    while visited.len() < n
        invariant
            visited@.len() <= n,
            forall|i: int| 0 <= i < visited@.len() ==> !visited@[i],
        decreases n - visited@.len(),
    {
        visited.push(false);
    }
    proof {
        lemma_count_true_all_false(visited@);
    }
    let mut queue: Vec<usize> = Vec::new();
    let mut s: usize = 0;
    while s < seeds.len()
        invariant
            n == adj@.len(),
            g == rows(adj@),
            roots == seeds@.to_set(),
            s <= seeds@.len(),
            visited@.len() == n,
            queue@.len() == count_true(visited@),
            forall|k: int| 0 <= k < seeds@.len() ==> seeds@[k] < n,
            forall|k: int| 0 <= k < queue@.len() ==> queue@[k] < n && visited@[queue@[k] as int],
            forall|t: int| 0 <= t < n && visited@[t] ==> reachable(g, roots, t as usize),
            forall|t: int| 0 <= t < n && visited@[t] ==> queue@.contains(t as usize),
            forall|k: int| 0 <= k < s ==> visited@[seeds@[k] as int],
        decreases seeds@.len() - s,
    {
        let r = seeds[s];
        if !visited[r] {
            proof {
                lemma_count_true_set(visited@, r as int);
                assert(roots.contains(seeds@[s as int]));
                lemma_seed_reachable(g, roots, r);
            }
            let ghost before = queue@;
            visited.set(r, true);
            queue.push(r);
            proof {
                assert(queue@[before.len() as int] == r);
                assert forall|t: int| 0 <= t < n && visited@[t] implies queue@.contains(
                    t as usize,
                ) by {
                    if t != r {
                        let k = choose|k: int| 0 <= k < before.len() && before[k] == t as usize;
                        assert(queue@[k] == t as usize);
                    }
                }
            }
        }
        s += 1;
    }
    let mut head: usize = 0;
    while head < queue.len()
        invariant
            n == adj@.len(),
            g == rows(adj@),
            adjacency_wf(g),
            roots == seeds@.to_set(),
            visited@.len() == n,
            head <= queue@.len(),
            queue@.len() == count_true(visited@),
            forall|k: int| 0 <= k < queue@.len() ==> queue@[k] < n && visited@[queue@[k] as int],
            forall|k: int| 0 <= k < seeds@.len() ==> seeds@[k] < n && visited@[seeds@[k] as int],
            forall|t: int| 0 <= t < n && visited@[t] ==> reachable(g, roots, t as usize),
            forall|t: int| 0 <= t < n && visited@[t] ==> queue@.contains(t as usize),
            forall|k: int, m: int|
                0 <= k < head && 0 <= m < g[queue@[k] as int].len() ==> visited@[(
                #[trigger] g[queue@[k] as int][m]) as int],
        decreases n - head,
    {
        proof {
            lemma_count_true_bound(visited@);
        }
        let v = queue[head];
        let row = &adj[v];
        assert(row@ == g[v as int]);
        let mut m: usize = 0;
        while m < row.len()
            invariant
                n == adj@.len(),
                g == rows(adj@),
                adjacency_wf(g),
                roots == seeds@.to_set(),
                visited@.len() == n,
                head < queue@.len(),
                v == queue@[head as int],
                v < n,
                row@ == g[v as int],
                m <= row@.len(),
                queue@.len() == count_true(visited@),
                forall|k: int| 0 <= k < queue@.len() ==> queue@[k] < n && visited@[queue@[k] as int],
                forall|k: int|
                    0 <= k < seeds@.len() ==> seeds@[k] < n && visited@[seeds@[k] as int],
                forall|t: int| 0 <= t < n && visited@[t] ==> reachable(g, roots, t as usize),
                forall|t: int| 0 <= t < n && visited@[t] ==> queue@.contains(t as usize),
                forall|k: int, j: int|
                    0 <= k < head && 0 <= j < g[queue@[k] as int].len() ==> visited@[(
                    #[trigger] g[queue@[k] as int][j]) as int],
                forall|j: int| 0 <= j < m ==> visited@[(#[trigger] row@[j]) as int],
            decreases row@.len() - m,
        {
            let w = row[m];
            assert(w == g[v as int][m as int]);
            assert(w < n);
            if !visited[w] {
                proof {
                    lemma_count_true_set(visited@, w as int);
                    assert(queue@.contains(v));
                    assert(visited@[queue@[head as int] as int]);
                    assert(g[v as int].contains(w));
                    lemma_step_reachable(g, roots, v, w);
                }
                let ghost before = queue@;
                visited.set(w, true);
                queue.push(w);
                proof {
                    assert(queue@[before.len() as int] == w);
                    assert forall|t: int| 0 <= t < n && visited@[t] implies queue@.contains(
                        t as usize,
                    ) by {
                        if t != w {
                            let k = choose|k: int| 0 <= k < before.len() && before[k] == t as usize;
                            assert(queue@[k] == t as usize);
                        }
                    }
                }
            }
            m += 1;
        }
        head += 1;
    }
    proof {
        assert forall|v: int, k: int|
            0 <= v < g.len() && visited@[v] && 0 <= k < g[v].len() implies g[v][k] < g.len()
                && visited@[(#[trigger] g[v][k]) as int] by {
            assert(queue@.contains(v as usize));
            let q = choose|q: int| 0 <= q < queue@.len() && queue@[q] == v as usize;
            assert(visited@[g[queue@[q] as int][k] as int]);
        }
        assert forall|t: int| 0 <= t < n && reachable(g, roots, t as usize) implies visited@[t] by {
            let p = choose|p: Seq<usize>|
                is_path(g, p) && roots.contains(p[0]) && p.last() == t as usize;
            let k = choose|k: int| 0 <= k < seeds@.len() && seeds@[k] == p[0];
            assert(visited@[seeds@[k] as int]);
            lemma_closed_holds_path(g, visited@, p, p.len() - 1);
        }
    }
    visited
}

/// Counting the marks of the first `n` nodes counts the reachable ones.
proof fn lemma_reach_count(adj: Seq<Seq<usize>>, seeds: Set<usize>, flags: Seq<bool>, n: nat)
    requires
        n <= flags.len(),
        n <= usize::MAX,
        forall|t: int| 0 <= t < n ==> flags[t] == reachable(adj, seeds, t as usize),
    ensures
        reach_count(adj, seeds, n) == count_true(flags.take(n as int)),
    decreases n,
{
    if n > 0 {
        lemma_reach_count(adj, seeds, flags, (n - 1) as nat);
        assert(flags.take(n as int).drop_last() =~= flags.take(n - 1));
    }
}

/// Number of nodes that can be reached from `seeds`, the seeds included.
pub(crate) fn count_reachable(adj: &Vec<Vec<usize>>, seeds: &Vec<usize>) -> (count: usize)
    requires
        adjacency_wf(rows(adj@)),
        forall|k: int| 0 <= k < seeds@.len() ==> seeds@[k] < adj@.len(),
    ensures
        count == reach_count(rows(adj@), seeds@.to_set(), adj@.len() as nat),
{
    let flags = bfs(adj, seeds);
    let mut count: usize = 0;
    let mut i: usize = 0;
    while i < flags.len()
        invariant
            i <= flags@.len(),
            count == count_true(flags@.take(i as int)),
            count <= i,
        decreases flags@.len() - i,
    {
        proof {
            assert(flags@.take(i + 1).drop_last() =~= flags@.take(i as int));
        }
        if flags[i] {
            count += 1;
        }
        i += 1;
    }
    proof {
        lemma_reach_count(rows(adj@), seeds@.to_set(), flags@, flags@.len());
    }
    count
}

} // verus!
