use vstd::prelude::*;

use crate::graph::Digraph;

verus! {

/// Number of `true` entries.
pub open spec fn count_true(s: Seq<bool>) -> nat
    decreases s.len(),
{
    if s.len() == 0 {
        0
    } else {
        count_true(s.drop_last()) + if s.last() {
            1nat
        } else {
            0nat
        }
    }
}

proof fn lemma_count_zero(s: Seq<bool>)
    requires
        forall|i: int| 0 <= i < s.len() ==> !s[i],
    ensures
        count_true(s) == 0,
    decreases s.len(),
{
    if s.len() > 0 {
        lemma_count_zero(s.drop_last());
    }
}

proof fn lemma_count_bounded(s: Seq<bool>)
    ensures
        count_true(s) <= s.len(),
    decreases s.len(),
{
    if s.len() > 0 {
        lemma_count_bounded(s.drop_last());
    }
}

/// Where `t` holds every `true` of `s`, it holds at least as many.
proof fn lemma_count_monotone(s: Seq<bool>, t: Seq<bool>)
    requires
        s.len() == t.len(),
        forall|i: int| 0 <= i < s.len() && #[trigger] s[i] ==> t[i],
    ensures
        count_true(s) <= count_true(t),
    decreases s.len(),
{
    if s.len() > 0 {
        lemma_count_monotone(s.drop_last(), t.drop_last());
    }
}

/// Setting one `false` entry to `true` adds one.
proof fn lemma_count_set(s: Seq<bool>, i: int)
    requires
        0 <= i < s.len(),
        !s[i],
    ensures
        count_true(s.update(i, true)) == count_true(s) + 1,
    decreases s.len(),
{
    if i < s.len() - 1 {
        assert(s.update(i, true).drop_last() =~= s.drop_last().update(i, true));
        lemma_count_set(s.drop_last(), i);
    } else {
        assert(s.update(i, true).drop_last() =~= s.drop_last());
    }
}

/// Every visited node below depth zero was reached along an edge from a
/// visited node one level up, and depths stay below the node count.
pub open spec fn depths_parented(g: &Digraph, dist: Seq<usize>, visited: Seq<bool>) -> bool {
    forall|v: int|
        0 <= v < g.n() && #[trigger] visited[v] ==> dist[v] < g.n() && (dist[v] > 0 ==> exists|u: int|
            0 <= u < g.n() && visited[u] && #[trigger] g.edge(u, v) && dist[u] + 1 == dist[v])
}

/// Depths and visit marks during the walks.
pub type WalkState = (Seq<usize>, Seq<bool>);

/// The walk from `node` at `depth`: an unvisited node is marked, gets
/// `depth`, and then each of its successors is walked in turn one level
/// deeper; a visited node is left as it is. `fuel` bounds the nesting.
pub open spec fn walk_spec(g: &Digraph, fuel: nat, node: int, depth: usize, st: WalkState) -> WalkState
    decreases fuel, 0int, 0int,
{
    if fuel == 0 || st.1[node] {
        st
    } else {
        walk_succs(
            g,
            (fuel - 1) as nat,
            node,
            depth,
            g.succ@[node]@.len() as int,
            (st.0.update(node, depth), st.1.update(node, true)),
        )
    }
}

/// The walks from the first `j` successors of `node`, one after another.
pub open spec fn walk_succs(
    g: &Digraph,
    fuel: nat,
    node: int,
    depth: usize,
    j: int,
    st: WalkState,
) -> WalkState
    decreases fuel, 1int, j,
{
    if j <= 0 {
        st
    } else {
        let before = walk_succs(g, fuel, node, depth, j - 1, st);
        walk_spec(g, fuel, g.succ@[node]@[j - 1] as int, (depth + 1) as usize, before)
    }
}

/// The sources among the nodes below `v`, in ascending order.
pub open spec fn sources_below(g: &Digraph, v: int) -> Seq<usize>
    decreases v,
{
    if v <= 0 {
        Seq::empty()
    } else {
        let s = sources_below(g, v - 1);
        if g.is_source(v - 1) {
            s.push((v - 1) as usize)
        } else {
            s
        }
    }
}

/// Where the walks start: the sources, or node 0 when there is none.
pub open spec fn seeds(g: &Digraph) -> Seq<usize> {
    if sources_below(g, g.n() as int).len() == 0 && g.n() > 0 {
        seq![0usize]
    } else {
        sources_below(g, g.n() as int)
    }
}

/// The walks from the first `k` seeds, at depth 0.
pub open spec fn seed_walks(g: &Digraph, k: int, st: WalkState) -> WalkState
    decreases k,
{
    if k <= 0 {
        st
    } else {
        walk_spec(g, g.n() + 1, seeds(g)[k - 1] as int, 0, seed_walks(g, k - 1, st))
    }
}

/// Then a walk at depth 0 from each node below `v` that is still unvisited.
pub open spec fn rest_walks(g: &Digraph, v: int, st: WalkState) -> WalkState
    decreases v,
{
    if v <= 0 {
        st
    } else {
        walk_spec(g, g.n() + 1, v - 1, 0, rest_walks(g, v - 1, st))
    }
}

/// The depth of every node after all walks.
pub open spec fn walked_depths(g: &Digraph) -> Seq<usize> {
    let start = (Seq::new(g.n(), |i: int| 0usize), Seq::new(g.n(), |i: int| false));
    rest_walks(g, g.n() as int, seed_walks(g, seeds(g).len() as int, start)).0
}

/// Depth-first walk from `node`: the first visit fixes a node's depth.
fn walk(
    g: &Digraph,
    node: usize,
    depth: usize,
    dist: &mut Vec<usize>,
    visited: &mut Vec<bool>,
    Ghost(fuel): Ghost<nat>,
)
    requires
        g.wf(),
        node < g.n(),
        fuel + count_true(old(visited)@) >= g.n() + 1,
        old(dist)@.len() == g.n(),
        old(visited)@.len() == g.n(),
        depth <= count_true(old(visited)@),
        depths_parented(g, old(dist)@, old(visited)@),
        depth > 0 ==> exists|u: int|
            0 <= u < g.n() && old(visited)@[u] && #[trigger] g.edge(u, node as int) && old(
                dist,
            )@[u] + 1 == depth,
    ensures
        (final(dist)@, final(visited)@) == walk_spec(
            g,
            fuel,
            node as int,
            depth,
            (old(dist)@, old(visited)@),
        ),
        final(dist)@.len() == g.n(),
        final(visited)@.len() == g.n(),
        final(visited)@[node as int],
        forall|i: int|
            #![trigger final(visited)@[i]]
            0 <= i < g.n() && old(visited)@[i] ==> final(visited)@[i] && final(dist)@[i]
                == old(dist)@[i],
        !old(visited)@[node as int] ==> final(dist)@[node as int] == depth,
        forall|w: int|
            0 <= w < g.n() && #[trigger] final(visited)@[w] && !old(visited)@[w] && w != node
                ==> final(dist)@[w] > 0,
        depths_parented(g, final(dist)@, final(visited)@),
        forall|w: int, j: int|
            0 <= w < g.n() && #[trigger] final(visited)@[w] && !old(visited)@[w] && 0 <= j
                < g.succ@[w]@.len() ==> final(visited)@[#[trigger] g.succ@[w]@[j] as int],
    decreases g.n() - count_true(old(visited)@),
{
    if visited[node] {
        return;
    }
    proof {
        lemma_count_bounded(visited@);
        lemma_count_set(visited@, node as int);
    }
    visited.set(node, true);
    dist.set(node, depth);
    proof {
        lemma_count_bounded(visited@);
    }
    let ghost entry_visited = old(visited)@;
    let ghost entry_dist = old(dist)@;
    let ghost marked = (entry_dist.update(node as int, depth), entry_visited.update(node as int, true));
    assert(marked == (dist@, visited@));
    assert forall|v: int| 0 <= v < g.n() && #[trigger] visited@[v] implies dist@[v] < g.n() && (
    dist@[v] > 0 ==> exists|u: int|
        0 <= u < g.n() && visited@[u] && #[trigger] g.edge(u, v) && dist@[u] + 1 == dist@[v]) by {
        if v != node {
            assert(entry_visited[v]);
            if dist@[v] > 0 {
                let u = choose|u: int|
                    0 <= u < g.n() && entry_visited[u] && #[trigger] g.edge(u, v) && entry_dist[u]
                        + 1 == entry_dist[v];
                assert(visited@[u]);
            }
        } else if depth > 0 {
            let u = choose|u: int|
                0 <= u < g.n() && entry_visited[u] && #[trigger] g.edge(u, node as int)
                    && entry_dist[u] + 1 == depth;
            assert(visited@[u] && dist@[u] == entry_dist[u]);
        }
    }
    let n = g.succ.len();
    let len = g.succ[node].len();
    let mut j: usize = 0;
    while j < len
        invariant
            g.wf(),
            node < g.n(),
            n == g.n(),
            len == g.succ@[node as int]@.len(),
            j <= len,
            dist@.len() == g.n(),
            visited@.len() == g.n(),
            visited@[node as int],
            dist@[node as int] == depth,
            depth < g.n(),
            depth + 1 <= count_true(visited@),
            entry_visited == old(visited)@,
            count_true(entry_visited) < count_true(visited@),
            fuel + count_true(entry_visited) >= g.n() + 1,
            (dist@, visited@) == walk_succs(g, (fuel - 1) as nat, node as int, depth, j as int, marked),
            forall|i: int|
                #![trigger visited@[i]]
                0 <= i < g.n() && entry_visited[i] ==> visited@[i] && dist@[i] == entry_dist[i],
            depths_parented(g, dist@, visited@),
            forall|k: int| 0 <= k < j ==> visited@[#[trigger] g.succ@[node as int]@[k] as int],
            forall|w: int|
                0 <= w < g.n() && #[trigger] visited@[w] && !entry_visited[w] && w != node
                    ==> dist@[w] > 0,
            forall|w: int, k: int|
                0 <= w < g.n() && #[trigger] visited@[w] && !entry_visited[w] && w != node && 0 <= k
                    < g.succ@[w]@.len() ==> visited@[#[trigger] g.succ@[w]@[k] as int],
        decreases len - j,
    {
        let s = g.succ[node][j];
        assert(s < g.n());
        let ghost before = visited@;
        let ghost before_dist = dist@;
        proof {
            lemma_count_bounded(visited@);
            assert(count_true(visited@) <= g.n());
            assert(g.n() - count_true(visited@) < g.n() - count_true(entry_visited));
            assert(g.succ@[node as int]@[j as int] == s);
            assert(g.edge(node as int, s as int));
        }
        walk(g, s, depth + 1, dist, visited, Ghost((fuel - 1) as nat));
        proof {
            assert(before[node as int]);
            assert(visited@[node as int]);
            assert(dist@[node as int] == before_dist[node as int]);
            lemma_count_monotone(before, visited@);
            assert forall|i: int|
                #![trigger visited@[i]]
                0 <= i < g.n() && entry_visited[i] implies visited@[i] && dist@[i]
                    == entry_dist[i] by {
                assert(before[i] && before_dist[i] == entry_dist[i]);
            }
            assert forall|k: int| 0 <= k < j + 1
                implies visited@[#[trigger] g.succ@[node as int]@[k] as int] by {
                if k < j {
                    assert(before[g.succ@[node as int]@[k] as int]);
                }
            }
            assert forall|w: int|
                0 <= w < g.n() && #[trigger] visited@[w] && !entry_visited[w] && w != node
                    implies dist@[w] > 0 by {
                if before[w] {
                    assert(before_dist[w] > 0);
                    assert(dist@[w] == before_dist[w]);
                }
            }
            assert forall|w: int, k: int|
                0 <= w < g.n() && #[trigger] visited@[w] && !entry_visited[w] && w != node && 0
                    <= k < g.succ@[w]@.len() implies visited@[#[trigger] g.succ@[w]@[k] as int] by {
                if before[w] {
                    assert(before[g.succ@[w]@[k] as int]);
                }
            }
        }
        j = j + 1;
    }
}

/// Every successor of a visited node is visited.
pub open spec fn closed(g: &Digraph, visited: Seq<bool>) -> bool {
    forall|w: int, j: int|
        0 <= w < g.n() && visited[w] && 0 <= j < g.succ@[w]@.len() ==> #[trigger] visited[
            #[trigger] g.succ@[w]@[j] as int]
}

/// On a graded graph, a visited set that holds every source and every
/// successor of its members holds every node.
proof fn lemma_graded_reached(g: &Digraph, lvl: Seq<nat>, visited: Seq<bool>, v: int)
    requires
        g.wf(),
        g.graded(lvl),
        visited.len() == g.n(),
        closed(g, visited),
        forall|s: int| 0 <= s < g.n() && #[trigger] g.is_source(s) ==> visited[s],
        0 <= v < g.n(),
    ensures
        visited[v],
    decreases lvl[v],
{
    if lvl[v] == 0 {
        assert(g.is_source(v));
        assert(visited[v]);
    } else {
        assert(!g.is_source(v));
        let u = g.pred@[v]@[0] as int;
        assert(g.pred@[v]@[0] < g.n());
        assert(g.pred@[v]@[0] == u as usize);
        assert(g.pred@[v]@.contains(u as usize));
        assert(g.succ@[u]@.contains(v as usize));
        assert(g.edge(u, v));
        assert(lvl[u] < lvl[v]);
        lemma_graded_reached(g, lvl, visited, u);
        let j = choose|j: int| 0 <= j < g.succ@[u]@.len() && #[trigger] g.succ@[u]@[j] == v as usize;
        assert(visited[g.succ@[u]@[j] as int]);
        assert(g.succ@[u]@[j] as int == v);
    }
}

/// A graded graph with nodes has a source: a node of least level.
proof fn lemma_graded_has_source(g: &Digraph, lvl: Seq<nat>)
    requires
        g.wf(),
        g.graded(lvl),
        g.n() > 0,
    ensures
        exists|s: int| 0 <= s < g.n() && #[trigger] g.is_source(s),
{
    lemma_graded_source_below(g, lvl, 0);
}

proof fn lemma_graded_source_below(g: &Digraph, lvl: Seq<nat>, v: int)
    requires
        g.wf(),
        g.graded(lvl),
        0 <= v < g.n(),
    ensures
        exists|s: int| 0 <= s < g.n() && #[trigger] g.is_source(s),
    decreases lvl[v],
{
    if lvl[v] == 0 {
        assert(g.is_source(v));
    } else {
        assert(!g.is_source(v));
        let u = g.pred@[v]@[0] as int;
        assert(g.pred@[v]@[0] < g.n());
        assert(g.pred@[v]@[0] == u as usize);
        assert(g.pred@[v]@.contains(u as usize));
        assert(g.succ@[u]@.contains(v as usize));
        assert(g.edge(u, v));
        lemma_graded_source_below(g, lvl, u);
    }
}

/// Depths of all nodes: the sources are walked first, in index order, then
/// every node that is still unvisited. With no source at all the walk starts
/// from node 0.
pub fn layer_depths(g: &Digraph) -> (dist: Vec<usize>)
    requires
        g.wf(),
    ensures
        dist@.len() == g.n(),
        forall|v: int| 0 <= v < g.n() ==> #[trigger] dist@[v] < g.n(),
        forall|v: int|
            0 <= v < g.n() && #[trigger] dist@[v] > 0 ==> exists|u: int|
                0 <= u < g.n() && #[trigger] g.edge(u, v) && dist@[u] + 1 == dist@[v],
        (exists|lvl: Seq<nat>| g.graded(lvl)) ==> forall|v: int|
            0 <= v < g.n() && #[trigger] dist@[v] == 0 ==> g.is_source(v),
        dist@ == walked_depths(g),
{
    let n = g.succ.len();
    let mut dist: Vec<usize> = vec![0usize; n];
    let mut visited: Vec<bool> = vec![false; n];
    let mut sources: Vec<usize> = Vec::new();
    let mut v: usize = 0;
    while v < n
        invariant
            g.wf(),
            v <= n,
            n == g.n(),
            forall|i: int| 0 <= i < sources@.len() ==> #[trigger] sources@[i] < n,
            forall|i: int| 0 <= i < sources@.len() ==> g.is_source(#[trigger] sources@[i] as int),
            forall|s: int| 0 <= s < v && #[trigger] g.is_source(s) ==> sources@.contains(s as usize),
            sources@ == sources_below(g, v as int),
        decreases n - v,
    {
        let ghost prev = sources@;
        if g.pred[v].len() == 0 {
            sources.push(v);
        }
        proof {
            assert forall|s: int| 0 <= s < v + 1 && #[trigger] g.is_source(s) implies sources@.contains(s as usize) by {
                if s < v {
                    let i = choose|i: int| 0 <= i < prev.len() && prev[i] == s as usize;
                    assert(sources@[i] == s as usize);
                } else {
                    assert(sources@[prev.len() as int] == s as usize);
                }
            }
        }
        v = v + 1;
    }
    let ghost fallback = sources@.len() == 0;
    if sources.len() == 0 && n > 0 {
        sources.push(0);
    }
    assert(sources@ =~= seeds(g));
    let ghost start = (dist@, visited@);
    assert(start == (Seq::new(g.n(), |i: int| 0usize), Seq::new(g.n(), |i: int| false))) by {
        assert(dist@ =~= Seq::new(g.n(), |i: int| 0usize));
        assert(visited@ =~= Seq::new(g.n(), |i: int| false));
    }
    proof {
        lemma_count_zero(visited@);
    }
    proof {
        assert forall|v: int| 0 <= v < g.n() && #[trigger] visited@[v] implies dist@[v] < g.n()
            && (dist@[v] > 0 ==> exists|u: int|
            0 <= u < g.n() && visited@[u] && #[trigger] g.edge(u, v) && dist@[u] + 1
                == dist@[v]) by {}
    }
    let mut k: usize = 0;
    while k < sources.len()
        invariant
            g.wf(),
            n == g.n(),
            dist@.len() == n,
            visited@.len() == n,
            forall|i: int| 0 <= i < sources@.len() ==> #[trigger] sources@[i] < n,
            depths_parented(g, dist@, visited@),
            k <= sources@.len(),
            !fallback ==> forall|i: int| 0 <= i < sources@.len() ==> g.is_source(#[trigger] sources@[i] as int),
            !fallback ==> forall|s: int| 0 <= s < n && #[trigger] g.is_source(s) ==> sources@.contains(s as usize),
            fallback ==> forall|s: int| 0 <= s < n ==> !#[trigger] g.is_source(s),
            forall|i: int| 0 <= i < k ==> visited@[#[trigger] sources@[i] as int],
            closed(g, visited@),
            !fallback ==> forall|v: int| 0 <= v < n && #[trigger] visited@[v] && dist@[v] == 0 ==> g.is_source(v),
            sources@ == seeds(g),
            (dist@, visited@) == seed_walks(g, k as int, start),
        decreases sources@.len() - k,
    {
        let ghost before = visited@;
        let ghost before_dist = dist@;
        let seed = sources[k];
        proof {
            lemma_count_bounded(visited@);
        }
        walk(g, seed, 0, &mut dist, &mut visited, Ghost((g.n() + 1) as nat));
        proof {
            assert forall|i: int| 0 <= i < k + 1 implies visited@[#[trigger] sources@[i] as int] by {
                if i < k {
                    assert(before[sources@[i] as int]);
                }
            }
            assert forall|w: int, j: int|
                0 <= w < g.n() && visited@[w] && 0 <= j < g.succ@[w]@.len() implies #[trigger] visited@[
                #[trigger] g.succ@[w]@[j] as int] by {
                if before[w] {
                    assert(before[g.succ@[w]@[j] as int]);
                }
            }
            if !fallback {
                assert forall|v: int| 0 <= v < n && #[trigger] visited@[v] && dist@[v] == 0 implies g.is_source(v) by {
                    if before[v] {
                        assert(before_dist[v] == 0);
                    } else if v != seed {
                        assert(dist@[v] > 0);
                    } else {
                        assert(g.is_source(sources@[k as int] as int));
                    }
                }
            }
        }
        k = k + 1;
    }
    let ghost mid_visited = visited@;
    let ghost mid_dist = dist@;
    proof {
        if exists|lvl: Seq<nat>| g.graded(lvl) {
            let lvl = choose|lvl: Seq<nat>| g.graded(lvl);
            if fallback && n > 0 {
                lemma_graded_has_source(g, lvl);
            }
            assert forall|s: int| 0 <= s < g.n() && #[trigger] g.is_source(s) implies visited@[s] by {
                assert(sources@.contains(s as usize));
                let i = choose|i: int| 0 <= i < sources@.len() && sources@[i] == s as usize;
                assert(visited@[sources@[i] as int]);
            }
            assert forall|v: int| 0 <= v < g.n() implies #[trigger] visited@[v] by {
                lemma_graded_reached(g, lvl, visited@, v);
            }
        }
    }
    let mut v: usize = 0;
    while v < n
        invariant
            g.wf(),
            v <= n,
            n == g.n(),
            dist@.len() == n,
            visited@.len() == n,
            depths_parented(g, dist@, visited@),
            forall|i: int| 0 <= i < v ==> #[trigger] visited@[i],
            (forall|i: int| 0 <= i < n ==> #[trigger] mid_visited[i]) ==> dist@ == mid_dist
                && visited@ == mid_visited,
            fallback ==> forall|s: int| 0 <= s < n ==> !#[trigger] g.is_source(s),
            !fallback ==> forall|v: int| 0 <= v < n && #[trigger] mid_visited[v] && mid_dist[v] == 0 ==> g.is_source(v),
            (dist@, visited@) == rest_walks(g, v as int, (mid_dist, mid_visited)),
        decreases n - v,
    {
        if !visited[v] {
            proof {
                lemma_count_bounded(visited@);
            }
            walk(g, v, 0, &mut dist, &mut visited, Ghost((g.n() + 1) as nat));
        }
        v = v + 1;
    }
    proof {
        assert forall|v: int| 0 <= v < g.n() && #[trigger] dist@[v] > 0 implies exists|u: int|
            0 <= u < g.n() && #[trigger] g.edge(u, v) && dist@[u] + 1 == dist@[v] by {
            assert(visited@[v]);
        }
        assert forall|v: int| 0 <= v < g.n() implies #[trigger] dist@[v] < g.n() by {
            assert(visited@[v]);
        }
        if exists|lvl: Seq<nat>| g.graded(lvl) {
            assert(forall|i: int| 0 <= i < n ==> #[trigger] mid_visited[i]);
            if n > 0 {
                let lvl = choose|lvl: Seq<nat>| g.graded(lvl);
                lemma_graded_has_source(g, lvl);
                assert(!fallback);
                assert forall|v: int| 0 <= v < g.n() && #[trigger] dist@[v] == 0 implies g.is_source(v) by {
                    assert(mid_visited[v]);
                }
            }
        }
    }
    dist
}

/// Each node below `n` stands in `ls` exactly once, and no layer is empty.
pub open spec fn is_partition(ls: Seq<Vec<usize>>, n: nat) -> bool {
    &&& forall|k: int| 0 <= k < ls.len() ==> #[trigger] ls[k]@.len() > 0
    &&& forall|k: int, i: int|
        0 <= k < ls.len() && 0 <= i < ls[k]@.len() ==> #[trigger] ls[k]@[i] < n
    &&& forall|k1: int, i1: int, k2: int, i2: int|
        0 <= k1 < ls.len() && 0 <= i1 < ls[k1]@.len() && 0 <= k2 < ls.len() && 0 <= i2
            < ls[k2]@.len() && #[trigger] ls[k1]@[i1] == #[trigger] ls[k2]@[i2] ==> k1 == k2 && i1
            == i2
    &&& forall|v: int| 0 <= v < n ==> #[trigger] occurs(ls, v)
}

/// `v` stands somewhere in `ls`.
pub open spec fn occurs(ls: Seq<Vec<usize>>, v: int) -> bool {
    exists|k: int, i: int| 0 <= k < ls.len() && 0 <= i < ls[k]@.len() && #[trigger] ls[k]@[i] == v
}

/// Every node of a layer after the first has an incoming edge from the layer
/// just before it.
pub open spec fn hangs_below(g: &Digraph, ls: Seq<Vec<usize>>) -> bool {
    forall|k: int, i: int|
        0 < k < ls.len() && 0 <= i < ls[k]@.len() ==> has_edge_from(g, ls[k - 1]@, #[trigger] ls[k]@[i] as int)
}

/// Some node of `layer` has an edge to `v`.
pub open spec fn has_edge_from(g: &Digraph, layer: Seq<usize>, v: int) -> bool {
    exists|j: int| 0 <= j < layer.len() && #[trigger] g.edge(layer[j] as int, v)
}

/// What grouping by depth yields before any reordering: every node once,
/// in the layer of its walked depth, each layer ascending; moreover each node of a later layer sits under a
/// node of the layer before, every source is in the first layer, and on a
/// graded graph only sources are.
pub open spec fn initial_layering(g: &Digraph, ls: Seq<Vec<usize>>) -> bool {
    &&& is_partition(ls, g.n())
    &&& forall|k: int, i: int|
        0 <= k < ls.len() && 0 <= i < ls[k]@.len() ==> walked_depths(g)[#[trigger] ls[k]@[i] as int]
            == k
    &&& hangs_below(g, ls)
    &&& ascending_layers(ls)
    &&& forall|k: int, i: int|
        0 <= k < ls.len() && 0 <= i < ls[k]@.len() && g.is_source(#[trigger] ls[k]@[i] as int) ==> k
            == 0
    &&& (exists|lvl: Seq<nat>| g.graded(lvl)) ==> first_layer_sources(g, ls)
}

/// Every node of the first layer is a source.
pub open spec fn first_layer_sources(g: &Digraph, ls: Seq<Vec<usize>>) -> bool {
    ls.len() > 0 ==> forall|i: int| 0 <= i < ls[0]@.len() ==> g.is_source(#[trigger] ls[0]@[i] as int)
}

/// The nodes of each layer stand in ascending order.
pub open spec fn ascending_layers(ls: Seq<Vec<usize>>) -> bool {
    forall|k: int, i: int, j: int|
        0 <= k < ls.len() && 0 <= i < j < ls[k]@.len() ==> #[trigger] ls[k]@[i] < #[trigger] ls[k]@[j]
}

proof fn lemma_depth_reached(g: &Digraph, dist: Seq<usize>, v: int, k: int)
    requires
        dist.len() == g.n(),
        0 <= v < g.n(),
        0 <= k <= dist[v],
        forall|v: int|
            0 <= v < g.n() && #[trigger] dist[v] > 0 ==> exists|u: int|
                0 <= u < g.n() && #[trigger] g.edge(u, v) && dist[u] + 1 == dist[v],
    ensures
        exists|w: int| 0 <= w < g.n() && #[trigger] dist[w] == k,
    decreases dist[v] - k,
{
    if k < dist[v] {
        assert(dist[v] > 0);
        let u = choose|u: int| 0 <= u < g.n() && #[trigger] g.edge(u, v) && dist[u] + 1 == dist[v];
        lemma_depth_reached(g, dist, u, k);
    } else {
        assert(dist[v] == k);
    }
}

/// Some node has depth `k`.
pub open spec fn depth_used(dist: Seq<usize>, k: int) -> bool {
    exists|w: int| 0 <= w < dist.len() && #[trigger] dist[w] == k
}

/// Puts each node into the layer of its depth, in ascending order.
fn group_by_depth(dist: &Vec<usize>) -> (ls: Vec<Vec<usize>>)
    requires
        forall|v: int| 0 <= v < dist@.len() ==> #[trigger] dist@[v] < dist@.len(),
        forall|v: int|
            0 <= v < dist@.len() ==> forall|k: int|
                0 <= k <= #[trigger] dist@[v] ==> #[trigger] depth_used(dist@, k),
    ensures
        forall|v: int| 0 <= v < dist@.len() ==> #[trigger] dist@[v] < ls@.len(),
        forall|k: int| 0 <= k < ls@.len() ==> #[trigger] ls@[k]@.len() > 0,
        forall|k: int, i: int|
            0 <= k < ls@.len() && 0 <= i < ls@[k]@.len() ==> #[trigger] ls@[k]@[i] < dist@.len()
                && dist@[ls@[k]@[i] as int] == k,
        ascending_layers(ls@),
        forall|v: int| 0 <= v < dist@.len() ==> ls@[#[trigger] dist@[v] as int]@.contains(v as usize),
{
    let n = dist.len();
    let mut top: usize = 0;
    let mut v: usize = 0;
    while v < n
        invariant
            v <= n,
            n == dist@.len(),
            forall|i: int| 0 <= i < v ==> #[trigger] dist@[i] <= top,
            top == 0 || exists|w: int| 0 <= w < n && #[trigger] dist@[w] == top,
            forall|i: int| 0 <= i < dist@.len() ==> #[trigger] dist@[i] < dist@.len(),
        decreases n - v,
    {
        if dist[v] > top {
            top = dist[v];
        }
        v = v + 1;
    }
    let count: usize = if n == 0 { 0 } else { top + 1 };
    let mut ls: Vec<Vec<usize>> = Vec::new();
    let mut k: usize = 0;
    while k < count
        invariant
            k <= count,
            ls@.len() == k,
            forall|j: int| 0 <= j < k ==> (#[trigger] ls@[j])@.len() == 0,
        decreases count - k,
    {
        ls.push(Vec::new());
        k = k + 1;
    }
    let mut v: usize = 0;
    while v < n
        invariant
            v <= n,
            n == dist@.len(),
            ls@.len() == count,
            forall|i: int| 0 <= i < n ==> #[trigger] dist@[i] < count,
            forall|k: int, i: int|
                0 <= k < ls@.len() && 0 <= i < ls@[k]@.len() ==> #[trigger] ls@[k]@[i] < v
                    && dist@[ls@[k]@[i] as int] == k,
            ascending_layers(ls@),
            forall|w: int| 0 <= w < v ==> ls@[#[trigger] dist@[w] as int]@.contains(w as usize),
        decreases n - v,
    {
        let d = dist[v];
        let ghost prev = ls@;
        ls[d].push(v);
        proof {
            assert(ls@[d as int]@ == prev[d as int]@.push(v));
            assert forall|k: int, i: int|
                0 <= k < ls@.len() && 0 <= i < ls@[k]@.len() implies #[trigger] ls@[k]@[i] < v + 1
                    && dist@[ls@[k]@[i] as int] == k by {
                if k != d {
                    assert(ls@[k] == prev[k]);
                } else if i < prev[k]@.len() {
                    assert(ls@[k]@[i] == prev[k]@[i]);
                }
            }
            assert forall|k: int, i: int, j: int|
                0 <= k < ls@.len() && 0 <= i < j < ls@[k]@.len() implies #[trigger] ls@[k]@[i]
                    < #[trigger] ls@[k]@[j] by {
                if k != d {
                    assert(ls@[k] == prev[k]);
                } else {
                    assert(ls@[k]@[i] == prev[k]@[i]);
                    if j < prev[k]@.len() {
                        assert(ls@[k]@[j] == prev[k]@[j]);
                    }
                }
            }
            assert forall|w: int| 0 <= w < v + 1 implies ls@[#[trigger] dist@[w] as int]@.contains(
                w as usize,
            ) by {
                if w == v {
                    assert(ls@[d as int]@[prev[d as int]@.len() as int] == v);
                } else if dist@[w] != d {
                    assert(ls@[dist@[w] as int] == prev[dist@[w] as int]);
                } else {
                    let t = choose|t: int| 0 <= t < prev[d as int]@.len() && #[trigger] prev[d as int]@[t] == w as usize;
                    assert(ls@[d as int]@[t] == w as usize);
                }
            }
        }
        v = v + 1;
    }
    assert forall|k: int| 0 <= k < ls@.len() implies #[trigger] ls@[k]@.len() > 0 by {
        if top == 0 {
            assert(0 <= k <= dist@[0]);
        } else {
            let w = choose|w: int| 0 <= w < n && #[trigger] dist@[w] == top;
            assert(0 <= k <= dist@[w]);
        }
        assert(depth_used(dist@, k));
        let x = choose|x: int| 0 <= x < n && #[trigger] dist@[x] == k;
        assert(ls@[dist@[x] as int]@.contains(x as usize));
    }
    ls
}

/// Groups the nodes into layers by their depth (see `layer_depths`); each
/// layer lists its nodes in ascending order.
pub fn assign_layers(g: &Digraph) -> (ls: Vec<Vec<usize>>)
    requires
        g.wf(),
    ensures
        initial_layering(g, ls@),
{
    let dist = layer_depths(g);
    proof {
        assert forall|v: int, k: int| 0 <= v < dist@.len() && 0 <= k <= #[trigger] dist@[v]
            implies #[trigger] depth_used(dist@, k) by {
            lemma_depth_reached(g, dist@, v, k);
        }
    }
    let ls = group_by_depth(&dist);
    proof {
        assert forall|k1: int, i1: int, k2: int, i2: int|
            0 <= k1 < ls@.len() && 0 <= i1 < ls@[k1]@.len() && 0 <= k2 < ls@.len() && 0 <= i2
                < ls@[k2]@.len() && #[trigger] ls@[k1]@[i1] == #[trigger] ls@[k2]@[i2] implies k1
                == k2 && i1 == i2 by {
            if i1 < i2 {
                assert(ls@[k1]@[i1] < ls@[k1]@[i2]);
            } else if i2 < i1 {
                assert(ls@[k1]@[i2] < ls@[k1]@[i1]);
            }
        }
        assert forall|v: int| 0 <= v < g.n() implies #[trigger] occurs(ls@, v) by {
            let k = dist@[v] as int;
            assert(ls@[k]@.contains(v as usize));
            assert(0 <= v < dist@.len());
            let i = choose|i: int| 0 <= i < ls@[k]@.len() && #[trigger] ls@[k]@[i] == v as usize;
            assert(0 <= k < ls@.len() && 0 <= i < ls@[k]@.len());
            assert(ls@[k]@[i] as int == v);
        }
        assert forall|k: int, i: int|
            0 < k < ls@.len() && 0 <= i < ls@[k]@.len() implies has_edge_from(g, ls@[k - 1]@, #[trigger] ls@[k]@[i] as int) by {
            let v = ls@[k]@[i] as int;
            assert(dist@[v] == k);
            let u = choose|u: int| 0 <= u < g.n() && #[trigger] g.edge(u, v) && dist@[u] + 1 == dist@[v];
            assert(ls@[dist@[u] as int]@.contains(u as usize));
            let j = choose|j: int| 0 <= j < ls@[k - 1]@.len() && #[trigger] ls@[k - 1]@[j] == u as usize;
            assert(g.edge(ls@[k - 1]@[j] as int, v));
        }
        assert(hangs_below(g, ls@));
        assert forall|k: int, i: int|
            0 <= k < ls@.len() && 0 <= i < ls@[k]@.len() && g.is_source(#[trigger] ls@[k]@[i] as int)
                implies k == 0 by {
            let v = ls@[k]@[i] as int;
            if k > 0 {
                assert(dist@[v] == k);
                let u = choose|u: int| 0 <= u < g.n() && #[trigger] g.edge(u, v) && dist@[u] + 1 == dist@[v];
                assert(g.succ@[u]@.contains(v as usize));
                assert(g.pred@[v]@.contains(u as usize));
            }
        }
        if (exists|lvl: Seq<nat>| g.graded(lvl)) && ls@.len() > 0 {
            assert forall|i: int| 0 <= i < ls@[0]@.len() implies g.is_source(#[trigger] ls@[0]@[i] as int) by {
                assert(dist@[ls@[0]@[i] as int] == 0);
            }
        }
    }
    ls
}

} // verus!
