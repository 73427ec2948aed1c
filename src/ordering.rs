use vstd::prelude::*;

use vstd::arithmetic::div_mod::{lemma_fundamental_div_mod, lemma_mod_pos_bound};

use crate::graph::Digraph;

verus! {

/// The index at which `v` stands in `s` (meaningful where it stands there).
pub open spec fn position_in(s: Seq<usize>, v: usize) -> int {
    choose|p: int| 0 <= p < s.len() && s[p] == v
}

/// Sum of the positions in `adj` of the entries of `nb` that stand in `adj`.
pub open spec fn hit_sum(nb: Seq<usize>, adj: Seq<usize>) -> int
    decreases nb.len(),
{
    if nb.len() == 0 {
        0
    } else {
        hit_sum(nb.drop_last(), adj) + if adj.contains(nb.last()) {
            position_in(adj, nb.last())
        } else {
            0
        }
    }
}

/// How many entries of `nb` stand in `adj`.
pub open spec fn hit_count(nb: Seq<usize>, adj: Seq<usize>) -> int
    decreases nb.len(),
{
    if nb.len() == 0 {
        0
    } else {
        hit_count(nb.drop_last(), adj) + if adj.contains(nb.last()) {
            1int
        } else {
            0int
        }
    }
}

/// The neighbours of `v` that a sweep looks at: its predecessors on the way
/// down, its successors on the way up.
pub open spec fn sweep_neighbours(g: &Digraph, v: int, use_predecessors: bool) -> Seq<usize> {
    if use_predecessors {
        g.pred@[v]@
    } else {
        g.succ@[v]@
    }
}

/// The barycenter of `v`, as numerator and denominator: the mean position of
/// its sweep neighbours within `adj`, or its own position within `layer`
/// when none of them stands in `adj`.
pub open spec fn barycenter(
    g: &Digraph,
    layer: Seq<usize>,
    adj: Seq<usize>,
    use_predecessors: bool,
    v: usize,
) -> (int, int) {
    let nb = sweep_neighbours(g, v as int, use_predecessors);
    if hit_count(nb, adj) == 0 {
        (position_in(layer, v), 1)
    } else {
        (hit_sum(nb, adj), hit_count(nb, adj))
    }
}

/// `a` comes before `b`: a smaller barycenter, or an equal one and a smaller
/// identifier.
pub open spec fn goes_before(
    g: &Digraph,
    layer: Seq<usize>,
    adj: Seq<usize>,
    use_predecessors: bool,
    a: usize,
    b: usize,
) -> bool {
    let ka = barycenter(g, layer, adj, use_predecessors, a);
    let kb = barycenter(g, layer, adj, use_predecessors, b);
    ka.0 * kb.1 < kb.0 * ka.1 || (ka.0 * kb.1 == kb.0 * ka.1 && a < b)
}

/// `r` holds the nodes of `layer`, each once, in barycenter order.
pub open spec fn is_barycenter_order(
    g: &Digraph,
    layer: Seq<usize>,
    adj: Seq<usize>,
    use_predecessors: bool,
    r: Seq<usize>,
) -> bool {
    &&& r.len() == layer.len()
    &&& r.no_duplicates()
    &&& forall|x: usize| r.contains(x) <==> layer.contains(x)
    &&& forall|i: int, j: int|
        0 <= i < j < r.len() ==> goes_before(g, layer, adj, use_predecessors, #[trigger] r[i], #[trigger] r[j])
}

/// The nodes of `layer` in barycenter order against `adj` (there is exactly
/// one such order when `layer` holds no node twice).
pub open spec fn barycenter_order(
    g: &Digraph,
    layer: Seq<usize>,
    adj: Seq<usize>,
    use_predecessors: bool,
) -> Seq<usize> {
    choose|r: Seq<usize>| is_barycenter_order(g, layer, adj, use_predecessors, r)
}

proof fn lemma_order_unique(
    g: &Digraph,
    layer: Seq<usize>,
    adj: Seq<usize>,
    use_predecessors: bool,
    a: Seq<usize>,
    b: Seq<usize>,
)
    requires
        is_barycenter_order(g, layer, adj, use_predecessors, a),
        is_barycenter_order(g, layer, adj, use_predecessors, b),
    ensures
        a == b,
{
    lemma_order_prefix(g, layer, adj, use_predecessors, a, b, a.len() as int);
    assert(a =~= b);
}

proof fn lemma_order_prefix(
    g: &Digraph,
    layer: Seq<usize>,
    adj: Seq<usize>,
    use_predecessors: bool,
    a: Seq<usize>,
    b: Seq<usize>,
    n: int,
)
    requires
        is_barycenter_order(g, layer, adj, use_predecessors, a),
        is_barycenter_order(g, layer, adj, use_predecessors, b),
        0 <= n <= a.len(),
    ensures
        forall|j: int| 0 <= j < n ==> a[j] == b[j],
    decreases n,
{
    if n > 0 {
        lemma_order_prefix(g, layer, adj, use_predecessors, a, b, n - 1);
        let i = n - 1;
        let x = a[i];
        let y = b[i];
        if x != y {
            assert(a.contains(x));
            assert(b.contains(x));
            let jb = choose|j: int| 0 <= j < b.len() && b[j] == x;
            assert(b.contains(y));
            assert(a.contains(y));
            let ja = choose|j: int| 0 <= j < a.len() && a[j] == y;
            if ja < i {
                assert(b[ja] == y);
            }
            if jb < i {
                assert(a[jb] == x);
            }
            assert(goes_before(g, layer, adj, use_predecessors, a[i], a[ja]));
            assert(goes_before(g, layer, adj, use_predecessors, b[i], b[jb]));
        }
    }
}

/// Entries in range and no entry twice.
pub open spec fn node_list(s: Seq<usize>, n: nat) -> bool {
    &&& s.no_duplicates()
    &&& forall|i: int| 0 <= i < s.len() ==> #[trigger] s[i] < n
}

proof fn lemma_position(s: Seq<usize>, p: int)
    requires
        s.no_duplicates(),
        0 <= p < s.len(),
    ensures
        s.contains(s[p]),
        position_in(s, s[p]) == p,
{
    assert(s[p] == s[p]);
    let q = position_in(s, s[p]);
    assert(0 <= q < s.len() && s[q] == s[p]);
}

proof fn lemma_hits_bounded(nb: Seq<usize>, adj: Seq<usize>)
    ensures
        0 <= hit_count(nb, adj) <= nb.len(),
        0 <= hit_sum(nb, adj) <= hit_count(nb, adj) * adj.len(),
    decreases nb.len(),
{
    if nb.len() > 0 {
        lemma_hits_bounded(nb.drop_last(), adj);
        if adj.contains(nb.last()) {
            let p = position_in(adj, nb.last());
            assert(0 <= p < adj.len());
        }
        let c = hit_count(nb.drop_last(), adj);
        assert((c + 1) * adj.len() == c * adj.len() + adj.len()) by (nonlinear_arith);
    }
}

/// Comparing two fractions through their integer parts and remainders.
proof fn lemma_fraction_order(na: int, da: int, nb: int, db: int)
    requires
        na >= 0,
        nb >= 0,
        da > 0,
        db > 0,
    ensures
        (na * db < nb * da) == (na / da < nb / db || (na / da == nb / db && (na % da) * db < (nb
            % db) * da)),
        (na * db == nb * da) == (na / da == nb / db && (na % da) * db == (nb % db) * da),
{
    let qa = na / da;
    let ra = na % da;
    let qb = nb / db;
    let rb = nb % db;
    lemma_fundamental_div_mod(na, da);
    lemma_fundamental_div_mod(nb, db);
    lemma_mod_pos_bound(na, da);
    lemma_mod_pos_bound(nb, db);
    assert(na == qa * da + ra && 0 <= ra < da) by (nonlinear_arith)
        requires
            na == da * qa + ra,
            0 <= ra < da,
    ;
    assert(nb == qb * db + rb && 0 <= rb < db) by (nonlinear_arith)
        requires
            nb == db * qb + rb,
            0 <= rb < db,
    ;
    assert(na * db == qa * da * db + ra * db) by (nonlinear_arith)
        requires
            na == qa * da + ra,
    ;
    assert(nb * da == qb * da * db + rb * da) by (nonlinear_arith)
        requires
            nb == qb * db + rb,
    ;
    assert(0 <= ra * db < da * db) by (nonlinear_arith)
        requires
            0 <= ra < da,
            db > 0,
    ;
    assert(0 <= rb * da < da * db) by (nonlinear_arith)
        requires
            0 <= rb < db,
            da > 0,
    ;
    if qa < qb {
        assert(qa * da * db + da * db <= qb * da * db) by (nonlinear_arith)
            requires
                qa < qb,
                da > 0,
                db > 0,
        ;
    } else if qa > qb {
        assert(qb * da * db + da * db <= qa * da * db) by (nonlinear_arith)
            requires
                qb < qa,
                da > 0,
                db > 0,
        ;
    }
}

/// A node with its barycenter.
struct Keyed {
    node: usize,
    num: u128,
    den: u128,
}

/// `a` goes before `b` in the order of their fractions, then identifiers.
fn precedes(a: &Keyed, b: &Keyed) -> (r: bool)
    requires
        0 < a.den <= usize::MAX,
        0 < b.den <= usize::MAX,
    ensures
        r == (a.num * b.den < b.num * a.den || (a.num * b.den == b.num * a.den && a.node
            < b.node)),
{
    proof {
        lemma_fraction_order(a.num as int, a.den as int, b.num as int, b.den as int);
    }
    let qa = a.num / a.den;
    let qb = b.num / b.den;
    if qa != qb {
        return qa < qb;
    }
    let ra = a.num % a.den;
    let rb = b.num % b.den;
    assert(ra * b.den <= (a.den - 1) * b.den) by (nonlinear_arith)
        requires
            ra < a.den,
    ;
    assert((a.den - 1) * b.den <= (usize::MAX as int) * (usize::MAX as int)) by (nonlinear_arith)
        requires
            0 < a.den <= usize::MAX,
            0 < b.den <= usize::MAX,
    ;
    assert(rb * a.den <= (b.den - 1) * a.den) by (nonlinear_arith)
        requires
            rb < b.den,
    ;
    assert((b.den - 1) * a.den <= (usize::MAX as int) * (usize::MAX as int)) by (nonlinear_arith)
        requires
            0 < a.den <= usize::MAX,
            0 < b.den <= usize::MAX,
    ;
    let xa = ra * b.den;
    let xb = rb * a.den;
    xa < xb || (xa == xb && a.node < b.node)
}

/// `out` holds exactly the first `t` entries of `keyed`.
spec fn covers(out: Seq<Keyed>, keyed: Seq<Keyed>, t: int) -> bool {
    &&& forall|k: int|
        0 <= k < out.len() ==> exists|m: int| 0 <= m < t && #[trigger] keyed[m] == #[trigger] out[k]
    &&& forall|m: int|
        0 <= m < t ==> exists|k: int|
            0 <= k < out.len() && #[trigger] keyed[m] == #[trigger] out[k]
}

spec fn sorted_keys(out: Seq<Keyed>) -> bool {
    forall|a: int, b: int| 0 <= a < b < out.len() ==> kless(#[trigger] out[a], #[trigger] out[b])
}

proof fn lemma_insert_keeps_order(prev: Seq<Keyed>, pos: int, keyed: Seq<Keyed>, t: int)
    requires
        0 <= pos <= prev.len(),
        0 <= t < keyed.len(),
        forall|m: int| 0 <= m < keyed.len() ==> (#[trigger] keyed[m]).den > 0,
        covers(prev, keyed, t),
        sorted_keys(prev),
        forall|k: int| 0 <= k < pos ==> kless(#[trigger] prev[k], keyed[t]),
        pos < prev.len() ==> kless(keyed[t], prev[pos]),
    ensures
        covers(prev.insert(pos, keyed[t]), keyed, t + 1),
        sorted_keys(prev.insert(pos, keyed[t])),
{
    let pe = keyed[t];
    let out = prev.insert(pos, pe);
    prev.insert_ensures(pos, pe);
    assert forall|k: int| 0 <= k < prev.len() implies (#[trigger] prev[k]).den > 0 by {
        let m = choose|m: int| 0 <= m < t && #[trigger] keyed[m] == #[trigger] prev[k];
    }
    assert forall|k: int| 0 <= k < out.len() implies exists|m: int|
        0 <= m < t + 1 && #[trigger] keyed[m] == #[trigger] out[k] by {
        if k < pos {
            assert(out[k] == prev[k]);
        } else if k == pos {
            assert(keyed[t] == out[k]);
        } else {
            assert(out[k] == prev[k - 1]);
        }
    }
    assert forall|m: int| 0 <= m < t + 1 implies exists|k: int|
        0 <= k < out.len() && #[trigger] keyed[m] == #[trigger] out[k] by {
        if m == t {
            assert(keyed[m] == out[pos]);
        } else {
            let k0 = choose|k: int| 0 <= k < prev.len() && #[trigger] keyed[m] == #[trigger] prev[k];
            if k0 < pos {
                assert(keyed[m] == out[k0]);
            } else {
                assert(keyed[m] == out[k0 + 1]);
            }
        }
    }
    lemma_insert_sorted(prev, pos, pe);
}

proof fn lemma_insert_sorted(prev: Seq<Keyed>, pos: int, pe: Keyed)
    requires
        0 <= pos <= prev.len(),
        pe.den > 0,
        forall|k: int| 0 <= k < prev.len() ==> (#[trigger] prev[k]).den > 0,
        sorted_keys(prev),
        forall|k: int| 0 <= k < pos ==> kless(#[trigger] prev[k], pe),
        pos < prev.len() ==> kless(pe, prev[pos]),
    ensures
        sorted_keys(prev.insert(pos, pe)),
{
    let out = prev.insert(pos, pe);
    prev.insert_ensures(pos, pe);
    assert forall|a: int, b: int| 0 <= a < b < out.len() implies kless(
        #[trigger] out[a],
        #[trigger] out[b],
    ) by {
        if a < pos && b > pos {
            assert(out[b] == prev[b - 1]);
            if b - 1 > pos {
                lemma_kless_trans(pe, prev[pos], prev[b - 1]);
            }
            lemma_kless_trans(prev[a], pe, prev[b - 1]);
        } else if a == pos && b - 1 > pos {
            lemma_kless_trans(pe, prev[pos], prev[b - 1]);
        } else if a > pos {
            assert(out[a] == prev[a - 1] && out[b] == prev[b - 1]);
        } else if b < pos {
            assert(out[a] == prev[a] && out[b] == prev[b]);
        }
    }
}

spec fn kless(a: Keyed, b: Keyed) -> bool {
    a.num * b.den < b.num * a.den || (a.num * b.den == b.num * a.den && a.node < b.node)
}

proof fn lemma_kless_trans(a: Keyed, b: Keyed, c: Keyed)
    requires
        a.den > 0,
        b.den > 0,
        c.den > 0,
        kless(a, b),
        kless(b, c),
    ensures
        kless(a, c),
{
    let (na, da, nb, db, nc, dc) = (
        a.num as int,
        a.den as int,
        b.num as int,
        b.den as int,
        c.num as int,
        c.den as int,
    );
    assert(na * db <= nb * da);
    assert(nb * dc <= nc * db);
    assert(na * dc * db <= nc * da * db && (na * db < nb * da || nb * dc < nc * db ==> na * dc
        * db < nc * da * db)) by (nonlinear_arith)
        requires
            na * db <= nb * da,
            nb * dc <= nc * db,
            da > 0,
            db > 0,
            dc > 0,
    ;
    assert(na * dc <= nc * da) by (nonlinear_arith)
        requires
            na * dc * db <= nc * da * db,
            db > 0,
    ;
    if na * db < nb * da || nb * dc < nc * db {
        assert(na * dc < nc * da) by (nonlinear_arith)
            requires
                na * dc * db < nc * da * db,
                db > 0,
        ;
    }
}

/// A layer ordered by barycenter: each node's key is the mean position of its
/// sweep neighbours in the adjacent layer (its own position where it has
/// none there), and the nodes come in ascending key order, equal keys by
/// identifier.
pub fn order_by_barycenter(
    g: &Digraph,
    layer: &Vec<usize>,
    adjacent: &Vec<usize>,
    use_predecessors: bool,
) -> (r: Vec<usize>)
    requires
        g.wf(),
        node_list(layer@, g.n()),
        node_list(adjacent@, g.n()),
    ensures
        r@.len() == layer@.len(),
        node_list(r@, g.n()),
        forall|x: usize| r@.contains(x) <==> layer@.contains(x),
        forall|i: int, j: int|
            0 <= i < j < r@.len() ==> goes_before(
                g,
                layer@,
                adjacent@,
                use_predecessors,
                #[trigger] r@[i],
                #[trigger] r@[j],
            ),
        r@ == barycenter_order(g, layer@, adjacent@, use_predecessors),
{
    let n = g.succ.len();
    let alen = adjacent.len();
    let mut slots: Vec<usize> = vec![0usize; n];
    let mut p: usize = 0;
    while p < adjacent.len()
        invariant
            n == g.n(),
            slots@.len() == n,
            p <= adjacent@.len(),
            node_list(adjacent@, g.n()),
            forall|w: int|
                0 <= w < n ==> (#[trigger] slots@[w] > 0 <==> adjacent@.subrange(0, p as int).contains(
                    w as usize,
                )),
            forall|w: int|
                0 <= w < n && #[trigger] slots@[w] > 0 ==> slots@[w] <= p && adjacent@[slots@[w]
                    - 1] == w,
        decreases adjacent@.len() - p,
    {
        let w = adjacent[p];
        slots.set(w, p + 1);
        proof {
            let a = adjacent@;
            assert(a.subrange(0, p + 1) =~= a.subrange(0, p as int).push(w));
            assert forall|x: int| 0 <= x < n implies (#[trigger] slots@[x] > 0 <==> a.subrange(
                0,
                p + 1,
            ).contains(x as usize)) by {
                if x != w {
                    if a.subrange(0, p + 1).contains(x as usize) {
                        let t = choose|t: int| 0 <= t < p + 1 && #[trigger] a.subrange(0, p + 1)[t] == x as usize;
                        assert(a.subrange(0, p as int)[t] == x as usize);
                    }
                    if a.subrange(0, p as int).contains(x as usize) {
                        let t = choose|t: int| 0 <= t < p && #[trigger] a.subrange(0, p as int)[t] == x as usize;
                        assert(a.subrange(0, p + 1)[t] == x as usize);
                    }
                } else {
                    assert(a.subrange(0, p + 1)[p as int] == w);
                }
            }
        }
        p = p + 1;
    }
    proof {
        assert(adjacent@.subrange(0, adjacent@.len() as int) =~= adjacent@);
    }
    let mut keyed: Vec<Keyed> = Vec::new();
    let mut i: usize = 0;
    while i < layer.len()
        invariant
            g.wf(),
            n == g.n(),
            slots@.len() == n,
            node_list(layer@, g.n()),
            node_list(adjacent@, g.n()),
            alen == adjacent@.len(),
            forall|w: int|
                0 <= w < n ==> (#[trigger] slots@[w] > 0 <==> adjacent@.contains(w as usize)),
            forall|w: int|
                0 <= w < n && #[trigger] slots@[w] > 0 ==> slots@[w] <= adjacent@.len()
                    && adjacent@[slots@[w] - 1] == w,
            i <= layer@.len(),
            keyed@.len() == i,
            forall|t: int|
                0 <= t < i ==> (#[trigger] keyed@[t]).node == layer@[t] && 0 < keyed@[t].den
                    <= usize::MAX && (keyed@[t].num as int, keyed@[t].den as int) == barycenter(
                    g,
                    layer@,
                    adjacent@,
                    use_predecessors,
                    layer@[t],
                ),
        decreases layer@.len() - i,
    {
        let v = layer[i];
        let nb: &Vec<usize> = if use_predecessors {
            &g.pred[v]
        } else {
            &g.succ[v]
        };
        proof {
            assert(nb@ == sweep_neighbours(g, v as int, use_predecessors));
        }
        let mut sum: u128 = 0;
        let mut cnt: u128 = 0;
        let mut j: usize = 0;
        while j < nb.len()
            invariant
                g.wf(),
                n == g.n(),
                v < n,
                slots@.len() == n,
                node_list(adjacent@, g.n()),
                alen == adjacent@.len(),
                nb@ == sweep_neighbours(g, v as int, use_predecessors),
                forall|w: int|
                    0 <= w < n ==> (#[trigger] slots@[w] > 0 <==> adjacent@.contains(w as usize)),
                forall|w: int|
                    0 <= w < n && #[trigger] slots@[w] > 0 ==> slots@[w] <= adjacent@.len()
                        && adjacent@[slots@[w] - 1] == w,
                j <= nb@.len(),
                sum == hit_sum(nb@.subrange(0, j as int), adjacent@),
                cnt == hit_count(nb@.subrange(0, j as int), adjacent@),
            decreases nb@.len() - j,
        {
            let w = nb[j];
            proof {
                let s = nb@.subrange(0, j + 1);
                assert(s.drop_last() =~= nb@.subrange(0, j as int));
                assert(s.last() == w);
                assert(w < n) by {
                    if use_predecessors {
                        assert(g.pred@[v as int]@[j as int] < g.n());
                    } else {
                        assert(g.succ@[v as int]@[j as int] < g.n());
                    }
                }
                lemma_hits_bounded(s, adjacent@);
                assert(hit_count(s, adjacent@) * adjacent@.len() <= (usize::MAX as int) * (
                usize::MAX as int)) by (nonlinear_arith)
                    requires
                        0 <= hit_count(s, adjacent@) <= usize::MAX,
                        adjacent@.len() <= usize::MAX,
                ;
                if slots@[w as int] > 0 {
                    lemma_position(adjacent@, slots@[w as int] - 1);
                }
            }
            if slots[w] > 0 {
                sum = sum + (slots[w] - 1) as u128;
                cnt = cnt + 1;
            }
            j = j + 1;
        }
        proof {
            assert(nb@.subrange(0, nb@.len() as int) =~= nb@);
            lemma_hits_bounded(nb@, adjacent@);
            lemma_position(layer@, i as int);
        }
        let key = if cnt == 0 {
            Keyed { node: v, num: i as u128, den: 1 }
        } else {
            Keyed { node: v, num: sum, den: cnt }
        };
        keyed.push(key);
        i = i + 1;
    }
    let mut out: Vec<Keyed> = Vec::new();
    let mut t: usize = 0;
    while t < keyed.len()
        invariant
            t <= keyed@.len(),
            keyed@.len() == layer@.len(),
            node_list(layer@, g.n()),
            forall|k: int|
                0 <= k < keyed@.len() ==> (#[trigger] keyed@[k]).node == layer@[k] && 0 < keyed@[k].den
                    <= usize::MAX && (keyed@[k].num as int, keyed@[k].den as int) == barycenter(
                    g,
                    layer@,
                    adjacent@,
                    use_predecessors,
                    layer@[k],
                ),
            out@.len() == t,
            covers(out@, keyed@, t as int),
            sorted_keys(out@),
        decreases keyed@.len() - t,
    {
        let e = &keyed[t];
        let mut pos: usize = 0;
        while pos < out.len() && precedes(&out[pos], e)
            invariant
                pos <= out@.len(),
                0 < e.den <= usize::MAX,
                forall|k: int| 0 <= k < out@.len() ==> 0 < (#[trigger] out@[k]).den <= usize::MAX,
                forall|k: int| 0 <= k < pos ==> kless(#[trigger] out@[k], *e),
            decreases out@.len() - pos,
        {
            pos = pos + 1;
        }
        let ghost prev = out@;
        let ghost pe = *e;
        proof {
            assert(pe == keyed@[t as int]);
            if pos < prev.len() {
                let m = choose|m: int| 0 <= m < t && #[trigger] keyed@[m] == #[trigger] prev[pos as int];
                assert(layer@[m] != layer@[t as int]);
                assert(kless(pe, prev[pos as int]));
            }
        }
        out.insert(pos, Keyed { node: e.node, num: e.num, den: e.den });
        proof {
            lemma_insert_keeps_order(prev, pos as int, keyed@, t as int);
        }
        t = t + 1;
    }
    let mut r: Vec<usize> = Vec::new();
    let mut k: usize = 0;
    while k < out.len()
        invariant
            k <= out@.len(),
            r@.len() == k,
            forall|x: int| 0 <= x < k ==> #[trigger] r@[x] == out@[x].node,
        decreases out@.len() - k,
    {
        r.push(out[k].node);
        k = k + 1;
    }
    proof {
        assert forall|a: int, b: int| 0 <= a < b < r@.len() implies goes_before(
            g,
            layer@,
            adjacent@,
            use_predecessors,
            #[trigger] r@[a],
            #[trigger] r@[b],
        ) by {
            assert(kless(out@[a], out@[b]));
            let ma = choose|m: int| 0 <= m < keyed@.len() && #[trigger] keyed@[m] == out@[a];
            let mb = choose|m: int| 0 <= m < keyed@.len() && #[trigger] keyed@[m] == out@[b];
            assert(keyed@[ma].node == r@[a]);
            assert(keyed@[mb].node == r@[b]);
        }
        assert forall|a: int, b: int| 0 <= a < r@.len() && 0 <= b < r@.len() && a != b implies r@[a] != r@[b] by {
            let (x, y) = if a < b { (a, b) } else { (b, a) };
            assert(kless(out@[x], out@[y]));
            let mx = choose|m: int| 0 <= m < keyed@.len() && #[trigger] keyed@[m] == out@[x];
            let my = choose|m: int| 0 <= m < keyed@.len() && #[trigger] keyed@[m] == out@[y];
            if r@[x] == r@[y] {
                assert(layer@[mx] == layer@[my]);
                assert(mx == my);
            }
        }
        assert forall|a: int| 0 <= a < r@.len() implies #[trigger] r@[a] < g.n() by {
            let m = choose|m: int| 0 <= m < keyed@.len() && #[trigger] keyed@[m] == out@[a];
            assert(r@[a] == layer@[m]);
        }
        assert forall|x: usize| r@.contains(x) <==> layer@.contains(x) by {
            if r@.contains(x) {
                let a = choose|a: int| 0 <= a < r@.len() && r@[a] == x;
                let m = choose|m: int| 0 <= m < keyed@.len() && #[trigger] keyed@[m] == out@[a];
                assert(layer@[m] == x);
            }
            if layer@.contains(x) {
                let m = choose|m: int| 0 <= m < layer@.len() && layer@[m] == x;
                let a = choose|a: int| 0 <= a < out@.len() && #[trigger] keyed@[m] == #[trigger] out@[a];
                assert(r@[a] == x);
            }
        }
        assert(is_barycenter_order(g, layer@, adjacent@, use_predecessors, r@));
        let other = barycenter_order(g, layer@, adjacent@, use_predecessors);
        lemma_order_unique(g, layer@, adjacent@, use_predecessors, r@, other);
    }
    r
}

} // verus!
