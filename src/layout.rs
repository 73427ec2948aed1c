use petgraph::graph::DiGraph;
use vstd::prelude::*;

use crate::graph::Digraph;
use crate::layering::{
    assign_layers,
    first_layer_sources,
    has_edge_from,
    hangs_below,
    initial_layering,
    is_partition,
};
use crate::ordering::{barycenter_order, node_list, order_by_barycenter};

verus! {

/// Layout direction for the graph.
#[derive(Clone, Copy, Debug, PartialEq, Eq, Structural)]
pub enum RankDir {
    /// Nodes flow from top to bottom.
    TopToBottom,
    /// Nodes flow from left to right.
    LeftToRight,
}

/// Configuration of a layout, in whole pixels.
#[derive(Clone, Debug)]
pub struct LayoutOptions {
    /// Primary layout direction.
    pub rank_dir: RankDir,
    /// Separation between neighbouring nodes of one layer.
    pub node_sep: u32,
    /// Separation between consecutive layers.
    pub rank_sep: u32,
    /// Largest number of crossing-reduction sweeps.
    pub max_iterations: usize,
}

impl Default for LayoutOptions {
    fn default() -> (r: Self)
        ensures
            r.rank_dir == RankDir::TopToBottom,
            r.node_sep == 50,
            r.rank_sep == 100,
            r.max_iterations == 24,
    {
        LayoutOptions { rank_dir: RankDir::TopToBottom, node_sep: 50, rank_sep: 100, max_iterations: 24 }
    }
}

/// A point of the drawing. Both coordinates are held at twice their value,
/// so that the half-step offset that centres a layer stays a whole number.
#[derive(Clone, Copy, Debug, PartialEq, Eq, Structural)]
pub struct Point {
    pub twice_x: u128,
    pub twice_y: u128,
}

/// Result of a layout: one point per node (indexed by node), the layers from
/// first to last, and the size of the drawing.
#[derive(Clone, Debug)]
pub struct LayoutResult {
    pub node_positions: Vec<Point>,
    pub layers: Vec<Vec<usize>>,
    pub width: u128,
    pub height: u128,
}

/// Layout engine for the layered (Sugiyama) method.
pub struct DagreLayout {
    pub options: LayoutOptions,
}

/// Largest layer length (zero without layers).
pub open spec fn widest(ls: Seq<Vec<usize>>) -> int
    decreases ls.len(),
{
    if ls.len() == 0 {
        0
    } else {
        let rest = widest(ls.drop_last());
        if ls.last()@.len() > rest {
            ls.last()@.len() as int
        } else {
            rest
        }
    }
}

/// Twice the coordinate along a layer of slot `i` in a layer of `len` nodes,
/// the layer being centred against the widest one.
pub open spec fn twice_across(node_sep: int, max_width: int, len: int, i: int) -> int {
    (max_width - len) * node_sep + 2 * i * node_sep
}

/// Twice the coordinate along the flow of layer `k`.
pub open spec fn twice_along(rank_sep: int, k: int) -> int {
    2 * k * rank_sep
}

/// The point of slot `i` of layer `k`, a layer of `len` nodes.
pub open spec fn point_of(opts: LayoutOptions, max_width: int, len: int, k: int, i: int) -> (int, int) {
    let across = twice_across(opts.node_sep as int, max_width, len, i);
    let along = twice_along(opts.rank_sep as int, k);
    match opts.rank_dir {
        RankDir::TopToBottom => (across, along),
        RankDir::LeftToRight => (along, across),
    }
}

/// Width and height of the drawing.
pub open spec fn extent_of(opts: LayoutOptions, ls: Seq<Vec<usize>>) -> (int, int) {
    let across = widest(ls) * opts.node_sep;
    let along = ls.len() * opts.rank_sep;
    match opts.rank_dir {
        RankDir::TopToBottom => (across, along),
        RankDir::LeftToRight => (along, across),
    }
}

/// `widest` bounds every layer and is reached by one when there are layers.
proof fn lemma_widest(ls: Seq<Vec<usize>>)
    ensures
        0 <= widest(ls),
        forall|k: int| 0 <= k < ls.len() ==> (#[trigger] ls[k])@.len() <= widest(ls),
        ls.len() > 0 ==> exists|k: int| 0 <= k < ls.len() && (#[trigger] ls[k])@.len() == widest(ls),
    decreases ls.len(),
{
    if ls.len() > 0 {
        lemma_widest(ls.drop_last());
        assert forall|k: int| 0 <= k < ls.len() implies (#[trigger] ls[k])@.len() <= widest(ls) by {
            if k < ls.len() - 1 {
                assert(ls[k] == ls.drop_last()[k]);
            }
        }
        if ls.last()@.len() <= widest(ls.drop_last()) && ls.len() > 1 {
            let k = choose|k: int| 0 <= k < ls.len() - 1 && (#[trigger] ls.drop_last()[k])@.len() == widest(ls.drop_last());
            assert(ls[k] == ls.drop_last()[k]);
        } else {
            assert(ls[ls.len() - 1] == ls.last());
        }
    }
}

/// The layers as sequences.
pub open spec fn views(ls: Seq<Vec<usize>>) -> Seq<Seq<usize>> {
    Seq::new(ls.len(), |k: int| ls[k]@)
}

/// The downward sweep over layers `1 ..= i`: each is put in barycenter order
/// against the (already reordered) layer above it, by predecessors.
pub open spec fn sweep_down(g: &Digraph, ls: Seq<Seq<usize>>, i: int) -> Seq<Seq<usize>>
    decreases i,
{
    if i <= 0 {
        ls
    } else {
        let prev = sweep_down(g, ls, i - 1);
        prev.update(i, barycenter_order(g, prev[i], prev[i - 1], true))
    }
}

/// The upward sweep over the layers from the second-to-last down to `i`:
/// each is put in barycenter order against the layer below it, by successors.
pub open spec fn sweep_up(g: &Digraph, ls: Seq<Seq<usize>>, i: int) -> Seq<Seq<usize>>
    decreases ls.len() - i,
{
    if i >= ls.len() - 1 {
        ls
    } else {
        let prev = sweep_up(g, ls, i + 1);
        prev.update(i, barycenter_order(g, prev[i], prev[i + 1], false))
    }
}

/// One round: a downward sweep, then an upward one.
pub open spec fn sweep_round(g: &Digraph, ls: Seq<Seq<usize>>) -> Seq<Seq<usize>> {
    sweep_up(g, sweep_down(g, ls, ls.len() - 1), 0)
}

/// `rounds` rounds one after another.
pub open spec fn sweep_rounds(g: &Digraph, ls: Seq<Seq<usize>>, rounds: nat) -> Seq<Seq<usize>>
    decreases rounds,
{
    if rounds == 0 {
        ls
    } else {
        sweep_rounds(g, sweep_round(g, ls), (rounds - 1) as nat)
    }
}

/// The layers after crossing reduction: untouched with fewer than two
/// layers, else after `rounds` rounds (a round that changes nothing is a
/// fixed point, so stopping there gives the same layers).
pub open spec fn reduced(g: &Digraph, ls: Seq<Seq<usize>>, rounds: nat) -> Seq<Seq<usize>> {
    if ls.len() < 2 {
        ls
    } else {
        sweep_rounds(g, ls, rounds)
    }
}

proof fn lemma_sweep_down_len(g: &Digraph, ls: Seq<Seq<usize>>, i: int)
    requires
        i < ls.len(),
    ensures
        sweep_down(g, ls, i).len() == ls.len(),
    decreases i,
{
    if i > 0 {
        lemma_sweep_down_len(g, ls, i - 1);
    }
}

proof fn lemma_sweep_up_len(g: &Digraph, ls: Seq<Seq<usize>>, i: int)
    requires
        0 <= i,
    ensures
        sweep_up(g, ls, i).len() == ls.len(),
    decreases ls.len() - i,
{
    if i < ls.len() - 1 {
        lemma_sweep_up_len(g, ls, i + 1);
    }
}

/// One more round is one round applied to the result.
proof fn lemma_rounds_step(g: &Digraph, ls: Seq<Seq<usize>>, r: nat)
    ensures
        sweep_rounds(g, ls, r + 1) == sweep_round(g, sweep_rounds(g, ls, r)),
    decreases r,
{
    assert(sweep_rounds(g, ls, r + 1) == sweep_rounds(g, sweep_round(g, ls), r));
    if r > 0 {
        lemma_rounds_step(g, sweep_round(g, ls), (r - 1) as nat);
        assert(sweep_rounds(g, ls, r) == sweep_rounds(g, sweep_round(g, ls), (r - 1) as nat));
        assert((r - 1) as nat + 1 == r);
    } else {
        assert(sweep_rounds(g, sweep_round(g, ls), 0) == sweep_round(g, ls));
        assert(sweep_rounds(g, ls, 0) == ls);
    }
}

/// After a round that changes nothing, further rounds change nothing.
proof fn lemma_rounds_fixed(g: &Digraph, ls: Seq<Seq<usize>>, r: nat, m: nat)
    requires
        sweep_round(g, sweep_rounds(g, ls, r)) == sweep_rounds(g, ls, r),
    ensures
        sweep_rounds(g, ls, r + m) == sweep_rounds(g, ls, r),
    decreases m,
{
    if m > 0 {
        lemma_rounds_fixed(g, ls, r, (m - 1) as nat);
        lemma_rounds_step(g, ls, (r + m - 1) as nat);
        assert((r + m - 1) as nat + 1 == r + m);
    }
}

/// Same length and same members.
pub open spec fn same_members(a: Seq<usize>, b: Seq<usize>) -> bool {
    a.len() == b.len() && forall|x: usize| a.contains(x) <==> b.contains(x)
}

/// `new` has the layers of `old`, each possibly reordered.
pub open spec fn layerwise_permuted(new: Seq<Vec<usize>>, old: Seq<Vec<usize>>) -> bool {
    &&& new.len() == old.len()
    &&& forall|k: int| 0 <= k < new.len() ==> same_members(#[trigger] new[k]@, old[k]@)
    &&& forall|k: int| 0 <= k < new.len() ==> (#[trigger] new[k])@.no_duplicates()
}

/// Reordering within layers keeps a partition a partition.
proof fn lemma_permuted_partition(new: Seq<Vec<usize>>, old: Seq<Vec<usize>>, n: nat)
    requires
        is_partition(old, n),
        layerwise_permuted(new, old),
    ensures
        is_partition(new, n),
{
    assert forall|k: int, i: int| 0 <= k < new.len() && 0 <= i < new[k]@.len() implies #[trigger] new[k]@[i] < n by {
        assert(new[k]@.contains(new[k]@[i]));
        let j = choose|j: int| 0 <= j < old[k]@.len() && old[k]@[j] == new[k]@[i];
        assert(old[k]@[j] < n);
    }
    assert forall|k1: int, i1: int, k2: int, i2: int|
        0 <= k1 < new.len() && 0 <= i1 < new[k1]@.len() && 0 <= k2 < new.len() && 0 <= i2
            < new[k2]@.len() && #[trigger] new[k1]@[i1] == #[trigger] new[k2]@[i2] implies k1 == k2 && i1
            == i2 by {
        assert(new[k1]@.contains(new[k1]@[i1]));
        assert(new[k2]@.contains(new[k2]@[i2]));
        let j1 = choose|j: int| 0 <= j < old[k1]@.len() && old[k1]@[j] == new[k1]@[i1];
        let j2 = choose|j: int| 0 <= j < old[k2]@.len() && old[k2]@[j] == new[k2]@[i2];
        assert(old[k1]@[j1] == old[k2]@[j2]);
    }
    assert forall|v: int| 0 <= v < n implies #[trigger] crate::layering::occurs(new, v) by {
        assert(crate::layering::occurs(old, v));
        let (k, i) = choose|k: int, i: int| 0 <= k < old.len() && 0 <= i < old[k]@.len() && #[trigger] old[k]@[i] == v;
        assert(old[k]@.contains(old[k]@[i]));
        assert(new[k]@.contains(v as usize));
        let j = choose|j: int| 0 <= j < new[k]@.len() && new[k]@[j] == v as usize;
        assert(new[k]@[j] == v);
    }
    assert forall|k: int| 0 <= k < new.len() implies #[trigger] new[k]@.len() > 0 by {
        assert(old[k]@.len() > 0);
    }
}

/// Each layer of a partition is a list of distinct nodes.
proof fn lemma_partition_layer(ls: Seq<Vec<usize>>, n: nat, k: int)
    requires
        is_partition(ls, n),
        0 <= k < ls.len(),
    ensures
        node_list(ls[k]@, n),
{
    assert forall|i: int, j: int|
        0 <= i < ls[k]@.len() && 0 <= j < ls[k]@.len() && i != j implies ls[k]@[i] != ls[k]@[j] by {
        if ls[k]@[i] == ls[k]@[j] {
            assert(ls[k]@[i] == ls[k]@[j]);
        }
    }
}

/// `a` and `b` hold the same nodes in the same order.
fn same_order(a: &Vec<usize>, b: &Vec<usize>) -> (r: bool)
    ensures
        r == (a@ == b@),
{
    if a.len() != b.len() {
        return false;
    }
    let mut i: usize = 0;
    while i < a.len()
        invariant
            a@.len() == b@.len(),
            i <= a@.len(),
            forall|j: int| 0 <= j < i ==> a@[j] == b@[j],
        decreases a@.len() - i,
    {
        if a[i] != b[i] {
            return false;
        }
        i = i + 1;
    }
    assert(a@ =~= b@);
    true
}

impl DagreLayout {
    /// Reorders the nodes within each layer to cut crossings: up to
    /// `max_iterations` rounds of a downward sweep (each layer after the
    /// first ordered against the one above, by predecessors) and an upward
    /// sweep (each layer before the last ordered against the one below, by
    /// successors), stopping early after a round that changes nothing.
    fn reduce_crossings(&self, g: &Digraph, layers: &mut Vec<Vec<usize>>)
        requires
            g.wf(),
            is_partition(old(layers)@, g.n()),
        ensures
            layerwise_permuted(final(layers)@, old(layers)@),
            is_partition(final(layers)@, g.n()),
            views(final(layers)@) == reduced(g, views(old(layers)@), self.options.max_iterations as nat),
    {
        let ghost start = layers@;
        proof {
            assert forall|k: int| 0 <= k < start.len() implies (#[trigger] start[k])@.no_duplicates() by {
                lemma_partition_layer(start, g.n(), k);
            }
        }
        if layers.len() < 2 {
            return;
        }
        let count = layers.len();
        assert(views(layers@).len() == count);
        let mut round: usize = 0;
        while round < self.options.max_iterations
            invariant
                g.wf(),
                count == layers@.len(),
                count >= 2,
                layerwise_permuted(layers@, start),
                is_partition(layers@, g.n()),
                is_partition(start, g.n()),
                round <= self.options.max_iterations,
                views(layers@) == sweep_rounds(g, views(start), round as nat),
                views(start).len() == count,
            ensures
                layerwise_permuted(layers@, start),
                is_partition(layers@, g.n()),
                views(layers@) == sweep_rounds(g, views(start), self.options.max_iterations as nat),
            decreases self.options.max_iterations - round,
        {
            let ghost at_start = views(layers@);
            let mut improved = false;
            let mut i: usize = 1;
            while i < count
                invariant
                    g.wf(),
                    1 <= i <= count,
                    count == layers@.len(),
                    layerwise_permuted(layers@, start),
                    is_partition(layers@, g.n()),
                    is_partition(start, g.n()),
                    at_start.len() == count,
                    views(layers@) == sweep_down(g, at_start, i - 1),
                    !improved ==> views(layers@) == at_start,
                decreases count - i,
            {
                proof {
                    lemma_partition_layer(layers@, g.n(), i as int);
                    lemma_partition_layer(layers@, g.n(), i - 1);
                }
                let new_order = order_by_barycenter(g, &layers[i], &layers[i - 1], true);
                proof {
                    lemma_sweep_down_len(g, at_start, i - 1);
                    let prev = sweep_down(g, at_start, i - 1);
                    assert(prev[i as int] == layers@[i as int]@);
                    assert(prev[i - 1] == layers@[i - 1]@);
                }
                if !same_order(&new_order, &layers[i]) {
                    let ghost prev = layers@;
                    layers.set(i, new_order);
                    proof {
                        assert(layers@[i as int]@.no_duplicates());
                        assert(layerwise_permuted(layers@, prev));
                        lemma_permuted_partition(layers@, prev, g.n());
                        assert forall|k: int| 0 <= k < layers@.len() implies same_members(#[trigger] layers@[k]@, start[k]@) by {
                            assert(same_members(prev[k]@, start[k]@));
                        }
                    }
                    improved = true;
                }
                proof {
                    let prev = sweep_down(g, at_start, i - 1);
                    assert(views(layers@) =~= prev.update(i as int, new_order@));
                }
                i = i + 1;
            }
            let mut i: usize = count - 1;
            while i > 0
                invariant
                    g.wf(),
                    0 <= i < count,
                    count == layers@.len(),
                    layerwise_permuted(layers@, start),
                    is_partition(layers@, g.n()),
                    is_partition(start, g.n()),
                    at_start.len() == count,
                    views(layers@) == sweep_up(g, sweep_down(g, at_start, count - 1), i as int),
                    !improved ==> views(layers@) == at_start,
                decreases i,
            {
                let k = i - 1;
                proof {
                    lemma_partition_layer(layers@, g.n(), k as int);
                    lemma_partition_layer(layers@, g.n(), k + 1);
                }
                let new_order = order_by_barycenter(g, &layers[k], &layers[k + 1], false);
                proof {
                    lemma_sweep_down_len(g, at_start, count - 1);
                    lemma_sweep_up_len(g, sweep_down(g, at_start, count - 1), i as int);
                    let prev = sweep_up(g, sweep_down(g, at_start, count - 1), i as int);
                    assert(prev[k as int] == layers@[k as int]@);
                    assert(prev[k + 1] == layers@[k + 1]@);
                }
                if !same_order(&new_order, &layers[k]) {
                    let ghost prev = layers@;
                    layers.set(k, new_order);
                    proof {
                        assert(layerwise_permuted(layers@, prev));
                        lemma_permuted_partition(layers@, prev, g.n());
                        assert forall|j: int| 0 <= j < layers@.len() implies same_members(#[trigger] layers@[j]@, start[j]@) by {
                            assert(same_members(prev[j]@, start[j]@));
                        }
                    }
                    improved = true;
                }
                proof {
                    let prev = sweep_up(g, sweep_down(g, at_start, count - 1), i as int);
                    assert(views(layers@) =~= prev.update(k as int, new_order@));
                }
                i = k;
            }
            proof {
                assert(views(layers@) == sweep_round(g, at_start));
                lemma_rounds_step(g, views(start), round as nat);
            }
            if !improved {
                proof {
                    lemma_rounds_fixed(
                        g,
                        views(start),
                        round as nat,
                        (self.options.max_iterations - round) as nat,
                    );
                    assert(round as nat + (self.options.max_iterations - round) as nat
                        == self.options.max_iterations as nat);
                }
                break;
            }
            round = round + 1;
        }
    }

    /// Places every node: slot `i` of layer `k` goes `i` node separations
    /// along its layer, after an offset that centres the layer against the
    /// widest one, and `k` rank separations along the flow.
    fn assign_coordinates(&self, layers: &Vec<Vec<usize>>, n: usize) -> (r: (Vec<Point>, u128, u128))
        requires
            is_partition(layers@, n as nat),
        ensures
            r.0@.len() == n,
            forall|k: int, i: int|
                0 <= k < layers@.len() && 0 <= i < layers@[k]@.len() ==> {
                    let p = r.0@[#[trigger] layers@[k]@[i] as int];
                    (p.twice_x as int, p.twice_y as int) == point_of(
                        self.options,
                        widest(layers@),
                        layers@[k]@.len() as int,
                        k,
                        i,
                    )
                },
            (r.1 as int, r.2 as int) == extent_of(self.options, layers@),
    {
        let node_sep = self.options.node_sep as u128;
        let rank_sep = self.options.rank_sep as u128;
        let mut max_width: usize = 0;
        let mut k: usize = 0;
        while k < layers.len()
            invariant
                k <= layers@.len(),
                max_width == widest(layers@.subrange(0, k as int)),
            decreases layers@.len() - k,
        {
            proof {
                assert(layers@.subrange(0, k + 1).drop_last() =~= layers@.subrange(0, k as int));
            }
            if layers[k].len() > max_width {
                max_width = layers[k].len();
            }
            k = k + 1;
        }
        proof {
            assert(layers@.subrange(0, layers@.len() as int) =~= layers@);
            lemma_widest(layers@);
        }
        let mut positions: Vec<Point> = Vec::new();
        let mut v: usize = 0;
        while v < n
            invariant
                v <= n,
                positions@.len() == v,
            decreases n - v,
        {
            positions.push(Point { twice_x: 0, twice_y: 0 });
            v = v + 1;
        }
        let mut k: usize = 0;
        while k < layers.len()
            invariant
                k <= layers@.len(),
                positions@.len() == n,
                is_partition(layers@, n as nat),
                max_width == widest(layers@),
                node_sep == self.options.node_sep,
                rank_sep == self.options.rank_sep,
                forall|j: int| 0 <= j < layers@.len() ==> (#[trigger] layers@[j])@.len() <= max_width,
                forall|k2: int, i: int|
                    0 <= k2 < k && 0 <= i < layers@[k2]@.len() ==> {
                        let p = positions@[#[trigger] layers@[k2]@[i] as int];
                        (p.twice_x as int, p.twice_y as int) == point_of(
                            self.options,
                            max_width as int,
                            layers@[k2]@.len() as int,
                            k2,
                            i,
                        )
                    },
            decreases layers@.len() - k,
        {
            let len = layers[k].len();
            assert(layers@[k as int]@.len() <= max_width);
            let spare = (max_width - len) as u128;
            let mut i: usize = 0;
            while i < len
                invariant
                    k < layers@.len(),
                    len == layers@[k as int]@.len(),
                    len <= max_width,
                    spare == max_width - len,
                    i <= len,
                    positions@.len() == n,
                    is_partition(layers@, n as nat),
                    max_width == widest(layers@),
                    node_sep == self.options.node_sep,
                    rank_sep == self.options.rank_sep,
                    forall|k2: int, i2: int|
                        ((0 <= k2 < k && 0 <= i2 < layers@[k2]@.len()) || (k2 == k && 0 <= i2 < i))
                            ==> {
                            let p = positions@[#[trigger] layers@[k2]@[i2] as int];
                            (p.twice_x as int, p.twice_y as int) == point_of(
                                self.options,
                                max_width as int,
                                layers@[k2]@.len() as int,
                                k2,
                                i2,
                            )
                        },
                decreases len - i,
            {
                let node = layers[k][i];
                assert(layers@[k as int]@[i as int] < n);
                assert(spare * node_sep <= 0x1_0000_0000_0000_0000 * 0x1_0000_0000) by (nonlinear_arith)
                    requires
                        spare <= usize::MAX,
                        node_sep < 0x1_0000_0000,
                ;
                assert(2 * (i as u128) * node_sep <= 2 * 0x1_0000_0000_0000_0000 * 0x1_0000_0000) by (nonlinear_arith)
                    requires
                        i <= usize::MAX,
                        node_sep < 0x1_0000_0000,
                ;
                assert(2 * (k as u128) * rank_sep <= 2 * 0x1_0000_0000_0000_0000 * 0x1_0000_0000) by (nonlinear_arith)
                    requires
                        k <= usize::MAX,
                        rank_sep < 0x1_0000_0000,
                ;
                let across = spare * node_sep + 2 * (i as u128) * node_sep;
                let along = 2 * (k as u128) * rank_sep;
                let point = match self.options.rank_dir {
                    RankDir::TopToBottom => Point { twice_x: across, twice_y: along },
                    RankDir::LeftToRight => Point { twice_x: along, twice_y: across },
                };
                let ghost prev = positions@;
                positions.set(node, point);
                proof {
                    assert forall|k2: int, i2: int|
                        ((0 <= k2 < k && 0 <= i2 < layers@[k2]@.len()) || (k2 == k && 0 <= i2 < i + 1))
                            implies {
                            let p = positions@[#[trigger] layers@[k2]@[i2] as int];
                            (p.twice_x as int, p.twice_y as int) == point_of(
                                self.options,
                                max_width as int,
                                layers@[k2]@.len() as int,
                                k2,
                                i2,
                            )
                        } by {
                        if k2 != k || i2 != i {
                            assert(layers@[k2]@[i2] != layers@[k as int]@[i as int]);
                            assert(positions@[layers@[k2]@[i2] as int] == prev[layers@[k2]@[i2] as int]);
                        }
                    }
                }
                i = i + 1;
            }
            k = k + 1;
        }
        let layer_count = layers.len() as u128;
        assert((max_width as u128) * node_sep <= 0x1_0000_0000_0000_0000 * 0x1_0000_0000) by (nonlinear_arith)
            requires
                max_width <= usize::MAX,
                node_sep < 0x1_0000_0000,
        ;
        assert(layer_count * rank_sep <= 0x1_0000_0000_0000_0000 * 0x1_0000_0000) by (nonlinear_arith)
            requires
                layer_count <= usize::MAX,
                rank_sep < 0x1_0000_0000,
        ;
        let across = (max_width as u128) * node_sep;
        let along = layer_count * rank_sep;
        let (width, height) = match self.options.rank_dir {
            RankDir::TopToBottom => (across, along),
            RankDir::LeftToRight => (along, across),
        };
        (positions, width, height)
    }

    /// A layout engine with the default options.
    pub fn new() -> (r: Self)
        ensures
            r.options.rank_dir == RankDir::TopToBottom,
            r.options.node_sep == 50,
            r.options.rank_sep == 100,
            r.options.max_iterations == 24,
    {
        DagreLayout { options: LayoutOptions::default() }
    }

    /// A layout engine with the given options.
    pub fn with_options(options: LayoutOptions) -> (r: Self)
        ensures
            r.options == options,
    {
        DagreLayout { options }
    }

    /// Lays out a petgraph directed graph; node `i` of the result is the node
    /// of index `i`.
    pub fn compute<N, E>(&self, graph: &DiGraph<N, E>) -> (r: LayoutResult)
        ensures
            exists|g: Digraph| g.wf() && lays_out(self.options, g, r),
    {
        let g = Digraph::from_petgraph(graph);
        self.layout_graph(&g)
    }

    /// Lays out `g`: layers by depth, crossing reduction, coordinates.
    pub fn layout_graph(&self, g: &Digraph) -> (r: LayoutResult)
        requires
            g.wf(),
        ensures
            lays_out(self.options, *g, r),
    {
        let mut layers = assign_layers(g);
        let ghost first = layers@;
        assert(initial_layering(g, first));
        self.reduce_crossings(g, &mut layers);
        proof {
            lemma_permuted_hangs_below(g, layers@, first);
            lemma_permuted_sources(g, layers@, first);
            if (exists|lvl: Seq<nat>| g.graded(lvl)) && layers@.len() > 0 {
                assert(first_layer_sources(g, first));
                assert forall|i: int| 0 <= i < layers@[0]@.len() implies g.is_source(#[trigger] layers@[0]@[i] as int) by {
                    let v = layers@[0]@[i];
                    assert(layers@[0]@.contains(v));
                    let i0 = choose|i0: int| 0 <= i0 < first[0]@.len() && #[trigger] first[0]@[i0] == v;
                    assert(g.is_source(first[0]@[i0] as int));
                }
            }
        }
        let n = g.succ.len();
        let (node_positions, width, height) = self.assign_coordinates(&layers, n);
        proof {
            lemma_widest(layers@);
            if g.n() == 0 {
                if layers@.len() > 0 {
                    assert(layers@[0]@.len() > 0);
                    assert(layers@[0]@[0] < 0);
                }
                assert(widest(layers@) == 0);
                assert(0 * self.options.node_sep == 0);
                assert(0 * self.options.rank_sep == 0);
            } else {
                assert(crate::layering::occurs(layers@, 0));
                assert(layers@[0]@.len() > 0);
                assert(widest(layers@) >= 1);
                if self.options.node_sep > 0 && self.options.rank_sep > 0 {
                    assert(widest(layers@) * self.options.node_sep >= 1) by (nonlinear_arith)
                        requires
                            widest(layers@) >= 1,
                            self.options.node_sep > 0,
                    ;
                    assert(layers@.len() * self.options.rank_sep >= 1) by (nonlinear_arith)
                        requires
                            layers@.len() >= 1,
                            self.options.rank_sep > 0,
                    ;
                }
            }
        }
        LayoutResult { node_positions, layers, width, height }
    }
}

impl Default for DagreLayout {
    fn default() -> (r: Self)
        ensures
            r.options.rank_dir == RankDir::TopToBottom,
            r.options.node_sep == 50,
            r.options.rank_sep == 100,
            r.options.max_iterations == 24,
    {
        DagreLayout::new()
    }
}

/// What a layout of `g` under `opts` is: each node stands once in the layers,
/// each node of a later layer sits under a node of the layer before it, the
/// sources stand in the first layer, the order within the layers is what
/// crossing reduction makes of the grouping by depth, each node's point
/// follows from its layer and slot, and the size from the layer count and
/// the widest layer.
pub open spec fn lays_out(opts: LayoutOptions, g: Digraph, r: LayoutResult) -> bool {
    &&& is_partition(r.layers@, g.n())
    &&& r.node_positions@.len() == g.n()
    &&& hangs_below(&g, r.layers@)
    &&& forall|k: int, i: int|
        0 <= k < r.layers@.len() && 0 <= i < r.layers@[k]@.len() && g.is_source(
            #[trigger] r.layers@[k]@[i] as int,
        ) ==> k == 0
    &&& forall|k: int, i: int|
        0 <= k < r.layers@.len() && 0 <= i < r.layers@[k]@.len() ==> {
            let p = r.node_positions@[#[trigger] r.layers@[k]@[i] as int];
            (p.twice_x as int, p.twice_y as int) == point_of(
                opts,
                widest(r.layers@),
                r.layers@[k]@.len() as int,
                k,
                i,
            )
        }
    &&& (exists|lvl: Seq<nat>| g.graded(lvl)) ==> first_layer_sources(&g, r.layers@)
    &&& exists|first: Seq<Vec<usize>>|
        initial_layering(&g, first) && views(r.layers@) == reduced(
            &g,
            views(first),
            opts.max_iterations as nat,
        )
    &&& (r.width as int, r.height as int) == extent_of(opts, r.layers@)
    &&& g.n() == 0 ==> r.layers@.len() == 0 && r.width == 0 && r.height == 0
    &&& g.n() > 0 && opts.node_sep > 0 && opts.rank_sep > 0 ==> r.width > 0
        && r.height > 0
}

/// The coordinate along the flow depends on the layer alone: top to bottom a
/// node's y is its layer index times the rank separation, left to right its x.
pub proof fn lemma_rank_coordinate(opts: LayoutOptions, g: Digraph, r: LayoutResult, k: int, i: int)
    requires
        lays_out(opts, g, r),
        0 <= k < r.layers@.len() && 0 <= i < r.layers@[k]@.len(),
    ensures
        ({
            let p = r.node_positions@[r.layers@[k]@[i] as int];
            match opts.rank_dir {
                RankDir::TopToBottom => p.twice_y == 2 * k * opts.rank_sep,
                RankDir::LeftToRight => p.twice_x == 2 * k * opts.rank_sep,
            }
        }),
{
    let p = r.node_positions@[r.layers@[k]@[i] as int];
    assert((p.twice_x as int, p.twice_y as int) == point_of(
        opts,
        widest(r.layers@),
        r.layers@[k]@.len() as int,
        k,
        i,
    ));
}

/// Where every path from a source to a node has the same length (a graded
/// graph), each edge of a layout runs from one layer to the next, so its
/// source stands in an earlier layer than its target.
pub proof fn lemma_edges_point_down(
    opts: LayoutOptions,
    g: Digraph,
    lvl: Seq<nat>,
    r: LayoutResult,
    ku: int,
    iu: int,
    kv: int,
    iv: int,
)
    requires
        g.wf(),
        g.graded(lvl),
        lays_out(opts, g, r),
        0 <= ku < r.layers@.len() && 0 <= iu < r.layers@[ku]@.len(),
        0 <= kv < r.layers@.len() && 0 <= iv < r.layers@[kv]@.len(),
        g.edge(r.layers@[ku]@[iu] as int, r.layers@[kv]@[iv] as int),
    ensures
        ku < kv,
        kv == ku + 1,
{
    lemma_layer_is_level(g, lvl, r.layers@, ku, iu);
    lemma_layer_is_level(g, lvl, r.layers@, kv, iv);
    let v = r.layers@[kv]@[iv];
    assert(v < g.n());
}

/// In a graded graph a node's layer is its level.
proof fn lemma_layer_is_level(g: Digraph, lvl: Seq<nat>, ls: Seq<Vec<usize>>, k: int, i: int)
    requires
        g.wf(),
        g.graded(lvl),
        is_partition(ls, g.n()),
        hangs_below(&g, ls),
        first_layer_sources(&g, ls),
        0 <= k < ls.len() && 0 <= i < ls[k]@.len(),
    ensures
        lvl[ls[k]@[i] as int] == k,
    decreases k,
{
    let v = ls[k]@[i] as int;
    assert(v < g.n());
    if k == 0 {
        assert(g.is_source(v));
    } else {
        assert(has_edge_from(&g, ls[k - 1]@, v));
        let j = choose|j: int| 0 <= j < ls[k - 1]@.len() && #[trigger] g.edge(ls[k - 1]@[j] as int, v);
        lemma_layer_is_level(g, lvl, ls, k - 1, j);
    }
}

/// Reordering within layers keeps every node under a node of the layer before.
proof fn lemma_permuted_hangs_below(g: &Digraph, new: Seq<Vec<usize>>, old: Seq<Vec<usize>>)
    requires
        hangs_below(g, old),
        layerwise_permuted(new, old),
    ensures
        hangs_below(g, new),
{
    assert forall|k: int, i: int|
        0 < k < new.len() && 0 <= i < new[k]@.len() implies has_edge_from(g, new[k - 1]@, #[trigger] new[k]@[i] as int) by {
        let v = new[k]@[i];
        assert(new[k]@.contains(v));
        let i0 = choose|i0: int| 0 <= i0 < old[k]@.len() && #[trigger] old[k]@[i0] == v;
        assert(has_edge_from(g, old[k - 1]@, old[k]@[i0] as int));
        let j = choose|j: int| 0 <= j < old[k - 1]@.len() && #[trigger] g.edge(old[k - 1]@[j] as int, v as int);
        assert(old[k - 1]@.contains(old[k - 1]@[j]));
        assert(same_members(new[k - 1]@, old[k - 1]@));
        let j2 = choose|j2: int| 0 <= j2 < new[k - 1]@.len() && #[trigger] new[k - 1]@[j2] == old[k - 1]@[j];
        assert(g.edge(new[k - 1]@[j2] as int, v as int));
    }
}

/// Reordering within layers keeps every source in the first layer.
proof fn lemma_permuted_sources(g: &Digraph, new: Seq<Vec<usize>>, old: Seq<Vec<usize>>)
    requires
        forall|k: int, i: int|
            0 <= k < old.len() && 0 <= i < old[k]@.len() && g.is_source(#[trigger] old[k]@[i] as int)
                ==> k == 0,
        layerwise_permuted(new, old),
    ensures
        forall|k: int, i: int|
            0 <= k < new.len() && 0 <= i < new[k]@.len() && g.is_source(#[trigger] new[k]@[i] as int)
                ==> k == 0,
{
    assert forall|k: int, i: int|
        0 <= k < new.len() && 0 <= i < new[k]@.len() && g.is_source(#[trigger] new[k]@[i] as int)
            implies k == 0 by {
        let v = new[k]@[i];
        assert(new[k]@.contains(v));
        let i0 = choose|i0: int| 0 <= i0 < old[k]@.len() && #[trigger] old[k]@[i0] == v;
        assert(g.is_source(old[k]@[i0] as int));
    }
}

} // verus!
