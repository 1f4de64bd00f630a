//! Colour propagation: every node's composite colour blends its intrinsic
//! colour with the composite colours of the nodes that depend on it.
use vstd::prelude::*;
use crate::fixed::MASS_ONE;
use crate::graph::{ColorAcc, Graph, GraphView, NodePayload, NodeView, Rgb, view_slot, COLOR_RANGE};
use crate::topo::{is_sink_first_order, preds, reverse_adjacency, topo_order, has_edge};

verus! {

/// Full strength of the colour loss factor: nothing is lost per hop.
pub const LOSS_ONE: u32 = 65536;

/// Weight multiplier of a selected node.
pub const SELECTED_MP: u64 = 3;

/// How much of a node's composite colour passes to each of its dependencies,
/// in 1/65536; values above `LOSS_ONE` count as `LOSS_ONE`.
#[derive(Clone, Copy, PartialEq, Eq, Structural, Debug)]
pub struct ColoringSettings {
    pub color_loss: u32,
}

impl ColoringSettings {
    pub open spec fn loss(self) -> int {
        if self.color_loss > LOSS_ONE { LOSS_ONE as int } else { self.color_loss as int }
    }

    /// Half of a node's colour passes on.
    pub open spec fn default_spec() -> ColoringSettings {
        ColoringSettings { color_loss: LOSS_ONE / 2 }
    }

    pub fn default() -> (r: ColoringSettings)
        ensures
            r == ColoringSettings::default_spec(),
    {
        ColoringSettings { color_loss: LOSS_ONE / 2 }
    }
}

/// `x`, or `u64::MAX` where it is larger.
pub open spec fn sat(x: int) -> u64 {
    if x > u64::MAX { u64::MAX } else { x as u64 }
}

/// The weight of a node in colouring: its mass, tripled when selected.
pub open spec fn eff_mass(v: NodeView) -> int {
    if v.selected { v.size * SELECTED_MP } else { v.size as int }
}

/// `a` with the node's own colour added at its weight.
pub open spec fn add_own(a: ColorAcc, v: NodeView) -> ColorAcc {
    let m = eff_mass(v);
    ColorAcc {
        r: sat(a.r + m * v.color.r),
        g: sat(a.g + m * v.color.g),
        b: sat(a.b + m * v.color.b),
        w: sat(a.w + m),
    }
}

/// `a` scaled by `loss / LOSS_ONE`, rounded down.
pub open spec fn scaled(a: ColorAcc, loss: int) -> ColorAcc {
    ColorAcc {
        r: (a.r * loss / LOSS_ONE as int) as u64,
        g: (a.g * loss / LOSS_ONE as int) as u64,
        b: (a.b * loss / LOSS_ONE as int) as u64,
        w: (a.w * loss / LOSS_ONE as int) as u64,
    }
}

pub open spec fn add_acc(a: ColorAcc, b: ColorAcc) -> ColorAcc {
    ColorAcc { r: sat(a.r + b.r), g: sat(a.g + b.g), b: sat(a.b + b.b), w: sat(a.w + b.w) }
}

/// `accs` with `add` added to the entry of each node listed in `ps`.
pub open spec fn spread(accs: Seq<ColorAcc>, ps: Seq<usize>, add: ColorAcc) -> Seq<ColorAcc>
    decreases ps.len(),
{
    if ps.len() == 0 {
        accs
    } else {
        let prev = spread(accs, ps.drop_last(), add);
        prev.update(ps.last() as int, add_acc(prev[ps.last() as int], add))
    }
}

/// Visiting node `n`: its own colour joins its accumulator, which then passes,
/// scaled by the loss, to the source of every edge into `n`.
pub open spec fn visit(g: GraphView, accs: Seq<ColorAcc>, n: int, loss: int) -> Seq<ColorAcc> {
    let own = add_own(accs[n], g.node(n));
    spread(accs.update(n, own), preds(g.edges, n), scaled(own, loss))
}

/// The accumulators after visiting the nodes of `order` in turn.
pub open spec fn propagate(g: GraphView, accs: Seq<ColorAcc>, order: Seq<usize>, loss: int) -> Seq<ColorAcc>
    decreases order.len(),
{
    if order.len() == 0 {
        accs
    } else {
        visit(g, propagate(g, accs, order.drop_last(), loss), order.last() as int, loss)
    }
}

pub open spec fn empty_accs(n: nat) -> Seq<ColorAcc> {
    Seq::new(n, |i: int| ColorAcc::empty())
}

/// The accumulator that node `i` ends with: what propagation along `order`
/// gave it when it was visited, and nothing when it was not.
pub open spec fn final_acc(g: GraphView, order: Seq<usize>, loss: int, i: int) -> ColorAcc {
    if order.contains(i as usize) {
        propagate(g, empty_accs(g.nodes.len()), order, loss)[i]
    } else {
        ColorAcc::empty()
    }
}

/// `g` with each node's accumulator replaced by its final value.
pub open spec fn recolored(g: GraphView, order: Seq<usize>, loss: int) -> GraphView {
    GraphView {
        nodes: Seq::new(
            g.nodes.len(),
            |i: int|
                match g.nodes[i] {
                    Some(v) => Some(NodeView { comp_color: final_acc(g, order, loss, i), ..v }),
                    None => None,
                },
        ),
        edges: g.edges,
    }
}

fn add_own_exec(a: ColorAcc, v: &NodePayload) -> (r: ColorAcc)
    requires
        v@.wf(),
    ensures
        r == add_own(a, v@),
{
    let m: u64 = if v.selected { v.size * SELECTED_MP } else { v.size };
    assert(m * v.color.r <= 0xC00_0000_0000 * COLOR_RANGE) by (nonlinear_arith)
        requires m <= 0xC00_0000_0000, v.color.r < COLOR_RANGE;
    assert(m * v.color.g <= 0xC00_0000_0000 * COLOR_RANGE) by (nonlinear_arith)
        requires m <= 0xC00_0000_0000, v.color.g < COLOR_RANGE;
    assert(m * v.color.b <= 0xC00_0000_0000 * COLOR_RANGE) by (nonlinear_arith)
        requires m <= 0xC00_0000_0000, v.color.b < COLOR_RANGE;
    ColorAcc {
        r: a.r.saturating_add(m * v.color.r),
        g: a.g.saturating_add(m * v.color.g),
        b: a.b.saturating_add(m * v.color.b),
        w: a.w.saturating_add(m),
    }
}

fn scale_channel(x: u64, loss: u32) -> (r: u64)
    requires
        loss <= LOSS_ONE,
    ensures
        r == x * loss / LOSS_ONE as int,
{
    assert(x * loss <= x * LOSS_ONE) by (nonlinear_arith)
        requires loss <= LOSS_ONE, x >= 0;
    assert(x * loss / LOSS_ONE as int <= x) by (nonlinear_arith)
        requires x * loss <= x * LOSS_ONE, x >= 0, LOSS_ONE > 0;
    ((x as u128 * loss as u128) / LOSS_ONE as u128) as u64
}

fn scaled_exec(a: ColorAcc, loss: u32) -> (r: ColorAcc)
    requires
        loss <= LOSS_ONE,
    ensures
        r == scaled(a, loss as int),
{
    ColorAcc {
        r: scale_channel(a.r, loss),
        g: scale_channel(a.g, loss),
        b: scale_channel(a.b, loss),
        w: scale_channel(a.w, loss),
    }
}

fn add_acc_exec(a: ColorAcc, b: ColorAcc) -> (r: ColorAcc)
    ensures
        r == add_acc(a, b),
{
    ColorAcc {
        r: a.r.saturating_add(b.r),
        g: a.g.saturating_add(b.g),
        b: a.b.saturating_add(b.b),
        w: a.w.saturating_add(b.w),
    }
}

/// Recomputes the composite colour accumulator of every node. Nodes are
/// visited in a sink-first topological order, which is returned; a visited
/// node adds its own colour at its weight and passes its accumulator, scaled
/// by the loss, to every node with an edge into it. Nodes that the order
/// leaves out (on or leading into a cycle) end with an empty accumulator, so
/// that they show their intrinsic colour.
pub fn recolor(g: &mut Graph, cs: &ColoringSettings) -> (order: Vec<usize>)
    requires
        old(g).wf(),
    ensures
        is_sink_first_order(old(g)@, order@),
        final(g)@ == recolored(old(g)@, order@, cs.loss()),
        final(g).wf(),
{
    let ghost g0 = g@;
    let n = g.nodes.len();
    let loss: u32 = if cs.color_loss > LOSS_ONE { LOSS_ONE } else { cs.color_loss };
    let rev = reverse_adjacency(g);
    let order = topo_order(g, &rev);
    let mut accs: Vec<ColorAcc> = Vec::new();
    let mut i: usize = 0;
    while i < n
        invariant
            i <= n,
            accs@ == empty_accs(i as nat),
        decreases n - i,
    {
        accs.push(ColorAcc { r: 0, g: 0, b: 0, w: 0 });
        proof {
            assert(accs@ =~= empty_accs((i + 1) as nat));
        }
        i += 1;
    }
    let mut k: usize = 0;
    while k < order.len()
        invariant
            g@ == g0,
            g0.wf(),
            n == g0.nodes.len(),
            rev@.len() == n,
            forall|v: int| 0 <= v < n ==> (#[trigger] rev@[v])@ == preds(g0.edges, v),
            is_sink_first_order(g0, order@),
            loss == cs.loss(),
            k <= order@.len(),
            accs@.len() == n,
            accs@ == propagate(g0, empty_accs(n as nat), order@.take(k as int), loss as int),
        decreases order@.len() - k,
    {
        let cur = order[k];
        proof {
            assert(g0.has_node(order@[k as int] as int));
            assert(order@.take(k + 1).drop_last() =~= order@.take(k as int));
            assert(g0.nodes[cur as int] == view_slot(g.nodes@[cur as int]));
        }
        let own = match &g.nodes[cur] {
            Some(p) => add_own_exec(accs[cur], p),
            None => { accs[cur] },
        };
        let share = scaled_exec(own, loss);
        let ghost base = accs@.update(cur as int, own);
        accs.set(cur, own);
        let ps = &rev[cur];
        proof {
            crate::topo::lemma_preds_sources(g0.edges, cur as int);
        }
        let mut j: usize = 0;
        while j < ps.len()
            invariant
                g0.wf(),
                n == g0.nodes.len(),
                ps@ == preds(g0.edges, cur as int),
                0 <= cur < n,
                forall|j2: int| 0 <= j2 < ps@.len() ==> #[trigger] has_edge(g0.edges, ps@[j2] as int, cur as int),
                j <= ps@.len(),
                accs@.len() == n,
                base.len() == n,
                accs@ == spread(base, ps@.take(j as int), share),
            decreases ps@.len() - j,
        {
            let p = ps[j];
            proof {
                assert(has_edge(g0.edges, p as int, cur as int));
                let e = choose|e: int| 0 <= e < g0.edges.len() && #[trigger] g0.edges[e] == (p, cur);
                assert(g0.has_node(g0.edges[e].0 as int));
                assert(ps@.take(j + 1).drop_last() =~= ps@.take(j as int));
            }
            let upd = add_acc_exec(accs[p], share);
            accs.set(p, upd);
            j += 1;
        }
        proof {
            assert(ps@.take(j as int) =~= ps@);
        }
        k += 1;
    }
    proof {
        assert(order@.take(k as int) =~= order@);
    }
    let mut visited: Vec<bool> = Vec::new();
    let mut i: usize = 0;
    while i < n
        invariant
            i <= n,
            visited@.len() == i,
            forall|v: int| 0 <= v < i ==> !(#[trigger] visited@[v]),
        decreases n - i,
    {
        visited.push(false);
        i += 1;
    }
    let mut k: usize = 0;
    while k < order.len()
        invariant
            g@ == g0,
            g0.wf(),
            n == g0.nodes.len(),
            is_sink_first_order(g0, order@),
            k <= order@.len(),
            visited@.len() == n,
            forall|v: int| 0 <= v < n ==> (#[trigger] visited@[v] <==> order@.take(k as int).contains(v as usize)),
        decreases order@.len() - k,
    {
        let cur = order[k];
        proof {
            assert(g0.has_node(order@[k as int] as int));
        }
        visited.set(cur, true);
        proof {
            assert forall|v: int| 0 <= v < n implies (#[trigger] visited@[v] <==> order@.take(k + 1).contains(v as usize)) by {
                if v == cur {
                    assert(order@.take(k + 1)[k as int] == cur);
                } else {
                    if order@.take(k as int).contains(v as usize) {
                        let t = choose|t: int| 0 <= t < k && #[trigger] order@.take(k as int)[t] == v as usize;
                        assert(order@.take(k + 1)[t] == v as usize);
                    }
                    if order@.take(k + 1).contains(v as usize) {
                        let t = choose|t: int| 0 <= t < k + 1 && #[trigger] order@.take(k + 1)[t] == v as usize;
                        assert(order@.take(k as int)[t] == v as usize);
                    }
                }
            }
        }
        k += 1;
    }
    proof {
        assert(order@.take(k as int) =~= order@);
    }
    let ghost full = accs@;
    let mut i: usize = 0;
    while i < n
        invariant
            g0.wf(),
            n == g0.nodes.len() == g@.nodes.len(),
            g@.edges == g0.edges,
            visited@.len() == n,
            accs@ == full,
            full.len() == n,
            full == propagate(g0, empty_accs(n as nat), order@, cs.loss()),
            forall|v: int| 0 <= v < n ==> (#[trigger] visited@[v] <==> order@.contains(v as usize)),
            i <= n,
            forall|v: int| 0 <= v < n ==> #[trigger] g@.nodes[v] == if v < i {
                recolored(g0, order@, cs.loss()).nodes[v]
            } else {
                g0.nodes[v]
            },
        decreases n - i,
    {
        let ghost before = g.nodes@;
        let ghost prev = g@.nodes;
        let mut updated: Option<NodePayload> = None;
        match &g.nodes[i] {
            Some(p) => {
                let mut q = p.duplicate();
                q.comp_color = if visited[i] { accs[i] } else { ColorAcc { r: 0, g: 0, b: 0, w: 0 } };
                updated = Some(q);
            },
            None => {},
        }
        proof {
            assert(prev[i as int] == view_slot(before[i as int]));
        }
        if let Some(q) = updated {
            let ghost qv = q@;
            g.nodes.set(i, Some(q));
            proof {
                assert(g.nodes@ == before.update(i as int, Some(q)));
                assert forall|v: int| 0 <= v < n && v != i implies #[trigger] g@.nodes[v] == prev[v] by {
                    assert(prev[v] == view_slot(before[v]));
                }
                assert(g@.nodes[i as int] == Some(qv));
            }
        }
        i += 1;
    }
    proof {
        assert(g@.nodes =~= recolored(g0, order@, cs.loss()).nodes);
        assert forall|k: int|
            0 <= k < g@.edges.len() implies g@.has_node((#[trigger] g@.edges[k]).0 as int)
            && g@.has_node(g@.edges[k].1 as int) by {
            assert(g0.has_node(g0.edges[k].0 as int));
            assert(g0.has_node(g0.edges[k].1 as int));
        }
        assert forall|v: int| #[trigger] g@.has_node(v) implies g@.node(v).wf() by {
            assert(g0.has_node(v));
        }
    }
    order
}

proof fn lemma_spread_nothing(accs: Seq<ColorAcc>, ps: Seq<usize>)
    requires
        forall|j: int| 0 <= j < ps.len() ==> (#[trigger] ps[j]) < accs.len(),
    ensures
        spread(accs, ps, ColorAcc::empty()) == accs,
    decreases ps.len(),
{
    if ps.len() > 0 {
        lemma_spread_nothing(accs, ps.drop_last());
        let c = ps.last() as int;
        assert(add_acc(accs[c], ColorAcc::empty()) == accs[c]);
        assert(accs.update(c, accs[c]) =~= accs);
    }
}

proof fn lemma_propagate_no_loss(g: GraphView, order: Seq<usize>, k: int)
    requires
        g.wf(),
        g.nodes.len() <= usize::MAX,
        is_sink_first_order(g, order),
        0 <= k <= order.len(),
    ensures
        propagate(g, empty_accs(g.nodes.len()), order.take(k), 0).len() == g.nodes.len(),
        forall|i: int|
            0 <= i < g.nodes.len() ==> #[trigger] propagate(g, empty_accs(g.nodes.len()), order.take(k), 0)[i]
                == if order.take(k).contains(i as usize) {
                add_own(ColorAcc::empty(), g.node(i))
            } else {
                ColorAcc::empty()
            },
    decreases k,
{
    let e = empty_accs(g.nodes.len());
    if k == 0 {
        assert(order.take(0) =~= Seq::<usize>::empty());
    } else {
        lemma_propagate_no_loss(g, order, k - 1);
        assert(order.take(k).drop_last() =~= order.take(k - 1));
        let prev = propagate(g, e, order.take(k - 1), 0);
        let c = order[k - 1] as int;
        assert(g.has_node(order[k - 1] as int));
        assert(!order.take(k - 1).contains(c as usize)) by {
            if order.take(k - 1).contains(c as usize) {
                let t = choose|t: int| 0 <= t < k - 1 && #[trigger] order.take(k - 1)[t] == c as usize;
                assert(order[t] == order[k - 1]);
            }
        }
        let own = add_own(prev[c], g.node(c));
        assert(scaled(own, 0) == ColorAcc::empty());
        crate::topo::lemma_preds_sources(g.edges, c);
        let ps = preds(g.edges, c);
        assert forall|j: int| 0 <= j < ps.len() implies (#[trigger] ps[j]) < prev.update(c, own).len() by {
            assert(crate::topo::has_edge(g.edges, ps[j] as int, c));
            let x = choose|x: int| 0 <= x < g.edges.len() && #[trigger] g.edges[x] == (ps[j], c as usize);
            assert(g.has_node(g.edges[x].0 as int));
        }
        lemma_spread_nothing(prev.update(c, own), ps);
        let cur = propagate(g, e, order.take(k), 0);
        assert(cur == prev.update(c, own));
        assert forall|i: int| 0 <= i < g.nodes.len() implies #[trigger] cur[i] == if order.take(k).contains(i as usize) {
            add_own(ColorAcc::empty(), g.node(i))
        } else {
            ColorAcc::empty()
        } by {
            if i == c {
                assert(order.take(k)[k - 1] == c as usize);
            } else {
                assert(cur[i] == prev[i]);
                if order.take(k - 1).contains(i as usize) {
                    let t = choose|t: int| 0 <= t < k - 1 && #[trigger] order.take(k - 1)[t] == i as usize;
                    assert(order.take(k)[t] == i as usize);
                }
                if order.take(k).contains(i as usize) {
                    let t = choose|t: int| 0 <= t < k && #[trigger] order.take(k)[t] == i as usize;
                    assert(order.take(k - 1)[t] == i as usize);
                }
            }
        }
    }
}

proof fn lemma_own_color_shown(v: NodeView)
    requires
        v.wf(),
    ensures
        (NodeView { comp_color: add_own(ColorAcc::empty(), v), ..v }).shown_color() == v.color,
{
    let m = eff_mass(v);
    assert(m * v.color.r <= 0xC00_0000_0000 * COLOR_RANGE) by (nonlinear_arith)
        requires 0 < m <= 0xC00_0000_0000, v.color.r < COLOR_RANGE;
    assert(m * v.color.g <= 0xC00_0000_0000 * COLOR_RANGE) by (nonlinear_arith)
        requires 0 < m <= 0xC00_0000_0000, v.color.g < COLOR_RANGE;
    assert(m * v.color.b <= 0xC00_0000_0000 * COLOR_RANGE) by (nonlinear_arith)
        requires 0 < m <= 0xC00_0000_0000, v.color.b < COLOR_RANGE;
    assert((m * v.color.r) / m == v.color.r) by (nonlinear_arith) requires m > 0;
    assert((m * v.color.g) / m == v.color.g) by (nonlinear_arith) requires m > 0;
    assert((m * v.color.b) / m == v.color.b) by (nonlinear_arith) requires m > 0;
}

/// With a colour loss of zero nothing passes between nodes, and every node
/// shows exactly its intrinsic colour.
pub proof fn lemma_no_loss_shows_own_color(g: GraphView, order: Seq<usize>)
    requires
        g.wf(),
        g.nodes.len() <= usize::MAX,
        is_sink_first_order(g, order),
    ensures
        forall|i: int| #[trigger] g.has_node(i) ==> recolored(g, order, 0).node(i).shown_color() == g.node(i).color,
{
    lemma_propagate_no_loss(g, order, order.len() as int);
    assert(order.take(order.len() as int) =~= order);
    assert forall|i: int| #[trigger] g.has_node(i) implies recolored(g, order, 0).node(i).shown_color() == g.node(i).color by {
        lemma_own_color_shown(g.node(i));
    }
}

/// The accumulator of a node of unit mass that holds only colour `c`.
pub open spec fn unit_acc(c: Rgb) -> ColorAcc {
    ColorAcc { r: (1024 * c.r) as u64, g: (1024 * c.g) as u64, b: (1024 * c.b) as u64, w: 1024 }
}

proof fn lemma_chain_order(g: GraphView, order: Seq<usize>)
    requires
        g.wf(),
        g.nodes.len() == 3,
        g.has_node(0),
        g.has_node(1),
        g.has_node(2),
        g.edges == seq![(0usize, 1usize), (1usize, 2usize)],
        is_sink_first_order(g, order),
    ensures
        order == seq![2usize, 1usize, 0usize],
{
    let edges = g.edges;
    assert(edges[0] == (0usize, 1usize));
    assert(edges[1] == (1usize, 2usize));
    assert forall|e: int| 0 <= e < edges.len() && #[trigger] edges[e].0 == 2 implies order.contains(edges[e].1) by {}
    assert(order.contains(2usize));
    let i2 = choose|i: int| 0 <= i < order.len() && order[i] == 2usize;
    assert forall|e: int| 0 <= e < edges.len() && #[trigger] edges[e].0 == 1 implies order.contains(edges[e].1) by {
        assert(e == 1);
    }
    assert(order.contains(1usize));
    let i1 = choose|i: int| 0 <= i < order.len() && order[i] == 1usize;
    assert forall|e: int| 0 <= e < edges.len() && #[trigger] edges[e].0 == 0 implies order.contains(edges[e].1) by {
        assert(e == 0);
    }
    assert(order.contains(0usize));
    let i0 = choose|i: int| 0 <= i < order.len() && order[i] == 0usize;
    assert(order.take(i1).contains(2usize)) by {
        assert(edges[1].0 == order[i1]);
    }
    let t1 = choose|t: int| 0 <= t < i1 && #[trigger] order.take(i1)[t] == 2usize;
    assert(order[t1] == 2usize);
    assert(t1 == i2);
    assert(order.take(i0).contains(1usize)) by {
        assert(edges[0].0 == order[i0]);
    }
    let t0 = choose|t: int| 0 <= t < i0 && #[trigger] order.take(i0)[t] == 1usize;
    assert(order[t0] == 1usize);
    assert(t0 == i1);
    assert forall|k: int| 0 <= k < order.len() implies #[trigger] order[k] < 3 by {
        assert(g.has_node(order[k] as int));
    }
    if order.len() > 3 {
        assert(order[0] < 3 && order[1] < 3 && order[2] < 3 && order[3] < 3);
        assert(order[0] != order[1] && order[0] != order[2] && order[0] != order[3]);
        assert(order[1] != order[2] && order[1] != order[3] && order[2] != order[3]);
        assert(false);
    }
    assert(order =~= seq![2usize, 1usize, 0usize]);
}

/// On a chain a -> b -> c of unselected nodes of unit mass (b depends on a,
/// c on b), with nothing lost per hop, colouring visits c, then b, then a:
/// c holds its own colour, b holds its own and all of c's, and a holds its
/// own and all of b's, so each of the three colours at weight one.
pub proof fn lemma_chain_full_propagation(g: GraphView, order: Seq<usize>)
    requires
        g.wf(),
        g.nodes.len() == 3,
        g.has_node(0),
        g.has_node(1),
        g.has_node(2),
        g.edges == seq![(0usize, 1usize), (1usize, 2usize)],
        forall|i: int| 0 <= i < 3 ==> (#[trigger] g.node(i)).size == MASS_ONE && !g.node(i).selected,
        is_sink_first_order(g, order),
    ensures
        order == seq![2usize, 1usize, 0usize],
        final_acc(g, order, LOSS_ONE as int, 2) == unit_acc(g.node(2).color),
        final_acc(g, order, LOSS_ONE as int, 1) == add_acc(unit_acc(g.node(2).color), unit_acc(g.node(1).color)),
        final_acc(g, order, LOSS_ONE as int, 0) == add_acc(
            add_acc(unit_acc(g.node(2).color), unit_acc(g.node(1).color)),
            unit_acc(g.node(0).color),
        ),
{
    lemma_chain_order(g, order);
    let edges = g.edges;
    let loss = LOSS_ONE as int;
    reveal_with_fuel(preds, 3);
    reveal_with_fuel(propagate, 4);
    reveal_with_fuel(spread, 2);
    assert(edges.drop_last() =~= seq![(0usize, 1usize)]);
    assert(edges.drop_last().drop_last() =~= Seq::<(usize, usize)>::empty());
    assert(preds(edges, 2) =~= seq![1usize]);
    assert(preds(edges, 1) =~= seq![0usize]);
    assert(preds(edges, 0) =~= Seq::<usize>::empty());
    let c0 = g.node(0).color;
    let c1 = g.node(1).color;
    let c2 = g.node(2).color;
    assert(g.node(0).wf() && g.node(1).wf() && g.node(2).wf());
    assert forall|a: ColorAcc| a.r < 0x1_0000_0000 && a.g < 0x1_0000_0000 && a.b < 0x1_0000_0000 && a.w < 0x1_0000_0000
        implies #[trigger] scaled(a, loss) == a by {
        assert((a.r * 65536) / 65536 == a.r) by (nonlinear_arith);
        assert((a.g * 65536) / 65536 == a.g) by (nonlinear_arith);
        assert((a.b * 65536) / 65536 == a.b) by (nonlinear_arith);
        assert((a.w * 65536) / 65536 == a.w) by (nonlinear_arith);
    }
    let e = empty_accs(3);
    let o = seq![2usize, 1usize, 0usize];
    assert(o.drop_last() =~= seq![2usize, 1usize]);
    assert(o.drop_last().drop_last() =~= seq![2usize]);
    assert(o.drop_last().drop_last().drop_last() =~= Seq::<usize>::empty());
    let own2 = add_own(e[2], g.node(2));
    assert(own2 == unit_acc(c2));
    let s1 = propagate(g, e, seq![2usize], loss);
    assert(s1 == spread(e.update(2, own2), seq![1usize], scaled(own2, loss)));
    assert(scaled(own2, loss) == own2);
    assert(seq![1usize].drop_last() =~= Seq::<usize>::empty());
    assert(s1 =~= e.update(2, own2).update(1, add_acc(ColorAcc::empty(), own2)));
    let own1 = add_own(s1[1], g.node(1));
    assert(own1 == add_acc(unit_acc(c2), unit_acc(c1)));
    let s2 = propagate(g, e, seq![2usize, 1usize], loss);
    assert(s2 == spread(s1.update(1, own1), seq![0usize], scaled(own1, loss)));
    assert(scaled(own1, loss) == own1);
    assert(seq![0usize].drop_last() =~= Seq::<usize>::empty());
    assert(s2 =~= s1.update(1, own1).update(0, add_acc(ColorAcc::empty(), own1)));
    assert(s2[0] == own1);
    let own0 = add_own(s2[0], g.node(0));
    assert(own0 == add_acc(own1, unit_acc(c0)));
    let s3 = propagate(g, e, o, loss);
    assert(s3 == spread(s2.update(0, own0), Seq::<usize>::empty(), scaled(own0, loss)));
    assert(s3 == s2.update(0, own0));
    assert(o[0] == 2usize && o[1] == 1usize && o[2] == 0usize);
    assert(o.contains(0usize) && o.contains(1usize) && o.contains(2usize));
}

} // verus!
