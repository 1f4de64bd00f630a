//! The filter engine: the visible graph is the sub-graph of the canonical
//! graph induced by category and out-degree predicates, with no renumbering.
use vstd::prelude::*;
use crate::graph::{ConstCategory, Graph, GraphView, NodePayload, out_deg, view_slot};

verus! {

/// Which categories are shown, and the largest out-degree a shown node may have.
#[derive(Clone, Copy, PartialEq, Eq, Structural, Debug)]
pub struct FilterSettings {
    pub show_theorem: bool,
    pub show_definition: bool,
    pub show_axiom: bool,
    pub show_other: bool,
    pub outer_edge_cnt_filter: usize,
}

impl FilterSettings {
    pub open spec fn allows(self, c: ConstCategory) -> bool {
        match c {
            ConstCategory::Theorem => self.show_theorem,
            ConstCategory::Definition => self.show_definition,
            ConstCategory::Axiom => self.show_axiom,
            ConstCategory::Other => self.show_other,
        }
    }

    pub fn enabled(&self, c: ConstCategory) -> (r: bool)
        ensures
            r == self.allows(c),
    {
        match c {
            ConstCategory::Theorem => self.show_theorem,
            ConstCategory::Definition => self.show_definition,
            ConstCategory::Axiom => self.show_axiom,
            ConstCategory::Other => self.show_other,
        }
    }

    /// Theorems, definitions and axioms shown; out-degree at most ten.
    pub open spec fn default_spec() -> FilterSettings {
        FilterSettings {
            show_theorem: true,
            show_definition: true,
            show_axiom: true,
            show_other: false,
            outer_edge_cnt_filter: 10,
        }
    }

    pub fn default() -> (r: FilterSettings)
        ensures
            r == FilterSettings::default_spec(),
    {
        FilterSettings {
            show_theorem: true,
            show_definition: true,
            show_axiom: true,
            show_other: false,
            outer_edge_cnt_filter: 10,
        }
    }
}

/// Node `i` of `g` passes the filter: its category is shown and its
/// out-degree in `g` is within the bound.
pub open spec fn included(g: GraphView, fs: FilterSettings, i: int) -> bool {
    &&& g.has_node(i)
    &&& fs.allows(g.node(i).const_category)
    &&& out_deg(g.edges, i) <= fs.outer_edge_cnt_filter
}

/// The edges of `edges` whose two endpoints pass the filter, in order.
pub open spec fn kept_edges(g: GraphView, fs: FilterSettings, edges: Seq<(usize, usize)>) -> Seq<(usize, usize)>
    decreases edges.len(),
{
    if edges.len() == 0 {
        Seq::empty()
    } else {
        let prev = kept_edges(g, fs, edges.drop_last());
        let e = edges.last();
        if included(g, fs, e.0 as int) && included(g, fs, e.1 as int) {
            prev.push(e)
        } else {
            prev
        }
    }
}

/// The visible graph that the filter derives from `g`.
pub open spec fn filtered(g: GraphView, fs: FilterSettings) -> GraphView {
    GraphView {
        nodes: Seq::new(g.nodes.len(), |i: int| if included(g, fs, i) { g.nodes[i] } else { None }),
        edges: kept_edges(g, fs, g.edges),
    }
}

proof fn lemma_kept_edges_endpoints(g: GraphView, fs: FilterSettings, edges: Seq<(usize, usize)>)
    ensures
        forall|k: int|
            0 <= k < kept_edges(g, fs, edges).len() ==> included(g, fs, (#[trigger] kept_edges(g, fs, edges)[k]).0 as int)
                && included(g, fs, kept_edges(g, fs, edges)[k].1 as int),
    decreases edges.len(),
{
    if edges.len() > 0 {
        lemma_kept_edges_endpoints(g, fs, edges.drop_last());
        let prev = kept_edges(g, fs, edges.drop_last());
        let e = edges.last();
        if included(g, fs, e.0 as int) && included(g, fs, e.1 as int) {
            assert forall|k: int| 0 <= k < prev.push(e).len() implies included(g, fs, (#[trigger] prev.push(e)[k]).0 as int)
                && included(g, fs, prev.push(e)[k].1 as int) by {
                if k < prev.len() {
                    assert(prev.push(e)[k] == prev[k]);
                }
            }
        }
    }
}

pub proof fn lemma_filtered_wf(g: GraphView, fs: FilterSettings)
    requires
        g.wf(),
    ensures
        filtered(g, fs).wf(),
{
    lemma_kept_edges_endpoints(g, fs, g.edges);
    let f = filtered(g, fs);
    assert forall|i: int| #[trigger] f.has_node(i) implies f.node(i).wf() by {
        assert(g.has_node(i));
    }
}

/// Rebuilds the visible graph from the canonical graph: each node whose
/// category is shown and whose out-degree in the canonical graph is within
/// the bound keeps its identity and its whole state; an edge is kept when
/// both its endpoints are.
pub fn rebuild(canonical: &Graph, fs: &FilterSettings) -> (v: Graph)
    requires
        canonical.wf(),
    ensures
        v@ == filtered(canonical@, *fs),
        v.wf(),
{
    let ghost g = canonical@;
    let deg = canonical.out_degrees();
    let n = canonical.nodes.len();
    let mut keep: Vec<bool> = Vec::new();
    let mut nodes: Vec<Option<NodePayload>> = Vec::new();
    let mut i: usize = 0;
    while i < n
        invariant
            g == canonical@,
            n == g.nodes.len(),
            deg@.len() == n,
            forall|v: int| 0 <= v < n ==> deg@[v] == out_deg(g.edges, v),
            i <= n,
            keep@.len() == i,
            nodes@.len() == i,
            forall|j: int| 0 <= j < i ==> #[trigger] keep@[j] == included(g, *fs, j),
            forall|j: int|
                0 <= j < i ==> view_slot(#[trigger] nodes@[j]) == if included(g, *fs, j) {
                    g.nodes[j]
                } else {
                    None
                },
        decreases n - i,
    {
        let slot = &canonical.nodes[i];
        let mut kept: Option<NodePayload> = None;
        match slot {
            Some(p) => {
                if fs.enabled(p.const_category) && deg[i] <= fs.outer_edge_cnt_filter {
                    kept = Some(p.duplicate());
                }
            },
            None => {},
        }
        let is_kept = kept.is_some();
        keep.push(is_kept);
        nodes.push(kept);
        i += 1;
    }
    let mut edges: Vec<(usize, usize)> = Vec::new();
    let mut k: usize = 0;
    while k < canonical.edges.len()
        invariant
            g == canonical@,
            g.wf(),
            n == g.nodes.len(),
            keep@.len() == n,
            forall|j: int| 0 <= j < n ==> #[trigger] keep@[j] == included(g, *fs, j),
            k <= g.edges.len(),
            edges@ == kept_edges(g, *fs, g.edges.take(k as int)),
        decreases g.edges.len() - k,
    {
        let e = canonical.edges[k];
        proof {
            assert(g.edges.take(k + 1).drop_last() =~= g.edges.take(k as int));
            assert(g.has_node(g.edges[k as int].0 as int));
            assert(g.has_node(g.edges[k as int].1 as int));
        }
        if keep[e.0] && keep[e.1] {
            edges.push(e);
        }
        k += 1;
    }
    proof {
        assert(g.edges.take(k as int) =~= g.edges);
    }
    let v = Graph { nodes, edges };
    proof {
        assert(v@.nodes =~= filtered(g, *fs).nodes);
        lemma_filtered_wf(g, *fs);
    }
    v
}

/// Out-degrees never grow when edges are dropped.
proof fn lemma_out_deg_kept(g: GraphView, fs: FilterSettings, edges: Seq<(usize, usize)>, v: int)
    ensures
        out_deg(kept_edges(g, fs, edges), v) <= out_deg(edges, v),
    decreases edges.len(),
{
    if edges.len() > 0 {
        lemma_out_deg_kept(g, fs, edges.drop_last(), v);
        let prev = kept_edges(g, fs, edges.drop_last());
        let e = edges.last();
        if included(g, fs, e.0 as int) && included(g, fs, e.1 as int) {
            assert(prev.push(e).drop_last() =~= prev);
        }
    }
}

proof fn lemma_kept_edges_again(g: GraphView, fs: FilterSettings, edges: Seq<(usize, usize)>)
    ensures
        kept_edges(filtered(g, fs), fs, kept_edges(g, fs, edges)) == kept_edges(g, fs, edges),
    decreases edges.len(),
{
    let f = filtered(g, fs);
    lemma_out_deg_kept(g, fs, g.edges, 0);
    assert forall|i: int| included(g, fs, i) implies included(f, fs, i) by {
        lemma_out_deg_kept(g, fs, g.edges, i);
    }
    if edges.len() > 0 {
        lemma_kept_edges_again(g, fs, edges.drop_last());
        let prev = kept_edges(g, fs, edges.drop_last());
        let e = edges.last();
        if included(g, fs, e.0 as int) && included(g, fs, e.1 as int) {
            assert(prev.push(e).drop_last() =~= prev);
        }
    }
}

/// Filtering is idempotent: filtering the visible graph again with the same
/// predicates gives the same visible graph.
pub proof fn lemma_filter_idempotent(g: GraphView, fs: FilterSettings)
    ensures
        filtered(filtered(g, fs), fs) == filtered(g, fs),
{
    let f = filtered(g, fs);
    lemma_kept_edges_again(g, fs, g.edges);
    assert forall|i: int| 0 <= i < f.nodes.len() implies included(f, fs, i) == included(g, fs, i) by {
        lemma_out_deg_kept(g, fs, g.edges, i);
    }
    assert(filtered(f, fs).nodes =~= f.nodes);
}

/// Rebuilding twice from the same canonical graph with the same predicates
/// gives identical visible graphs.
pub proof fn lemma_rebuild_deterministic(g: GraphView, fs: FilterSettings, v1: GraphView, v2: GraphView)
    requires
        v1 == filtered(g, fs),
        v2 == filtered(g, fs),
    ensures
        v1 == v2,
{
}

/// Whether a node is kept depends only on its own category's flag, the bound,
/// and its out-degree in the canonical graph: the flags of other categories,
/// which decide which other nodes are kept, do not change it.
pub proof fn lemma_inclusion_local(g: GraphView, fs1: FilterSettings, fs2: FilterSettings, i: int)
    requires
        g.has_node(i),
        fs1.outer_edge_cnt_filter == fs2.outer_edge_cnt_filter,
        fs1.allows(g.node(i).const_category) == fs2.allows(g.node(i).const_category),
    ensures
        included(g, fs1, i) == included(g, fs2, i),
        included(g, fs1, i) <==> fs1.allows(g.node(i).const_category) && out_deg(g.edges, i)
            <= fs1.outer_edge_cnt_filter,
{
}

/// `c` with the simulation and display state of each node of `v` copied
/// into the node of the same identity.
pub open spec fn written_back(c: GraphView, v: GraphView) -> GraphView {
    GraphView {
        nodes: Seq::new(
            c.nodes.len(),
            |i: int|
                if c.has_node(i) && v.has_node(i) {
                    Some(c.node(i).with_state_of(v.node(i)))
                } else {
                    c.nodes[i]
                },
        ),
        edges: c.edges,
    }
}

/// Copies the simulation and display state of every node of `visible` into
/// the node of the same identity of `canonical`; other nodes are untouched.
pub fn write_back(canonical: &mut Graph, visible: &Graph)
    requires
        old(canonical).wf(),
        visible.wf(),
    ensures
        final(canonical).wf(),
        final(canonical)@.edges == old(canonical)@.edges,
        final(canonical)@.nodes.len() == old(canonical)@.nodes.len(),
        final(canonical)@ == written_back(old(canonical)@, visible@),
{
    let ghost g0 = canonical@;
    let n = canonical.nodes.len();
    let mut i: usize = 0;
    while i < n
        invariant
            n == g0.nodes.len() == canonical@.nodes.len(),
            g0.wf(),
            visible.wf(),
            canonical@.edges == g0.edges,
            i <= n,
            forall|j: int|
                0 <= j < n ==> #[trigger] canonical@.nodes[j] == if j < i && g0.has_node(j)
                    && visible@.has_node(j) {
                    Some(g0.node(j).with_state_of(visible@.node(j)))
                } else {
                    g0.nodes[j]
                },
        decreases n - i,
    {
        let ghost prev = canonical@.nodes;
        if i < visible.nodes.len() {
            proof {
                assert(canonical@.nodes[i as int] == view_slot(canonical.nodes@[i as int]));
                assert(visible@.nodes[i as int] == view_slot(visible.nodes@[i as int]));
            }
            let mut updated: Option<NodePayload> = None;
            match (&canonical.nodes[i], &visible.nodes[i]) {
                (Some(c), Some(v)) => {
                    let mut p = c.duplicate();
                    p.pos = v.pos;
                    p.vel = v.vel;
                    p.color = v.color;
                    p.comp_color = v.comp_color;
                    p.selected = v.selected;
                    updated = Some(p);
                },
                _ => {},
            }
            if let Some(p) = updated {
                let ghost pv = p@;
                let ghost before = canonical.nodes@;
                assert(pv == g0.node(i as int).with_state_of(visible@.node(i as int)));
                canonical.nodes.set(i, Some(p));
                proof {
                    assert(canonical.nodes@ == before.update(i as int, Some(p)));
                    assert forall|j: int| 0 <= j < n && j != i implies #[trigger] canonical@.nodes[j] == prev[j] by {
                        assert(prev[j] == view_slot(before[j]));
                    }
                    assert(canonical@.nodes[i as int] == Some(pv));
                }
            } else {
                assert(!(g0.has_node(i as int) && visible@.has_node(i as int)));
            }
        }
        assert forall|j: int| 0 <= j < n && j != i implies #[trigger] canonical@.nodes[j] == prev[j] by {}
        i += 1;
    }
    proof {
        assert(canonical@.nodes =~= written_back(g0, visible@).nodes);
        assert forall|k: int|
            0 <= k < canonical@.edges.len() implies canonical@.has_node(#[trigger] canonical@.edges[k].0 as int)
            && canonical@.has_node(canonical@.edges[k].1 as int) by {
            assert(g0.has_node(g0.edges[k].0 as int));
            assert(g0.has_node(g0.edges[k].1 as int));
        }
        assert forall|j: int| #[trigger] canonical@.has_node(j) implies canonical@.node(j).wf() by {
            assert(g0.has_node(j));
            if visible@.has_node(j) {
                assert(visible@.node(j).wf());
            }
        }
    }
}

} // verus!
