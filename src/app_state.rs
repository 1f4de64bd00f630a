//! The state of one visualisation session and the order of work in a tick:
//! copy edits back and rebuild the visible graph, advance the layout, then
//! recolour.
use vstd::prelude::*;
use crate::color::{recolor, recolored, ColoringSettings};
use crate::filter::{filtered, rebuild, write_back, written_back, FilterSettings};
use crate::graph::{Graph, GraphView, NodePayload, NodeView, view_slot};
use crate::layout::{step, stepped, ForceSettings, MAX_DT_US};
use crate::load::{color_ok, random_node_color};
use crate::topo::is_sink_first_order;

verus! {

/// A saved session: the canonical graph and the three settings groups.
#[derive(Clone, Debug)]
pub struct StoredData {
    pub g: Graph,
    pub force_settings: ForceSettings,
    pub filter_settings: FilterSettings,
    pub coloring_settings: ColoringSettings,
}

/// A visualisation session.
pub struct MApp {
    /// The canonical graph: every node and edge loaded.
    pub g: Graph,
    /// The canonical graph was replaced since the last rebuild.
    pub g_updated: bool,
    /// The visible graph: the filtered view that is simulated and drawn.
    pub fg: Graph,
    pub force_settings: ForceSettings,
    pub filter_settings: FilterSettings,
    pub coloring_settings: ColoringSettings,
}

/// The canonical graph a rebuild starts from: edits made in the visible
/// graph are kept, unless the canonical graph was just replaced.
pub open spec fn base_for_rebuild(g: GraphView, fg: GraphView, g_updated: bool) -> GraphView {
    if g_updated { g } else { written_back(g, fg) }
}

impl MApp {
    pub open spec fn wf(&self) -> bool {
        self.g.wf() && self.fg.wf()
    }

    /// A session on graph `g`, with default settings, showing the whole graph
    /// until the first rebuild.
    pub fn new(g: Graph) -> (r: MApp)
        requires
            g.wf(),
        ensures
            r.wf(),
            r.g@ == g@,
            r.fg@ == g@,
            !r.g_updated,
            r.force_settings == ForceSettings::default_spec(),
            r.filter_settings == FilterSettings::default_spec(),
            r.coloring_settings == ColoringSettings::default_spec(),
    {
        let fg = g.duplicate();
        MApp {
            g,
            g_updated: false,
            fg,
            force_settings: ForceSettings::default(),
            filter_settings: FilterSettings::default(),
            coloring_settings: ColoringSettings::default(),
        }
    }

    /// Copies the visible graph's node state back into the canonical graph
    /// (skipped when the canonical graph was just replaced), then rebuilds
    /// the visible graph from the canonical graph and the filter.
    pub fn update_filter_graph(&mut self)
        requires
            old(self).wf(),
        ensures
            final(self).wf(),
            final(self).g@ == base_for_rebuild(old(self).g@, old(self).fg@, old(self).g_updated),
            final(self).fg@ == filtered(final(self).g@, old(self).filter_settings),
            !final(self).g_updated,
            final(self).force_settings == old(self).force_settings,
            final(self).filter_settings == old(self).filter_settings,
            final(self).coloring_settings == old(self).coloring_settings,
    {
        if !self.g_updated {
            write_back(&mut self.g, &self.fg);
        }
        self.g_updated = false;
        self.fg = rebuild(&self.g, &self.filter_settings);
    }

    /// Advances the layout of the visible graph by `dt` microseconds, held to
    /// at most `MAX_DT_US`.
    pub fn simulate_force_graph(&mut self, dt: u32)
        requires
            old(self).wf(),
        ensures
            final(self).wf(),
            final(self).fg@ == stepped(
                old(self).force_settings,
                old(self).fg@,
                if dt > MAX_DT_US { MAX_DT_US as int } else { dt as int },
            ),
            final(self).g@ == old(self).g@,
            final(self).g_updated == old(self).g_updated,
            final(self).force_settings == old(self).force_settings,
            final(self).filter_settings == old(self).filter_settings,
            final(self).coloring_settings == old(self).coloring_settings,
    {
        let dt = if dt > MAX_DT_US { MAX_DT_US } else { dt };
        step(&mut self.fg, &self.force_settings, dt);
    }

    /// Recolours the visible graph; returns the order in which nodes were
    /// visited.
    pub fn color_nodes(&mut self) -> (order: Vec<usize>)
        requires
            old(self).wf(),
        ensures
            final(self).wf(),
            is_sink_first_order(old(self).fg@, order@),
            final(self).fg@ == recolored(old(self).fg@, order@, old(self).coloring_settings.loss()),
            final(self).g@ == old(self).g@,
            final(self).g_updated == old(self).g_updated,
            final(self).force_settings == old(self).force_settings,
            final(self).filter_settings == old(self).filter_settings,
            final(self).coloring_settings == old(self).coloring_settings,
    {
        recolor(&mut self.fg, &self.coloring_settings)
    }

    /// The visible graph after a rebuild from `base` and a layout step.
    pub open spec fn moved_view(self, base: GraphView, dt: u32) -> GraphView {
        stepped(
            self.force_settings,
            filtered(base, self.filter_settings),
            if dt > MAX_DT_US { MAX_DT_US as int } else { dt as int },
        )
    }

    /// One frame: rebuild the visible graph, advance the layout by `dt`
    /// microseconds (at most `MAX_DT_US`), recolour. Returns the order in
    /// which colouring visited the nodes.
    pub fn tick(&mut self, dt: u32) -> (order: Vec<usize>)
        requires
            old(self).wf(),
        ensures
            final(self).wf(),
            !final(self).g_updated,
            final(self).g@ == base_for_rebuild(old(self).g@, old(self).fg@, old(self).g_updated),
            is_sink_first_order(old(self).moved_view(final(self).g@, dt), order@),
            final(self).fg@ == recolored(
                old(self).moved_view(final(self).g@, dt),
                order@,
                old(self).coloring_settings.loss(),
            ),
            final(self).force_settings == old(self).force_settings,
            final(self).filter_settings == old(self).filter_settings,
            final(self).coloring_settings == old(self).coloring_settings,
    {
        self.update_filter_graph();
        self.simulate_force_graph(dt);
        self.color_nodes()
    }

    /// Replaces the canonical graph with a freshly loaded one; the next
    /// rebuild starts from it.
    pub fn replace_graph(&mut self, g: Graph)
        requires
            old(self).wf(),
            g.wf(),
        ensures
            final(self).wf(),
            final(self).g@ == g@,
            final(self).g_updated,
            final(self).fg@ == old(self).fg@,
            final(self).force_settings == old(self).force_settings,
            final(self).filter_settings == old(self).filter_settings,
            final(self).coloring_settings == old(self).coloring_settings,
    {
        self.g = g;
        self.g_updated = true;
    }

    /// A snapshot of the session: the canonical graph and the settings.
    pub fn save_viz(&self) -> (r: StoredData)
        ensures
            r.g@ == self.g@,
            r.force_settings == self.force_settings,
            r.filter_settings == self.filter_settings,
            r.coloring_settings == self.coloring_settings,
    {
        StoredData {
            g: self.g.duplicate(),
            force_settings: self.force_settings,
            filter_settings: self.filter_settings,
            coloring_settings: self.coloring_settings,
        }
    }

    /// Restores a snapshot: the canonical graph and the settings are
    /// replaced, and the next rebuild starts from the restored graph.
    pub fn load_stored_data(&mut self, data: StoredData)
        requires
            old(self).wf(),
            data.g.wf(),
        ensures
            final(self).wf(),
            final(self).g@ == data.g@,
            final(self).g_updated,
            final(self).fg@ == old(self).fg@,
            final(self).force_settings == data.force_settings,
            final(self).filter_settings == data.filter_settings,
            final(self).coloring_settings == data.coloring_settings,
    {
        self.g = data.g;
        self.g_updated = true;
        self.force_settings = data.force_settings;
        self.filter_settings = data.filter_settings;
        self.coloring_settings = data.coloring_settings;
    }

    /// Gives every visible node a fresh random intrinsic colour; nothing else
    /// changes.
    pub fn randomize_colors(&mut self)
        requires
            old(self).wf(),
        ensures
            final(self).wf(),
            final(self).g@ == old(self).g@,
            final(self).g_updated == old(self).g_updated,
            final(self).fg@.edges == old(self).fg@.edges,
            final(self).fg@.nodes.len() == old(self).fg@.nodes.len(),
            forall|i: int|
                0 <= i < old(self).fg@.nodes.len() ==> (#[trigger] final(self).fg@.nodes[i] is Some) == (old(
                    self,
                ).fg@.nodes[i] is Some),
            forall|i: int|
                #[trigger] old(self).fg@.has_node(i) ==> final(self).fg@.node(i) == (NodeView {
                    color: final(self).fg@.node(i).color,
                    ..old(self).fg@.node(i)
                }) && color_ok(final(self).fg@.node(i).color),
            final(self).force_settings == old(self).force_settings,
            final(self).filter_settings == old(self).filter_settings,
            final(self).coloring_settings == old(self).coloring_settings,
    {
        let ghost g0 = self.fg@;
        let n = self.fg.nodes.len();
        let mut i: usize = 0;
        while i < n
            invariant
                g0.wf(),
                n == g0.nodes.len() == self.fg@.nodes.len(),
                self.fg@.edges == g0.edges,
                self.g@ == old(self).g@,
                self.g.wf(),
                self.g_updated == old(self).g_updated,
                self.force_settings == old(self).force_settings,
                self.filter_settings == old(self).filter_settings,
                self.coloring_settings == old(self).coloring_settings,
                i <= n,
                forall|v: int| 0 <= v < n ==> (#[trigger] self.fg@.nodes[v] is Some) == (g0.nodes[v] is Some),
                forall|v: int|
                    #[trigger] g0.has_node(v) ==> self.fg@.node(v) == (NodeView { color: self.fg@.node(v).color, ..g0.node(v) })
                        && color_ok(self.fg@.node(v).color),
            decreases n - i,
        {
            let ghost before = self.fg.nodes@;
            let ghost prev = self.fg@.nodes;
            proof {
                assert(prev[i as int] == view_slot(before[i as int]));
            }
            let mut updated: Option<NodePayload> = None;
            match &self.fg.nodes[i] {
                Some(p) => {
                    let mut q = p.duplicate();
                    q.color = random_node_color();
                    updated = Some(q);
                },
                None => {},
            }
            if let Some(q) = updated {
                let ghost qv = q@;
                self.fg.nodes.set(i, Some(q));
                proof {
                    assert(self.fg.nodes@ == before.update(i as int, Some(q)));
                    assert forall|v: int| 0 <= v < n && v != i implies #[trigger] self.fg@.nodes[v] == prev[v] by {
                        assert(prev[v] == view_slot(before[v]));
                    }
                    assert(self.fg@.nodes[i as int] == Some(qv));
                }
            }
            i += 1;
        }
        proof {
            let f = self.fg@;
            assert forall|k: int|
                0 <= k < f.edges.len() implies f.has_node((#[trigger] f.edges[k]).0 as int) && f.has_node(f.edges[k].1 as int) by {
                assert(g0.has_node(g0.edges[k].0 as int));
                assert(g0.has_node(g0.edges[k].1 as int));
            }
            assert forall|v: int| #[trigger] f.has_node(v) implies f.node(v).wf() by {
                assert(g0.has_node(v));
            }
        }
    }
}

} // verus!
