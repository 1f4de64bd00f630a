//! The graph store: nodes keyed by a stable identity, and directed edges from
//! a dependency to its dependent.
use vstd::prelude::*;
use crate::fixed::{is_isqrt, MASS_ONE, POS_MAX};

verus! {

/// What kind of declaration a node stands for.
#[derive(Clone, Copy, PartialEq, Eq, Structural, Debug)]
pub enum ConstCategory {
    Theorem,
    Definition,
    Axiom,
    Other,
}

/// A 2D vector of fixed-point coordinates (1/1024 of a world unit).
#[derive(Clone, Copy, PartialEq, Eq, Structural, Debug)]
pub struct Vec2 {
    pub x: i64,
    pub y: i64,
}

/// A colour; each channel is in 1/65536 of full intensity.
#[derive(Clone, Copy, PartialEq, Eq, Structural, Debug)]
pub struct Rgb {
    pub r: u64,
    pub g: u64,
    pub b: u64,
}

/// Accumulated weighted colour contributions and their total weight.
#[derive(Clone, Copy, PartialEq, Eq, Structural, Debug)]
pub struct ColorAcc {
    pub r: u64,
    pub g: u64,
    pub b: u64,
    pub w: u64,
}

impl ColorAcc {
    pub open spec fn empty() -> ColorAcc {
        ColorAcc { r: 0, g: 0, b: 0, w: 0 }
    }
}

/// Channels of an intrinsic colour lie below two thirds of full intensity.
pub const COLOR_RANGE: u64 = 43691;

/// Largest mass a node may have: the square root of `usize::MAX + 1`, scaled.
pub const MASS_MAX: u64 = 0x400_0000_0000;

/// One record of an import: a declaration and the names it refers to.
#[derive(Clone, Debug, PartialEq)]
pub struct NodeData {
    pub name: String,
    pub references: Vec<String>,
    pub const_category: ConstCategory,
    pub const_type: String,
}

/// The state of one node.
#[derive(Clone, Debug, PartialEq)]
pub struct NodePayload {
    pub name: String,
    pub pos: Vec2,
    pub vel: Vec2,
    pub color: Rgb,
    pub comp_color: ColorAcc,
    pub const_category: ConstCategory,
    /// The mass: the square root of one more than the number of references.
    pub size: u64,
    pub const_type: String,
    pub selected: bool,
}

/// Mathematical view of a node.
pub struct NodeView {
    pub name: Seq<char>,
    pub pos: Vec2,
    pub vel: Vec2,
    pub color: Rgb,
    pub comp_color: ColorAcc,
    pub const_category: ConstCategory,
    pub size: u64,
    pub const_type: Seq<char>,
    pub selected: bool,
}

impl View for NodePayload {
    type V = NodeView;

    open spec fn view(&self) -> NodeView {
        NodeView {
            name: self.name@,
            pos: self.pos,
            vel: self.vel,
            color: self.color,
            comp_color: self.comp_color,
            const_category: self.const_category,
            size: self.size,
            const_type: self.const_type@,
            selected: self.selected,
        }
    }
}

/// `m` is the mass of a node with `k` references: `sqrt(k + 1)`, rounded down.
pub open spec fn is_mass_of(k: int, m: int) -> bool {
    is_isqrt((k + 1) * (MASS_ONE * MASS_ONE), m)
}

pub open spec fn pos_in_world(p: Vec2) -> bool {
    -POS_MAX <= p.x <= POS_MAX && -POS_MAX <= p.y <= POS_MAX
}

impl NodeView {
    pub open spec fn wf(self) -> bool {
        &&& MASS_ONE <= self.size <= MASS_MAX
        &&& pos_in_world(self.pos)
        &&& self.color.r < COLOR_RANGE
        &&& self.color.g < COLOR_RANGE
        &&& self.color.b < COLOR_RANGE
    }

    /// The colour shown for the node: the accumulated colour divided by its
    /// weight, or the intrinsic colour when nothing was accumulated.
    pub open spec fn shown_color(self) -> Rgb {
        if self.comp_color.w == 0 {
            self.color
        } else {
            Rgb {
                r: (self.comp_color.r / self.comp_color.w) as u64,
                g: (self.comp_color.g / self.comp_color.w) as u64,
                b: (self.comp_color.b / self.comp_color.w) as u64,
            }
        }
    }

    /// The node with the simulation and display state of `src`.
    pub open spec fn with_state_of(self, src: NodeView) -> NodeView {
        NodeView {
            pos: src.pos,
            vel: src.vel,
            color: src.color,
            comp_color: src.comp_color,
            selected: src.selected,
            ..self
        }
    }
}

impl NodePayload {
    /// A copy of the node.
    pub fn duplicate(&self) -> (r: NodePayload)
        ensures
            r@ == self@,
    {
        NodePayload {
            name: self.name.clone(),
            pos: self.pos,
            vel: self.vel,
            color: self.color,
            comp_color: self.comp_color,
            const_category: self.const_category,
            size: self.size,
            const_type: self.const_type.clone(),
            selected: self.selected,
        }
    }

    pub fn mass(&self) -> (r: u64)
        ensures
            r == self.size,
    {
        self.size
    }

    pub fn comp_color(&self) -> (r: Rgb)
        ensures
            r == self@.shown_color(),
    {
        let acc = self.comp_color;
        if acc.w == 0 {
            self.color
        } else {
            Rgb { r: acc.r / acc.w, g: acc.g / acc.w, b: acc.b / acc.w }
        }
    }
}

/// Mathematical view of a graph: a slot per identity and the edge list.
pub struct GraphView {
    pub nodes: Seq<Option<NodeView>>,
    pub edges: Seq<(usize, usize)>,
}

pub open spec fn view_slot(o: Option<NodePayload>) -> Option<NodeView> {
    match o {
        Some(p) => Some(p@),
        None => None,
    }
}

impl GraphView {
    pub open spec fn has_node(self, i: int) -> bool {
        0 <= i < self.nodes.len() && self.nodes[i] is Some
    }

    pub open spec fn node(self, i: int) -> NodeView {
        self.nodes[i]->Some_0
    }

    pub open spec fn wf(self) -> bool {
        &&& forall|k: int|
            0 <= k < self.edges.len() ==> self.has_node((#[trigger] self.edges[k]).0 as int)
                && self.has_node(self.edges[k].1 as int)
        &&& forall|i: int| #[trigger] self.has_node(i) ==> self.node(i).wf()
    }

    /// Number of nodes present.
    pub open spec fn node_count(self) -> nat {
        count_present(self.nodes)
    }
}

pub open spec fn count_present(s: Seq<Option<NodeView>>) -> nat
    decreases s.len(),
{
    if s.len() == 0 {
        0
    } else {
        count_present(s.drop_last()) + if s.last() is Some { 1nat } else { 0nat }
    }
}

/// Number of edges in `edges` that leave `v`.
pub open spec fn out_deg(edges: Seq<(usize, usize)>, v: int) -> nat
    decreases edges.len(),
{
    if edges.len() == 0 {
        0
    } else {
        out_deg(edges.drop_last(), v) + if edges.last().0 == v { 1nat } else { 0nat }
    }
}

/// A graph: a slot per node identity (empty where the node is not part of
/// this graph), and directed edges between identities.
#[derive(Clone, Debug, PartialEq)]
pub struct Graph {
    pub nodes: Vec<Option<NodePayload>>,
    pub edges: Vec<(usize, usize)>,
}

impl View for Graph {
    type V = GraphView;

    open spec fn view(&self) -> GraphView {
        GraphView { nodes: self.nodes@.map_values(|o: Option<NodePayload>| view_slot(o)), edges: self.edges@ }
    }
}

impl Graph {
    pub open spec fn wf(&self) -> bool {
        self@.wf()
    }

    /// Out-degree of every identity: the number of edges leaving it.
    pub fn out_degrees(&self) -> (r: Vec<usize>)
        ensures
            r@.len() == self@.nodes.len(),
            forall|v: int| 0 <= v < r@.len() ==> r@[v] == out_deg(self@.edges, v),
    {
        let n = self.nodes.len();
        let mut deg: Vec<usize> = Vec::new();
        let mut i: usize = 0;
        while i < n
            invariant
                i <= n,
                deg@.len() == i,
                forall|v: int| 0 <= v < i ==> deg@[v] == 0,
            decreases n - i,
        {
            deg.push(0);
            i += 1;
        }
        let mut k: usize = 0;
        while k < self.edges.len()
            invariant
                k <= self.edges@.len(),
                n == self.nodes@.len(),
                deg@.len() == n,
                forall|v: int| 0 <= v < n ==> deg@[v] == out_deg(self@.edges.take(k as int), v),
                forall|v: int| 0 <= v < n ==> deg@[v] <= k,
            decreases self.edges@.len() - k,
        {
            let e = self.edges[k];
            proof {
                assert(self@.edges.take(k + 1).drop_last() =~= self@.edges.take(k as int));
            }
            if e.0 < n {
                deg.set(e.0, deg[e.0] + 1);
            }
            k += 1;
        }
        proof {
            assert(self@.edges.take(k as int) =~= self@.edges);
        }
        deg
    }
}

impl Graph {
    /// A copy of the graph.
    pub fn duplicate(&self) -> (r: Graph)
        ensures
            r@ == self@,
    {
        let n = self.nodes.len();
        let mut nodes: Vec<Option<NodePayload>> = Vec::new();
        let mut i: usize = 0;
        while i < n
            invariant
                n == self.nodes@.len(),
                i <= n,
                nodes@.len() == i,
                forall|j: int| 0 <= j < i ==> view_slot(#[trigger] nodes@[j]) == view_slot(self.nodes@[j]),
            decreases n - i,
        {
            let slot = match &self.nodes[i] {
                Some(p) => Some(p.duplicate()),
                None => None,
            };
            nodes.push(slot);
            i += 1;
        }
        let mut edges: Vec<(usize, usize)> = Vec::new();
        let mut k: usize = 0;
        while k < self.edges.len()
            invariant
                k <= self.edges@.len(),
                edges@ == self.edges@.take(k as int),
            decreases self.edges@.len() - k,
        {
            edges.push(self.edges[k]);
            proof {
                assert(edges@ =~= self.edges@.take(k + 1));
            }
            k += 1;
        }
        proof {
            assert(edges@ =~= self.edges@);
        }
        let r = Graph { nodes, edges };
        proof {
            assert(r@.nodes =~= self@.nodes);
        }
        r
    }
}

impl NodePayload {
    /// Whether the node's mass, position and colour are in range.
    pub fn is_well_formed(&self) -> (r: bool)
        ensures
            r == self@.wf(),
    {
        MASS_ONE <= self.size && self.size <= MASS_MAX && -POS_MAX <= self.pos.x && self.pos.x <= POS_MAX
            && -POS_MAX <= self.pos.y && self.pos.y <= POS_MAX && self.color.r < COLOR_RANGE
            && self.color.g < COLOR_RANGE && self.color.b < COLOR_RANGE
    }
}

impl Graph {
    /// Whether every node is in range and every edge joins two nodes of the
    /// graph.
    pub fn is_well_formed(&self) -> (r: bool)
        ensures
            r == self.wf(),
    {
        let ghost gv = self@;
        let n = self.nodes.len();
        let mut i: usize = 0;
        while i < n
            invariant
                gv == self@,
                n == gv.nodes.len(),
                i <= n,
                forall|j: int| 0 <= j < i && #[trigger] gv.has_node(j) ==> gv.node(j).wf(),
            decreases n - i,
        {
            proof {
                assert(gv.nodes[i as int] == view_slot(self.nodes@[i as int]));
            }
            match &self.nodes[i] {
                Some(p) => {
                    if !p.is_well_formed() {
                        assert(gv.has_node(i as int) && !gv.node(i as int).wf());
                        return false;
                    }
                },
                None => {},
            }
            i += 1;
        }
        let mut k: usize = 0;
        while k < self.edges.len()
            invariant
                gv == self@,
                n == gv.nodes.len(),
                forall|j: int| #[trigger] gv.has_node(j) ==> gv.node(j).wf(),
                k <= gv.edges.len(),
                forall|t: int|
                    0 <= t < k ==> gv.has_node((#[trigger] gv.edges[t]).0 as int) && gv.has_node(gv.edges[t].1 as int),
            decreases gv.edges.len() - k,
        {
            let e = self.edges[k];
            if e.0 >= n || e.1 >= n {
                assert(!gv.has_node(gv.edges[k as int].0 as int) || !gv.has_node(gv.edges[k as int].1 as int));
                return false;
            }
            proof {
                assert(gv.nodes[e.0 as int] == view_slot(self.nodes@[e.0 as int]));
                assert(gv.nodes[e.1 as int] == view_slot(self.nodes@[e.1 as int]));
            }
            if self.nodes[e.0].is_none() || self.nodes[e.1].is_none() {
                assert(!gv.has_node(gv.edges[k as int].0 as int) || !gv.has_node(gv.edges[k as int].1 as int));
                return false;
            }
            k += 1;
        }
        true
    }
}

} // verus!
