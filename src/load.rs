//! Building the canonical graph from a list of import records.
use vstd::prelude::*;
use crate::fixed::{isqrt, sqrt_floor, MASS_ONE, POS_MAX};
use crate::graph::{
    count_present, ColorAcc, Graph, NodeData, NodePayload, NodeView, Rgb, Vec2, COLOR_RANGE, MASS_MAX,
    is_mass_of, pos_in_world,
};

verus! {

/// Draws a value uniformly from the whole range of its type; nothing is
/// promised of the value drawn.
pub assume_specification<T>[ rand::random::<T> ]() -> (r: T)
    where
        rand::distributions::Standard: rand::distributions::Distribution<T>,
;

/// The names of the records, in order.
pub open spec fn names_of(recs: Seq<NodeData>) -> Seq<Seq<char>> {
    recs.map_values(|d: NodeData| d.name@)
}

/// The reference names of a record, in order.
pub open spec fn refs_of(d: NodeData) -> Seq<Seq<char>> {
    d.references@.map_values(|s: String| s@)
}

/// The last index whose name is `r`, if any.
pub open spec fn resolve(names: Seq<Seq<char>>, r: Seq<char>) -> Option<int>
    decreases names.len(),
{
    if names.len() == 0 {
        None
    } else if names.last() == r {
        Some(names.len() - 1)
    } else {
        resolve(names.drop_last(), r)
    }
}

/// The edges that the references `refs` of node `target` give: one from each
/// referenced node that exists to `target`, in order.
pub open spec fn ref_edges(names: Seq<Seq<char>>, refs: Seq<Seq<char>>, target: int) -> Seq<(usize, usize)>
    decreases refs.len(),
{
    if refs.len() == 0 {
        Seq::empty()
    } else {
        let prev = ref_edges(names, refs.drop_last(), target);
        match resolve(names, refs.last()) {
            Some(j) => prev.push((j as usize, target as usize)),
            None => prev,
        }
    }
}

/// The edges of the first `k` records of an import.
pub open spec fn import_edges(recs: Seq<NodeData>, k: int) -> Seq<(usize, usize)>
    decreases k,
{
    if k <= 0 {
        Seq::empty()
    } else {
        import_edges(recs, k - 1) + ref_edges(names_of(recs), refs_of(recs[k - 1]), k - 1)
    }
}

/// Number of references in `refs` that name an existing record.
pub open spec fn resolved_count(names: Seq<Seq<char>>, refs: Seq<Seq<char>>) -> nat
    decreases refs.len(),
{
    if refs.len() == 0 {
        0
    } else {
        resolved_count(names, refs.drop_last()) + if resolve(names, refs.last()) is Some { 1nat } else { 0nat }
    }
}

/// Number of references of the first `k` records that name an existing record.
pub open spec fn import_resolved_count(recs: Seq<NodeData>, k: int) -> nat
    decreases k,
{
    if k <= 0 {
        0
    } else {
        import_resolved_count(recs, k - 1) + resolved_count(names_of(recs), refs_of(recs[k - 1]))
    }
}

proof fn lemma_ref_edges_len(names: Seq<Seq<char>>, refs: Seq<Seq<char>>, target: int)
    ensures
        ref_edges(names, refs, target).len() == resolved_count(names, refs),
    decreases refs.len(),
{
    if refs.len() > 0 {
        lemma_ref_edges_len(names, refs.drop_last(), target);
    }
}

/// The number of edges of an import is the number of references that name
/// a record of the same import.
pub proof fn lemma_import_edge_count(recs: Seq<NodeData>, k: int)
    requires
        0 <= k <= recs.len(),
    ensures
        import_edges(recs, k).len() == import_resolved_count(recs, k),
    decreases k,
{
    if k > 0 {
        lemma_import_edge_count(recs, k - 1);
        lemma_ref_edges_len(names_of(recs), refs_of(recs[k - 1]), k - 1);
    }
}

proof fn lemma_all_present(s: Seq<Option<NodeView>>)
    requires
        forall|i: int| 0 <= i < s.len() ==> #[trigger] s[i] is Some,
    ensures
        count_present(s) == s.len(),
    decreases s.len(),
{
    if s.len() > 0 {
        lemma_all_present(s.drop_last());
    }
}

/// `v` is the node freshly made from record `d`, with colour `c` at `p`.
pub open spec fn is_fresh_node(v: NodeView, d: NodeData, c: Rgb, p: Vec2) -> bool {
    &&& v.name == d.name@
    &&& v.const_category == d.const_category
    &&& v.const_type == d.const_type@
    &&& is_mass_of(d.references@.len() as int, v.size as int)
    &&& v.color == c
    &&& v.pos == p
    &&& v.vel == (Vec2 { x: 0, y: 0 })
    &&& v.comp_color == ColorAcc::empty()
    &&& !v.selected
}

pub open spec fn color_ok(c: Rgb) -> bool {
    c.r < COLOR_RANGE && c.g < COLOR_RANGE && c.b < COLOR_RANGE
}

proof fn lemma_mass_bounds(k: int, m: int)
    requires
        0 <= k <= usize::MAX,
        is_mass_of(k, m),
    ensures
        MASS_ONE <= m <= MASS_MAX,
{
    let s = (k + 1) * (MASS_ONE * MASS_ONE);
    assert(s <= 0x1_0000_0000_0000_0000 * 0x10_0000) by (nonlinear_arith)
        requires s == (k + 1) * (MASS_ONE * MASS_ONE), k <= usize::MAX, MASS_ONE == 1024;
    assert(s >= 0x10_0000) by (nonlinear_arith)
        requires s == (k + 1) * (MASS_ONE * MASS_ONE), k >= 0, MASS_ONE == 1024;
    if m > MASS_MAX {
        assert(m * m > MASS_MAX * MASS_MAX) by (nonlinear_arith)
            requires m > MASS_MAX, MASS_MAX > 0;
        assert(false);
    }
    if m < MASS_ONE {
        assert((m + 1) * (m + 1) <= MASS_ONE * MASS_ONE) by (nonlinear_arith)
            requires 0 <= m, m + 1 <= MASS_ONE;
        assert(false);
    }
}

/// The mass of a node with `k` references.
pub fn mass_of(k: usize) -> (r: u64)
    ensures
        is_mass_of(k as int, r as int),
        MASS_ONE <= r <= MASS_MAX,
{
    let k1: u128 = k as u128 + 1;
    assert(k1 * 0x10_0000 <= 0x1_0000_0000_0000_0000 * 0x10_0000) by (nonlinear_arith)
        requires k1 <= 0x1_0000_0000_0000_0000;
    let s: u128 = k1 * 0x10_0000;
    let r = isqrt(s);
    proof {
        lemma_mass_bounds(k as int, r as int);
    }
    r
}

impl NodePayload {
    /// The node made from an import record, with intrinsic colour `color`,
    /// placed at `pos`, at rest.
    pub fn from_data(value: &NodeData, color: Rgb, pos: Vec2) -> (r: NodePayload)
        ensures
            is_fresh_node(r@, *value, color, pos),
            MASS_ONE <= r.size <= MASS_MAX,
    {
        NodePayload {
            name: value.name.clone(),
            pos,
            vel: Vec2 { x: 0, y: 0 },
            color,
            comp_color: ColorAcc { r: 0, g: 0, b: 0, w: 0 },
            const_category: value.const_category,
            size: mass_of(value.references.len()),
            const_type: value.const_type.clone(),
            selected: false,
        }
    }
}

proof fn lemma_resolve_skip(names: Seq<Seq<char>>, r: Seq<char>, i: int)
    requires
        0 <= i <= names.len(),
        forall|j: int| i <= j < names.len() ==> names[j] != r,
    ensures
        resolve(names, r) == resolve(names.take(i), r),
    decreases names.len() - i,
{
    if i < names.len() {
        lemma_resolve_skip(names.drop_last(), r, i);
        assert(names.drop_last().take(i) =~= names.take(i));
    } else {
        assert(names.take(i) =~= names);
    }
}

proof fn lemma_resolve_bound(names: Seq<Seq<char>>, r: Seq<char>)
    ensures
        resolve(names, r) matches Some(j) ==> 0 <= j < names.len() && names[j] == r,
    decreases names.len(),
{
    if names.len() > 0 {
        lemma_resolve_bound(names.drop_last(), r);
    }
}

/// Index of the last record named `name`.
fn find_record(records: &Vec<NodeData>, name: &String) -> (r: Option<usize>)
    ensures
        r matches Some(j) ==> resolve(names_of(records@), name@) == Some(j as int),
        r is None ==> resolve(names_of(records@), name@) is None,
{
    let ghost names = names_of(records@);
    let mut i = records.len();
    while i > 0
        invariant
            i <= records@.len(),
            names == names_of(records@),
            forall|j: int| i <= j < records@.len() ==> names[j] != name@,
        decreases i,
    {
        i -= 1;
        if records[i].name == *name {
            proof {
                lemma_resolve_skip(names, name@, i + 1);
                assert(names.take(i + 1).last() == name@);
            }
            return Some(i);
        }
    }
    proof {
        lemma_resolve_skip(names, name@, 0);
    }
    None
}

/// The canonical graph of an import, with the given intrinsic colours and
/// starting positions: one node per record, and one edge from each existing
/// referenced record to the record that refers to it.
pub fn build_graph(records: &Vec<NodeData>, colors: &Vec<Rgb>, positions: &Vec<Vec2>) -> (g: Graph)
    requires
        colors@.len() == records@.len(),
        positions@.len() == records@.len(),
        forall|i: int| 0 <= i < colors@.len() ==> color_ok(#[trigger] colors@[i]),
        forall|i: int| 0 <= i < positions@.len() ==> pos_in_world(#[trigger] positions@[i]),
    ensures
        g.wf(),
        g@.nodes.len() == records@.len(),
        forall|i: int|
            0 <= i < records@.len() ==> #[trigger] g@.has_node(i) && is_fresh_node(
                g@.node(i),
                records@[i],
                colors@[i],
                positions@[i],
            ),
        g@.edges == import_edges(records@, records@.len() as int),
        g@.node_count() == records@.len(),
        g@.edges.len() == import_resolved_count(records@, records@.len() as int),
{
    let n = records.len();
    let mut nodes: Vec<Option<NodePayload>> = Vec::new();
    let mut i: usize = 0;
    while i < n
        invariant
            i <= n == records@.len(),
            colors@.len() == n,
            positions@.len() == n,
            nodes@.len() == i,
            forall|j: int| 0 <= j < colors@.len() ==> color_ok(#[trigger] colors@[j]),
            forall|j: int| 0 <= j < positions@.len() ==> pos_in_world(#[trigger] positions@[j]),
            forall|j: int|
                0 <= j < i ==> #[trigger] nodes@[j] is Some && is_fresh_node(
                    nodes@[j]->Some_0@,
                    records@[j],
                    colors@[j],
                    positions@[j],
                ) && nodes@[j]->Some_0@.wf(),
        decreases n - i,
    {
        let p = NodePayload::from_data(&records[i], colors[i], positions[i]);
        nodes.push(Some(p));
        i += 1;
    }
    let ghost names = names_of(records@);
    let mut edges: Vec<(usize, usize)> = Vec::new();
    let mut t: usize = 0;
    while t < n
        invariant
            t <= n == records@.len(),
            names == names_of(records@),
            edges@ == import_edges(records@, t as int),
            forall|k: int| 0 <= k < edges@.len() ==> (#[trigger] edges@[k]).0 < n && edges@[k].1 < n,
        decreases n - t,
    {
        let refs = &records[t].references;
        let ghost rs = refs_of(records@[t as int]);
        let ghost base = edges@;
        let mut j: usize = 0;
        while j < refs.len()
            invariant
                t < n == records@.len(),
                names == names_of(records@),
                refs == &records@[t as int].references,
                rs == refs_of(records@[t as int]),
                j <= refs@.len(),
                edges@ == base + ref_edges(names, rs.take(j as int), t as int),
                forall|k: int| 0 <= k < edges@.len() ==> (#[trigger] edges@[k]).0 < n && edges@[k].1 < n,
            decreases refs@.len() - j,
        {
            let found = find_record(records, &refs[j]);
            proof {
                assert(rs.take(j + 1).drop_last() =~= rs.take(j as int));
                assert(rs.take(j + 1).last() == refs@[j as int]@);
                lemma_resolve_bound(names, refs@[j as int]@);
            }
            match found {
                Some(src) => {
                    edges.push((src, t));
                    assert(edges@ =~= base + ref_edges(names, rs.take(j + 1), t as int));
                },
                None => {},
            }
            j += 1;
        }
        proof {
            assert(rs.take(j as int) =~= rs);
        }
        t += 1;
    }
    let g = Graph { nodes, edges };
    proof {
        assert forall|k: int| 0 <= k < g@.edges.len() implies g@.has_node(#[trigger] g@.edges[k].0 as int)
            && g@.has_node(g@.edges[k].1 as int) by {
            assert(g.edges@[k].0 < n);
        }
        assert forall|i: int| #[trigger] g@.has_node(i) implies g@.node(i).wf() by {
            assert(nodes@[i] is Some);
        }
        assert forall|i: int| 0 <= i < g@.nodes.len() implies #[trigger] g@.nodes[i] is Some by {
            assert(nodes@[i] is Some);
        }
        lemma_all_present(g@.nodes);
        lemma_import_edge_count(records@, n as int);
    }
    g
}

} // verus!

verus! {

/// The radius of the disk in which the nodes of an import of `n` records
/// start: a thousand world units times `sqrt(n)`, at most the world's extent.
pub open spec fn spawn_radius_spec(n: int) -> int {
    let r = sqrt_floor(n * (MASS_ONE * MASS_ONE)) * 1000;
    if r > POS_MAX { POS_MAX as int } else { r }
}

pub open spec fn in_disk(p: Vec2, radius: int) -> bool {
    p.x * p.x + p.y * p.y <= radius * radius
}

pub fn spawn_radius(n: usize) -> (r: i64)
    ensures
        r == spawn_radius_spec(n as int),
        0 <= r <= POS_MAX,
{
    let n1: u128 = n as u128;
    assert(n1 * 0x10_0000 <= 0x1_0000_0000_0000_0000 * 0x10_0000) by (nonlinear_arith)
        requires n1 <= 0x1_0000_0000_0000_0000;
    let s = isqrt(n1 * 0x10_0000);
    let r: u128 = s as u128 * 1000;
    if r > POS_MAX as u128 {
        POS_MAX
    } else {
        r as i64
    }
}

/// One coordinate in `[-radius, radius]` from a uniform 32-bit draw.
pub open spec fn coord_of_draw(radius: int, a: int) -> int {
    (a * (2 * radius + 1)) / 0x1_0000_0000 - radius
}

/// The point that two draws give in the square around the origin, when it
/// lies in the disk of `radius`.
pub fn disk_point(radius: i64, a: u32, b: u32) -> (r: Option<Vec2>)
    requires
        0 <= radius <= POS_MAX,
    ensures
        ({
            let x = coord_of_draw(radius as int, a as int);
            let y = coord_of_draw(radius as int, b as int);
            &&& x * x + y * y <= radius * radius ==> r == Some(Vec2 { x: x as i64, y: y as i64 })
            &&& x * x + y * y > radius * radius ==> r is None
        }),
        r matches Some(p) ==> in_disk(p, radius as int) && pos_in_world(p),
{
    let span: i128 = 2 * radius as i128 + 1;
    assert(0 <= a * span <= 0x1_0000_0000 * span) by (nonlinear_arith)
        requires 0 <= a < 0x1_0000_0000, span >= 0;
    assert(0 <= b * span <= 0x1_0000_0000 * span) by (nonlinear_arith)
        requires 0 <= b < 0x1_0000_0000, span >= 0;
    let x: i128 = (a as i128 * span) / 0x1_0000_0000 - radius as i128;
    let y: i128 = (b as i128 * span) / 0x1_0000_0000 - radius as i128;
    assert(-radius <= x <= radius && -radius <= y <= radius) by (nonlinear_arith)
        requires
            x == (a * span) / 0x1_0000_0000 - radius,
            y == (b * span) / 0x1_0000_0000 - radius,
            0 <= a < 0x1_0000_0000, 0 <= b < 0x1_0000_0000,
            span == 2 * radius + 1, radius >= 0;
    assert(x * x <= radius * radius && y * y <= radius * radius) by (nonlinear_arith)
        requires -radius <= x <= radius, -radius <= y <= radius;
    assert(x * x <= 0x100_0000_0000 * 0x100_0000_0000 && y * y <= 0x100_0000_0000 * 0x100_0000_0000
        && radius * radius <= 0x100_0000_0000 * 0x100_0000_0000) by (nonlinear_arith)
        requires
            0 <= radius <= 0x100_0000_0000,
            -radius <= x <= radius,
            -radius <= y <= radius;
    assert(0 <= x * x && 0 <= y * y) by (nonlinear_arith);
    let xx: i128 = x * x;
    let yy: i128 = y * y;
    let rr: i128 = radius as i128 * radius as i128;
    if xx + yy <= rr {
        Some(Vec2 { x: x as i64, y: y as i64 })
    } else {
        None
    }
}

/// A random point in the disk of `radius` around the origin, by rejection
/// from the enclosing square (the origin if sixty-four draws all miss).
pub fn random_location(radius: i64) -> (r: Vec2)
    requires
        0 <= radius <= POS_MAX,
    ensures
        in_disk(r, radius as int),
        pos_in_world(r),
{
    let mut tries: u32 = 0;
    while tries < 64
        invariant
            0 <= radius <= POS_MAX,
        decreases 64 - tries,
    {
        let a: u32 = rand::random();
        let b: u32 = rand::random();
        if let Some(p) = disk_point(radius, a, b) {
            return p;
        }
        tries += 1;
    }
    assert(0 <= radius * radius) by (nonlinear_arith);
    Vec2 { x: 0, y: 0 }
}

/// One channel from a uniform 32-bit draw, below two thirds of full intensity.
pub open spec fn channel_of_draw(a: int) -> int {
    (a * COLOR_RANGE) / 0x1_0000_0000
}

pub fn color_of_draws(a: u32, b: u32, c: u32) -> (r: Rgb)
    ensures
        r == (Rgb {
            r: channel_of_draw(a as int) as u64,
            g: channel_of_draw(b as int) as u64,
            b: channel_of_draw(c as int) as u64,
        }),
        color_ok(r),
{
    assert(forall|v: int| 0 <= v < 0x1_0000_0000 ==> 0 <= #[trigger] channel_of_draw(v) < COLOR_RANGE)
        by (nonlinear_arith);
    Rgb {
        r: (a as u64 * COLOR_RANGE) / 0x1_0000_0000,
        g: (b as u64 * COLOR_RANGE) / 0x1_0000_0000,
        b: (c as u64 * COLOR_RANGE) / 0x1_0000_0000,
    }
}

/// A fresh random intrinsic colour.
pub fn random_node_color() -> (r: Rgb)
    ensures
        color_ok(r),
{
    let a: u32 = rand::random();
    let b: u32 = rand::random();
    let c: u32 = rand::random();
    color_of_draws(a, b, c)
}

/// The canonical graph of an import: as `build_graph`, with random intrinsic
/// colours and random starting positions in the spawn disk.
pub fn load_graph(records: &Vec<NodeData>) -> (g: Graph)
    ensures
        g.wf(),
        g@.nodes.len() == records@.len(),
        forall|i: int|
            0 <= i < records@.len() ==> #[trigger] g@.has_node(i) && {
                let v = g@.node(i);
                &&& is_fresh_node(v, records@[i], v.color, v.pos)
                &&& color_ok(v.color)
                &&& in_disk(v.pos, spawn_radius_spec(records@.len() as int))
            },
        g@.edges == import_edges(records@, records@.len() as int),
        g@.node_count() == records@.len(),
        g@.edges.len() == import_resolved_count(records@, records@.len() as int),
{
    let n = records.len();
    let radius = spawn_radius(n);
    let mut colors: Vec<Rgb> = Vec::new();
    let mut positions: Vec<Vec2> = Vec::new();
    let mut i: usize = 0;
    while i < n
        invariant
            i <= n,
            0 <= radius <= POS_MAX,
            colors@.len() == i,
            positions@.len() == i,
            forall|j: int| 0 <= j < i ==> color_ok(#[trigger] colors@[j]),
            forall|j: int|
                0 <= j < i ==> pos_in_world(#[trigger] positions@[j]) && in_disk(positions@[j], radius as int),
        decreases n - i,
    {
        colors.push(random_node_color());
        positions.push(random_location(radius));
        i += 1;
    }
    let g = build_graph(records, &colors, &positions);
    assert forall|i: int| 0 <= i < records@.len() implies #[trigger] g@.has_node(i) && {
        let v = g@.node(i);
        &&& is_fresh_node(v, records@[i], v.color, v.pos)
        &&& color_ok(v.color)
        &&& in_disk(v.pos, spawn_radius_spec(records@.len() as int))
    } by {
        assert(g@.has_node(i));
        assert(color_ok(colors@[i]));
        assert(in_disk(positions@[i], radius as int));
    }
    g
}

} // verus!
