//! The force-directed layout step.
use vstd::prelude::*;
use crate::fixed::{clamp_i128, clamp_spec, isqrt, is_isqrt, sqrt_floor, POS_MAX, MASS_ONE};
use crate::graph::{Graph, GraphView, NodePayload, NodeView, Vec2, MASS_MAX, view_slot};

verus! {

/// Quotient of `a` by `b > 0`, rounded toward zero.
pub open spec fn tdiv(a: int, b: int) -> int {
    if a >= 0 { a / b } else { -((-a) / b) }
}

fn tdiv_exec(a: i128, b: i128) -> (r: i128)
    requires
        b > 0,
        a > i128::MIN,
    ensures
        r == tdiv(a as int, b as int),
{
    if a >= 0 {
        a / b
    } else {
        let q = (-a) / b;
        -q
    }
}

/// Settings are in millionths where marked.
pub const PARTS: i128 = 1_000_000;

/// Microseconds in a second.
pub const US_PER_S: i128 = 1_000_000;

/// The longest time step, in microseconds.
pub const MAX_DT_US: u32 = 32_000;

/// Largest velocity change one pair of nodes can cause in one step.
pub const ACC_CAP: i128 = 0x4_0000_0000_0000;

/// Largest velocity component before damping.
pub const VEL_SAT: i128 = 0x1000_0000_0000_0000;

/// The speed ceiling: ten thousand world units per second.
pub const SPEED_LIMIT: i128 = 10_240_000;

/// The layout constants.
#[derive(Clone, Copy, PartialEq, Eq, Structural, Debug)]
pub struct ForceSettings {
    /// Repulsion strength, per second squared.
    pub r_force: u32,
    /// Repulsion radius, in world units.
    pub r_size: u32,
    /// Edge attraction strength, in millionths.
    pub e_force: u32,
    /// Pull toward the centre of mass, in millionths.
    pub b_force: u32,
    /// Share of the velocity lost each step, in millionths; more than a
    /// million counts as a million.
    pub stiffness: u32,
}

impl ForceSettings {
    /// Repulsion 400 within 200 units, attraction 0.001, centring 0.05,
    /// stiffness 0.5.
    pub open spec fn default_spec() -> ForceSettings {
        ForceSettings { r_force: 400, r_size: 200, e_force: 1000, b_force: 50_000, stiffness: 500_000 }
    }

    pub fn default() -> (r: ForceSettings)
        ensures
            r == ForceSettings::default_spec(),
    {
        ForceSettings { r_force: 400, r_size: 200, e_force: 1000, b_force: 50_000, stiffness: 500_000 }
    }

    /// The repulsion radius in position units.
    pub open spec fn radius(self) -> int {
        self.r_size * 1024
    }
}

proof fn lemma_mul_abs(a: int, b: int, x: int, y: int)
    requires
        -x <= a <= x,
        -y <= b <= y,
    ensures
        -(x * y) <= a * b <= x * y,
{
    assert(-(x * y) <= a * b <= x * y) by (nonlinear_arith)
        requires -x <= a <= x, -y <= b <= y;
}

proof fn lemma_tdiv_bound(a: int, b: int, x: int)
    requires
        b > 0,
        -x <= a <= x,
    ensures
        -(x / b) <= tdiv(a, b) <= x / b,
{
    if a >= 0 {
        assert(a / b <= x / b) by (nonlinear_arith) requires 0 <= a <= x, b > 0;
    } else {
        assert((-a) / b <= x / b) by (nonlinear_arith) requires 0 <= -a <= x, b > 0;
    }
    assert(0 <= a / b || a < 0) by (nonlinear_arith) requires b > 0;
}

proof fn lemma_tdiv_scaled_bound(a: int, b: int, k: int)
    requires
        b > 0,
        k >= 0,
        -(k * b) <= a <= k * b,
    ensures
        -k <= tdiv(a, b) <= k,
{
    lemma_tdiv_bound(a, b, k * b);
    assert((k * b) / b == k) by (nonlinear_arith) requires b > 0;
}

proof fn lemma_sqrt_bounds(s: int, r: int, x: int)
    requires
        is_isqrt(s, r),
        x >= 0,
        s <= x * x,
    ensures
        r <= x,
{
    if r > x {
        assert(r * r > x * x) by (nonlinear_arith) requires r > x, x >= 0;
    }
}

proof fn lemma_component_within(d: int, e: int, r: int)
    requires
        is_isqrt(d * d + e * e, r),
    ensures
        -r <= d <= r,
{
    assert(e * e >= 0) by (nonlinear_arith);
    if d > r {
        assert(d * d >= (r + 1) * (r + 1)) by (nonlinear_arith) requires d >= r + 1, r >= 0;
    }
    if d < -r {
        assert(d * d >= (r + 1) * (r + 1)) by (nonlinear_arith) requires -d >= r + 1, r >= 0;
    }
}

/// One component of the velocity change that the edge pull causes:
/// `m_b / m_a * e_force * dist * d * dt`, the spring's pull grown with the
/// square of the distance and directed along `d / dist`.
pub open spec fn attr_comp(dist: int, d: int, e: int, ma: int, mb: int, dt: int) -> int {
    let s1 = tdiv(dist * d * e, 1024 * PARTS);
    let s2 = tdiv(s1 * dt, US_PER_S as int);
    clamp_spec(tdiv(s2 * mb, ma), ACC_CAP as int)
}

/// One component of the velocity change that repulsion causes:
/// `m_b / m_a * r_force * (radius - dist) * dt` directed along `-d / dist`.
pub open spec fn rep_comp(dist: int, d: int, radius: int, r: int, ma: int, mb: int, dt: int) -> int {
    let s1 = tdiv((radius - dist) * d * r, dist);
    let s2 = tdiv(s1 * dt, US_PER_S as int);
    clamp_spec(-tdiv(s2 * mb, ma), ACC_CAP as int)
}

pub open spec fn sq_dist(pa: Vec2, pb: Vec2) -> int {
    (pb.x - pa.x) * (pb.x - pa.x) + (pb.y - pa.y) * (pb.y - pa.y)
}

pub open spec fn mass_ok(m: u64) -> bool {
    MASS_ONE <= m <= MASS_MAX
}

pub open spec fn in_world(p: Vec2) -> bool {
    crate::graph::pos_in_world(p)
}

/// Velocity change of a node at `pa` of mass `ma` from an edge to a node at
/// `pb` of mass `mb`.
pub open spec fn attr_acc(fs: ForceSettings, pa: Vec2, pb: Vec2, ma: u64, mb: u64, dt: int) -> (int, int) {
    let dist = sqrt_floor(sq_dist(pa, pb));
    (
        attr_comp(dist, pb.x - pa.x, fs.e_force as int, ma as int, mb as int, dt),
        attr_comp(dist, pb.y - pa.y, fs.e_force as int, ma as int, mb as int, dt),
    )
}

/// Velocity change of a node at `pa` of mass `ma` from the repulsion of a
/// node at `pb` of mass `mb`: none unless their distance is positive and at
/// most the repulsion radius.
pub open spec fn rep_acc(fs: ForceSettings, pa: Vec2, pb: Vec2, ma: u64, mb: u64, dt: int) -> (int, int) {
    let s = sq_dist(pa, pb);
    if s == 0 || s > fs.radius() * fs.radius() {
        (0, 0)
    } else {
        let dist = sqrt_floor(s);
        (
            rep_comp(dist, pb.x - pa.x, fs.radius(), fs.r_force as int, ma as int, mb as int, dt),
            rep_comp(dist, pb.y - pa.y, fs.radius(), fs.r_force as int, ma as int, mb as int, dt),
        )
    }
}

const POS_SPAN: i128 = 0x200_0000_0000;

fn distance(pa: Vec2, pb: Vec2) -> (r: (i128, i128, i128, i128))
    requires
        in_world(pa),
        in_world(pb),
    ensures
        r.0 == pb.x - pa.x,
        r.1 == pb.y - pa.y,
        r.2 == sq_dist(pa, pb),
        r.3 == sqrt_floor(sq_dist(pa, pb)),
        is_isqrt(r.2 as int, r.3 as int),
        -POS_SPAN <= r.0 <= POS_SPAN,
        -POS_SPAN <= r.1 <= POS_SPAN,
        0 <= r.2 <= 2 * POS_SPAN * POS_SPAN,
        0 <= r.3 <= 2 * POS_SPAN,
        -r.3 <= r.0 <= r.3,
        -r.3 <= r.1 <= r.3,
{
    let dx: i128 = pb.x as i128 - pa.x as i128;
    let dy: i128 = pb.y as i128 - pa.y as i128;
    proof {
        lemma_mul_abs(dx as int, dx as int, POS_SPAN as int, POS_SPAN as int);
        lemma_mul_abs(dy as int, dy as int, POS_SPAN as int, POS_SPAN as int);
        assert(0 <= dx * dx && 0 <= dy * dy) by (nonlinear_arith);
    }
    let s: i128 = dx * dx + dy * dy;
    let d = isqrt(s as u128) as i128;
    proof {
        assert(2 * POS_SPAN * POS_SPAN <= (2 * POS_SPAN) * (2 * POS_SPAN)) by (nonlinear_arith)
            requires POS_SPAN > 0;
        lemma_sqrt_bounds(s as int, d as int, 2 * POS_SPAN as int);
        lemma_component_within(dx as int, dy as int, d as int);
        assert(dy * dy + dx * dx == s);
        lemma_component_within(dy as int, dx as int, d as int);
    }
    (dx, dy, s, d)
}

fn attr_comp_exec(dist: i128, d: i128, e: u32, ma: u64, mb: u64, dt: u32) -> (r: i128)
    requires
        0 <= dist <= 2 * POS_SPAN,
        -POS_SPAN <= d <= POS_SPAN,
        mass_ok(ma),
        mass_ok(mb),
        dt <= MAX_DT_US,
    ensures
        r == attr_comp(dist as int, d as int, e as int, ma as int, mb as int, dt as int),
        -ACC_CAP <= r <= ACC_CAP,
{
    proof {
        lemma_mul_abs(dist as int, d as int, 2 * POS_SPAN as int, POS_SPAN as int);
    }
    let s0: i128 = dist * d;
    proof {
        lemma_mul_abs(s0 as int, e as int, 2 * POS_SPAN * POS_SPAN, 0xFFFF_FFFF);
    }
    let s1 = tdiv_exec(s0 * e as i128, 1024 * PARTS);
    proof {
        lemma_tdiv_bound(s0 * e, 1024 * PARTS as int, 2 * POS_SPAN * POS_SPAN * 0xFFFF_FFFF);
        lemma_mul_abs(s1 as int, dt as int, 0x40_0000_0000_0000_0000_0000, MAX_DT_US as int);
    }
    let s2 = tdiv_exec(s1 * dt as i128, US_PER_S);
    proof {
        lemma_tdiv_bound(s1 * dt, US_PER_S as int, 0x40_0000_0000_0000_0000_0000 * MAX_DT_US);
        lemma_mul_abs(s2 as int, mb as int, 0x4_0000_0000_0000_0000_0000, MASS_MAX as int);
    }
    let s3 = tdiv_exec(s2 * mb as i128, ma as i128);
    clamp_i128(s3, ACC_CAP)
}

fn rep_comp_exec(dist: i128, d: i128, radius: i128, r: u32, ma: u64, mb: u64, dt: u32) -> (res: i128)
    requires
        0 < dist <= radius <= 0x400_0000_0000,
        -dist <= d <= dist,
        mass_ok(ma),
        mass_ok(mb),
        dt <= MAX_DT_US,
    ensures
        res == rep_comp(dist as int, d as int, radius as int, r as int, ma as int, mb as int, dt as int),
        -ACC_CAP <= res <= ACC_CAP,
{
    let mag: i128 = radius - dist;
    proof {
        lemma_mul_abs(mag as int, d as int, 0x400_0000_0000, dist as int);
        lemma_mul_abs(mag * d, r as int, 0x400_0000_0000 * dist, 0xFFFF_FFFF);
        assert(0x400_0000_0000 * dist * 0xFFFF_FFFF == (0x400_0000_0000 * 0xFFFF_FFFF) * dist) by (nonlinear_arith);
        assert(0x400_0000_0000 * dist <= 0x400_0000_0000 * 0x400_0000_0000) by (nonlinear_arith)
            requires dist <= 0x400_0000_0000;
        lemma_mul_abs(0x400_0000_0000 * dist, 0xFFFF_FFFF, (0x400_0000_0000 * 0x400_0000_0000) as int, 0xFFFF_FFFF);
    }
    let s1 = tdiv_exec(mag * d * r as i128, dist);
    proof {
        lemma_tdiv_scaled_bound(mag * d * r, dist as int, (0x400_0000_0000 * 0xFFFF_FFFF) as int);
        lemma_mul_abs(s1 as int, dt as int, (0x400_0000_0000 * 0xFFFF_FFFF) as int, MAX_DT_US as int);
    }
    let s2 = tdiv_exec(s1 * dt as i128, US_PER_S);
    proof {
        lemma_tdiv_bound(s1 * dt, US_PER_S as int, 0x400_0000_0000 * 0xFFFF_FFFF * MAX_DT_US);
        lemma_mul_abs(s2 as int, mb as int, 0x40_0000_0000_0000_0000, MASS_MAX as int);
    }
    let s3 = tdiv_exec(s2 * mb as i128, ma as i128);
    proof {
        lemma_tdiv_bound(s2 * mb, ma as int, 0x40_0000_0000_0000_0000 * MASS_MAX);
    }
    clamp_i128(-s3, ACC_CAP)
}

fn attr_acc_exec(fs: &ForceSettings, pa: Vec2, pb: Vec2, ma: u64, mb: u64, dt: u32) -> (r: (i128, i128))
    requires
        in_world(pa),
        in_world(pb),
        mass_ok(ma),
        mass_ok(mb),
        dt <= MAX_DT_US,
    ensures
        r.0 == attr_acc(*fs, pa, pb, ma, mb, dt as int).0,
        r.1 == attr_acc(*fs, pa, pb, ma, mb, dt as int).1,
        -ACC_CAP <= r.0 <= ACC_CAP,
        -ACC_CAP <= r.1 <= ACC_CAP,
{
    let (dx, dy, _s, dist) = distance(pa, pb);
    (attr_comp_exec(dist, dx, fs.e_force, ma, mb, dt), attr_comp_exec(dist, dy, fs.e_force, ma, mb, dt))
}

fn rep_acc_exec(fs: &ForceSettings, pa: Vec2, pb: Vec2, ma: u64, mb: u64, dt: u32) -> (r: (i128, i128))
    requires
        in_world(pa),
        in_world(pb),
        mass_ok(ma),
        mass_ok(mb),
        dt <= MAX_DT_US,
    ensures
        r.0 == rep_acc(*fs, pa, pb, ma, mb, dt as int).0,
        r.1 == rep_acc(*fs, pa, pb, ma, mb, dt as int).1,
        -ACC_CAP <= r.0 <= ACC_CAP,
        -ACC_CAP <= r.1 <= ACC_CAP,
{
    let (dx, dy, s, dist) = distance(pa, pb);
    let radius: i128 = fs.r_size as i128 * 1024;
    proof {
        lemma_mul_abs(radius as int, radius as int, 0x400_0000_0000, 0x400_0000_0000);
    }
    if s == 0 || s > radius * radius {
        (0, 0)
    } else {
        proof {
            assert(fs.radius() * fs.radius() == radius * radius);
            assert(dist >= 1) by {
                if dist == 0 {
                    assert(s < 1) by (nonlinear_arith)
                        requires s < (dist + 1) * (dist + 1), dist == 0;
                }
            }
            lemma_sqrt_bounds(s as int, dist as int, radius as int);
        }
        (
            rep_comp_exec(dist, dx, radius, fs.r_force, ma, mb, dt),
            rep_comp_exec(dist, dy, radius, fs.r_force, ma, mb, dt),
        )
    }
}

/// Velocity change of node `a` from node `b` along an edge.
pub open spec fn node_attr(fs: ForceSettings, g: GraphView, a: int, b: int, dt: int) -> (int, int) {
    attr_acc(fs, g.node(a).pos, g.node(b).pos, g.node(a).size, g.node(b).size, dt)
}

/// Velocity change of node `a` from the repulsion of node `b`.
pub open spec fn node_rep(fs: ForceSettings, g: GraphView, a: int, b: int, dt: int) -> (int, int) {
    rep_acc(fs, g.node(a).pos, g.node(b).pos, g.node(a).size, g.node(b).size, dt)
}

pub open spec fn add2(a: (int, int), b: (int, int)) -> (int, int) {
    (a.0 + b.0, a.1 + b.1)
}

/// Total velocity change of node `v` from the edges `edges`: each edge pulls
/// both its endpoints toward each other.
pub open spec fn attr_sum(fs: ForceSettings, g: GraphView, edges: Seq<(usize, usize)>, v: int, dt: int) -> (int, int)
    decreases edges.len(),
{
    if edges.len() == 0 {
        (0, 0)
    } else {
        let e = edges.last();
        let t1 = if e.0 == v { node_attr(fs, g, v, e.1 as int, dt) } else { (0, 0) };
        let t2 = if e.1 == v { node_attr(fs, g, v, e.0 as int, dt) } else { (0, 0) };
        add2(add2(attr_sum(fs, g, edges.drop_last(), v, dt), t1), t2)
    }
}

/// The running mass-weighted mean position over the first `k` slots, and
/// the mass seen so far: each node moves the mean toward itself by its share
/// of the mass.
pub open spec fn centroid_run(g: GraphView, k: int) -> (int, int, int)
    decreases k,
{
    if k <= 0 {
        (0, 0, 0)
    } else {
        let prev = centroid_run(g, k - 1);
        if g.has_node(k - 1) {
            let p = g.node(k - 1).pos;
            let m = g.node(k - 1).size as int;
            let w = prev.2 + m;
            (prev.0 + tdiv((p.x - prev.0) * m, w), prev.1 + tdiv((p.y - prev.1) * m, w), w)
        } else {
            prev
        }
    }
}

/// The mass-weighted centre of the nodes of `g`.
pub open spec fn centroid(g: GraphView) -> (int, int) {
    let c = centroid_run(g, g.nodes.len() as int);
    (c.0, c.1)
}

/// Velocity change of node `v` from the pull toward the centre of mass:
/// `b_force * (centre - pos) * dt`.
pub open spec fn node_cent(fs: ForceSettings, g: GraphView, v: int, dt: int) -> (int, int) {
    let c = centroid(g);
    let p = g.node(v).pos;
    (
        tdiv((c.0 - p.x) * fs.b_force * dt, PARTS * US_PER_S),
        tdiv((c.1 - p.y) * fs.b_force * dt, PARTS * US_PER_S),
    )
}

fn node_ref(g: &Graph, i: usize) -> (r: &NodePayload)
    requires
        g@.has_node(i as int),
    ensures
        r@ == g@.node(i as int),
{
    proof {
        assert(g@.nodes[i as int] == view_slot(g.nodes@[i as int]));
    }
    g.nodes[i].as_ref().unwrap()
}

/// Bound on the summed velocity change of one pass on one node.
pub const SUM_CAP: i128 = 0x8_0000_0000_0000_0000_0000_0000_0000;

/// The velocity change of every node from edge attraction.
pub fn attraction(g: &Graph, fs: &ForceSettings, dt: u32) -> (acc: Vec<(i128, i128)>)
    requires
        g.wf(),
        dt <= MAX_DT_US,
    ensures
        acc@.len() == g@.nodes.len(),
        forall|v: int|
            0 <= v < acc@.len() ==> (#[trigger] acc@[v]).0 == attr_sum(*fs, g@, g@.edges, v, dt as int).0
                && acc@[v].1 == attr_sum(*fs, g@, g@.edges, v, dt as int).1,
        forall|v: int|
            0 <= v < acc@.len() ==> -SUM_CAP <= (#[trigger] acc@[v]).0 <= SUM_CAP && -SUM_CAP <= acc@[v].1 <= SUM_CAP,
{
    let ghost gv = g@;
    let n = g.nodes.len();
    let mut acc: Vec<(i128, i128)> = Vec::new();
    let mut i: usize = 0;
    while i < n
        invariant
            i <= n,
            acc@.len() == i,
            forall|v: int| 0 <= v < i ==> (#[trigger] acc@[v]) == (0i128, 0i128),
        decreases n - i,
    {
        acc.push((0, 0));
        i += 1;
    }
    let mut k: usize = 0;
    while k < g.edges.len()
        invariant
            gv == g@,
            gv.wf(),
            dt <= MAX_DT_US,
            n == gv.nodes.len(),
            acc@.len() == n,
            k <= gv.edges.len(),
            forall|v: int|
                0 <= v < n ==> (#[trigger] acc@[v]).0 == attr_sum(*fs, gv, gv.edges.take(k as int), v, dt as int).0
                    && acc@[v].1 == attr_sum(*fs, gv, gv.edges.take(k as int), v, dt as int).1,
            forall|v: int|
                0 <= v < n ==> -2 * k * ACC_CAP <= (#[trigger] acc@[v]).0 <= 2 * k * ACC_CAP && -2 * k * ACC_CAP
                    <= acc@[v].1 <= 2 * k * ACC_CAP,
        decreases gv.edges.len() - k,
    {
        let e = g.edges[k];
        proof {
            assert(gv.edges.take(k + 1).drop_last() =~= gv.edges.take(k as int));
            assert(gv.has_node(gv.edges[k as int].0 as int));
            assert(gv.has_node(gv.edges[k as int].1 as int));
        }
        let pa = node_ref(g, e.0);
        let pb = node_ref(g, e.1);
        proof {
            assert(pa@.wf());
            assert(pb@.wf());
        }
        let ta = attr_acc_exec(fs, pa.pos, pb.pos, pa.size, pb.size, dt);
        let tb = attr_acc_exec(fs, pb.pos, pa.pos, pb.size, pa.size, dt);
        let ca = acc[e.0];
        acc.set(e.0, (ca.0 + ta.0, ca.1 + ta.1));
        let cb = acc[e.1];
        acc.set(e.1, (cb.0 + tb.0, cb.1 + tb.1));
        k += 1;
    }
    proof {
        assert(gv.edges.take(k as int) =~= gv.edges);
    }
    acc
}

proof fn lemma_step_toward(c: int, p: int, m: int, w: int)
    requires
        0 < m <= w,
    ensures
        p >= c ==> c <= c + tdiv((p - c) * m, w) <= p,
        p < c ==> p <= c + tdiv((p - c) * m, w) <= c,
{
    if p >= c {
        assert(0 <= ((p - c) * m) / w <= p - c) by (nonlinear_arith)
            requires p - c >= 0, 0 < m <= w;
    } else {
        assert(0 <= ((c - p) * m) / w <= c - p) by (nonlinear_arith)
            requires c - p > 0, 0 < m <= w;
        assert(-((p - c) * m) == (c - p) * m) by (nonlinear_arith);
    }
}

/// The mass-weighted centre of the nodes.
pub fn center_of_mass(g: &Graph) -> (r: (i128, i128))
    requires
        g.wf(),
    ensures
        r.0 == centroid(g@).0,
        r.1 == centroid(g@).1,
        -POS_MAX <= r.0 <= POS_MAX,
        -POS_MAX <= r.1 <= POS_MAX,
{
    let ghost gv = g@;
    let n = g.nodes.len();
    let mut cx: i128 = 0;
    let mut cy: i128 = 0;
    let mut w: i128 = 0;
    let mut i: usize = 0;
    while i < n
        invariant
            gv == g@,
            gv.wf(),
            n == gv.nodes.len(),
            i <= n,
            centroid_run(gv, i as int) == (cx as int, cy as int, w as int),
            -POS_MAX <= cx <= POS_MAX,
            -POS_MAX <= cy <= POS_MAX,
            0 <= w <= i * MASS_MAX,
        decreases n - i,
    {
        if g.nodes[i].is_some() {
            proof {
                assert(gv.nodes[i as int] == view_slot(g.nodes@[i as int]));
            }
            proof {
                assert(gv.has_node(i as int));
            }
            let p = node_ref(g, i);
            proof {
                assert(p@.wf());
            }
            let m: i128 = p.size as i128;
            let w2: i128 = w + m;
            let dx: i128 = p.pos.x as i128 - cx;
            let dy: i128 = p.pos.y as i128 - cy;
            proof {
                lemma_mul_abs(dx as int, m as int, 2 * POS_MAX, MASS_MAX as int);
                lemma_mul_abs(dy as int, m as int, 2 * POS_MAX, MASS_MAX as int);
                lemma_step_toward(cx as int, p.pos.x as int, m as int, w2 as int);
                lemma_step_toward(cy as int, p.pos.y as int, m as int, w2 as int);
            }
            cx = cx + tdiv_exec(dx * m, w2);
            cy = cy + tdiv_exec(dy * m, w2);
            w = w2;
        } else {
            proof {
                assert(gv.nodes[i as int] == view_slot(g.nodes@[i as int]));
            }
        }
        i += 1;
    }
    (cx, cy)
}

fn cent_comp_exec(c: i128, p: i64, b: u32, dt: u32) -> (r: i128)
    requires
        -POS_MAX <= c <= POS_MAX,
        -POS_MAX <= p <= POS_MAX,
        dt <= MAX_DT_US,
    ensures
        r == tdiv((c - p) * b * dt, PARTS * US_PER_S),
        -ACC_CAP <= r <= ACC_CAP,
{
    let d: i128 = c - p as i128;
    proof {
        lemma_mul_abs(d as int, b as int, 2 * POS_MAX, 0xFFFF_FFFF);
        lemma_mul_abs(d * b, dt as int, 2 * POS_MAX * 0xFFFF_FFFF, MAX_DT_US as int);
        lemma_tdiv_bound(d * b * dt, PARTS * US_PER_S, 2 * POS_MAX * 0xFFFF_FFFF * MAX_DT_US);
    }
    tdiv_exec(d * b as i128 * dt as i128, PARTS * US_PER_S)
}

pub open spec fn xpos(g: GraphView, i: int) -> int {
    g.node(i).pos.x as int
}

/// `ord` lists every node of `g` once, by nondecreasing x coordinate.
pub open spec fn is_x_order(g: GraphView, ord: Seq<usize>) -> bool {
    &&& ord.no_duplicates()
    &&& forall|k: int| 0 <= k < ord.len() ==> g.has_node(#[trigger] ord[k] as int)
    &&& forall|v: int| #[trigger] g.has_node(v) ==> ord.contains(v as usize)
    &&& forall|i: int, j: int| 0 <= i < j < ord.len() ==> xpos(g, #[trigger] ord[i] as int) <= xpos(g, #[trigger] ord[j] as int)
}

pub open spec fn x_sorted(g: GraphView, s: Seq<usize>) -> bool {
    forall|i: int, j: int| 0 <= i < j < s.len() ==> xpos(g, #[trigger] s[i] as int) <= xpos(g, #[trigger] s[j] as int)
}

pub open spec fn all_nodes(g: GraphView, s: Seq<usize>) -> bool {
    forall|k: int| 0 <= k < s.len() ==> g.has_node(#[trigger] s[k] as int)
}

proof fn lemma_take_contains(s: Seq<usize>, i: int, x: usize)
    requires
        0 <= i < s.len(),
    ensures
        s.take(i + 1).contains(x) <==> (s.take(i).contains(x) || s[i] == x),
{
    if s.take(i + 1).contains(x) && s[i] != x {
        let t = choose|t: int| 0 <= t < i + 1 && #[trigger] s.take(i + 1)[t] == x;
        assert(s.take(i)[t] == x);
    }
    if s.take(i).contains(x) {
        let t = choose|t: int| 0 <= t < i && #[trigger] s.take(i)[t] == x;
        assert(s.take(i + 1)[t] == x);
    }
    if s[i] == x {
        assert(s.take(i + 1)[i] == x);
    }
}

/// Merges two x-sorted lists of distinct nodes with no node in common.
fn merge_by_x(g: &Graph, a: &Vec<usize>, b: &Vec<usize>) -> (r: Vec<usize>)
    requires
        all_nodes(g@, a@),
        all_nodes(g@, b@),
        x_sorted(g@, a@),
        x_sorted(g@, b@),
        a@.no_duplicates(),
        b@.no_duplicates(),
        forall|x: usize| !(a@.contains(x) && b@.contains(x)),
    ensures
        all_nodes(g@, r@),
        x_sorted(g@, r@),
        r@.no_duplicates(),
        forall|x: usize| r@.contains(x) <==> (a@.contains(x) || b@.contains(x)),
{
    let ghost gv = g@;
    let mut r: Vec<usize> = Vec::new();
    let mut i: usize = 0;
    let mut j: usize = 0;
    while i < a.len() || j < b.len()
        invariant
            gv == g@,
            all_nodes(gv, a@),
            all_nodes(gv, b@),
            x_sorted(gv, a@),
            x_sorted(gv, b@),
            a@.no_duplicates(),
            b@.no_duplicates(),
            forall|x: usize| !(a@.contains(x) && b@.contains(x)),
            i <= a@.len(),
            j <= b@.len(),
            all_nodes(gv, r@),
            x_sorted(gv, r@),
            r@.no_duplicates(),
            forall|x: usize| r@.contains(x) <==> (a@.take(i as int).contains(x) || b@.take(j as int).contains(x)),
            forall|k: int| 0 <= k < r@.len() && i < a@.len() ==> xpos(gv, #[trigger] r@[k] as int) <= xpos(gv, a@[i as int] as int),
            forall|k: int| 0 <= k < r@.len() && j < b@.len() ==> xpos(gv, #[trigger] r@[k] as int) <= xpos(gv, b@[j as int] as int),
        decreases a@.len() + b@.len() - i - j,
    {
        let take_a = if i < a.len() && j < b.len() {
            node_ref(g, a[i]).pos.x <= node_ref(g, b[j]).pos.x
        } else {
            i < a.len()
        };
        let ghost r0 = r@;
        assert(forall|y: usize| r0.contains(y) <==> (a@.take(i as int).contains(y) || b@.take(j as int).contains(y)));
        let x = if take_a { a[i] } else { b[j] };
        proof {
            if take_a {
                assert(!a@.take(i as int).contains(x)) by {
                    if a@.take(i as int).contains(x) {
                        let t = choose|t: int| 0 <= t < i && #[trigger] a@.take(i as int)[t] == x;
                        assert(a@[t] == a@[i as int]);
                    }
                }
                assert(!b@.take(j as int).contains(x)) by {
                    if b@.take(j as int).contains(x) {
                        let t = choose|t: int| 0 <= t < j && #[trigger] b@.take(j as int)[t] == x;
                        assert(b@.contains(x) && a@.contains(x));
                    }
                }
            } else {
                assert(!b@.take(j as int).contains(x)) by {
                    if b@.take(j as int).contains(x) {
                        let t = choose|t: int| 0 <= t < j && #[trigger] b@.take(j as int)[t] == x;
                        assert(b@[t] == b@[j as int]);
                    }
                }
                assert(!a@.take(i as int).contains(x)) by {
                    if a@.take(i as int).contains(x) {
                        let t = choose|t: int| 0 <= t < i && #[trigger] a@.take(i as int)[t] == x;
                        assert(b@.contains(x) && a@.contains(x));
                    }
                }
            }
            assert(!r0.contains(x));
        }
        r.push(x);
        proof {
            assert(r@ == r0.push(x));
            assert forall|y: usize| #[trigger] r@.contains(y) <==> (r0.contains(y) || y == x) by {
                if r@.contains(y) && y != x {
                    let t = choose|t: int| 0 <= t < r@.len() && r@[t] == y;
                    assert(r0[t] == y);
                }
                if r0.contains(y) {
                    let t = choose|t: int| 0 <= t < r0.len() && r0[t] == y;
                    assert(r@[t] == y);
                }
                if y == x {
                    assert(r@[r0.len() as int] == y);
                }
            }
            assert forall|p: int, q: int| 0 <= p < q < r@.len() implies r@[p] != r@[q] by {
                if q == r0.len() {
                    assert(r0.contains(r@[p]));
                }
            }
        }
        if take_a {
            proof {
                assert forall|y: usize| r@.contains(y) <==> (a@.take(i + 1).contains(y) || b@.take(j as int).contains(y)) by {
                    lemma_take_contains(a@, i as int, y);
                    assert(r@.contains(y) <==> (r0.contains(y) || y == x));
                    assert(r0.contains(y) <==> (a@.take(i as int).contains(y) || b@.take(j as int).contains(y)));
                }
            }
            i += 1;
        } else {
            proof {
                assert forall|y: usize| r@.contains(y) <==> (a@.take(i as int).contains(y) || b@.take(j + 1).contains(y)) by {
                    lemma_take_contains(b@, j as int, y);
                    assert(r@.contains(y) <==> (r0.contains(y) || y == x));
                    assert(r0.contains(y) <==> (a@.take(i as int).contains(y) || b@.take(j as int).contains(y)));
                }
            }
            j += 1;
        }
    }
    proof {
        assert(a@.take(i as int) =~= a@);
        assert(b@.take(j as int) =~= b@);
    }
    r
}

/// Sorts a list of distinct nodes by x coordinate.
fn merge_sort_by_x(g: &Graph, v: Vec<usize>) -> (r: Vec<usize>)
    requires
        all_nodes(g@, v@),
        v@.no_duplicates(),
    ensures
        all_nodes(g@, r@),
        x_sorted(g@, r@),
        r@.no_duplicates(),
        forall|x: usize| r@.contains(x) <==> v@.contains(x),
    decreases v@.len(),
{
    if v.len() <= 1 {
        return v;
    }
    let mut left = v;
    let ghost whole = left@;
    let mid = left.len() / 2;
    let right = left.split_off(mid);
    proof {
        assert(left@ =~= whole.take(mid as int));
        assert(right@ =~= whole.skip(mid as int));
        assert forall|x: usize| whole.contains(x) <==> (left@.contains(x) || right@.contains(x)) by {
            if whole.contains(x) {
                let t = choose|t: int| 0 <= t < whole.len() && whole[t] == x;
                if t < mid {
                    assert(left@[t] == x);
                } else {
                    assert(right@[t - mid] == x);
                }
            }
            if left@.contains(x) {
                let t = choose|t: int| 0 <= t < left@.len() && left@[t] == x;
                assert(whole[t] == x);
            }
            if right@.contains(x) {
                let t = choose|t: int| 0 <= t < right@.len() && right@[t] == x;
                assert(whole[t + mid] == x);
            }
        }
        assert forall|x: usize| !(left@.contains(x) && right@.contains(x)) by {
            if left@.contains(x) && right@.contains(x) {
                let t = choose|t: int| 0 <= t < left@.len() && left@[t] == x;
                let u = choose|u: int| 0 <= u < right@.len() && right@[u] == x;
                assert(whole[t] == whole[u + mid]);
            }
        }
        assert forall|k: int| 0 <= k < left@.len() implies g@.has_node(#[trigger] left@[k] as int) by {
            assert(left@[k] == whole[k]);
        }
        assert forall|k: int| 0 <= k < right@.len() implies g@.has_node(#[trigger] right@[k] as int) by {
            assert(right@[k] == whole[k + mid]);
        }
        assert forall|p: int, q: int| 0 <= p < q < right@.len() implies right@[p] != right@[q] by {
            assert(right@[p] == whole[p + mid] && right@[q] == whole[q + mid]);
        }
    }
    let sl = merge_sort_by_x(g, left);
    let sr = merge_sort_by_x(g, right);
    merge_by_x(g, &sl, &sr)
}

/// The nodes of `g` sorted by x coordinate.
pub fn sort_by_x(g: &Graph) -> (ord: Vec<usize>)
    requires
        g.wf(),
    ensures
        is_x_order(g@, ord@),
{
    let ghost gv = g@;
    let n = g.nodes.len();
    let mut ids: Vec<usize> = Vec::new();
    let mut i: usize = 0;
    while i < n
        invariant
            gv == g@,
            n == gv.nodes.len(),
            i <= n,
            ids@.no_duplicates(),
            all_nodes(gv, ids@),
            forall|k: int| 0 <= k < ids@.len() ==> (#[trigger] ids@[k]) < i,
            forall|v: int| 0 <= v < i && #[trigger] gv.has_node(v) ==> ids@.contains(v as usize),
        decreases n - i,
    {
        proof {
            assert(gv.nodes[i as int] == view_slot(g.nodes@[i as int]));
        }
        if g.nodes[i].is_some() {
            let ghost before = ids@;
            ids.push(i);
            proof {
                assert forall|v: int| 0 <= v < i + 1 && #[trigger] gv.has_node(v) implies ids@.contains(v as usize) by {
                    if v == i {
                        assert(ids@[before.len() as int] == i);
                    } else {
                        let t = choose|t: int| 0 <= t < before.len() && before[t] == v as usize;
                        assert(ids@[t] == v as usize);
                    }
                }
            }
        }
        i += 1;
    }
    merge_sort_by_x(g, ids)
}

/// Sum of the repulsion on node `v` from the nodes `b < k` marked in `mask`,
/// other than `v` itself.
pub open spec fn rep_partial(fs: ForceSettings, g: GraphView, v: int, mask: Seq<bool>, k: int, dt: int) -> (int, int)
    decreases k,
{
    if k <= 0 {
        (0, 0)
    } else {
        let t = if mask[k - 1] && k - 1 != v { node_rep(fs, g, v, k - 1, dt) } else { (0, 0) };
        add2(rep_partial(fs, g, v, mask, k - 1, dt), t)
    }
}

pub open spec fn present_mask(g: GraphView) -> Seq<bool> {
    Seq::new(g.nodes.len(), |i: int| g.nodes[i] is Some)
}

/// Total repulsion on node `v` from every other node of `g`.
pub open spec fn rep_sum(fs: ForceSettings, g: GraphView, v: int, dt: int) -> (int, int) {
    rep_partial(fs, g, v, present_mask(g), g.nodes.len() as int, dt)
}

/// The nodes among the first `k` entries of `ord`.
pub open spec fn ids_of(ord: Seq<usize>, k: int, n: nat) -> Seq<bool> {
    Seq::new(n, |v: int| ord.take(k).contains(v as usize))
}

proof fn lemma_rep_mark(fs: ForceSettings, g: GraphView, v: int, mask: Seq<bool>, c: int, k: int, dt: int)
    requires
        0 <= c < mask.len(),
        0 <= k <= mask.len(),
    ensures
        rep_partial(fs, g, v, mask.update(c, true), k, dt) == add2(
            rep_partial(fs, g, v, mask, k, dt),
            if c < k && !mask[c] && c != v { node_rep(fs, g, v, c, dt) } else { (0, 0) },
        ),
    decreases k,
{
    if k > 0 {
        lemma_rep_mark(fs, g, v, mask, c, k - 1, dt);
    }
}

proof fn lemma_rep_none(fs: ForceSettings, g: GraphView, v: int, mask: Seq<bool>, k: int, dt: int)
    requires
        forall|b: int| 0 <= b < k && #[trigger] mask[b] && b != v ==> node_rep(fs, g, v, b, dt) == (0int, 0int),
    ensures
        rep_partial(fs, g, v, mask, k, dt) == (0int, 0int),
    decreases k,
{
    if k > 0 {
        lemma_rep_none(fs, g, v, mask, k - 1, dt);
    }
}

proof fn lemma_rep_bound(fs: ForceSettings, g: GraphView, v: int, mask: Seq<bool>, k: int, dt: int)
    requires
        k >= 0,
    ensures
        -k * ACC_CAP <= rep_partial(fs, g, v, mask, k, dt).0 <= k * ACC_CAP,
        -k * ACC_CAP <= rep_partial(fs, g, v, mask, k, dt).1 <= k * ACC_CAP,
    decreases k,
{
    if k > 0 {
        lemma_rep_bound(fs, g, v, mask, k - 1, dt);
    }
}

proof fn lemma_far_apart(fs: ForceSettings, pa: Vec2, pb: Vec2, ma: u64, mb: u64, dt: int)
    requires
        pb.x - pa.x > fs.radius() || pa.x - pb.x > fs.radius(),
    ensures
        rep_acc(fs, pa, pb, ma, mb, dt) == (0int, 0int),
{
    let dx = pb.x - pa.x;
    let dy = pb.y - pa.y;
    let r = fs.radius();
    assert(dx * dx > r * r) by (nonlinear_arith)
        requires dx > r || -dx > r, r >= 0;
    assert(dy * dy >= 0) by (nonlinear_arith);
}

proof fn lemma_ids_step(ord: Seq<usize>, k: int, n: nat)
    requires
        n <= usize::MAX,
        0 <= k < ord.len(),
        ord[k] < n,
    ensures
        ids_of(ord, k + 1, n) == ids_of(ord, k, n).update(ord[k] as int, true),
{
    let a = ids_of(ord, k + 1, n);
    let b = ids_of(ord, k, n).update(ord[k] as int, true);
    assert forall|v: int| 0 <= v < n implies a[v] == b[v] by {
        if v == ord[k] {
            assert(ord.take(k + 1)[k] == ord[k]);
        } else {
            if ord.take(k).contains(v as usize) {
                let t = choose|t: int| 0 <= t < k && #[trigger] ord.take(k)[t] == v as usize;
                assert(ord.take(k + 1)[t] == v as usize);
            }
            if ord.take(k + 1).contains(v as usize) {
                let t = choose|t: int| 0 <= t < k + 1 && #[trigger] ord.take(k + 1)[t] == v as usize;
                assert(ord.take(k)[t] == v as usize);
            }
        }
    }
    assert(a =~= b);
}

/// The velocity change of every node from repulsion, by a sweep over the
/// nodes sorted by x that keeps a window of the nodes at most the repulsion
/// radius to the left of the current one.
pub fn repulsion(g: &Graph, fs: &ForceSettings, dt: u32) -> (acc: Vec<(i128, i128)>)
    requires
        g.wf(),
        dt <= MAX_DT_US,
    ensures
        acc@.len() == g@.nodes.len(),
        forall|v: int|
            0 <= v < acc@.len() && g@.has_node(v) ==> (#[trigger] acc@[v]).0 == rep_sum(*fs, g@, v, dt as int).0
                && acc@[v].1 == rep_sum(*fs, g@, v, dt as int).1,
        forall|v: int|
            0 <= v < acc@.len() ==> -SUM_CAP <= (#[trigger] acc@[v]).0 <= SUM_CAP && -SUM_CAP <= acc@[v].1 <= SUM_CAP,
{
    let ghost gv = g@;
    let ghost dti = dt as int;
    let n = g.nodes.len();
    let ord = sort_by_x(g);
    let radius: i128 = fs.r_size as i128 * 1024;
    let mut acc: Vec<(i128, i128)> = Vec::new();
    let mut i: usize = 0;
    while i < n
        invariant
            i <= n,
            acc@.len() == i,
            forall|v: int| 0 <= v < i ==> (#[trigger] acc@[v]) == (0i128, 0i128),
        decreases n - i,
    {
        acc.push((0, 0));
        i += 1;
    }
    proof {
        assert forall|k: int| 0 <= k < ord@.len() implies (#[trigger] ord@[k]) < n by {
            assert(gv.has_node(ord@[k] as int));
        }
        assert(ord@.take(0) =~= Seq::<usize>::empty());
        assert forall|v: int| 0 <= v < n implies !(#[trigger] ids_of(ord@, 0, n as nat)[v]) by {}
    }
    let mut lo: usize = 0;
    let mut i: usize = 0;
    while i < ord.len()
        invariant
            gv == g@,
            gv.wf(),
            dt <= MAX_DT_US,
            dti == dt as int,
            n == gv.nodes.len(),
            radius == fs.radius(),
            is_x_order(gv, ord@),
            forall|k: int| 0 <= k < ord@.len() ==> (#[trigger] ord@[k]) < n,
            acc@.len() == n,
            lo <= i <= ord@.len(),
            i > 0 ==> forall|j: int| 0 <= j < lo ==> xpos(gv, ord@[i - 1] as int) - xpos(gv, #[trigger] ord@[j] as int) > radius,
            forall|v: int|
                0 <= v < n ==> (#[trigger] acc@[v]).0 == (if ids_of(ord@, i as int, n as nat)[v] {
                    rep_partial(*fs, gv, v, ids_of(ord@, i as int, n as nat), n as int, dti).0
                } else {
                    0
                }) && acc@[v].1 == (if ids_of(ord@, i as int, n as nat)[v] {
                    rep_partial(*fs, gv, v, ids_of(ord@, i as int, n as nat), n as int, dti).1
                } else {
                    0
                }),
        decreases ord@.len() - i,
    {
        let c = ord[i];
        let ghost mi = ids_of(ord@, i as int, n as nat);
        let ghost mi1 = ids_of(ord@, i + 1, n as nat);
        proof {
            lemma_ids_step(ord@, i as int, n as nat);
            assert(!mi[c as int]) by {
                if ord@.take(i as int).contains(c) {
                    let t = choose|t: int| 0 <= t < i && #[trigger] ord@.take(i as int)[t] == c;
                    assert(ord@[t] == ord@[i as int]);
                }
            }
            assert(gv.has_node(c as int));
        }
        let pc = node_ref(g, c);
        proof {
            assert(pc@.wf());
        }
        while lo < i && pc.pos.x as i128 - node_ref(g, ord[lo]).pos.x as i128 > radius
            invariant
                gv == g@,
                gv.wf(),
                is_x_order(gv, ord@),
                lo <= i < ord@.len(),
                c == ord@[i as int],
                pc@ == gv.node(c as int),
                radius == fs.radius(),
                forall|j: int| 0 <= j < lo ==> xpos(gv, c as int) - xpos(gv, #[trigger] ord@[j] as int) > radius,
            decreases i - lo,
        {
            lo += 1;
        }
        proof {
            // Nodes left of the window are too far for any repulsion, both ways.
            let m_lo = ids_of(ord@, lo as int, n as nat);
            assert forall|b: int| 0 <= b < n && #[trigger] m_lo[b] implies node_rep(*fs, gv, c as int, b, dti) == (0int, 0int)
                && node_rep(*fs, gv, b, c as int, dti) == (0int, 0int) by {
                let t = choose|t: int| 0 <= t < lo && #[trigger] ord@.take(lo as int)[t] == b as usize;
                assert(ord@[t] == b);
                lemma_far_apart(*fs, gv.node(c as int).pos, gv.node(b).pos, gv.node(c as int).size, gv.node(b).size, dti);
                lemma_far_apart(*fs, gv.node(b).pos, gv.node(c as int).pos, gv.node(b).size, gv.node(c as int).size, dti);
            }
            lemma_rep_none(*fs, gv, c as int, m_lo, n as int, dti);
            assert(acc@[c as int] == (0i128, 0i128));
            assert forall|v: int| 0 <= v < n && v != c && mi[v] && #[trigger] m_lo[v] implies
                rep_partial(*fs, gv, v, mi1, n as int, dti) == rep_partial(*fs, gv, v, mi, n as int, dti) by {
                lemma_rep_mark(*fs, gv, v, mi, c as int, n as int, dti);
            }
        }
        let mut j: usize = lo;
        while j < i
            invariant
                gv == g@,
                gv.wf(),
                dt <= MAX_DT_US,
                dti == dt as int,
                n == gv.nodes.len(),
                is_x_order(gv, ord@),
                forall|k: int| 0 <= k < ord@.len() ==> (#[trigger] ord@[k]) < n,
                acc@.len() == n,
                lo <= j <= i < ord@.len(),
                c == ord@[i as int],
                pc@ == gv.node(c as int),
                pc@.wf(),
                mi == ids_of(ord@, i as int, n as nat),
                mi1 == mi.update(c as int, true),
                !mi[c as int],
                forall|b: int| 0 <= b < n && #[trigger] ids_of(ord@, lo as int, n as nat)[b]
                    ==> node_rep(*fs, gv, b, c as int, dti) == (0int, 0int),
                (acc@[c as int].0 as int, acc@[c as int].1 as int) == rep_partial(*fs, gv, c as int, ids_of(ord@, j as int, n as nat), n as int, dti),
                forall|v: int|
                    0 <= v < n && v != c ==> (#[trigger] acc@[v]).0 == (if mi[v] {
                        if ids_of(ord@, j as int, n as nat)[v] {
                            rep_partial(*fs, gv, v, mi1, n as int, dti).0
                        } else {
                            rep_partial(*fs, gv, v, mi, n as int, dti).0
                        }
                    } else {
                        0
                    }) && acc@[v].1 == (if mi[v] {
                        if ids_of(ord@, j as int, n as nat)[v] {
                            rep_partial(*fs, gv, v, mi1, n as int, dti).1
                        } else {
                            rep_partial(*fs, gv, v, mi, n as int, dti).1
                        }
                    } else {
                        0
                    }),
            decreases i - j,
        {
            let b = ord[j];
            let ghost mj = ids_of(ord@, j as int, n as nat);
            proof {
                lemma_ids_step(ord@, j as int, n as nat);
                assert(gv.has_node(b as int));
                assert(b != c);
                assert(!mj[b as int]) by {
                    if ord@.take(j as int).contains(b) {
                        let t = choose|t: int| 0 <= t < j && #[trigger] ord@.take(j as int)[t] == b;
                        assert(ord@[t] == ord@[j as int]);
                    }
                }
                assert(mi[b as int]) by {
                    assert(ord@.take(i as int)[j as int] == b);
                }
                lemma_rep_mark(*fs, gv, c as int, mj, b as int, n as int, dti);
                lemma_rep_mark(*fs, gv, b as int, mi, c as int, n as int, dti);
                lemma_rep_bound(*fs, gv, c as int, ids_of(ord@, j + 1, n as nat), n as int, dti);
                lemma_rep_bound(*fs, gv, b as int, mi1, n as int, dti);
                assert(n * ACC_CAP <= SUM_CAP) by (nonlinear_arith)
                    requires n <= 0xFFFF_FFFF_FFFF_FFFF, ACC_CAP == 0x4_0000_0000_0000, SUM_CAP == 0x8_0000_0000_0000_0000_0000_0000_0000;
            }
            let pb = node_ref(g, b);
            proof {
                assert(pb@.wf());
            }
            let tc = rep_acc_exec(fs, pc.pos, pb.pos, pc.size, pb.size, dt);
            let tb = rep_acc_exec(fs, pb.pos, pc.pos, pb.size, pc.size, dt);
            let ac = acc[c];
            acc.set(c, (ac.0 + tc.0, ac.1 + tc.1));
            let ab = acc[b];
            acc.set(b, (ab.0 + tb.0, ab.1 + tb.1));
            proof {
                assert forall|v: int| 0 <= v < n && v != c && v != b implies
                    ids_of(ord@, j + 1, n as nat)[v] == mj[v] by {}
            }
            j += 1;
        }
        proof {
            lemma_rep_mark(*fs, gv, c as int, mi, c as int, n as int, dti);
            assert forall|v: int| 0 <= v < n implies (#[trigger] acc@[v]).0 == (if mi1[v] {
                rep_partial(*fs, gv, v, mi1, n as int, dti).0
            } else {
                0
            }) && acc@[v].1 == (if mi1[v] {
                rep_partial(*fs, gv, v, mi1, n as int, dti).1
            } else {
                0
            }) by {
                if v != c && mi[v] {
                    lemma_rep_mark(*fs, gv, v, mi, c as int, n as int, dti);
                }
            }
        }
        i += 1;
    }
    proof {
        let mall = ids_of(ord@, i as int, n as nat);
        assert(ord@.take(i as int) =~= ord@);
        assert forall|v: int| 0 <= v < n implies mall[v] == present_mask(gv)[v] by {
            if gv.nodes[v] is Some {
                assert(gv.has_node(v));
            }
            if mall[v] {
                let t = choose|t: int| 0 <= t < ord@.len() && #[trigger] ord@[t] == v as usize;
                assert(gv.has_node(ord@[t] as int));
            }
        }
        assert(mall =~= present_mask(gv));
        assert forall|v: int| 0 <= v < n implies -SUM_CAP <= (#[trigger] acc@[v]).0 <= SUM_CAP && -SUM_CAP <= acc@[v].1 <= SUM_CAP by {
            lemma_rep_bound(*fs, gv, v, mall, n as int, dti);
            assert(n * ACC_CAP <= SUM_CAP) by (nonlinear_arith)
                requires n <= 0xFFFF_FFFF_FFFF_FFFF, ACC_CAP == 0x4_0000_0000_0000, SUM_CAP == 0x8_0000_0000_0000_0000_0000_0000_0000;
        }
    }
    acc
}

/// The velocity change of node `v` from the three force passes together.
pub open spec fn pass_delta(fs: ForceSettings, g: GraphView, v: int, dt: int) -> (int, int) {
    add2(add2(attr_sum(fs, g, g.edges, v, dt), rep_sum(fs, g, v, dt)), node_cent(fs, g, v, dt))
}

/// The share of velocity kept by damping, in millionths.
pub open spec fn keep_factor(fs: ForceSettings) -> int {
    if fs.stiffness > PARTS { 0 } else { PARTS - fs.stiffness }
}

/// The velocity of node `v` after the force passes, damping and the speed
/// ceiling.
pub open spec fn next_vel(fs: ForceSettings, g: GraphView, v: int, dt: int) -> (int, int) {
    let vel = g.node(v).vel;
    let d = pass_delta(fs, g, v, dt);
    let ux = tdiv(clamp_spec(vel.x + d.0, VEL_SAT as int) * keep_factor(fs), PARTS as int);
    let uy = tdiv(clamp_spec(vel.y + d.1, VEL_SAT as int) * keep_factor(fs), PARTS as int);
    let s = ux * ux + uy * uy;
    if s > SPEED_LIMIT * SPEED_LIMIT {
        (tdiv(ux * SPEED_LIMIT, sqrt_floor(s)), tdiv(uy * SPEED_LIMIT, sqrt_floor(s)))
    } else {
        (ux, uy)
    }
}

/// The node `v` after one step: moved by its new velocity over `dt`, held
/// inside the world.
pub open spec fn next_node(fs: ForceSettings, g: GraphView, v: int, dt: int) -> NodeView {
    let n = g.node(v);
    let w = next_vel(fs, g, v, dt);
    NodeView {
        vel: Vec2 { x: w.0 as i64, y: w.1 as i64 },
        pos: Vec2 {
            x: clamp_spec(n.pos.x + tdiv(w.0 * dt, US_PER_S as int), POS_MAX as int) as i64,
            y: clamp_spec(n.pos.y + tdiv(w.1 * dt, US_PER_S as int), POS_MAX as int) as i64,
        },
        ..n
    }
}

/// The graph after one layout step of `dt` microseconds; a step of no time
/// changes nothing.
pub open spec fn stepped(fs: ForceSettings, g: GraphView, dt: int) -> GraphView {
    if dt == 0 {
        g
    } else {
        GraphView {
            nodes: Seq::new(
                g.nodes.len(),
                |i: int|
                    match g.nodes[i] {
                        Some(_) => Some(next_node(fs, g, i, dt)),
                        None => None,
                    },
            ),
            edges: g.edges,
        }
    }
}

proof fn lemma_square_le(x: int, l: int)
    requires
        l >= 0,
        x * x <= l * l,
    ensures
        -l <= x <= l,
{
    if x > l {
        assert(x * x > l * l) by (nonlinear_arith) requires x > l, l >= 0;
    }
    if x < -l {
        assert(x * x > l * l) by (nonlinear_arith) requires -x > l, l >= 0;
    }
}

fn limit_speed(ux: i128, uy: i128) -> (r: (i128, i128))
    requires
        -VEL_SAT <= ux <= VEL_SAT,
        -VEL_SAT <= uy <= VEL_SAT,
    ensures
        ux * ux + uy * uy > SPEED_LIMIT * SPEED_LIMIT ==> r.0 as int == tdiv(ux * SPEED_LIMIT, sqrt_floor(ux * ux + uy * uy))
            && r.1 as int == tdiv(uy * SPEED_LIMIT, sqrt_floor(ux * ux + uy * uy)),
        ux * ux + uy * uy <= SPEED_LIMIT * SPEED_LIMIT ==> r.0 == ux && r.1 == uy,
        -SPEED_LIMIT <= r.0 <= SPEED_LIMIT,
        -SPEED_LIMIT <= r.1 <= SPEED_LIMIT,
{
    proof {
        lemma_mul_abs(ux as int, ux as int, VEL_SAT as int, VEL_SAT as int);
        lemma_mul_abs(uy as int, uy as int, VEL_SAT as int, VEL_SAT as int);
        assert(0 <= ux * ux && 0 <= uy * uy) by (nonlinear_arith);
    }
    let s: i128 = ux * ux + uy * uy;
    if s > SPEED_LIMIT * SPEED_LIMIT {
        proof {
            assert(0 <= s <= 2 * VEL_SAT * VEL_SAT);
        }
        let r = isqrt(s as u128) as i128;
        proof {
            lemma_component_within(ux as int, uy as int, r as int);
            assert(uy * uy + ux * ux == s);
            lemma_component_within(uy as int, ux as int, r as int);
            assert(r >= SPEED_LIMIT) by {
                if r < SPEED_LIMIT {
                    assert((r + 1) * (r + 1) <= SPEED_LIMIT * SPEED_LIMIT) by (nonlinear_arith)
                        requires 0 <= r, r + 1 <= SPEED_LIMIT;
                }
            }
            lemma_mul_abs(ux as int, SPEED_LIMIT as int, r as int, SPEED_LIMIT as int);
            lemma_mul_abs(uy as int, SPEED_LIMIT as int, r as int, SPEED_LIMIT as int);
            lemma_mul_abs(ux as int, SPEED_LIMIT as int, VEL_SAT as int, SPEED_LIMIT as int);
            lemma_mul_abs(uy as int, SPEED_LIMIT as int, VEL_SAT as int, SPEED_LIMIT as int);
            assert(r * SPEED_LIMIT == SPEED_LIMIT * r) by (nonlinear_arith);
            lemma_tdiv_scaled_bound(ux * SPEED_LIMIT, r as int, SPEED_LIMIT as int);
            lemma_tdiv_scaled_bound(uy * SPEED_LIMIT, r as int, SPEED_LIMIT as int);
        }
        (tdiv_exec(ux * SPEED_LIMIT, r), tdiv_exec(uy * SPEED_LIMIT, r))
    } else {
        proof {
            lemma_square_le(ux as int, SPEED_LIMIT as int);
            lemma_square_le(uy as int, SPEED_LIMIT as int);
        }
        proof {
            assert(ux * ux <= s && uy * uy <= s);
        }
        (ux, uy)
    }
}

/// The new velocity and position of node `i`.
fn advance_node(p: &NodePayload, a: (i128, i128), r: (i128, i128), c: (i128, i128), fs: &ForceSettings, dt: u32) -> (res: (Vec2, Vec2))
    requires
        p@.wf(),
        dt <= MAX_DT_US,
        -SUM_CAP <= a.0 <= SUM_CAP,
        -SUM_CAP <= a.1 <= SUM_CAP,
        -SUM_CAP <= r.0 <= SUM_CAP,
        -SUM_CAP <= r.1 <= SUM_CAP,
        -ACC_CAP <= c.0 <= ACC_CAP,
        -ACC_CAP <= c.1 <= ACC_CAP,
    ensures
        ({
            let ux = tdiv(clamp_spec(p.vel.x + a.0 + r.0 + c.0, VEL_SAT as int) * keep_factor(*fs), PARTS as int);
            let uy = tdiv(clamp_spec(p.vel.y + a.1 + r.1 + c.1, VEL_SAT as int) * keep_factor(*fs), PARTS as int);
            let s = ux * ux + uy * uy;
            let w = if s > SPEED_LIMIT * SPEED_LIMIT {
                (tdiv(ux * SPEED_LIMIT, sqrt_floor(s)), tdiv(uy * SPEED_LIMIT, sqrt_floor(s)))
            } else {
                (ux, uy)
            };
            &&& res.0 == (Vec2 { x: w.0 as i64, y: w.1 as i64 })
            &&& res.1 == (Vec2 {
                x: clamp_spec(p.pos.x + tdiv(w.0 * dt, US_PER_S as int), POS_MAX as int) as i64,
                y: clamp_spec(p.pos.y + tdiv(w.1 * dt, US_PER_S as int), POS_MAX as int) as i64,
            })
            &&& -SPEED_LIMIT <= w.0 <= SPEED_LIMIT
            &&& -SPEED_LIMIT <= w.1 <= SPEED_LIMIT
        }),
        crate::graph::pos_in_world(res.1),
{
    let keep: i128 = if fs.stiffness as i128 > PARTS { 0 } else { PARTS - fs.stiffness as i128 };
    let vx = clamp_i128(p.vel.x as i128 + a.0 + r.0 + c.0, VEL_SAT);
    let vy = clamp_i128(p.vel.y as i128 + a.1 + r.1 + c.1, VEL_SAT);
    proof {
        lemma_mul_abs(vx as int, keep as int, VEL_SAT as int, PARTS as int);
        lemma_mul_abs(vy as int, keep as int, VEL_SAT as int, PARTS as int);
        assert(VEL_SAT * PARTS == PARTS * VEL_SAT) by (nonlinear_arith);
        lemma_tdiv_scaled_bound(vx * keep, PARTS as int, VEL_SAT as int);
        lemma_tdiv_scaled_bound(vy * keep, PARTS as int, VEL_SAT as int);
    }
    let ux = tdiv_exec(vx * keep, PARTS);
    let uy = tdiv_exec(vy * keep, PARTS);
    let w = limit_speed(ux, uy);
    proof {
        lemma_mul_abs(w.0 as int, dt as int, SPEED_LIMIT as int, MAX_DT_US as int);
        lemma_mul_abs(w.1 as int, dt as int, SPEED_LIMIT as int, MAX_DT_US as int);
        lemma_tdiv_bound(w.0 * dt, US_PER_S as int, SPEED_LIMIT * MAX_DT_US);
        lemma_tdiv_bound(w.1 * dt, US_PER_S as int, SPEED_LIMIT * MAX_DT_US);
    }
    let nx = clamp_i128(p.pos.x as i128 + tdiv_exec(w.0 * dt as i128, US_PER_S), POS_MAX as i128);
    let ny = clamp_i128(p.pos.y as i128 + tdiv_exec(w.1 * dt as i128, US_PER_S), POS_MAX as i128);
    (Vec2 { x: w.0 as i64, y: w.1 as i64 }, Vec2 { x: nx as i64, y: ny as i64 })
}

/// Advances the layout by `dt` microseconds: edge attraction, repulsion
/// within the repulsion radius and the pull toward the centre of mass change
/// every node's velocity, computed from the positions at the start of the
/// step; then the velocity is damped, held under the speed ceiling, and
/// moves the node. A step of no time changes nothing.
pub fn step(g: &mut Graph, fs: &ForceSettings, dt: u32)
    requires
        old(g).wf(),
        dt <= MAX_DT_US,
    ensures
        final(g)@ == stepped(*fs, old(g)@, dt as int),
        final(g).wf(),
{
    if dt == 0 {
        return;
    }
    let ghost g0 = g@;
    let n = g.nodes.len();
    let attr = attraction(g, fs, dt);
    let rep = repulsion(g, fs, dt);
    let (cx, cy) = center_of_mass(g);
    let mut i: usize = 0;
    while i < n
        invariant
            g0.wf(),
            dt <= MAX_DT_US,
            dt > 0,
            n == g0.nodes.len() == g@.nodes.len(),
            g@.edges == g0.edges,
            attr@.len() == n,
            rep@.len() == n,
            cx == centroid(g0).0,
            cy == centroid(g0).1,
            -POS_MAX <= cx <= POS_MAX,
            -POS_MAX <= cy <= POS_MAX,
            forall|v: int|
                0 <= v < n ==> (#[trigger] attr@[v]).0 == attr_sum(*fs, g0, g0.edges, v, dt as int).0
                    && attr@[v].1 == attr_sum(*fs, g0, g0.edges, v, dt as int).1,
            forall|v: int|
                0 <= v < n ==> -SUM_CAP <= (#[trigger] attr@[v]).0 <= SUM_CAP && -SUM_CAP <= attr@[v].1 <= SUM_CAP,
            forall|v: int|
                0 <= v < n && g0.has_node(v) ==> (#[trigger] rep@[v]).0 == rep_sum(*fs, g0, v, dt as int).0
                    && rep@[v].1 == rep_sum(*fs, g0, v, dt as int).1,
            forall|v: int|
                0 <= v < n ==> -SUM_CAP <= (#[trigger] rep@[v]).0 <= SUM_CAP && -SUM_CAP <= rep@[v].1 <= SUM_CAP,
            i <= n,
            forall|v: int| 0 <= v < n ==> #[trigger] g@.nodes[v] == if v < i {
                stepped(*fs, g0, dt as int).nodes[v]
            } else {
                g0.nodes[v]
            },
            forall|v: int| 0 <= v < i && g0.has_node(v) ==> (#[trigger] g@.nodes[v])->Some_0.wf(),
        decreases n - i,
    {
        let ghost before = g.nodes@;
        let ghost prev = g@.nodes;
        proof {
            assert(prev[i as int] == view_slot(before[i as int]));
        }
        let mut updated: Option<NodePayload> = None;
        match &g.nodes[i] {
            Some(p) => {
                proof {
                    assert(g0.has_node(i as int));
                    assert(p@ == g0.node(i as int));
                }
                let c = (cent_comp_exec(cx, p.pos.x, fs.b_force, dt), cent_comp_exec(cy, p.pos.y, fs.b_force, dt));
                let (nv, np) = advance_node(p, attr[i], rep[i], c, fs, dt);
                let mut q = p.duplicate();
                q.vel = nv;
                q.pos = np;
                proof {
                    assert(q@ == next_node(*fs, g0, i as int, dt as int));
                }
                updated = Some(q);
            },
            None => {},
        }
        if let Some(q) = updated {
            let ghost qv = q@;
            g.nodes.set(i, Some(q));
            proof {
                assert(g.nodes@ == before.update(i as int, Some(q)));
                assert forall|v: int| 0 <= v < n && v != i implies #[trigger] g@.nodes[v] == prev[v] by {
                    assert(prev[v] == view_slot(before[v]));
                }
                assert(g@.nodes[i as int] == Some(qv));
            }
        }
        i += 1;
    }
    proof {
        assert(g@.nodes =~= stepped(*fs, g0, dt as int).nodes);
        assert forall|k: int|
            0 <= k < g@.edges.len() implies g@.has_node((#[trigger] g@.edges[k]).0 as int)
            && g@.has_node(g@.edges[k].1 as int) by {
            assert(g0.has_node(g0.edges[k].0 as int));
            assert(g0.has_node(g0.edges[k].1 as int));
        }
        assert forall|v: int| #[trigger] g@.has_node(v) implies g@.node(v).wf() by {
            assert(g0.has_node(v));
        }
    }
}

/// `g1` and `g2` have the same nodes at the same positions with the same
/// masses, and the same edges; velocities and colours may differ.
pub open spec fn same_snapshot(g1: GraphView, g2: GraphView) -> bool {
    &&& g1.nodes.len() == g2.nodes.len()
    &&& g1.edges == g2.edges
    &&& forall|i: int| 0 <= i < g1.nodes.len() ==> (#[trigger] g1.nodes[i] is Some) == (g2.nodes[i] is Some)
    &&& forall|i: int| #[trigger] g1.has_node(i) ==> g1.node(i).pos == g2.node(i).pos && g1.node(i).size == g2.node(i).size
}

proof fn lemma_attr_same(fs: ForceSettings, g1: GraphView, g2: GraphView, edges: Seq<(usize, usize)>, v: int, dt: int)
    requires
        same_snapshot(g1, g2),
        g1.wf(),
        g1.has_node(v),
        forall|k: int| 0 <= k < edges.len() ==> g1.has_node((#[trigger] edges[k]).0 as int) && g1.has_node(edges[k].1 as int),
    ensures
        attr_sum(fs, g1, edges, v, dt) == attr_sum(fs, g2, edges, v, dt),
    decreases edges.len(),
{
    if edges.len() > 0 {
        let e = edges.last();
        assert(edges[edges.len() - 1] == e);
        assert(g1.has_node(e.0 as int) && g1.has_node(e.1 as int));
        lemma_attr_same(fs, g1, g2, edges.drop_last(), v, dt);
    }
}

proof fn lemma_rep_same(fs: ForceSettings, g1: GraphView, g2: GraphView, v: int, k: int, dt: int)
    requires
        same_snapshot(g1, g2),
        g1.has_node(v),
        0 <= k <= g1.nodes.len(),
    ensures
        rep_partial(fs, g1, v, present_mask(g1), k, dt) == rep_partial(fs, g2, v, present_mask(g2), k, dt),
    decreases k,
{
    if k > 0 {
        lemma_rep_same(fs, g1, g2, v, k - 1, dt);
        assert(present_mask(g1)[k - 1] == present_mask(g2)[k - 1]);
        if present_mask(g1)[k - 1] {
            assert(g1.has_node(k - 1));
        }
    }
}

proof fn lemma_centroid_same(g1: GraphView, g2: GraphView, k: int)
    requires
        same_snapshot(g1, g2),
        0 <= k <= g1.nodes.len(),
    ensures
        centroid_run(g1, k) == centroid_run(g2, k),
    decreases k,
{
    if k > 0 {
        lemma_centroid_same(g1, g2, k - 1);
        assert((g1.nodes[k - 1] is Some) == (g2.nodes[k - 1] is Some));
        if g1.has_node(k - 1) {
            assert(g1.node(k - 1).pos == g2.node(k - 1).pos);
        }
    }
}

/// Each force pass reads only positions and masses: on two graphs that agree
/// on those, whatever their velocities, the attraction, repulsion and
/// centring velocity changes are the same. Applying the passes one after the
/// other to any velocity gives that velocity plus the sum of the three
/// changes computed independently.
pub proof fn lemma_force_passes_independent(fs: ForceSettings, g1: GraphView, g2: GraphView, v: int, dt: int, vel: (int, int))
    requires
        g1.wf(),
        same_snapshot(g1, g2),
        g1.has_node(v),
    ensures
        attr_sum(fs, g1, g1.edges, v, dt) == attr_sum(fs, g2, g2.edges, v, dt),
        rep_sum(fs, g1, v, dt) == rep_sum(fs, g2, v, dt),
        node_cent(fs, g1, v, dt) == node_cent(fs, g2, v, dt),
        pass_delta(fs, g1, v, dt) == pass_delta(fs, g2, v, dt),
        add2(add2(add2(vel, attr_sum(fs, g1, g1.edges, v, dt)), rep_sum(fs, g1, v, dt)), node_cent(fs, g1, v, dt))
            == add2(vel, pass_delta(fs, g1, v, dt)),
{
    lemma_attr_same(fs, g1, g2, g1.edges, v, dt);
    lemma_rep_same(fs, g1, g2, v, g1.nodes.len() as int, dt);
    lemma_centroid_same(g1, g2, g1.nodes.len() as int);
    assert(g1.node(v).pos == g2.node(v).pos);
}

/// A step of no time leaves every position and velocity as it was.
pub proof fn lemma_zero_step_no_change(fs: ForceSettings, g: GraphView)
    ensures
        stepped(fs, g, 0) == g,
{
}

/// Two nodes farther apart than the repulsion radius never repel each other,
/// even when their x coordinates are close enough to share the sweep window.
pub proof fn lemma_no_repulsion_beyond_radius(fs: ForceSettings, g: GraphView, a: int, b: int, dt: int)
    requires
        sq_dist(g.node(a).pos, g.node(b).pos) > fs.radius() * fs.radius(),
    ensures
        node_rep(fs, g, a, b, dt) == (0int, 0int),
        node_rep(fs, g, b, a, dt) == (0int, 0int),
{
    let pa = g.node(a).pos;
    let pb = g.node(b).pos;
    assert(sq_dist(pb, pa) == sq_dist(pa, pb)) by (nonlinear_arith);
}

} // verus!
