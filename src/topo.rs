//! Reverse adjacency and the sink-first topological order used by colouring.
use vstd::prelude::*;
use crate::graph::{Graph, GraphView, out_deg};

verus! {

/// The sources of the edges into `v`, in edge order.
pub open spec fn preds(edges: Seq<(usize, usize)>, v: int) -> Seq<usize>
    decreases edges.len(),
{
    if edges.len() == 0 {
        Seq::empty()
    } else {
        let prev = preds(edges.drop_last(), v);
        if edges.last().1 == v {
            prev.push(edges.last().0)
        } else {
            prev
        }
    }
}

/// Number of edges leaving `v` whose target is not marked done.
pub open spec fn pending(edges: Seq<(usize, usize)>, v: int, done: Seq<bool>) -> nat
    decreases edges.len(),
{
    if edges.len() == 0 {
        0
    } else {
        pending(edges.drop_last(), v, done) + if edges.last().0 == v && !done[edges.last().1 as int] {
            1nat
        } else {
            0nat
        }
    }
}

/// Number of occurrences of `v` in `s`.
pub open spec fn occurrences(s: Seq<usize>, v: int) -> nat
    decreases s.len(),
{
    if s.len() == 0 {
        0
    } else {
        occurrences(s.drop_last(), v) + if s.last() == v { 1nat } else { 0nat }
    }
}

/// `order` lists present nodes of `g` once each, every node after all the
/// targets of its outgoing edges, and holds every node whose targets it all
/// holds: the nodes that a sink-first topological sort reaches. Nodes on a
/// cycle, or with an edge into one, are the ones left out.
pub open spec fn is_sink_first_order(g: GraphView, order: Seq<usize>) -> bool {
    &&& order.no_duplicates()
    &&& forall|k: int| 0 <= k < order.len() ==> g.has_node(#[trigger] order[k] as int)
    &&& forall|k: int, e: int|
        0 <= k < order.len() && 0 <= e < g.edges.len() && #[trigger] g.edges[e].0 == #[trigger] order[k]
            ==> order.take(k).contains(g.edges[e].1)
    &&& forall|v: int|
        g.has_node(v) && (forall|e: int|
            0 <= e < g.edges.len() && #[trigger] g.edges[e].0 == v ==> order.contains(g.edges[e].1))
            ==> order.contains(v as usize)
}

proof fn lemma_pending_none_done(edges: Seq<(usize, usize)>, v: int, done: Seq<bool>)
    requires
        forall|i: int| 0 <= i < done.len() ==> !done[i],
        forall|k: int| 0 <= k < edges.len() ==> (#[trigger] edges[k]).1 < done.len(),
    ensures
        pending(edges, v, done) == out_deg(edges, v),
    decreases edges.len(),
{
    if edges.len() > 0 {
        lemma_pending_none_done(edges.drop_last(), v, done);
    }
}

/// Marking `c` done removes from `v`'s count exactly its edges into `c`.
proof fn lemma_pending_mark(edges: Seq<(usize, usize)>, v: int, done: Seq<bool>, c: int)
    requires
        0 <= c < done.len(),
        !done[c],
        forall|k: int| 0 <= k < edges.len() ==> (#[trigger] edges[k]).1 < done.len(),
    ensures
        pending(edges, v, done) == pending(edges, v, done.update(c, true)) + occurrences(preds(edges, c), v),
    decreases edges.len(),
{
    if edges.len() > 0 {
        lemma_pending_mark(edges.drop_last(), v, done, c);
        let p = preds(edges.drop_last(), c);
        if edges.last().1 == c {
            assert(p.push(edges.last().0).drop_last() =~= p);
        }
    }
}

proof fn lemma_pending_zero(edges: Seq<(usize, usize)>, v: int, done: Seq<bool>)
    requires
        pending(edges, v, done) == 0,
    ensures
        forall|e: int| 0 <= e < edges.len() && #[trigger] edges[e].0 == v ==> done[edges[e].1 as int],
    decreases edges.len(),
{
    if edges.len() > 0 {
        lemma_pending_zero(edges.drop_last(), v, done);
        assert forall|e: int| 0 <= e < edges.len() && #[trigger] edges[e].0 == v implies done[edges[e].1 as int] by {
            if e < edges.len() - 1 {
                assert(edges.drop_last()[e] == edges[e]);
            }
        }
    }
}

proof fn lemma_pending_pos(edges: Seq<(usize, usize)>, v: int, done: Seq<bool>, e: int)
    requires
        0 <= e < edges.len(),
        edges[e].0 == v,
        !done[edges[e].1 as int],
    ensures
        pending(edges, v, done) > 0,
    decreases edges.len(),
{
    if e < edges.len() - 1 {
        lemma_pending_pos(edges.drop_last(), v, done, e);
    }
}

proof fn lemma_occurrences_take(s: Seq<usize>, j: int, v: int)
    requires
        0 <= j < s.len(),
    ensures
        occurrences(s.take(j + 1), v) == occurrences(s.take(j), v) + if s[j] == v { 1nat } else { 0nat },
        occurrences(s.take(j + 1), v) <= occurrences(s, v),
    decreases s.len() - j,
{
    assert(s.take(j + 1).drop_last() =~= s.take(j));
    if j + 1 < s.len() {
        lemma_occurrences_take(s, j + 1, v);
    } else {
        assert(s.take(j + 1) =~= s);
    }
}

/// Some edge of `edges` goes from `a` to `b`.
pub open spec fn has_edge(edges: Seq<(usize, usize)>, a: int, b: int) -> bool {
    exists|e: int| 0 <= e < edges.len() && #[trigger] edges[e] == (a as usize, b as usize)
}

pub proof fn lemma_preds_sources(edges: Seq<(usize, usize)>, c: int)
    requires
        0 <= c <= usize::MAX,
    ensures
        forall|j: int| 0 <= j < preds(edges, c).len() ==> #[trigger] has_edge(edges, preds(edges, c)[j] as int, c),
    decreases edges.len(),
{
    if edges.len() > 0 {
        lemma_preds_sources(edges.drop_last(), c);
        let p = preds(edges.drop_last(), c);
        assert forall|j: int| 0 <= j < preds(edges, c).len() implies #[trigger] has_edge(edges, preds(edges, c)[j] as int, c) by {
            if j < p.len() {
                assert(has_edge(edges.drop_last(), p[j] as int, c));
                let e = choose|e: int| 0 <= e < edges.drop_last().len() && #[trigger] edges.drop_last()[e] == (p[j], c as usize);
                assert(edges[e] == edges.drop_last()[e]);
            } else {
                assert(edges[edges.len() - 1] == (preds(edges, c)[j], c as usize));
            }
        }
    }
}

/// For each node, the sources of the edges into it.
pub fn reverse_adjacency(g: &Graph) -> (rev: Vec<Vec<usize>>)
    requires
        g.wf(),
    ensures
        rev@.len() == g@.nodes.len(),
        forall|v: int| 0 <= v < rev@.len() ==> (#[trigger] rev@[v])@ == preds(g@.edges, v),
{
    let n = g.nodes.len();
    let mut rev: Vec<Vec<usize>> = Vec::new();
    let mut i: usize = 0;
    while i < n
        invariant
            i <= n,
            rev@.len() == i,
            forall|v: int| 0 <= v < i ==> (#[trigger] rev@[v])@ == Seq::<usize>::empty(),
        decreases n - i,
    {
        rev.push(Vec::new());
        i += 1;
    }
    let ghost edges = g@.edges;
    let mut k: usize = 0;
    while k < g.edges.len()
        invariant
            edges == g@.edges,
            g.wf(),
            n == g@.nodes.len(),
            rev@.len() == n,
            k <= edges.len(),
            forall|v: int| 0 <= v < n ==> (#[trigger] rev@[v])@ == preds(edges.take(k as int), v),
        decreases edges.len() - k,
    {
        let e = g.edges[k];
        proof {
            assert(edges.take(k + 1).drop_last() =~= edges.take(k as int));
            assert(g@.has_node(edges[k as int].1 as int));
        }
        let mut list = Vec::new();
        std::mem::swap(&mut list, &mut rev[e.1]);
        list.push(e.0);
        std::mem::swap(&mut list, &mut rev[e.1]);
        k += 1;
    }
    proof {
        assert(edges.take(k as int) =~= edges);
    }
    rev
}

proof fn lemma_pending_all_done(edges: Seq<(usize, usize)>, v: int, done: Seq<bool>)
    requires
        forall|e: int| 0 <= e < edges.len() && #[trigger] edges[e].0 == v ==> done[edges[e].1 as int],
    ensures
        pending(edges, v, done) == 0,
    decreases edges.len(),
{
    if edges.len() > 0 {
        assert forall|e: int| 0 <= e < edges.drop_last().len() && #[trigger] edges.drop_last()[e].0 == v implies done[edges.drop_last()[e].1 as int] by {
            assert(edges.drop_last()[e] == edges[e]);
        }
        lemma_pending_all_done(edges.drop_last(), v, done);
        assert(edges[edges.len() - 1] == edges.last());
    }
}

/// Number of entries not marked done.
pub open spec fn undone(done: Seq<bool>) -> nat
    decreases done.len(),
{
    if done.len() == 0 {
        0
    } else {
        undone(done.drop_last()) + if done.last() { 0nat } else { 1nat }
    }
}

proof fn lemma_undone_mark(done: Seq<bool>, c: int)
    requires
        0 <= c < done.len(),
        !done[c],
    ensures
        undone(done.update(c, true)) + 1 == undone(done),
    decreases done.len(),
{
    let d2 = done.update(c, true);
    if c < done.len() - 1 {
        assert(d2.drop_last() =~= done.drop_last().update(c, true));
        lemma_undone_mark(done.drop_last(), c);
    } else {
        assert(d2.drop_last() =~= done.drop_last());
    }
}

/// The nodes of `g` in the order of a sink-first topological sort: nodes
/// without outgoing edges first; a node becomes ready once all the targets
/// of its outgoing edges are listed, and ready nodes are taken from a stack.
pub fn topo_order(g: &Graph, rev: &Vec<Vec<usize>>) -> (order: Vec<usize>)
    requires
        g.wf(),
        rev@.len() == g@.nodes.len(),
        forall|v: int| 0 <= v < rev@.len() ==> (#[trigger] rev@[v])@ == preds(g@.edges, v),
    ensures
        is_sink_first_order(g@, order@),
{
    let ghost gv = g@;
    let ghost edges = gv.edges;
    let n = g.nodes.len();
    let mut deg = g.out_degrees();
    let ghost mut done: Seq<bool> = Seq::new(n as nat, |i: int| false);
    assert forall|k: int| 0 <= k < edges.len() implies (#[trigger] edges[k]).1 < done.len() by {
        assert(gv.has_node(edges[k].1 as int));
    }
    assert forall|v: int| 0 <= v < n implies deg@[v] == pending(edges, v, done) by {
        lemma_pending_none_done(edges, v, done);
    }
    let mut stack: Vec<usize> = Vec::new();
    let mut i: usize = 0;
    while i < n
        invariant
            gv == g@,
            n == gv.nodes.len() == done.len() == deg@.len(),
            forall|v: int| 0 <= v < n ==> !done[v],
            forall|v: int| 0 <= v < n ==> deg@[v] == pending(edges, v, done),
            i <= n,
            stack@.no_duplicates(),
            forall|k: int| 0 <= k < stack@.len() ==> (#[trigger] stack@[k]) < i && gv.has_node(stack@[k] as int)
                && deg@[stack@[k] as int] == 0,
            forall|v: int| 0 <= v < i && gv.has_node(v) && deg@[v] == 0 ==> stack@.contains(v as usize),
        decreases n - i,
    {
        if g.nodes[i].is_some() && deg[i] == 0 {
            proof {
                assert(gv.nodes[i as int] == crate::graph::view_slot(g.nodes@[i as int]));
            }
            let ghost s0 = stack@;
            stack.push(i);
            proof {
                assert(stack@[stack@.len() - 1] == i);
                assert forall|v: int| 0 <= v < i && gv.has_node(v) && deg@[v] == 0 implies stack@.contains(v as usize) by {
                    let k = choose|k: int| 0 <= k < s0.len() && s0[k] == v as usize;
                    assert(stack@[k] == s0[k]);
                }
            }
        } else {
            proof {
                assert(gv.nodes[i as int] == crate::graph::view_slot(g.nodes@[i as int]));
            }
        }
        i += 1;
    }
    let mut order: Vec<usize> = Vec::new();
    while stack.len() > 0
        invariant
            gv == g@,
            gv.wf(),
            edges == gv.edges,
            n == gv.nodes.len() == done.len() == deg@.len() == rev@.len(),
            forall|v: int| 0 <= v < rev@.len() ==> (#[trigger] rev@[v])@ == preds(edges, v),
            forall|k: int| 0 <= k < edges.len() ==> (#[trigger] edges[k]).1 < done.len(),
            forall|v: int| 0 <= v < n ==> deg@[v] == pending(edges, v, done),
            forall|v: int| 0 <= v < n ==> (done[v] <==> order@.contains(v as usize)),
            order@.no_duplicates(),
            forall|k: int| 0 <= k < order@.len() ==> gv.has_node(#[trigger] order@[k] as int),
            forall|k: int, e: int|
                0 <= k < order@.len() && 0 <= e < edges.len() && #[trigger] edges[e].0 == #[trigger] order@[k]
                    ==> order@.take(k).contains(edges[e].1),
            forall|v: int| 0 <= v < n && done[v] ==> pending(edges, v, done) == 0,
            stack@.no_duplicates(),
            forall|k: int| 0 <= k < stack@.len() ==> gv.has_node(#[trigger] stack@[k] as int)
                && !done[stack@[k] as int] && deg@[stack@[k] as int] == 0,
            forall|v: int| 0 <= v < n && gv.has_node(v) && !done[v] && deg@[v] == 0 ==> stack@.contains(v as usize),
        decreases undone(done),
    {
        let ghost stack0 = stack@;
        let cur = match stack.pop() {
            Some(c) => c,
            None => { return order; },
        };
        let ghost done0 = done;
        let ghost order0 = order@;
        proof {
            assert(stack0[stack0.len() - 1] == cur);
            assert(stack@ =~= stack0.drop_last());
            assert forall|k: int| 0 <= k < stack@.len() implies #[trigger] stack@[k] != cur by {
                assert(stack0[k] == stack@[k]);
            }
            lemma_pending_zero(edges, cur as int, done0);
            lemma_undone_mark(done0, cur as int);
            assert forall|v: int| 0 <= v < n implies pending(edges, v, done0) == pending(edges, v, done0.update(cur as int, true))
                + occurrences(preds(edges, cur as int), v) by {
                lemma_pending_mark(edges, v, done0, cur as int);
            }
            lemma_preds_sources(edges, cur as int);
        }
        order.push(cur);
        proof {
            done = done0.update(cur as int, true);
            assert(order@.take(order0.len() as int) =~= order0);
            assert forall|k: int| 0 <= k < order0.len() implies order@.take(k) =~= order0.take(k) by {}
        }
        proof {
            assert forall|v: int| 0 <= v < n && gv.has_node(v) && !done[v] && deg@[v] == 0 implies stack@.contains(v as usize) by {
                assert(stack0.contains(v as usize));
                let k = choose|k: int| 0 <= k < stack0.len() && stack0[k] == v as usize;
                assert(k != stack0.len() - 1);
                assert(stack@[k] == stack0[k]);
            }
        }
        let preds_c = &rev[cur];
        let mut j: usize = 0;
        while j < preds_c.len()
            invariant
                gv == g@,
                gv.wf(),
                edges == gv.edges,
                n == gv.nodes.len() == done.len() == deg@.len(),
                done0.len() == n,
                done == done0.update(cur as int, true),
                0 <= cur < n,
                !done0[cur as int],
                preds_c@ == preds(edges, cur as int),
                forall|j2: int| 0 <= j2 < preds(edges, cur as int).len() ==> #[trigger] has_edge(edges, preds(edges, cur as int)[j2] as int, cur as int),
                forall|k: int| 0 <= k < edges.len() ==> (#[trigger] edges[k]).1 < done.len(),
                forall|v: int| 0 <= v < n ==> pending(edges, v, done0) == pending(edges, v, done)
                    + occurrences(preds_c@, v),
                forall|v: int| 0 <= v < n && done0[v] ==> pending(edges, v, done0) == 0,
                pending(edges, cur as int, done0) == 0,
                j <= preds_c@.len(),
                forall|v: int| 0 <= v < n ==> deg@[v] + occurrences(preds_c@.take(j as int), v) == pending(edges, v, done0),
                stack@.no_duplicates(),
                forall|k: int| 0 <= k < stack@.len() ==> gv.has_node(#[trigger] stack@[k] as int)
                    && !done[stack@[k] as int] && deg@[stack@[k] as int] == 0,
                forall|v: int| 0 <= v < n && gv.has_node(v) && !done[v] && deg@[v] == 0 ==> stack@.contains(v as usize),
            decreases preds_c@.len() - j,
        {
            let p = preds_c[j];
            proof {
                lemma_occurrences_take(preds_c@, j as int, p as int);
                assert(has_edge(edges, p as int, cur as int));
                let e = choose|e: int| 0 <= e < edges.len() && #[trigger] edges[e] == (p, cur);
                assert(gv.has_node(edges[e].0 as int));
                if p == cur || done0[p as int] {
                    assert(edges[e].1 == cur);
                    lemma_pending_pos(edges, p as int, done0, e);
                    assert(pending(edges, p as int, done0) == 0);
                    assert(false);
                }
                assert(deg@[p as int] + occurrences(preds_c@.take(j as int), p as int) == pending(edges, p as int, done0));
                assert(pending(edges, p as int, done0) == pending(edges, p as int, done) + occurrences(preds_c@, p as int));
                assert(deg@[p as int] >= 1);
                assert forall|v: int| 0 <= v < n && v != p implies deg@[v] + occurrences(preds_c@.take(j + 1), v)
                    == pending(edges, v, done0) by {
                    lemma_occurrences_take(preds_c@, j as int, v);
                }
            }
            let d = deg[p] - 1;
            let ghost sb = stack@;
            proof {
                assert forall|k: int| 0 <= k < sb.len() implies #[trigger] sb[k] != p by {
                    assert(deg@[sb[k] as int] == 0);
                }
                assert(!done[p as int]);
            }
            deg.set(p, d);
            if d == 0 {
                let ghost s0 = stack@;
                stack.push(p);
                proof {
                    assert(stack@[stack@.len() - 1] == p);
                    assert forall|k: int| 0 <= k < stack@.len() implies gv.has_node(#[trigger] stack@[k] as int)
                        && !done[stack@[k] as int] && deg@[stack@[k] as int] == 0 by {
                        if k < sb.len() {
                            assert(stack@[k] == sb[k]);
                        }
                    }
                    assert forall|v: int| 0 <= v < n && gv.has_node(v) && !done[v] && deg@[v] == 0 implies stack@.contains(v as usize) by {
                        if v != p {
                            let k = choose|k: int| 0 <= k < s0.len() && s0[k] == v as usize;
                            assert(stack@[k] == s0[k]);
                        }
                    }
                }
            }
            j += 1;
        }
        proof {
            assert(preds_c@.take(j as int) =~= preds_c@);
            assert forall|v: int| 0 <= v < n implies deg@[v] == pending(edges, v, done) by {
                assert(deg@[v] + occurrences(preds_c@.take(j as int), v) == pending(edges, v, done0));
                assert(pending(edges, v, done0) == pending(edges, v, done) + occurrences(preds_c@, v));
            }
            assert forall|v: int| 0 <= v < n implies (done[v] <==> order@.contains(v as usize)) by {
                if v == cur {
                    assert(order@[order@.len() - 1] == cur);
                } else {
                    assert(done[v] == done0[v]);
                    if order0.contains(v as usize) {
                        let k = choose|k: int| 0 <= k < order0.len() && order0[k] == v as usize;
                        assert(order@[k] == order0[k]);
                    }
                    if order@.contains(v as usize) {
                        let k = choose|k: int| 0 <= k < order@.len() && order@[k] == v as usize;
                        assert(k < order0.len());
                        assert(order@[k] == order0[k]);
                    }
                }
            }
        }
    }
    proof {
        assert forall|v: int|
            gv.has_node(v) && (forall|e: int|
                0 <= e < gv.edges.len() && #[trigger] gv.edges[e].0 == v ==> order@.contains(gv.edges[e].1))
            implies order@.contains(v as usize) by {
            assert forall|e: int| 0 <= e < edges.len() && #[trigger] edges[e].0 == v implies done[edges[e].1 as int] by {
                assert(order@.contains(edges[e].1));
            }
            lemma_pending_all_done(edges, v, done);
        }
    }
    order
}

} // verus!
