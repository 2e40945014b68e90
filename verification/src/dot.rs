use vstd::prelude::*;
use vstd::std_specs::hash::spec_keys_iter;
use vstd::std_specs::iter::IteratorSpec;

use crate::analysis::{
    all_chains, analyzed_nodes, by_id, followers, has_id, lemma_all_chains_ascending, lemma_all_chains_edges,
    lemma_fresh_analysis_defined, next_ascending, shapes, Analysis, NodeShape,
};
use crate::optimize::{lemma_optimize_all_cuts, only_cut};

verus! {

/// The text of a decimal digit.
pub open spec fn digit_text(d: nat) -> Seq<char> {
    if d == 0 {
        "0"@
    } else if d == 1 {
        "1"@
    } else if d == 2 {
        "2"@
    } else if d == 3 {
        "3"@
    } else if d == 4 {
        "4"@
    } else if d == 5 {
        "5"@
    } else if d == 6 {
        "6"@
    } else if d == 7 {
        "7"@
    } else if d == 8 {
        "8"@
    } else {
        "9"@
    }
}

/// An integer written in decimal, as `{:?}` writes it.
pub open spec fn decimal(n: nat) -> Seq<char>
    decreases n,
{
    if n < 10 {
        digit_text(n)
    } else {
        decimal(n / 10) + digit_text(n % 10)
    }
}

fn digit_str(d: u64) -> (s: &'static str)
    requires
        d < 10,
    ensures
        s@ == digit_text(d as nat),
{
    if d == 0 {
        "0"
    } else if d == 1 {
        "1"
    } else if d == 2 {
        "2"
    } else if d == 3 {
        "3"
    } else if d == 4 {
        "4"
    } else if d == 5 {
        "5"
    } else if d == 6 {
        "6"
    } else if d == 7 {
        "7"
    } else if d == 8 {
        "8"
    } else {
        "9"
    }
}

/// Writes `n` in decimal at the end of `text`.
pub fn push_decimal(text: &mut String, n: u64)
    ensures
        final(text)@ == old(text)@ + decimal(n as nat),
    decreases n,
{
    if n >= 10 {
        push_decimal(text, n / 10);
    }
    text.append(digit_str(n % 10));
}

/// The line that labels node `id` with its block.
pub open spec fn label_line(id: usize, block: u32) -> Seq<char> {
    decimal(id as nat) + " [label=\""@ + decimal(block as nat) + "\"]\n"@
}

/// The line of an edge.
pub open spec fn edge_line(from: nat, to: nat) -> Seq<char> {
    decimal(from) + " -> "@ + decimal(to) + ";\n"@
}

/// Following the followers from node `i` reaches a dead end within
/// `depth` steps, every node met being stored.
pub open spec fn depth_ok(nodes: Seq<NodeShape>, i: usize, depth: nat) -> bool
    decreases depth, 0nat,
{
    &&& depth > 0
    &&& (i as int) < nodes.len()
    &&& all_depth_ok(nodes, nodes[i as int].next, (depth - 1) as nat)
}

/// From each of `xs`, following the followers reaches a dead end within
/// `depth` steps.
pub open spec fn all_depth_ok(nodes: Seq<NodeShape>, xs: Seq<usize>, depth: nat) -> bool
    decreases depth, xs.len() + 1,
{
    xs.len() == 0 || (all_depth_ok(nodes, xs.drop_last(), depth) && depth_ok(nodes, xs.last(), depth))
}

/// The text of the chain at node `i`: its label, then for each follower the
/// edge to it and the follower's chain, then the edge to each back edge.
pub open spec fn chain_text(nodes: Seq<NodeShape>, i: usize, depth: nat) -> Seq<char>
    decreases depth, 0nat,
{
    if depth == 0 {
        Seq::empty()
    } else {
        let me = nodes[i as int];
        label_line(me.id, me.block) + next_text(nodes, me.id, me.next, (depth - 1) as nat) + back_text(
            me.id,
            me.back_edges,
        )
    }
}

/// The edges to the followers `xs` of node `id`, each followed by the
/// follower's chain.
pub open spec fn next_text(nodes: Seq<NodeShape>, id: usize, xs: Seq<usize>, depth: nat) -> Seq<char>
    decreases depth, xs.len() + 1,
{
    if xs.len() == 0 {
        Seq::empty()
    } else {
        next_text(nodes, id, xs.drop_last(), depth) + edge_line(id as nat, xs.last() as nat) + chain_text(
            nodes,
            xs.last(),
            depth,
        )
    }
}

/// The edges from node `id` to each of `xs`.
pub open spec fn back_text(id: usize, xs: Seq<usize>) -> Seq<char>
    decreases xs.len(),
{
    if xs.len() == 0 {
        Seq::empty()
    } else {
        back_text(id, xs.drop_last()) + edge_line(id as nat, xs.last() as nat)
    }
}

/// A depth within which the followers from node `i` reach dead ends.
pub open spec fn link_depth(nodes: Seq<NodeShape>, i: usize) -> nat {
    choose|d: nat| depth_ok(nodes, i, d)
}

/// The text of the chains whose roots are `chains`, in order.
pub open spec fn chains_text(nodes: Seq<NodeShape>, chains: Seq<usize>) -> Seq<char>
    decreases chains.len(),
{
    if chains.len() == 0 {
        Seq::empty()
    } else {
        chains_text(nodes, chains.drop_last()) + chain_text(nodes, chains.last(), link_depth(nodes, chains.last()))
    }
}

/// The edges from block `id` to each of its followers `fs`.
pub open spec fn follower_lines(id: u32, fs: Seq<u32>) -> Seq<char>
    decreases fs.len(),
{
    if fs.len() == 0 {
        Seq::empty()
    } else {
        follower_lines(id, fs.drop_last()) + edge_line(id as nat, fs.last() as nat)
    }
}

/// The edges of the blocks stored under `ks`, in order, each to its
/// followers.
pub open spec fn graph_text(a: Analysis, ks: Seq<u32>) -> Seq<char>
    decreases ks.len(),
{
    if ks.len() == 0 {
        Seq::empty()
    } else {
        graph_text(a, ks.drop_last()) + follower_lines(a.blocks@[ks.last()].id, followers(a, ks.last()))
    }
}

fn push_edge(text: &mut String, from: u64, to: u64)
    ensures
        final(text)@ == old(text)@ + edge_line(from as nat, to as nat),
{
    push_decimal(text, from);
    text.append(" -> ");
    push_decimal(text, to);
    text.append(";\n");
}

proof fn lemma_all_depth(nodes: Seq<NodeShape>, xs: Seq<usize>, depth: nat, j: int)
    requires
        all_depth_ok(nodes, xs, depth),
        0 <= j < xs.len(),
    ensures
        depth_ok(nodes, xs[j], depth),
    decreases xs.len(),
{
    if j < xs.len() - 1 {
        lemma_all_depth(nodes, xs.drop_last(), depth, j);
    }
}

proof fn lemma_depth_step(nodes: Seq<NodeShape>, i: usize, depth: nat, j: int)
    requires
        depth_ok(nodes, i, depth),
        0 <= j < nodes[i as int].next.len(),
    ensures
        depth > 0,
        depth_ok(nodes, nodes[i as int].next[j], (depth - 1) as nat),
{
    lemma_all_depth(nodes, nodes[i as int].next, (depth - 1) as nat, j);
}

proof fn lemma_all_depth_from(nodes: Seq<NodeShape>, xs: Seq<usize>, depth: nat)
    requires
        forall|j: int| 0 <= j < xs.len() ==> depth_ok(nodes, #[trigger] xs[j], depth),
    ensures
        all_depth_ok(nodes, xs, depth),
    decreases xs.len(),
{
    if xs.len() > 0 {
        assert(xs[xs.len() - 1] == xs.last());
        assert forall|j: int| 0 <= j < xs.drop_last().len() implies depth_ok(nodes, #[trigger] xs.drop_last()[j], depth) by {
            assert(xs.drop_last()[j] == xs[j]);
        }
        lemma_all_depth_from(nodes, xs.drop_last(), depth);
    }
}

/// Nodes numbered by position, each follower numbered above its node and
/// stored, can be drawn from any node within the number of nodes above it.
proof fn lemma_depth_by_number(nodes: Seq<NodeShape>, depth: nat)
    requires
        forall|i: int| 0 <= i < nodes.len() ==> (#[trigger] nodes[i]).id == i,
        next_ascending(nodes),
        forall|i: int, x: usize| #![trigger nodes[i].next.contains(x)] 0 <= i < nodes.len() && nodes[i].next.contains(x) ==> (x as int) < nodes.len(),
    ensures
        forall|i: usize| (i as int) < nodes.len() && nodes.len() - i <= depth ==> #[trigger] depth_ok(nodes, i, depth),
    decreases depth,
{
    if depth > 0 {
        lemma_depth_by_number(nodes, (depth - 1) as nat);
        assert forall|i: usize| (i as int) < nodes.len() && nodes.len() - i <= depth implies #[trigger] depth_ok(nodes, i, depth) by {
            let xs = nodes[i as int].next;
            assert forall|j: int| 0 <= j < xs.len() implies depth_ok(nodes, #[trigger] xs[j], (depth - 1) as nat) by {
                assert(xs.contains(xs[j]));
                assert(nodes[i as int].id == i);
            }
            lemma_all_depth_from(nodes, xs, (depth - 1) as nat);
        }
    }
}

/// After analyzing an analysis that had no nodes, every chain can be drawn.
pub proof fn lemma_fresh_chains_drawable(g: Analysis, h: Analysis)
    requires
        g.wf(),
        g.nodes@.len() == 0,
        all_chains(g).2 <= usize::MAX,
        shapes(h.nodes@) == analyzed_nodes(g),
        h.chains@ == g.chains@ + all_chains(g).1,
    ensures
        h.chains_drawable(),
{
    let total = all_chains(g);
    let ns = total.0;
    let init = shapes(g.nodes@) + by_id(ns);
    let cx = g.context();
    assert(init =~= by_id(ns));
    lemma_fresh_analysis_defined(g);
    lemma_all_chains_edges(g);
    lemma_all_chains_ascending(g);
    crate::analysis::lemma_by_id_edges(ns, total.2);
    lemma_optimize_all_cuts(cx, init, total.1);
    let fin = shapes(h.nodes@);
    assert(g.chains@.len() == 0) by {
        if g.chains@.len() > 0 {
            assert(g.chains@[0] < g.nodes@.len());
        }
    }
    assert(h.chains@ =~= total.1);
    assert forall|i: int| 0 <= i < fin.len() implies (#[trigger] fin[i]).id == i by {
        assert(init[i].id == i);
    }
    assert forall|i: int, x: usize| #![trigger fin[i].next.contains(x)] 0 <= i < fin.len() && fin[i].next.contains(x) implies x > fin[i].id
        && (x as int) < fin.len() by {
        assert(init[i].next.contains(x));
        assert(init[i] == by_id(ns)[i]);
        assert(has_id(ns, i));
        let w = choose|w: int| 0 <= w < ns.len() && (#[trigger] ns[w]).id == i;
        assert(by_id(ns)[i] == ns[w]);
        assert(ns[w].next.contains(x));
    }
    lemma_depth_by_number(fin, fin.len());
    assert forall|i: int| 0 <= i < h.chains@.len() implies #[trigger] drawable(shapes(h.nodes@), h.chains@[i]) by {
        let c = h.chains@[i];
        assert(c == total.1[i]);
        assert(depth_ok(fin, c, fin.len()));
    }
}

/// Following the followers from node `i` reaches dead ends.
pub open spec fn drawable(nodes: Seq<NodeShape>, i: usize) -> bool {
    exists|d: nat| depth_ok(nodes, i, d)
}

impl Analysis {
    /// Every chain can be drawn.
    pub open spec fn chains_drawable(&self) -> bool {
        forall|i: int| 0 <= i < self.chains@.len() ==> #[trigger] drawable(shapes(self.nodes@), self.chains@[i])
    }

    fn push_chain(&self, node_id: usize, graph: &mut String, Ghost(depth): Ghost<nat>)
        requires
            depth_ok(shapes(self.nodes@), node_id, depth),
        ensures
            final(graph)@ == old(graph)@ + chain_text(shapes(self.nodes@), node_id, depth),
        decreases depth,
    {
        let ghost ns = shapes(self.nodes@);
        let ghost g0 = graph@;
        let me = &self.nodes[node_id];
        assert(ns[node_id as int] == me.shape());
        push_decimal(graph, me.id as u64);
        graph.append(" [label=\"");
        push_decimal(graph, me.block as u64);
        graph.append("\"]\n");
        let ghost sub = (depth - 1) as nat;
        let ghost g1 = graph@;
        assert(g1 == g0 + label_line(me.id, me.block));
        let n = me.next.len();
        let mut j: usize = 0;
        while j < n
            invariant
                ns == shapes(self.nodes@),
                *me == self.nodes@[node_id as int],
                ns[node_id as int] == me.shape(),
                depth_ok(ns, node_id, depth),
                sub + 1 == depth,
                n == me.next@.len(),
                0 <= j <= n,
                graph@ == g1 + next_text(ns, me.id, me.next@.take(j as int), sub),
            decreases n - j,
        {
            let x = me.next[j];
            assert(me.next@.take(j + 1).drop_last() =~= me.next@.take(j as int));
            proof {
                lemma_depth_step(ns, node_id, depth, j as int);
            }
            push_edge(graph, me.id as u64, x as u64);
            self.push_chain(x, graph, Ghost(sub));
            j = j + 1;
        }
        assert(me.next@.take(n as int) =~= me.next@);
        let ghost g2 = graph@;
        let m = me.back_edges.len();
        let mut k: usize = 0;
        while k < m
            invariant
                m == me.back_edges@.len(),
                0 <= k <= m,
                graph@ == g2 + back_text(me.id, me.back_edges@.take(k as int)),
            decreases m - k,
        {
            let x = me.back_edges[k];
            assert(me.back_edges@.take(k + 1).drop_last() =~= me.back_edges@.take(k as int));
            push_edge(graph, me.id as u64, x as u64);
            k = k + 1;
        }
        assert(me.back_edges@.take(m as int) =~= me.back_edges@);
    }

    /// Writes the chain at node `node_id` in the DOT language at the end of
    /// `graph`: the node labelled with its block, then for each follower the
    /// edge to it and the follower's chain, then the edges to its back edges.
    pub fn dot_chain_link(&self, node_id: usize, graph: &mut String)
        requires
            drawable(shapes(self.nodes@), node_id),
        ensures
            final(graph)@ == old(graph)@ + chain_text(shapes(self.nodes@), node_id, link_depth(shapes(self.nodes@), node_id)),
    {
        self.push_chain(node_id, graph, Ghost(link_depth(shapes(self.nodes@), node_id)));
    }

    /// The blocks and their followers in the DOT language, as one directed
    /// graph with an edge from each block to each block that reads one of
    /// its outputs.  The blocks come in the order in which the map of
    /// blocks is walked, which nothing fixes.
    pub fn make_dot_graph(&self) -> (r: String)
        ensures
            exists|ks: Seq<u32>|
                #![trigger graph_text(*self, ks)]
                ks.no_duplicates() && ks.to_set() == self.blocks@.dom() && r@ == "digraph program {\n"@ + graph_text(*self, ks) + "}"@,
    {
        let mut graph = String::from_str("digraph program {\n");
        let ghost head = graph@;
        let ghost ks = spec_keys_iter(&self.blocks).remaining().unref();
        let ghost mut done: Seq<u32> = Seq::empty();
        for k in it: self.blocks.keys()
            invariant
                head == "digraph program {\n"@,
                it.seq().unref() == ks,
                done == it.seq().take(it.index()).unref(),
                graph@ == head + graph_text(*self, done),
        {
            let fs = self.follower_list(*k);
            let b = self.blocks.get(k).unwrap();
            let ghost g0 = graph@;
            let n = fs.len();
            let mut j: usize = 0;
            while j < n
                invariant
                    n == fs@.len(),
                    0 <= j <= n,
                    graph@ == g0 + follower_lines(b.id, fs@.take(j as int)),
                decreases n - j,
            {
                assert(fs@.take(j + 1).drop_last() =~= fs@.take(j as int));
                push_edge(&mut graph, b.id as u64, fs[j] as u64);
                j = j + 1;
            }
            assert(fs@.take(n as int) =~= fs@);
            proof {
                let pushed = done.push(*k);
                assert(pushed.drop_last() =~= done);
                assert(graph_text(*self, pushed) == graph_text(*self, done) + follower_lines(b.id, fs@));
                done = pushed;
            }
        }
        assert(done =~= ks);
        graph.append("}");
        graph
    }

    /// The chains in the DOT language, as one directed graph.
    pub fn make_dot_chains(&self) -> (r: String)
        requires
            self.chains_drawable(),
        ensures
            r@ == "digraph program {\n"@ + chains_text(shapes(self.nodes@), self.chains@) + "}"@,
    {
        let mut graph = String::from_str("digraph program {\n");
        let ghost head = graph@;
        let n = self.chains.len();
        let mut i: usize = 0;
        while i < n
            invariant
                n == self.chains@.len(),
                0 <= i <= n,
                self.chains_drawable(),
                graph@ == head + chains_text(shapes(self.nodes@), self.chains@.take(i as int)),
            decreases n - i,
        {
            let c = self.chains[i];
            assert(self.chains@.take(i + 1).drop_last() =~= self.chains@.take(i as int));
            assert(drawable(shapes(self.nodes@), self.chains@[i as int]));
            self.dot_chain_link(c, &mut graph);
            i = i + 1;
        }
        assert(self.chains@.take(n as int) =~= self.chains@);
        graph.append("}");
        graph
    }
}

} // verus!
