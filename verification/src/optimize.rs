use std::collections::HashSet;
use vstd::prelude::*;

use crate::analysis::{shapes, Analysis, Node, NodeShape, TagInfo};
use crate::block_info::{domain_lists, list_of, BlockInfo};
use crate::domain::Domain;
use crate::program::TAG_INTERNED_ID;
use crate::tables::PairMap;

verus! {

broadcast use vstd::std_specs::hash::group_hash_axioms;

/// What optimizing a chain reads besides the nodes: the blocks and the tags.
pub struct ChainContext {
    pub blocks: Map<u32, BlockInfo>,
    pub tags: Map<u32, TagInfo>,
}

impl Analysis {
    pub open spec fn context(&self) -> ChainContext {
        ChainContext { blocks: self.blocks@, tags: self.tags@ }
    }
}

/// The number of rounds after which optimizing a chain stops even if
/// nodes remain to be visited; no run comes near it.
pub const ROUND_LIMIT: u64 = 0xffff_ffff_ffff_ffff;

/// The domain lists of a parent node's outputs: those of its block, or,
/// for a node without a stored block, the chain's input tag as a string.
pub open spec fn parent_outputs(cx: ChainContext, p: NodeShape, root_input: u32) -> Map<(u32, u32), Seq<Domain>> {
    if cx.blocks.contains_key(p.block) {
        domain_lists(cx.blocks[p.block].output_domains@)
    } else {
        Map::empty().insert((root_input, TAG_INTERNED_ID), seq![Domain::String])
    }
}

/// The domains of a parent node's inputs: those of its block, or none.
pub open spec fn parent_inputs(cx: ChainContext, p: NodeShape) -> Map<(u32, u32), Domain> {
    if cx.blocks.contains_key(p.block) {
        cx.blocks[p.block].input_domains@
    } else {
        Map::empty()
    }
}

/// The input domains of a block, in the order of its pairs.
pub open spec fn input_entries(cx: ChainContext, b: u32) -> Seq<((u32, u32), Domain)> {
    let inputs = cx.blocks[b].input_domains;
    inputs.order().map_values(|k: (u32, u32)| (k, inputs@[k]))
}

/// The tag is known to be a pulse.
pub open spec fn is_pulse_tag(cx: ChainContext, t: u32) -> bool {
    cx.tags.contains_key(t) && cx.tags[t].is_pulse
}

/// One of the domains may hold a value (is not a removal).
pub open spec fn may_be_present(ds: Seq<Domain>) -> bool {
    exists|j: int| 0 <= j < ds.len() && (#[trigger] ds[j]).spec_intersects(Domain::Unknown)
}

/// Every input of the entries on the tag that the parent also has an input
/// domain for shares a value with it.
pub open spec fn inputs_agree(es: Seq<((u32, u32), Domain)>, tag: u32, pin: Map<(u32, u32), Domain>) -> bool {
    forall|j: int|
        0 <= j < es.len() && (#[trigger] es[j]).0.0 == tag && pin.contains_key(es[j].0) ==> es[j].1.spec_intersects(
            pin[es[j].0],
        )
}

/// Some domain of the list shares a value with `d`.
pub open spec fn meets_some(d: Domain, ds: Seq<Domain>) -> bool {
    exists|j: int| 0 <= j < ds.len() && d.spec_intersects(#[trigger] ds[j])
}

/// Deciding on the candidate `x` by the input entries of its block from
/// the `i`-th on: an input on a pulse tag that the parent cannot be
/// producing drops `x`; the first input that some output of the parent
/// meets keeps `x`, provided every input on its tag agrees with the
/// parent's inputs (else the candidate is passed over).
pub open spec fn decide(
    es: Seq<((u32, u32), Domain)>,
    i: int,
    cx: ChainContext,
    pout: Map<(u32, u32), Seq<Domain>>,
    pin: Map<(u32, u32), Domain>,
    x: usize,
    keep: Set<usize>,
    found: bool,
) -> Set<usize>
    decreases es.len() - i,
{
    if i < 0 || i >= es.len() {
        keep
    } else {
        let input = es[i].0;
        let domain = es[i].1;
        if is_pulse_tag(cx, input.0) && !may_be_present(list_of(pout, (input.0, TAG_INTERNED_ID))) {
            keep.remove(x)
        } else if !found && pout.contains_key(input) && meets_some(domain, pout[input]) {
            if inputs_agree(es, input.0, pin) {
                decide(es, i + 1, cx, pout, pin, x, keep.insert(x), true)
            } else {
                keep
            }
        } else {
            decide(es, i + 1, cx, pout, pin, x, keep, found)
        }
    }
}

/// Every pulse input of `es` from index `i` on is on a tag that the parent
/// may be producing.
pub open spec fn pulses_producible(cx: ChainContext, es: Seq<((u32, u32), Domain)>, i: int, pout: Map<(u32, u32), Seq<Domain>>) -> bool {
    forall|j: int|
        i <= j < es.len() && is_pulse_tag(cx, (#[trigger] es[j]).0.0) ==> may_be_present(
            list_of(pout, (es[j].0.0, TAG_INTERNED_ID)),
        )
}

/// The `j`-th input meets some domain that the parent produces for its pair.
pub open spec fn input_met(es: Seq<((u32, u32), Domain)>, j: int, pout: Map<(u32, u32), Seq<Domain>>) -> bool {
    pout.contains_key(es[j].0) && meets_some(es[j].1, pout[es[j].0])
}

proof fn lemma_decide_producible(
    es: Seq<((u32, u32), Domain)>,
    i: int,
    cx: ChainContext,
    pout: Map<(u32, u32), Seq<Domain>>,
    pin: Map<(u32, u32), Domain>,
    x: usize,
    keep: Set<usize>,
    found: bool,
)
    requires
        0 <= i,
        pulses_producible(cx, es, i, pout),
        forall|j: int| i <= j < es.len() ==> inputs_agree(es, (#[trigger] es[j]).0.0, pin),
    ensures
        found ==> decide(es, i, cx, pout, pin, x, keep, found) == keep,
        !found && (exists|j: int| i <= j < es.len() && #[trigger] input_met(es, j, pout)) ==> decide(
            es,
            i,
            cx,
            pout,
            pin,
            x,
            keep,
            found,
        ) == keep.insert(x),
    decreases es.len() - i,
{
    if i < es.len() {
        assert(is_pulse_tag(cx, es[i].0.0) ==> may_be_present(list_of(pout, (es[i].0.0, TAG_INTERNED_ID))));
        assert(inputs_agree(es, es[i].0.0, pin));
        if !found && input_met(es, i, pout) {
            lemma_decide_producible(es, i + 1, cx, pout, pin, x, keep.insert(x), true);
        } else {
            lemma_decide_producible(es, i + 1, cx, pout, pin, x, keep, found);
            if !found && (exists|j: int| i <= j < es.len() && #[trigger] input_met(es, j, pout)) {
                let j = choose|j: int| i <= j < es.len() && #[trigger] input_met(es, j, pout);
                assert(j != i);
                assert(i + 1 <= j < es.len() && input_met(es, j, pout));
            }
        }
    }
}

/// A candidate is kept when every pulse input of its block is on a tag the
/// parent may be producing, its inputs on each tag agree with the parent's
/// inputs, and one of its inputs meets a domain the parent produces for
/// that pair.
pub proof fn lemma_candidate_kept(
    es: Seq<((u32, u32), Domain)>,
    cx: ChainContext,
    pout: Map<(u32, u32), Seq<Domain>>,
    pin: Map<(u32, u32), Domain>,
    x: usize,
    keep: Set<usize>,
)
    requires
        pulses_producible(cx, es, 0, pout),
        forall|j: int| 0 <= j < es.len() ==> inputs_agree(es, (#[trigger] es[j]).0.0, pin),
        exists|j: int| 0 <= j < es.len() && #[trigger] input_met(es, j, pout),
    ensures
        decide(es, 0, cx, pout, pin, x, keep, false).contains(x),
{
    lemma_decide_producible(es, 0, cx, pout, pin, x, keep, false);
}

/// Deciding on a candidate leaves every other candidate as it was; and a
/// candidate not kept before is kept after only when one of its inputs
/// meets a domain the parent produces for that pair, with its inputs on
/// that tag agreeing with the parent's.
pub proof fn lemma_decide_only_on_evidence(
    es: Seq<((u32, u32), Domain)>,
    i: int,
    cx: ChainContext,
    pout: Map<(u32, u32), Seq<Domain>>,
    pin: Map<(u32, u32), Domain>,
    x: usize,
    keep: Set<usize>,
    found: bool,
)
    requires
        0 <= i,
    ensures
        forall|y: usize| y != x ==> (#[trigger] decide(es, i, cx, pout, pin, x, keep, found).contains(y) == keep.contains(y)),
        decide(es, i, cx, pout, pin, x, keep, found).contains(x) && !keep.contains(x) ==> exists|j: int|
            i <= j < es.len() && #[trigger] input_met(es, j, pout) && inputs_agree(es, es[j].0.0, pin),
    decreases es.len() - i,
{
    if i < es.len() {
        let input = es[i].0;
        if is_pulse_tag(cx, input.0) && !may_be_present(list_of(pout, (input.0, TAG_INTERNED_ID))) {
        } else if !found && pout.contains_key(input) && meets_some(es[i].1, pout[input]) {
            if inputs_agree(es, input.0, pin) {
                lemma_decide_only_on_evidence(es, i + 1, cx, pout, pin, x, keep.insert(x), true);
                assert(input_met(es, i, pout));
            }
        } else {
            lemma_decide_only_on_evidence(es, i + 1, cx, pout, pin, x, keep, found);
            if decide(es, i, cx, pout, pin, x, keep, found).contains(x) && !keep.contains(x) {
                let j = choose|j: int| i + 1 <= j < es.len() && #[trigger] input_met(es, j, pout) && inputs_agree(es, es[j].0.0, pin);
                assert(i <= j);
            }
        }
    }
}

/// A candidate is dropped when one of its pulse inputs is on a tag the
/// parent cannot be producing and no earlier input meets a domain the
/// parent produces.
pub proof fn lemma_unproducible_pulse_drops(
    es: Seq<((u32, u32), Domain)>,
    i: int,
    cx: ChainContext,
    pout: Map<(u32, u32), Seq<Domain>>,
    pin: Map<(u32, u32), Domain>,
    x: usize,
    keep: Set<usize>,
    j: int,
)
    requires
        0 <= i <= j < es.len(),
        is_pulse_tag(cx, es[j].0.0),
        !may_be_present(list_of(pout, (es[j].0.0, TAG_INTERNED_ID))),
        forall|k: int| i <= k < j ==> !#[trigger] input_met(es, k, pout),
    ensures
        !decide(es, i, cx, pout, pin, x, keep, false).contains(x),
    decreases j - i,
{
    if i < j {
        assert(!input_met(es, i, pout));
        let input = es[i].0;
        if !(is_pulse_tag(cx, input.0) && !may_be_present(list_of(pout, (input.0, TAG_INTERNED_ID)))) {
            lemma_unproducible_pulse_drops(es, i + 1, cx, pout, pin, x, keep, j);
        }
    }
}

/// The candidates kept after deciding on the first `k` of `cands`.
pub open spec fn kept(
    cx: ChainContext,
    nodes: Seq<NodeShape>,
    pout: Map<(u32, u32), Seq<Domain>>,
    pin: Map<(u32, u32), Domain>,
    cands: Seq<usize>,
    k: int,
) -> Set<usize>
    decreases k,
{
    if k <= 0 {
        Set::empty()
    } else {
        let x = cands[k - 1];
        decide(
            input_entries(cx, nodes[x as int].block),
            0,
            cx,
            pout,
            pin,
            x,
            kept(cx, nodes, pout, pin, cands, k - 1),
            false,
        )
    }
}

/// The ids of `s` that `keep` holds, in order.
pub open spec fn retained(s: Seq<usize>, keep: Set<usize>) -> Seq<usize> {
    s.filter(|y: usize| keep.contains(y))
}

/// Visiting a parent node: its followers and back edges are the candidates;
/// those not kept are cut from both; returns the nodes and the kept followers.
pub open spec fn visit(cx: ChainContext, nodes: Seq<NodeShape>, root_input: u32, pid: usize) -> (Seq<NodeShape>, Seq<usize>) {
    let p = nodes[pid as int];
    let cands = p.next + p.back_edges;
    let keep = kept(cx, nodes, parent_outputs(cx, p, root_input), parent_inputs(cx, p), cands, cands.len() as int);
    let q = NodeShape { next: retained(p.next, keep), back_edges: retained(p.back_edges, keep), ..p };
    (nodes.update(pid as int, q), q.next)
}

/// Visiting a parent is defined: it and its candidates are nodes, and the
/// candidates' blocks are stored.
pub open spec fn visit_defined(cx: ChainContext, nodes: Seq<NodeShape>, pid: usize) -> bool {
    &&& (pid as int) < nodes.len()
    &&& forall|j: int|
        0 <= j < (nodes[pid as int].next + nodes[pid as int].back_edges).len() ==> {
            let x = #[trigger] (nodes[pid as int].next + nodes[pid as int].back_edges)[j];
            &&& (x as int) < nodes.len()
            &&& cx.blocks.contains_key(nodes[x as int].block)
        }
}

/// One round: the parents visited in order; the next parents are their
/// kept followers, in order.
pub open spec fn round(cx: ChainContext, nodes: Seq<NodeShape>, root_input: u32, parents: Seq<usize>) -> (Seq<NodeShape>, Seq<usize>)
    decreases parents.len(),
{
    if parents.len() == 0 {
        (nodes, Seq::empty())
    } else {
        let prev = round(cx, nodes, root_input, parents.drop_last());
        let v = visit(cx, prev.0, root_input, parents.last());
        (v.0, prev.1 + v.1)
    }
}

/// Every visit of the round is defined.
pub open spec fn round_defined(cx: ChainContext, nodes: Seq<NodeShape>, root_input: u32, parents: Seq<usize>) -> bool
    decreases parents.len(),
{
    parents.len() == 0 || (round_defined(cx, nodes, root_input, parents.drop_last()) && visit_defined(
        cx,
        round(cx, nodes, root_input, parents.drop_last()).0,
        parents.last(),
    ))
}

/// Up to `k` rounds, stopping when no parents remain.
pub open spec fn rounds(cx: ChainContext, nodes: Seq<NodeShape>, root_input: u32, parents: Seq<usize>, k: nat) -> (Seq<NodeShape>, Seq<usize>)
    decreases k,
{
    if k == 0 || parents.len() == 0 {
        (nodes, parents)
    } else {
        let r = round(cx, nodes, root_input, parents);
        rounds(cx, r.0, root_input, r.1, (k - 1) as nat)
    }
}

/// Every round of `rounds` is defined.
pub open spec fn rounds_defined(cx: ChainContext, nodes: Seq<NodeShape>, root_input: u32, parents: Seq<usize>, k: nat) -> bool
    decreases k,
{
    k == 0 || parents.len() == 0 || ({
        let r = round(cx, nodes, root_input, parents);
        round_defined(cx, nodes, root_input, parents) && rounds_defined(cx, r.0, root_input, r.1, (k - 1) as nat)
    })
}

/// The nodes after optimizing the chain whose root is node `chain_id`: the
/// rounds from that root, with the root's input tag as the chain's input.
pub open spec fn optimize_shapes(cx: ChainContext, nodes: Seq<NodeShape>, chain_id: usize) -> Seq<NodeShape> {
    rounds(cx, nodes, nodes[chain_id as int].input, seq![chain_id], ROUND_LIMIT as nat).0
}

/// Optimizing the chain whose root is node `chain_id` is defined.
pub open spec fn optimize_shapes_defined(cx: ChainContext, nodes: Seq<NodeShape>, chain_id: usize) -> bool {
    &&& (chain_id as int) < nodes.len()
    &&& rounds_defined(cx, nodes, nodes[chain_id as int].input, seq![chain_id], ROUND_LIMIT as nat)
}

/// The nodes after optimizing the chain of `chain_id`.
pub open spec fn optimized(a: Analysis, chain_id: usize) -> Seq<NodeShape> {
    optimize_shapes(a.context(), shapes(a.nodes@), chain_id)
}

/// Optimizing the chain of `chain_id` is defined.
pub open spec fn optimize_defined(a: Analysis, chain_id: usize) -> bool {
    optimize_shapes_defined(a.context(), shapes(a.nodes@), chain_id)
}

/// The nodes after optimizing each chain of `chains`, in order.
pub open spec fn optimize_all(cx: ChainContext, nodes: Seq<NodeShape>, chains: Seq<usize>) -> Seq<NodeShape>
    decreases chains.len(),
{
    if chains.len() == 0 {
        nodes
    } else {
        optimize_shapes(cx, optimize_all(cx, nodes, chains.drop_last()), chains.last())
    }
}

/// Optimizing each chain of `chains`, in order, is defined.
pub open spec fn optimize_all_defined(cx: ChainContext, nodes: Seq<NodeShape>, chains: Seq<usize>) -> bool
    decreases chains.len(),
{
    chains.len() == 0 || (optimize_all_defined(cx, nodes, chains.drop_last()) && optimize_shapes_defined(
        cx,
        optimize_all(cx, nodes, chains.drop_last()),
        chains.last(),
    ))
}

pub(crate) proof fn lemma_optimize_all_prefix(cx: ChainContext, nodes: Seq<NodeShape>, chains: Seq<usize>, j: int)
    requires
        0 <= j <= chains.len(),
        optimize_all_defined(cx, nodes, chains),
    ensures
        optimize_all_defined(cx, nodes, chains.take(j)),
    decreases chains.len(),
{
    if j < chains.len() {
        assert(chains.drop_last().take(j) =~= chains.take(j));
        lemma_optimize_all_prefix(cx, nodes, chains.drop_last(), j);
    } else {
        assert(chains.take(j) =~= chains);
    }
}

/// Whether the parent's domain list for a pair may hold a value.
fn list_may_be_present(pout: &PairMap<Vec<Domain>>, k: (u32, u32)) -> (r: bool)
    ensures
        r == may_be_present(list_of(domain_lists(pout@), k)),
{
    match pout.get(k.0, k.1) {
        Some(list) => {
            let mut j: usize = 0;
            while j < list.len()
                invariant
                    0 <= j <= list@.len(),
                    list@ == list_of(domain_lists(pout@), k),
                    forall|m: int| 0 <= m < j ==> !(#[trigger] list@[m]).spec_intersects(Domain::Unknown),
                decreases list@.len() - j,
            {
                if list[j].intersects(&Domain::Unknown) {
                    return true;
                }
                j = j + 1;
            }
            false
        },
        None => {
            assert(list_of(domain_lists(pout@), k) == Seq::<Domain>::empty());
            false
        },
    }
}

/// Whether some domain of the list shares a value with `d`.
fn meets_some_of(d: &Domain, ds: &Vec<Domain>) -> (r: bool)
    ensures
        r == meets_some(*d, ds@),
{
    let mut j: usize = 0;
    while j < ds.len()
        invariant
            0 <= j <= ds@.len(),
            forall|m: int| 0 <= m < j ==> !d.spec_intersects(#[trigger] ds@[m]),
        decreases ds@.len() - j,
    {
        if d.intersects(&ds[j]) {
            return true;
        }
        j = j + 1;
    }
    false
}

impl Analysis {
    /// Whether every input of block `b` on `tag` agrees with the parent's inputs.
    fn inputs_agree_with(&self, b: u32, tag: u32, pin: &PairMap<Domain>) -> (r: bool)
        requires
            self.wf(),
            self.blocks@.contains_key(b),
        ensures
            r == inputs_agree(input_entries(self.context(), b), tag, pin@),
    {
        let block = self.blocks.get(&b).unwrap();
        let order = block.input_domains.pairs();
        let ghost es = input_entries(self.context(), b);
        let n = order.len();
        let mut j: usize = 0;
        while j < n
            invariant
                *block == self.blocks@[b],
                block.wf(),
                order@ == block.input_domains.order(),
                es == input_entries(self.context(), b),
                n == es.len(),
                0 <= j <= n,
                forall|m: int|
                    0 <= m < j && (#[trigger] es[m]).0.0 == tag && pin@.contains_key(es[m].0) ==> es[m].1.spec_intersects(
                        pin@[es[m].0],
                    ),
            decreases n - j,
        {
            let k = order[j];
            proof {
                block.input_domains.lemma_wf();
                assert(order@[j as int] == k);
                assert(block.input_domains.order().contains(k));
            }
            assert(es[j as int] == (k, block.input_domains@[k]));
            if k.0 == tag {
                let d = block.input_domains.get(k.0, k.1).unwrap();
                match pin.get(k.0, k.1) {
                    Some(pd) => {
                        if !d.intersects(pd) {
                            return false;
                        }
                    },
                    None => {},
                }
            }
            j = j + 1;
        }
        true
    }

    /// Decides on the candidate `x` as `decide` says, updating `keep`.
    fn decide_candidate(
        &self,
        x: usize,
        keep: &mut HashSet<usize>,
        pout: &PairMap<Vec<Domain>>,
        pin: &PairMap<Domain>,
    )
        requires
            self.wf(),
            (x as int) < self.nodes@.len(),
            self.blocks@.contains_key(self.nodes@[x as int].block),
        ensures
            final(keep)@ == decide(
                input_entries(self.context(), self.nodes@[x as int].block),
                0,
                self.context(),
                domain_lists(pout@),
                pin@,
                x,
                old(keep)@,
                false,
            ),
    {
        let b = self.nodes[x].block;
        let block = self.blocks.get(&b).unwrap();
        let order = block.input_domains.pairs();
        let ghost es = input_entries(self.context(), b);
        let ghost po = domain_lists(pout@);
        let ghost target = decide(es, 0, self.context(), po, pin@, x, keep@, false);
        let n = order.len();
        let mut found = false;
        let mut i: usize = 0;
        while i < n
            invariant
                self.wf(),
                self.blocks@.contains_key(b),
                *block == self.blocks@[b],
                block.wf(),
                order@ == block.input_domains.order(),
                es == input_entries(self.context(), b),
                po == domain_lists(pout@),
                n == es.len(),
                0 <= i <= n,
                target == decide(es, i as int, self.context(), po, pin@, x, keep@, found),
                target == decide(es, 0, self.context(), po, pin@, x, old(keep)@, false),
                b == self.nodes@[x as int].block,
            decreases n - i,
        {
            let k = order[i];
            proof {
                block.input_domains.lemma_wf();
                assert(order@[i as int] == k);
                assert(block.input_domains.order().contains(k));
            }
            assert(es[i as int] == (k, block.input_domains@[k]));
            let domain = block.input_domains.get(k.0, k.1).unwrap();
            let pulse = match self.tags.get(&k.0) {
                Some(info) => info.is_pulse,
                None => false,
            };
            if pulse && !list_may_be_present(pout, (k.0, crate::program::TAG_INTERNED_ID)) {
                keep.remove(&x);
                assert(keep@ =~= target);
                return;
            }
            if !found {
                match pout.get(k.0, k.1) {
                    Some(ods) => {
                        if meets_some_of(domain, ods) {
                            if !self.inputs_agree_with(b, k.0, pin) {
                                return;
                            }
                            keep.insert(x);
                            found = true;
                        }
                    },
                    None => {},
                }
            }
            i = i + 1;
        }
        assert(keep@ =~= target);
    }

    /// The candidates of parent `pid` that are kept, given the parent's
    /// output and input domains.
    fn kept_candidates(&self, pid: usize, pout: &PairMap<Vec<Domain>>, pin: &PairMap<Domain>) -> (keep: HashSet<usize>)
        requires
            self.wf(),
            visit_defined(self.context(), shapes(self.nodes@), pid),
        ensures
            keep@ == kept(
                self.context(),
                shapes(self.nodes@),
                domain_lists(pout@),
                pin@,
                self.nodes@[pid as int].next@ + self.nodes@[pid as int].back_edges@,
                (self.nodes@[pid as int].next@ + self.nodes@[pid as int].back_edges@).len() as int,
            ),
    {
        let ghost ns = shapes(self.nodes@);
        let mut cands: Vec<usize> = Vec::new();
        let parent = &self.nodes[pid];
        let mut j: usize = 0;
        while j < parent.next.len()
            invariant
                0 <= j <= parent.next@.len(),
                cands@ == parent.next@.take(j as int),
            decreases parent.next@.len() - j,
        {
            cands.push(parent.next[j]);
            assert(parent.next@.take(j + 1) =~= parent.next@.take(j as int).push(parent.next@[j as int]));
            j = j + 1;
        }
        let mut j: usize = 0;
        while j < parent.back_edges.len()
            invariant
                0 <= j <= parent.back_edges@.len(),
                cands@ == parent.next@ + parent.back_edges@.take(j as int),
            decreases parent.back_edges@.len() - j,
        {
            assert(parent.next@.take(parent.next@.len() as int) =~= parent.next@);
            cands.push(parent.back_edges[j]);
            assert(parent.back_edges@.take(j + 1) =~= parent.back_edges@.take(j as int).push(parent.back_edges@[j as int]));
            j = j + 1;
        }
        assert(parent.next@.take(parent.next@.len() as int) =~= parent.next@);
        assert(parent.back_edges@.take(parent.back_edges@.len() as int) =~= parent.back_edges@);
        assert(cands@ =~= parent.next@ + parent.back_edges@);
        assert(ns[pid as int] == parent.shape());
        let mut keep: HashSet<usize> = HashSet::new();
        let n = cands.len();
        let mut k: usize = 0;
        while k < n
            invariant
                self.wf(),
                ns == shapes(self.nodes@),
                n == cands@.len(),
                cands@ == ns[pid as int].next + ns[pid as int].back_edges,
                visit_defined(self.context(), ns, pid),
                0 <= k <= n,
                keep@ == kept(self.context(), ns, domain_lists(pout@), pin@, cands@, k as int),
            decreases n - k,
        {
            let x = cands[k];
            assert(cands@[k as int] == x);
            assert(ns[x as int] == self.nodes@[x as int].shape());
            self.decide_candidate(x, &mut keep, pout, pin);
            k = k + 1;
        }
        keep
    }

    /// The ids of `s` that `keep` holds, in order.
    fn retain_kept(s: &Vec<usize>, keep: &HashSet<usize>) -> (r: Vec<usize>)
        ensures
            r@ == retained(s@, keep@),
    {
        let mut r: Vec<usize> = Vec::new();
        let mut i: usize = 0;
        while i < s.len()
            invariant
                0 <= i <= s@.len(),
                r@ == retained(s@.take(i as int), keep@),
            decreases s@.len() - i,
        {
            proof {
                reveal_with_fuel(Seq::<usize>::filter, 1);
                assert(s@.take(i + 1).drop_last() =~= s@.take(i as int));
            }
            if keep.contains(&s[i]) {
                r.push(s[i]);
            }
            i = i + 1;
        }
        assert(s@.take(s@.len() as int) =~= s@);
        r
    }

    /// Visits parent `pid` as `visit` says; returns its kept followers.
    fn visit_parent(
        &mut self,
        pid: usize,
        root_input: u32,
        initial_out: &PairMap<Vec<Domain>>,
        initial_in: &PairMap<Domain>,
    ) -> (r: Vec<usize>)
        requires
            old(self).wf(),
            visit_defined(old(self).context(), shapes(old(self).nodes@), pid),
            domain_lists(initial_out@) == Map::empty().insert((root_input, TAG_INTERNED_ID), seq![Domain::String]),
            initial_in@ == Map::<(u32, u32), Domain>::empty(),
        ensures
            final(self).wf(),
            final(self).context() == old(self).context(),
            (shapes(final(self).nodes@), r@) == visit(old(self).context(), shapes(old(self).nodes@), root_input, pid),
            final(self).blocks == old(self).blocks,
            final(self).inputs == old(self).inputs,
            final(self).setup_blocks == old(self).setup_blocks,
            final(self).root_blocks == old(self).root_blocks,
            final(self).tags == old(self).tags,
            final(self).externals == old(self).externals,
            final(self).chains == old(self).chains,
            final(self).dirty_blocks == old(self).dirty_blocks,
            final(self).nodes@.len() == old(self).nodes@.len(),
    {
        let ghost ns = shapes(self.nodes@);
        let ghost cx = self.context();
        let parent_block = self.nodes[pid].block;
        let keep = match self.blocks.get(&parent_block) {
            Some(b) => self.kept_candidates(pid, &b.output_domains, &b.input_domains),
            None => self.kept_candidates(pid, initial_out, initial_in),
        };
        let next = Self::retain_kept(&self.nodes[pid].next, &keep);
        let kept_next = next.clone();
        assert(kept_next@ =~= next@);
        let back_edges = Self::retain_kept(&self.nodes[pid].back_edges, &keep);
        let id = self.nodes[pid].id;
        let input = self.nodes[pid].input;
        let ghost old_next = self.nodes@[pid as int].next@;
        let ghost old_back = self.nodes@[pid as int].back_edges@;
        proof {
            assert forall|x: usize| #[trigger] next@.contains(x) implies old_next.contains(x) by {
                old_next.lemma_filter_contains_rev(|y: usize| keep@.contains(y), x);
            }
            assert forall|x: usize| #[trigger] back_edges@.contains(x) implies old_back.contains(x) by {
                old_back.lemma_filter_contains_rev(|y: usize| keep@.contains(y), x);
            }
        }
        let ghost new_next = next@;
        let ghost new_back = back_edges@;
        self.nodes.set(pid, Node { id, block: parent_block, input, next, back_edges });
        assert(self.nodes@[pid as int].next@ == new_next);
        assert(self.nodes@[pid as int].back_edges@ == new_back);
        assert(shapes(self.nodes@) =~= visit(cx, ns, root_input, pid).0);
        assert forall|i: int, x: usize|
            #![trigger self.nodes@[i].next@.contains(x)]
            #![trigger self.nodes@[i].back_edges@.contains(x)]
            0 <= i < self.nodes@.len() && (self.nodes@[i].next@.contains(x)
            || self.nodes@[i].back_edges@.contains(x)) implies x < self.nodes@.len() by {
            if i == pid as int {
                if new_next.contains(x) {
                    assert(old_next.contains(x));
                } else {
                    assert(old_back.contains(x));
                }
                assert(old(self).nodes@[i].next@.contains(x) || old(self).nodes@[i].back_edges@.contains(x));
                assert(x < old(self).nodes@.len());
            } else {
                assert(old(self).nodes@[i] == self.nodes@[i]);
                assert(old(self).nodes@[i].next@.contains(x) || old(self).nodes@[i].back_edges@.contains(x));
                assert(x < old(self).nodes@.len());
            }
        }
        kept_next
    }

    fn run_round(
        &mut self,
        parents: &Vec<usize>,
        root_input: u32,
        initial_out: &PairMap<Vec<Domain>>,
        initial_in: &PairMap<Domain>,
    ) -> (next_parents: Vec<usize>)
        requires
            old(self).wf(),
            round_defined(old(self).context(), shapes(old(self).nodes@), root_input, parents@),
            domain_lists(initial_out@) == Map::empty().insert((root_input, TAG_INTERNED_ID), seq![Domain::String]),
            initial_in@ == Map::<(u32, u32), Domain>::empty(),
        ensures
            final(self).wf(),
            final(self).context() == old(self).context(),
            (shapes(final(self).nodes@), next_parents@) == round(old(self).context(), shapes(old(self).nodes@), root_input, parents@),
            final(self).blocks == old(self).blocks,
            final(self).inputs == old(self).inputs,
            final(self).setup_blocks == old(self).setup_blocks,
            final(self).root_blocks == old(self).root_blocks,
            final(self).tags == old(self).tags,
            final(self).externals == old(self).externals,
            final(self).chains == old(self).chains,
            final(self).dirty_blocks == old(self).dirty_blocks,
            final(self).nodes@.len() == old(self).nodes@.len(),
    {
        let ghost cx = self.context();
        let ghost ns0 = shapes(self.nodes@);
        let mut next_parents: Vec<usize> = Vec::new();
        let n = parents.len();
        let mut j: usize = 0;
        while j < n
            invariant
                n == parents@.len(),
                0 <= j <= n,
                self.wf(),
                self.context() == cx,
                round_defined(cx, ns0, root_input, parents@),
                (shapes(self.nodes@), next_parents@) == round(cx, ns0, root_input, parents@.take(j as int)),
                domain_lists(initial_out@) == Map::empty().insert((root_input, TAG_INTERNED_ID), seq![Domain::String]),
                initial_in@ == Map::<(u32, u32), Domain>::empty(),
                self.blocks == old(self).blocks,
                self.inputs == old(self).inputs,
                self.setup_blocks == old(self).setup_blocks,
                self.root_blocks == old(self).root_blocks,
                self.tags == old(self).tags,
                self.externals == old(self).externals,
                self.chains == old(self).chains,
                self.dirty_blocks == old(self).dirty_blocks,
                self.nodes@.len() == old(self).nodes@.len(),
            decreases n - j,
        {
            proof {
                lemma_round_defined_prefix(cx, ns0, root_input, parents@, j + 1);
                assert(parents@.take(j + 1).drop_last() =~= parents@.take(j as int));
            }
            let kept = self.visit_parent(parents[j], root_input, initial_out, initial_in);
            let ghost before = next_parents@;
            let mut k: usize = 0;
            while k < kept.len()
                invariant
                    0 <= k <= kept@.len(),
                    next_parents@ == before + kept@.take(k as int),
                decreases kept@.len() - k,
            {
                next_parents.push(kept[k]);
                assert(kept@.take(k + 1) =~= kept@.take(k as int).push(kept@[k as int]));
                assert(before + kept@.take(k + 1) =~= (before + kept@.take(k as int)).push(kept@[k as int]));
                k = k + 1;
            }
            assert(kept@.take(kept@.len() as int) =~= kept@);
            j = j + 1;
        }
        assert(parents@.take(n as int) =~= parents@);
        next_parents
    }

    /// Prunes the chain that starts at node `chain_id`, round by round from
    /// its root: each visited node keeps only the followers and back edges
    /// whose blocks can be affected by what it produces (as `visit` says),
    /// and the kept followers are visited in the next round, until none
    /// are left.
    pub fn optimize_chain(&mut self, chain_id: usize)
        requires
            old(self).wf(),
            optimize_defined(*old(self), chain_id),
        ensures
            final(self).wf(),
            shapes(final(self).nodes@) == optimized(*old(self), chain_id),
            final(self).blocks == old(self).blocks,
            final(self).inputs == old(self).inputs,
            final(self).setup_blocks == old(self).setup_blocks,
            final(self).root_blocks == old(self).root_blocks,
            final(self).tags == old(self).tags,
            final(self).externals == old(self).externals,
            final(self).chains == old(self).chains,
            final(self).dirty_blocks == old(self).dirty_blocks,
            final(self).nodes@.len() == old(self).nodes@.len(),
    {
        let ghost cx = self.context();
        let ghost ns0 = shapes(self.nodes@);
        let root_input = self.nodes[chain_id].input;
        assert(ns0[chain_id as int].input == root_input);
        let mut initial_out: PairMap<Vec<Domain>> = PairMap::new();
        initial_out.push_item(root_input, TAG_INTERNED_ID, Domain::String);
        assert(domain_lists(initial_out@) =~= Map::empty().insert((root_input, TAG_INTERNED_ID), seq![Domain::String]));
        let initial_in: PairMap<Domain> = PairMap::new();
        let mut parents: Vec<usize> = Vec::new();
        parents.push(chain_id);
        assert(parents@ =~= seq![chain_id]);
        let mut count: u64 = 0;
        while parents.len() > 0 && count < ROUND_LIMIT
            invariant
                self.wf(),
                self.context() == cx,
                rounds(cx, shapes(self.nodes@), root_input, parents@, (ROUND_LIMIT - count) as nat) == rounds(
                    cx,
                    ns0,
                    root_input,
                    seq![chain_id],
                    ROUND_LIMIT as nat,
                ),
                rounds_defined(cx, shapes(self.nodes@), root_input, parents@, (ROUND_LIMIT - count) as nat),
                domain_lists(initial_out@) == Map::empty().insert((root_input, TAG_INTERNED_ID), seq![Domain::String]),
                initial_in@ == Map::<(u32, u32), Domain>::empty(),
                self.blocks == old(self).blocks,
                self.inputs == old(self).inputs,
                self.setup_blocks == old(self).setup_blocks,
                self.root_blocks == old(self).root_blocks,
                self.tags == old(self).tags,
                self.externals == old(self).externals,
                self.chains == old(self).chains,
                self.dirty_blocks == old(self).dirty_blocks,
                self.nodes@.len() == old(self).nodes@.len(),
            decreases ROUND_LIMIT - count,
        {
            parents = self.run_round(&parents, root_input, &initial_out, &initial_in);
            count = count + 1;
        }
    }
}

/// `after` has the nodes of `before`, each with the same number, block and
/// input, and with followers and back edges among those it had.
pub open spec fn only_cut(before: Seq<NodeShape>, after: Seq<NodeShape>) -> bool {
    &&& after.len() == before.len()
    &&& forall|i: int|
        #![trigger after[i]]
        0 <= i < before.len() ==> {
            &&& after[i].id == before[i].id
            &&& after[i].block == before[i].block
            &&& after[i].input == before[i].input
            &&& forall|x: usize| #[trigger] after[i].next.contains(x) ==> before[i].next.contains(x)
            &&& forall|x: usize| #[trigger] after[i].back_edges.contains(x) ==> before[i].back_edges.contains(x)
        }
}

/// Every follower and back edge of every node is a node whose block is
/// stored.
pub open spec fn targets_stored(cx: ChainContext, nodes: Seq<NodeShape>) -> bool {
    forall|i: int, x: usize|
        #![trigger nodes[i].next.contains(x)]
        #![trigger nodes[i].back_edges.contains(x)]
        0 <= i < nodes.len() && (nodes[i].next.contains(x) || nodes[i].back_edges.contains(x)) ==> (x as int)
            < nodes.len() && cx.blocks.contains_key(nodes[x as int].block)
}

proof fn lemma_only_cut_refl(ns: Seq<NodeShape>)
    ensures
        only_cut(ns, ns),
{
}

proof fn lemma_only_cut_trans(a: Seq<NodeShape>, b: Seq<NodeShape>, c: Seq<NodeShape>)
    requires
        only_cut(a, b),
        only_cut(b, c),
    ensures
        only_cut(a, c),
{
    assert forall|i: int| #![trigger c[i]] 0 <= i < a.len() implies {
        &&& c[i].id == a[i].id
        &&& c[i].block == a[i].block
        &&& c[i].input == a[i].input
        &&& forall|x: usize| #[trigger] c[i].next.contains(x) ==> a[i].next.contains(x)
        &&& forall|x: usize| #[trigger] c[i].back_edges.contains(x) ==> a[i].back_edges.contains(x)
    } by {
        assert(b[i].id == a[i].id);
        assert forall|x: usize| #[trigger] c[i].next.contains(x) implies a[i].next.contains(x) by {
            assert(b[i].next.contains(x));
        }
        assert forall|x: usize| #[trigger] c[i].back_edges.contains(x) implies a[i].back_edges.contains(x) by {
            assert(b[i].back_edges.contains(x));
        }
    }
}

proof fn lemma_visit_cuts(cx: ChainContext, nodes: Seq<NodeShape>, root_input: u32, pid: usize)
    requires
        (pid as int) < nodes.len(),
    ensures
        only_cut(nodes, visit(cx, nodes, root_input, pid).0),
        forall|x: usize| #[trigger] visit(cx, nodes, root_input, pid).1.contains(x) ==> nodes[pid as int].next.contains(x),
{
    let p = nodes[pid as int];
    let cands = p.next + p.back_edges;
    let keep = kept(cx, nodes, parent_outputs(cx, p, root_input), parent_inputs(cx, p), cands, cands.len() as int);
    let v = visit(cx, nodes, root_input, pid);
    assert forall|x: usize| #[trigger] retained(p.next, keep).contains(x) implies p.next.contains(x) by {
        p.next.lemma_filter_contains_rev(|y: usize| keep.contains(y), x);
    }
    assert forall|x: usize| #[trigger] retained(p.back_edges, keep).contains(x) implies p.back_edges.contains(x) by {
        p.back_edges.lemma_filter_contains_rev(|y: usize| keep.contains(y), x);
    }
    assert forall|i: int| #![trigger v.0[i]] 0 <= i < nodes.len() implies {
        &&& v.0[i].id == nodes[i].id
        &&& v.0[i].block == nodes[i].block
        &&& v.0[i].input == nodes[i].input
        &&& forall|x: usize| #[trigger] v.0[i].next.contains(x) ==> nodes[i].next.contains(x)
        &&& forall|x: usize| #[trigger] v.0[i].back_edges.contains(x) ==> nodes[i].back_edges.contains(x)
    } by {
        if i == pid {
            assert forall|x: usize| #[trigger] v.0[i].next.contains(x) implies nodes[i].next.contains(x) by {
                assert(retained(p.next, keep).contains(x));
            }
            assert forall|x: usize| #[trigger] v.0[i].back_edges.contains(x) implies nodes[i].back_edges.contains(x) by {
                assert(retained(p.back_edges, keep).contains(x));
            }
        }
    }
}

proof fn lemma_round_cuts(cx: ChainContext, nodes: Seq<NodeShape>, root_input: u32, parents: Seq<usize>)
    requires
        round_defined(cx, nodes, root_input, parents),
    ensures
        only_cut(nodes, round(cx, nodes, root_input, parents).0),
    decreases parents.len(),
{
    if parents.len() == 0 {
        lemma_only_cut_refl(nodes);
    } else {
        lemma_round_cuts(cx, nodes, root_input, parents.drop_last());
        let prev = round(cx, nodes, root_input, parents.drop_last());
        lemma_visit_cuts(cx, prev.0, root_input, parents.last());
        lemma_only_cut_trans(nodes, prev.0, visit(cx, prev.0, root_input, parents.last()).0);
    }
}

proof fn lemma_rounds_cut(cx: ChainContext, nodes: Seq<NodeShape>, root_input: u32, parents: Seq<usize>, k: nat)
    requires
        rounds_defined(cx, nodes, root_input, parents, k),
    ensures
        only_cut(nodes, rounds(cx, nodes, root_input, parents, k).0),
    decreases k,
{
    if k == 0 || parents.len() == 0 {
        lemma_only_cut_refl(nodes);
    } else {
        let r = round(cx, nodes, root_input, parents);
        lemma_round_cuts(cx, nodes, root_input, parents);
        lemma_rounds_cut(cx, r.0, root_input, r.1, (k - 1) as nat);
        lemma_only_cut_trans(nodes, r.0, rounds(cx, r.0, root_input, r.1, (k - 1) as nat).0);
    }
}

/// Optimizing a chain only cuts edges: every node keeps its number, block
/// and input, and its followers and back edges are among those it had.
pub proof fn lemma_optimize_cuts(cx: ChainContext, nodes: Seq<NodeShape>, chain_id: usize)
    requires
        optimize_shapes_defined(cx, nodes, chain_id),
    ensures
        only_cut(nodes, optimize_shapes(cx, nodes, chain_id)),
{
    lemma_rounds_cut(cx, nodes, nodes[chain_id as int].input, seq![chain_id], ROUND_LIMIT as nat);
}

/// Optimizing chains in turn only cuts edges.
pub proof fn lemma_optimize_all_cuts(cx: ChainContext, nodes: Seq<NodeShape>, chains: Seq<usize>)
    requires
        optimize_all_defined(cx, nodes, chains),
    ensures
        only_cut(nodes, optimize_all(cx, nodes, chains)),
    decreases chains.len(),
{
    if chains.len() == 0 {
        lemma_only_cut_refl(nodes);
    } else {
        lemma_optimize_all_cuts(cx, nodes, chains.drop_last());
        let prev = optimize_all(cx, nodes, chains.drop_last());
        lemma_optimize_cuts(cx, prev, chains.last());
        lemma_only_cut_trans(nodes, prev, optimize_shapes(cx, prev, chains.last()));
    }
}

proof fn lemma_targets_kept(cx: ChainContext, before: Seq<NodeShape>, after: Seq<NodeShape>)
    requires
        only_cut(before, after),
        targets_stored(cx, before),
    ensures
        targets_stored(cx, after),
{
    assert forall|i: int, x: usize|
        #![trigger after[i].next.contains(x)]
        #![trigger after[i].back_edges.contains(x)]
        0 <= i < after.len() && (after[i].next.contains(x) || after[i].back_edges.contains(x)) implies (x as int)
            < after.len() && cx.blocks.contains_key(after[x as int].block) by {
        assert(before[i].next.contains(x) || before[i].back_edges.contains(x));
        assert(after[x as int].block == before[x as int].block);
    }
}

proof fn lemma_visit_defined(cx: ChainContext, nodes: Seq<NodeShape>, pid: usize)
    requires
        targets_stored(cx, nodes),
        (pid as int) < nodes.len(),
    ensures
        visit_defined(cx, nodes, pid),
{
    let p = nodes[pid as int];
    assert forall|j: int| 0 <= j < (p.next + p.back_edges).len() implies {
        let x = #[trigger] (p.next + p.back_edges)[j];
        &&& (x as int) < nodes.len()
        &&& cx.blocks.contains_key(nodes[x as int].block)
    } by {
        let x = (p.next + p.back_edges)[j];
        if j < p.next.len() {
            assert(p.next[j] == x);
            assert(nodes[pid as int].next.contains(x));
        } else {
            assert(p.back_edges[j - p.next.len()] == x);
            assert(nodes[pid as int].back_edges.contains(x));
        }
    }
}

proof fn lemma_round_defined_from(cx: ChainContext, nodes: Seq<NodeShape>, root_input: u32, parents: Seq<usize>)
    requires
        targets_stored(cx, nodes),
        forall|j: int| 0 <= j < parents.len() ==> (#[trigger] parents[j] as int) < nodes.len(),
    ensures
        round_defined(cx, nodes, root_input, parents),
        forall|j: int|
            0 <= j < round(cx, nodes, root_input, parents).1.len() ==> (#[trigger] round(
                cx,
                nodes,
                root_input,
                parents,
            ).1[j] as int) < nodes.len(),
    decreases parents.len(),
{
    if parents.len() > 0 {
        let pid = parents.last();
        assert(parents[parents.len() - 1] == pid);
        lemma_round_defined_from(cx, nodes, root_input, parents.drop_last());
        lemma_round_cuts(cx, nodes, root_input, parents.drop_last());
        let prev = round(cx, nodes, root_input, parents.drop_last());
        lemma_targets_kept(cx, nodes, prev.0);
        lemma_visit_defined(cx, prev.0, pid);
        lemma_visit_cuts(cx, prev.0, root_input, pid);
        let v = visit(cx, prev.0, root_input, pid);
        let q = prev.1 + v.1;
        assert forall|j: int| 0 <= j < q.len() implies (#[trigger] q[j] as int) < nodes.len() by {
            if j < prev.1.len() {
                assert(q[j] == prev.1[j]);
            } else {
                assert(q[j] == v.1[j - prev.1.len()]);
                assert(v.1.contains(q[j]));
                assert(prev.0[pid as int].next.contains(q[j]));
            }
        }
    }
}

proof fn lemma_rounds_defined_from(cx: ChainContext, nodes: Seq<NodeShape>, root_input: u32, parents: Seq<usize>, k: nat)
    requires
        targets_stored(cx, nodes),
        forall|j: int| 0 <= j < parents.len() ==> (#[trigger] parents[j] as int) < nodes.len(),
    ensures
        rounds_defined(cx, nodes, root_input, parents, k),
    decreases k,
{
    if k > 0 && parents.len() > 0 {
        lemma_round_defined_from(cx, nodes, root_input, parents);
        lemma_round_cuts(cx, nodes, root_input, parents);
        let r = round(cx, nodes, root_input, parents);
        lemma_targets_kept(cx, nodes, r.0);
        lemma_rounds_defined_from(cx, r.0, root_input, r.1, (k - 1) as nat);
    }
}

/// When every edge leads to a node of a stored block, optimizing any
/// chains rooted at nodes, in turn, is defined.
pub proof fn lemma_optimize_all_defined(cx: ChainContext, nodes: Seq<NodeShape>, chains: Seq<usize>)
    requires
        targets_stored(cx, nodes),
        forall|j: int| 0 <= j < chains.len() ==> (#[trigger] chains[j] as int) < nodes.len(),
    ensures
        optimize_all_defined(cx, nodes, chains),
    decreases chains.len(),
{
    if chains.len() > 0 {
        let c = chains.last();
        assert(chains[chains.len() - 1] == c);
        lemma_optimize_all_defined(cx, nodes, chains.drop_last());
        lemma_optimize_all_cuts(cx, nodes, chains.drop_last());
        let prev = optimize_all(cx, nodes, chains.drop_last());
        lemma_targets_kept(cx, nodes, prev);
        assert(seq![c][0] == c);
        lemma_rounds_defined_from(cx, prev, prev[c as int].input, seq![c], ROUND_LIMIT as nat);
    }
}

proof fn lemma_round_defined_prefix(cx: ChainContext, nodes: Seq<NodeShape>, root_input: u32, parents: Seq<usize>, j: int)
    requires
        0 <= j <= parents.len(),
        round_defined(cx, nodes, root_input, parents),
    ensures
        round_defined(cx, nodes, root_input, parents.take(j)),
    decreases parents.len(),
{
    if j < parents.len() {
        assert(parents.drop_last().take(j) =~= parents.take(j));
        lemma_round_defined_prefix(cx, nodes, root_input, parents.drop_last(), j);
    } else {
        assert(parents.take(j) =~= parents);
    }
}

} // verus!
