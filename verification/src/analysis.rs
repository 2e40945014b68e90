use std::collections::{HashMap, HashSet};
use vstd::prelude::*;

use crate::block_info::{
    domain_lists, io_run, io_run_defined, looks_like_pulse, nothing_gathered, settled_domains,
    sweeps_defined, with_tags, BlockInfo, Gathered,
};
use crate::bound::{as_fn, well_behaved};
use crate::domain::{Domain, ValueType};
use crate::optimize::{
    lemma_optimize_all_defined, lemma_optimize_all_prefix, optimize_all, optimize_all_defined, targets_stored,
};
use crate::program::{Block, Constraint, Field, Internable, Interner};
use crate::tables::{id_list, lemma_with_key_contains, with_key, IdMap, TripleMap};

verus! {

broadcast use vstd::std_specs::hash::group_hash_axioms;

/// What is known of an attribute of a tag.
pub struct AttributeInfo {
    pub singleton: bool,
    pub types: HashSet<ValueType>,
    pub constraints: HashSet<(usize, Constraint)>,
}

impl AttributeInfo {
    pub fn new() -> (r: AttributeInfo)
        ensures
            !r.singleton,
            r.types@ == Set::<ValueType>::empty(),
            r.constraints@ == Set::<(usize, Constraint)>::empty(),
    {
        AttributeInfo { singleton: false, types: HashSet::new(), constraints: HashSet::new() }
    }
}

/// What is known of a tag.
pub struct TagInfo {
    pub attributes: HashMap<String, AttributeInfo>,
    pub other_tags: HashSet<String>,
    pub tag_relationships: HashSet<String>,
    pub external: bool,
    pub is_pulse: bool,
}

impl TagInfo {
    pub fn new() -> (r: TagInfo)
        ensures
            r.attributes@ == Map::<String, AttributeInfo>::empty(),
            r.other_tags@ == Set::<String>::empty(),
            r.tag_relationships@ == Set::<String>::empty(),
            !r.external,
            !r.is_pulse,
    {
        TagInfo {
            attributes: HashMap::new(),
            other_tags: HashSet::new(),
            tag_relationships: HashSet::new(),
            external: false,
            is_pulse: false,
        }
    }
}

/// A node of an execution chain: a block (or, for a chain rooted at an
/// external input, that input's tag), the nodes that follow it, and the
/// nodes earlier on its path that it feeds back into, each in the order
/// in which it was added.
pub struct Node {
    pub id: usize,
    pub block: u32,
    pub input: u32,
    pub next: Vec<usize>,
    pub back_edges: Vec<usize>,
}

/// The nodes ordered by number: the `i`-th is the one numbered `i`.
pub open spec fn by_id(ns: Seq<NodeShape>) -> Seq<NodeShape> {
    Seq::new(ns.len(), |i: int| ns[choose|j: int| 0 <= j < ns.len() && (#[trigger] ns[j]).id == i])
}

/// Whether a list holds a node number.
pub fn contains_index(list: &Vec<usize>, x: usize) -> (r: bool)
    ensures
        r == list@.contains(x),
{
    let mut i: usize = 0;
    while i < list.len()
        invariant
            0 <= i <= list@.len(),
            forall|j: int| 0 <= j < i ==> list@[j] != x,
        decreases list@.len() - i,
    {
        if list[i] == x {
            return true;
        }
        i = i + 1;
    }
    false
}

/// The arithmetic on encoded numbers that the domain analysis uses.
pub struct Arith {
    pub add: spec_fn(u64, u64) -> u64,
    pub subtract: spec_fn(u64, u64) -> u64,
    pub multiply: spec_fn(u64, u64) -> u64,
    pub divide: spec_fn(u64, u64) -> u64,
}

/// The analysis of a program's blocks.
pub struct Analysis {
    pub blocks: HashMap<u32, BlockInfo>,
    pub inputs: TripleMap<Vec<u32>>,
    pub setup_blocks: Vec<u32>,
    pub root_blocks: IdMap<Vec<u32>>,
    pub tags: HashMap<u32, TagInfo>,
    pub externals: HashSet<u32>,
    pub chains: Vec<usize>,
    pub nodes: Vec<Node>,
    pub dirty_blocks: Vec<u32>,
}

/// The lists of ids, as sequences.
pub open spec fn id_lists<K>(m: Map<K, Vec<u32>>) -> Map<K, Seq<u32>> {
    m.map_values(|v: Vec<u32>| v@)
}

/// The arithmetic of four closures, as mathematical functions.
pub open spec fn arith_of<A, S, M, D>(add: A, subtract: S, multiply: M, divide: D) -> Arith where
    A: Fn(u64, u64) -> u64,
    S: Fn(u64, u64) -> u64,
    M: Fn(u64, u64) -> u64,
    D: Fn(u64, u64) -> u64,
 {
    Arith {
        add: as_fn(add),
        subtract: as_fn(subtract),
        multiply: as_fn(multiply),
        divide: as_fn(divide),
    }
}

/// How often `x` occurs in `s`.
pub open spec fn count_of(s: Seq<u32>, x: u32) -> nat
    decreases s.len(),
{
    if s.len() == 0 {
        0
    } else {
        count_of(s.drop_last(), x) + if s.last() == x {
            1nat
        } else {
            0nat
        }
    }
}

/// The tags of `m` after the constraints' tags were gathered `j` times.
pub open spec fn tags_after(m: Map<Field, Seq<u32>>, cs: Seq<Constraint>, j: nat) -> Map<Field, Seq<u32>>
    decreases j,
{
    if j == 0 {
        m
    } else {
        with_tags(tags_after(m, cs, (j - 1) as nat), cs)
    }
}

/// The register domains the domain analysis settles at.
pub open spec fn settled_with(values: Seq<Internable>, cs: Seq<Constraint>, ar: Arith) -> Map<usize, Domain> {
    settled_domains(values, cs, ar.add, ar.subtract, ar.multiply, ar.divide)
}

/// What the `c`-th gathering of the block `b` finds (`c` at least 1).
pub open spec fn gathered_by(values: Seq<Internable>, b: BlockInfo, ar: Arith, c: nat) -> Gathered {
    io_run(
        values,
        settled_with(values, b.constraints@, ar),
        tags_after(b.field_to_tags@, b.constraints@, c),
        b.constraints@,
        nothing_gathered(),
    )
}

/// `now` is the block `b0` after it was gathered `c` times.
pub open spec fn gathered_times(values: Seq<Internable>, b0: BlockInfo, now: BlockInfo, ar: Arith, c: nat) -> bool {
    if c == 0 {
        now == b0
    } else {
        let g = gathered_by(values, b0, ar, c);
        &&& now.wf()
        &&& now.id == b0.id
        &&& now.constraints@ == b0.constraints@
        &&& now.field_to_tags@ == tags_after(b0.field_to_tags@, b0.constraints@, c)
        &&& now.has_scans == g.has_scans
        &&& now.inputs@ == g.inputs
        &&& now.outputs@ == g.outputs
        &&& now.input_domains@ == g.input_domains
        &&& now.input_domains.order() == g.input_order
        &&& domain_lists(now.output_domains@) == g.output_domains
        &&& now.output_domains.order() == g.output_order
        &&& now.is_pulse == (b0.is_pulse || looks_like_pulse(b0.constraints@))
    }
}

/// What gathering the `i`-th dirty block of `a` finds.
pub open spec fn gathering(a: Analysis, values: Seq<Internable>, ar: Arith, i: int) -> Gathered {
    let d = a.dirty_blocks@[i];
    gathered_by(values, a.blocks@[d], ar, count_of(a.dirty_blocks@.take(i), d) + 1)
}

/// Whether the `i`-th dirty block of `a` is a pulse once gathered.
pub open spec fn gathering_pulse(a: Analysis, i: int) -> bool {
    let b = a.blocks@[a.dirty_blocks@[i]];
    b.is_pulse || looks_like_pulse(b.constraints@)
}

/// Gathering the `i`-th dirty block of `a` is defined: every sweep of the
/// domain analysis and every step of the gathering is, and a pulse has an
/// output.
pub open spec fn gathering_defined(a: Analysis, values: Seq<Internable>, ar: Arith, i: int) -> bool {
    let d = a.dirty_blocks@[i];
    let b = a.blocks@[d];
    let cs = b.constraints@;
    &&& sweeps_defined(values, cs, Map::empty(), ar.add, ar.subtract, ar.multiply, ar.divide)
    &&& io_run_defined(
        values,
        settled_with(values, cs, ar),
        tags_after(b.field_to_tags@, cs, count_of(a.dirty_blocks@.take(i), d) + 1),
        cs,
        nothing_gathered(),
    )
    &&& (gathering_pulse(a, i) ==> gathering(a, values, ar, i).output_order.len() > 0)
}

/// The block lists of the inputs after adding `id` to the list of each of `ins`.
pub open spec fn add_to_inputs(
    m: Map<(u32, u32, u32), Seq<u32>>,
    ins: Seq<(u32, u32, u32)>,
    id: u32,
) -> Map<(u32, u32, u32), Seq<u32>>
    decreases ins.len(),
{
    if ins.len() == 0 {
        m
    } else {
        let m1 = add_to_inputs(m, ins.drop_last(), id);
        m1.insert(ins.last(), with_key(seq_or_empty(m1, ins.last()), id))
    }
}

/// The list of a key, empty when it has none.
pub open spec fn seq_or_empty<K>(m: Map<K, Seq<u32>>, k: K) -> Seq<u32> {
    if m.contains_key(k) {
        m[k]
    } else {
        Seq::empty()
    }
}

/// The root blocks of the external tags (and their order) after adding
/// `id` for each of `ins` whose tag is external.
pub open spec fn add_to_roots(
    m: Map<u32, Seq<u32>>,
    order: Seq<u32>,
    externals: Set<u32>,
    ins: Seq<(u32, u32, u32)>,
    id: u32,
) -> (Map<u32, Seq<u32>>, Seq<u32>)
    decreases ins.len(),
{
    if ins.len() == 0 {
        (m, order)
    } else {
        let prev = add_to_roots(m, order, externals, ins.drop_last(), id);
        let t = ins.last().0;
        if externals.contains(t) {
            (prev.0.insert(t, with_key(seq_or_empty(prev.0, t), id)), with_key(prev.1, t))
        } else {
            prev
        }
    }
}

/// The input lists after registering the first `n` dirty blocks of `a`.
pub open spec fn inputs_after(a: Analysis, values: Seq<Internable>, ar: Arith, n: int) -> Map<(u32, u32, u32), Seq<u32>>
    decreases n,
{
    if n <= 0 {
        id_lists(a.inputs@)
    } else {
        add_to_inputs(
            inputs_after(a, values, ar, n - 1),
            gathering(a, values, ar, n - 1).inputs,
            a.dirty_blocks@[n - 1],
        )
    }
}

/// The root lists and their order after registering the first `n` dirty blocks of `a`.
pub open spec fn roots_after(a: Analysis, values: Seq<Internable>, ar: Arith, n: int) -> (Map<u32, Seq<u32>>, Seq<u32>)
    decreases n,
{
    if n <= 0 {
        (id_lists(a.root_blocks@), a.root_blocks.order())
    } else {
        let prev = roots_after(a, values, ar, n - 1);
        add_to_roots(
            prev.0,
            prev.1,
            a.externals@,
            gathering(a, values, ar, n - 1).inputs,
            a.dirty_blocks@[n - 1],
        )
    }
}

/// The setup blocks after registering the first `n` dirty blocks of `a`:
/// those that scan nothing are added.
pub open spec fn setup_after(a: Analysis, values: Seq<Internable>, ar: Arith, n: int) -> Seq<u32>
    decreases n,
{
    if n <= 0 {
        a.setup_blocks@
    } else {
        let prev = setup_after(a, values, ar, n - 1);
        if gathering(a, values, ar, n - 1).has_scans {
            prev
        } else {
            prev.push(a.dirty_blocks@[n - 1])
        }
    }
}

/// The tags marked as pulses by the first `n` dirty blocks of `a`: for a
/// pulse block, the tag of its first output.
pub open spec fn pulse_tags_after(a: Analysis, values: Seq<Internable>, ar: Arith, n: int) -> Seq<u32>
    decreases n,
{
    if n <= 0 {
        Seq::empty()
    } else {
        let prev = pulse_tags_after(a, values, ar, n - 1);
        if gathering_pulse(a, n - 1) {
            prev.push(gathering(a, values, ar, n - 1).output_order[0].0)
        } else {
            prev
        }
    }
}

proof fn lemma_count_of_step(s: Seq<u32>, i: int, x: u32)
    requires
        0 <= i < s.len(),
    ensures
        count_of(s.take(i + 1), x) == count_of(s.take(i), x) + if s[i] == x {
            1nat
        } else {
            0nat
        },
{
    assert(s.take(i + 1).drop_last() =~= s.take(i));
}

/// Marks a tag as a pulse, recording it first when it is not yet known.
fn mark_pulse(tags: &mut HashMap<u32, TagInfo>, tag: u32)
    ensures
        final(tags)@.dom() == old(tags)@.dom().insert(tag),
        forall|t: u32| t != tag && #[trigger] old(tags)@.contains_key(t) ==> final(tags)@[t] == old(tags)@[t],
        final(tags)@[tag].is_pulse,
        old(tags)@.contains_key(tag) ==> final(tags)@[tag] == (TagInfo { is_pulse: true, ..old(tags)@[tag] }),
        !old(tags)@.contains_key(tag) ==> fresh_tag_info(final(tags)@[tag]),
{
    let mut info = match tags.remove(&tag) {
        Some(info) => info,
        None => TagInfo::new(),
    };
    info.is_pulse = true;
    tags.insert(tag, info);
    assert(final(tags)@.dom() =~= old(tags)@.dom().insert(tag));
}

/// A tag's information as first recorded, marked a pulse.
pub open spec fn fresh_tag_info(info: TagInfo) -> bool {
    &&& info.attributes@ == Map::<String, AttributeInfo>::empty()
    &&& info.other_tags@ == Set::<String>::empty()
    &&& info.tag_relationships@ == Set::<String>::empty()
    &&& !info.external
    &&& info.is_pulse
}

/// The analysis `g` is `a` once every dirty block of `a` has been gathered,
/// in order: each block's register domains settled and its inputs and
/// outputs gathered (as often as it was listed dirty); it is listed under
/// its inputs (and under its external input tags), made a setup block when
/// it scans nothing, and, when it is a pulse, the tag of its first output is
/// marked a pulse.  No block is dirty in `g`.
pub open spec fn gathered_state(a: Analysis, values: Seq<Internable>, ar: Arith, g: Analysis) -> bool {
    let n = a.dirty_blocks@.len() as int;
    let marked = pulse_tags_after(a, values, ar, n);
    &&& g.dirty_blocks@ == Seq::<u32>::empty()
    &&& g.blocks@.dom() == a.blocks@.dom()
    &&& forall|k: u32| #[trigger] a.blocks@.contains_key(k) ==> gathered_times(
        values,
        a.blocks@[k],
        g.blocks@[k],
        ar,
        count_of(a.dirty_blocks@, k),
    )
    &&& id_lists(g.inputs@) == inputs_after(a, values, ar, n)
    &&& (id_lists(g.root_blocks@), g.root_blocks.order()) == roots_after(a, values, ar, n)
    &&& g.setup_blocks@ == setup_after(a, values, ar, n)
    &&& g.tags@.dom() == a.tags@.dom() + marked.to_set()
    &&& forall|t: u32| #[trigger] a.tags@.contains_key(t) && !marked.contains(t) ==> g.tags@[t] == a.tags@[t]
    &&& forall|t: u32| #[trigger] marked.contains(t) && a.tags@.contains_key(t) ==> g.tags@[t] == (TagInfo { is_pulse: true, ..a.tags@[t] })
    &&& forall|t: u32| #[trigger] marked.contains(t) && !a.tags@.contains_key(t) ==> fresh_tag_info(g.tags@[t])
    &&& g.externals == a.externals
    &&& g.chains == a.chains
    &&& g.nodes == a.nodes
}

/// The ids of `xs` added in order to `acc`, each once.
pub open spec fn add_all(acc: Seq<u32>, xs: Seq<u32>) -> Seq<u32>
    decreases xs.len(),
{
    if xs.len() == 0 {
        acc
    } else {
        with_key(add_all(acc, xs.drop_last()), xs.last())
    }
}

/// The blocks that follow a block with the outputs `outs`: those listed
/// under its outputs, in order of outputs and of listing, each once.
pub open spec fn followers_of(inputs: Map<(u32, u32, u32), Seq<u32>>, outs: Seq<(u32, u32, u32)>) -> Seq<u32>
    decreases outs.len(),
{
    if outs.len() == 0 {
        Seq::empty()
    } else {
        add_all(followers_of(inputs, outs.drop_last()), seq_or_empty(inputs, outs.last()))
    }
}

/// The blocks that follow block `b` in the analysis `a`.
pub open spec fn followers(a: Analysis, b: u32) -> Seq<u32> {
    followers_of(id_lists(a.inputs@), a.blocks@[b].outputs@)
}

/// What a node holds, as mathematical values.
pub struct NodeShape {
    pub id: usize,
    pub block: u32,
    pub input: u32,
    pub next: Seq<usize>,
    pub back_edges: Seq<usize>,
}

impl Node {
    pub open spec fn shape(&self) -> NodeShape {
        NodeShape {
            id: self.id,
            block: self.block,
            input: self.input,
            next: self.next@,
            back_edges: self.back_edges@,
        }
    }
}

/// The shapes of a list of nodes.
pub open spec fn shapes(ns: Seq<Node>) -> Seq<NodeShape> {
    ns.map_values(|n: Node| n.shape())
}

/// The number of stored blocks not on the current path.
pub open spec fn unseen_count(a: Analysis, seen: Map<u32, usize>) -> nat {
    a.blocks@.dom().difference(seen.dom()).len()
}

/// The chain built from block `b`, numbering nodes from `ix`, with the
/// blocks of the current path in `seen` (mapped to their nodes): the nodes
/// of the sub-chains of its followers, in order, then the node of `b`
/// itself, which leads to the followers off the path and back to those on
/// it; and the next free number.  `fuel` bounds the depth.
pub open spec fn chain_nodes(a: Analysis, b: u32, seen: Map<u32, usize>, ix: nat, fuel: nat) -> (Seq<NodeShape>, nat)
    decreases fuel, 0nat, 0nat,
{
    if fuel == 0 {
        (Seq::empty(), ix)
    } else {
        let fs = followers(a, b);
        let c = chain_children(a, fs, seen.insert(b, ix as usize), ix + 1, (fuel - 1) as nat);
        (
            c.0.push(NodeShape { id: ix as usize, block: b, input: 0, next: c.2, back_edges: c.3 }),
            c.1,
        )
    }
}

/// The sub-chains of the followers `fs`, in order: the nodes built, the
/// next free number, the ids of the sub-chains, and the back edges to the
/// followers already on the path.
pub open spec fn chain_children(a: Analysis, fs: Seq<u32>, seen: Map<u32, usize>, ix: nat, fuel: nat) -> (
    Seq<NodeShape>,
    nat,
    Seq<usize>,
    Seq<usize>,
)
    decreases fuel, 1nat, fs.len(),
{
    if fs.len() == 0 {
        (Seq::empty(), ix, Seq::empty(), Seq::empty())
    } else {
        let prev = chain_children(a, fs.drop_last(), seen, ix, fuel);
        let f = fs.last();
        if seen.contains_key(f) {
            (prev.0, prev.1, prev.2, with_key(prev.3, seen[f]))
        } else {
            let sub = chain_nodes(a, f, seen, prev.1, fuel);
            (prev.0 + sub.0, sub.1, prev.2.push(prev.1 as usize), prev.3)
        }
    }
}

proof fn lemma_unseen_step(a: Analysis, seen: Map<u32, usize>, b: u32, ix: usize)
    requires
        a.blocks@.dom().finite(),
        a.blocks@.contains_key(b),
        !seen.contains_key(b),
    ensures
        unseen_count(a, seen.insert(b, ix)) + 1 == unseen_count(a, seen),
{
    let d = a.blocks@.dom();
    assert(d.difference(seen.insert(b, ix).dom()) =~= d.difference(seen.dom()).remove(b));
    assert(d.difference(seen.dom()).contains(b));
}

proof fn lemma_followers_stored(a: Analysis, b: u32, outs: Seq<(u32, u32, u32)>, x: u32)
    requires
        a.wf(),
        followers_of(id_lists(a.inputs@), outs).contains(x),
    ensures
        a.blocks@.contains_key(x),
    decreases outs.len(),
{
    if outs.len() > 0 {
        let prev = followers_of(id_lists(a.inputs@), outs.drop_last());
        let xs = seq_or_empty(id_lists(a.inputs@), outs.last());
        lemma_add_all_contains(prev, xs, x);
        if prev.contains(x) {
            lemma_followers_stored(a, b, outs.drop_last(), x);
        } else {
            let j = choose|j: int| 0 <= j < xs.len() && xs[j] == x;
            assert(a.inputs@.contains_key(outs.last()));
            assert(a.inputs@[outs.last()]@[j] == x);
        }
    }
}

proof fn lemma_add_all_contains(acc: Seq<u32>, xs: Seq<u32>, x: u32)
    ensures
        add_all(acc, xs).contains(x) <==> (acc.contains(x) || xs.contains(x)),
    decreases xs.len(),
{
    if xs.len() > 0 {
        lemma_add_all_contains(acc, xs.drop_last(), x);
        lemma_with_key_contains(add_all(acc, xs.drop_last()), xs.last());
        if xs.drop_last().contains(x) {
            let j = choose|j: int| 0 <= j < xs.len() - 1 && xs.drop_last()[j] == x;
            assert(xs[j] == x);
        }
        if xs.contains(x) && x != xs.last() {
            let j = choose|j: int| 0 <= j < xs.len() && xs[j] == x;
            assert(xs.drop_last()[j] == x);
        }
        if xs.last() == x {
            assert(xs[xs.len() - 1] == x);
        }
    }
}

proof fn lemma_chain_grows(a: Analysis, b: u32, seen: Map<u32, usize>, ix: nat, fuel: nat)
    ensures
        chain_nodes(a, b, seen, ix, fuel).1 >= ix,
        fuel > 0 ==> chain_nodes(a, b, seen, ix, fuel).1 >= ix + 1,
    decreases fuel, 0nat, 0nat,
{
    if fuel > 0 {
        lemma_children_grow(a, followers(a, b), seen.insert(b, ix as usize), ix + 1, (fuel - 1) as nat);
    }
}

proof fn lemma_children_grow(a: Analysis, fs: Seq<u32>, seen: Map<u32, usize>, ix: nat, fuel: nat)
    ensures
        chain_children(a, fs, seen, ix, fuel).1 >= ix,
        fs.len() > 0 ==> chain_children(a, fs, seen, ix, fuel).1 >= chain_children(
            a,
            fs.drop_last(),
            seen,
            ix,
            fuel,
        ).1,
    decreases fuel, 1nat, fs.len(),
{
    if fs.len() > 0 {
        lemma_children_grow(a, fs.drop_last(), seen, ix, fuel);
        let prev = chain_children(a, fs.drop_last(), seen, ix, fuel);
        if !seen.contains_key(fs.last()) {
            lemma_chain_grows(a, fs.last(), seen, prev.1, fuel);
        }
    }
}

proof fn lemma_children_prefix(a: Analysis, fs: Seq<u32>, seen: Map<u32, usize>, ix: nat, fuel: nat, k: int)
    requires
        0 <= k <= fs.len(),
    ensures
        chain_children(a, fs.take(k), seen, ix, fuel).1 <= chain_children(a, fs, seen, ix, fuel).1,
    decreases fs.len() - k,
{
    if k < fs.len() {
        lemma_children_prefix(a, fs, seen, ix, fuel, k + 1);
        lemma_children_grow(a, fs.take(k + 1), seen, ix, fuel);
        assert(fs.take(k + 1).drop_last() =~= fs.take(k));
    } else {
        assert(fs.take(k) =~= fs);
    }
}

/// The nodes are numbered `lo` up to (not including) `hi`, each number once.
pub open spec fn numbered(ns: Seq<NodeShape>, lo: nat, hi: nat) -> bool {
    &&& lo <= hi
    &&& ns.len() == hi - lo
    &&& forall|j: int| 0 <= j < ns.len() ==> lo <= (#[trigger] ns[j]).id < hi
    &&& forall|j: int, k: int| 0 <= j < k < ns.len() ==> (#[trigger] ns[j]).id != (#[trigger] ns[k]).id
    &&& forall|i: int| lo <= i < hi ==> #[trigger] has_id(ns, i)
}

/// Some node is numbered `i`.
pub open spec fn has_id(ns: Seq<NodeShape>, i: int) -> bool {
    exists|j: int| 0 <= j < ns.len() && (#[trigger] ns[j]).id == i
}

proof fn lemma_numbered_concat(ns1: Seq<NodeShape>, ns2: Seq<NodeShape>, lo: nat, mid: nat, hi: nat)
    requires
        numbered(ns1, lo, mid),
        numbered(ns2, mid, hi),
    ensures
        numbered(ns1 + ns2, lo, hi),
{
    let ns = ns1 + ns2;
    assert forall|j: int| 0 <= j < ns.len() implies lo <= (#[trigger] ns[j]).id < hi by {
        if j < ns1.len() {
            assert(ns[j] == ns1[j]);
        } else {
            assert(ns[j] == ns2[j - ns1.len()]);
        }
    }
    assert forall|j: int, k: int| 0 <= j < k < ns.len() implies (#[trigger] ns[j]).id != (#[trigger] ns[k]).id by {
        if k < ns1.len() {
            assert(ns[j] == ns1[j] && ns[k] == ns1[k]);
        } else if j >= ns1.len() {
            assert(ns[j] == ns2[j - ns1.len()] && ns[k] == ns2[k - ns1.len()]);
        } else {
            assert(ns[j] == ns1[j] && ns[k] == ns2[k - ns1.len()]);
        }
    }
    assert forall|i: int| lo <= i < hi implies #[trigger] has_id(ns, i) by {
        if i < mid {
            assert(has_id(ns1, i));
            let j = choose|j: int| 0 <= j < ns1.len() && (#[trigger] ns1[j]).id == i;
            assert(ns[j] == ns1[j]);
        } else {
            assert(has_id(ns2, i));
            let j = choose|j: int| 0 <= j < ns2.len() && (#[trigger] ns2[j]).id == i;
            assert(ns[j + ns1.len()] == ns2[j]);
        }
    }
}

proof fn lemma_numbered_push(ns: Seq<NodeShape>, n: NodeShape, lo: nat, hi: nat)
    requires
        numbered(ns, lo + 1, hi),
        n.id == lo,
    ensures
        numbered(ns.push(n), lo, hi),
{
    let ns2 = ns.push(n);
    assert forall|j: int| 0 <= j < ns2.len() implies lo <= (#[trigger] ns2[j]).id < hi by {
        if j < ns.len() {
            assert(ns2[j] == ns[j]);
        }
    }
    assert forall|j: int, k: int| 0 <= j < k < ns2.len() implies (#[trigger] ns2[j]).id != (#[trigger] ns2[k]).id by {
        assert(ns2[j] == ns[j]);
        if k < ns.len() {
            assert(ns2[k] == ns[k]);
        }
    }
    assert forall|i: int| lo <= i < hi implies #[trigger] has_id(ns2, i) by {
        if i == lo {
            assert(ns2[ns.len() as int] == n);
        } else {
            assert(has_id(ns, i));
            let j = choose|j: int| 0 <= j < ns.len() && (#[trigger] ns[j]).id == i;
            assert(ns2[j] == ns[j]);
        }
    }
}

proof fn lemma_chain_numbered(a: Analysis, b: u32, seen: Map<u32, usize>, ix: nat, fuel: nat)
    requires
        chain_nodes(a, b, seen, ix, fuel).1 <= usize::MAX,
    ensures
        numbered(chain_nodes(a, b, seen, ix, fuel).0, ix, chain_nodes(a, b, seen, ix, fuel).1),
    decreases fuel, 0nat, 0nat,
{
    if fuel > 0 {
        let fs = followers(a, b);
        let seen2 = seen.insert(b, ix as usize);
        lemma_children_numbered(a, fs, seen2, ix + 1, (fuel - 1) as nat);
        let c = chain_children(a, fs, seen2, ix + 1, (fuel - 1) as nat);
        lemma_numbered_push(c.0, NodeShape { id: ix as usize, block: b, input: 0, next: c.2, back_edges: c.3 }, ix, c.1);
    } else {
        assert(numbered(Seq::<NodeShape>::empty(), ix, ix));
    }
}

proof fn lemma_children_numbered(a: Analysis, fs: Seq<u32>, seen: Map<u32, usize>, ix: nat, fuel: nat)
    requires
        chain_children(a, fs, seen, ix, fuel).1 <= usize::MAX,
    ensures
        numbered(chain_children(a, fs, seen, ix, fuel).0, ix, chain_children(a, fs, seen, ix, fuel).1),
    decreases fuel, 1nat, fs.len(),
{
    if fs.len() == 0 {
        assert(numbered(Seq::<NodeShape>::empty(), ix, ix));
    } else {
        lemma_children_grow(a, fs, seen, ix, fuel);
        lemma_children_numbered(a, fs.drop_last(), seen, ix, fuel);
        let prev = chain_children(a, fs.drop_last(), seen, ix, fuel);
        if !seen.contains_key(fs.last()) {
            lemma_chain_numbered(a, fs.last(), seen, prev.1, fuel);
            let sub = chain_nodes(a, fs.last(), seen, prev.1, fuel);
            lemma_numbered_concat(prev.0, sub.0, ix, prev.1, sub.1);
        }
    }
}

/// The chains of the setup blocks `setups`, in order, numbered from 0: the
/// nodes built, the chain roots, and the next free number.
pub open spec fn setup_chains(a: Analysis, setups: Seq<u32>) -> (Seq<NodeShape>, Seq<usize>, nat)
    decreases setups.len(),
{
    if setups.len() == 0 {
        (Seq::empty(), Seq::empty(), 0)
    } else {
        let p = setup_chains(a, setups.drop_last());
        let c = chain_nodes(a, setups.last(), Map::empty(), p.2, unseen_count(a, Map::empty()));
        (p.0 + c.0, p.1.push(p.2 as usize), c.1)
    }
}

/// The chains of the root blocks `roots` of an external tag, numbered from
/// `ix`: the nodes built, the chain roots, and the next free number.
pub open spec fn root_chains(a: Analysis, roots: Seq<u32>, ix: nat) -> (Seq<NodeShape>, Seq<usize>, nat)
    decreases roots.len(),
{
    if roots.len() == 0 {
        (Seq::empty(), Seq::empty(), ix)
    } else {
        let p = root_chains(a, roots.drop_last(), ix);
        let c = chain_nodes(a, roots.last(), Map::empty(), p.2, unseen_count(a, Map::empty()));
        (p.0 + c.0, p.1.push(p.2 as usize), c.1)
    }
}

/// After `start`, a chain for each external tag of `tags`, in order: a
/// node for the tag that leads to the chains of its root blocks.
pub open spec fn input_chains(a: Analysis, tags: Seq<u32>, start: (Seq<NodeShape>, Seq<usize>, nat)) -> (
    Seq<NodeShape>,
    Seq<usize>,
    nat,
)
    decreases tags.len(),
{
    if tags.len() == 0 {
        start
    } else {
        let p = input_chains(a, tags.drop_last(), start);
        let t = tags.last();
        let r = root_chains(a, a.root_blocks@[t]@, p.2 + 1);
        (
            p.0 + r.0.push(NodeShape { id: p.2 as usize, block: 0, input: t, next: r.1, back_edges: Seq::empty() }),
            p.1.push(p.2 as usize),
            r.2,
        )
    }
}

/// All chains of the analysis: those of the setup blocks, then those of
/// the external tags.
pub open spec fn all_chains(a: Analysis) -> (Seq<NodeShape>, Seq<usize>, nat) {
    input_chains(a, a.root_blocks.order(), setup_chains(a, a.setup_blocks@))
}

proof fn lemma_setup_chains(a: Analysis, setups: Seq<u32>, k: int)
    requires
        0 <= k <= setups.len(),
    ensures
        setup_chains(a, setups.take(k)).2 <= setup_chains(a, setups).2,
        setup_chains(a, setups).2 <= usize::MAX ==> numbered(setup_chains(a, setups).0, 0, setup_chains(a, setups).2),
    decreases setups.len(),
{
    if setups.len() > 0 {
        let p = setup_chains(a, setups.drop_last());
        lemma_chain_grows(a, setups.last(), Map::empty(), p.2, unseen_count(a, Map::empty()));
        if k < setups.len() {
            assert(setups.drop_last().take(k) =~= setups.take(k));
            lemma_setup_chains(a, setups.drop_last(), k);
        } else {
            assert(setups.take(k) =~= setups);
            lemma_setup_chains(a, setups.drop_last(), 0);
        }
        let c = chain_nodes(a, setups.last(), Map::empty(), p.2, unseen_count(a, Map::empty()));
        if c.1 <= usize::MAX {
            lemma_setup_chains(a, setups.drop_last(), 0);
            lemma_chain_numbered(a, setups.last(), Map::empty(), p.2, unseen_count(a, Map::empty()));
            lemma_numbered_concat(p.0, c.0, 0, p.2, c.1);
        }
    } else {
        assert(setups.take(k) =~= setups);
        assert(numbered(Seq::<NodeShape>::empty(), 0, 0));
    }
}

proof fn lemma_root_chains(a: Analysis, roots: Seq<u32>, ix: nat, k: int)
    requires
        0 <= k <= roots.len(),
    ensures
        ix <= root_chains(a, roots.take(k), ix).2 <= root_chains(a, roots, ix).2,
        root_chains(a, roots, ix).2 <= usize::MAX ==> numbered(root_chains(a, roots, ix).0, ix, root_chains(a, roots, ix).2),
    decreases roots.len(),
{
    if roots.len() > 0 {
        let p = root_chains(a, roots.drop_last(), ix);
        lemma_chain_grows(a, roots.last(), Map::empty(), p.2, unseen_count(a, Map::empty()));
        if k < roots.len() {
            assert(roots.drop_last().take(k) =~= roots.take(k));
            lemma_root_chains(a, roots.drop_last(), ix, k);
        } else {
            assert(roots.take(k) =~= roots);
            lemma_root_chains(a, roots.drop_last(), ix, 0);
        }
        let c = chain_nodes(a, roots.last(), Map::empty(), p.2, unseen_count(a, Map::empty()));
        if c.1 <= usize::MAX {
            lemma_root_chains(a, roots.drop_last(), ix, 0);
            lemma_chain_numbered(a, roots.last(), Map::empty(), p.2, unseen_count(a, Map::empty()));
            lemma_numbered_concat(p.0, c.0, ix, p.2, c.1);
        }
    } else {
        assert(roots.take(k) =~= roots);
        assert(numbered(Seq::<NodeShape>::empty(), ix, ix));
    }
}

proof fn lemma_input_chains(a: Analysis, tags: Seq<u32>, start: (Seq<NodeShape>, Seq<usize>, nat), k: int)
    requires
        0 <= k <= tags.len(),
    ensures
        start.2 <= input_chains(a, tags.take(k), start).2 <= input_chains(a, tags, start).2,
        input_chains(a, tags, start).2 <= usize::MAX && numbered(start.0, 0, start.2) ==> numbered(
            input_chains(a, tags, start).0,
            0,
            input_chains(a, tags, start).2,
        ),
    decreases tags.len(),
{
    if tags.len() > 0 {
        let p = input_chains(a, tags.drop_last(), start);
        let t = tags.last();
        lemma_root_chains(a, a.root_blocks@[t]@, p.2 + 1, 0);
        if k < tags.len() {
            assert(tags.drop_last().take(k) =~= tags.take(k));
            lemma_input_chains(a, tags.drop_last(), start, k);
        } else {
            assert(tags.take(k) =~= tags);
            lemma_input_chains(a, tags.drop_last(), start, 0);
        }
        let r = root_chains(a, a.root_blocks@[t]@, p.2 + 1);
        if r.2 <= usize::MAX && numbered(start.0, 0, start.2) {
            lemma_input_chains(a, tags.drop_last(), start, 0);
            let n = NodeShape { id: p.2 as usize, block: 0, input: t, next: r.1, back_edges: Seq::empty() };
            lemma_numbered_push(r.0, n, p.2, r.2);
            lemma_numbered_concat(p.0, r.0.push(n), 0, p.2, r.2);
        }
    } else {
        assert(tags.take(k) =~= tags);
    }
}

/// Every follower and back edge of the nodes is numbered below `hi`.
pub open spec fn edges_below(ns: Seq<NodeShape>, hi: nat) -> bool {
    forall|j: int, x: usize|
        #![trigger ns[j].next.contains(x)]
        #![trigger ns[j].back_edges.contains(x)]
        0 <= j < ns.len() && (ns[j].next.contains(x) || ns[j].back_edges.contains(x)) ==> x < hi
}

proof fn lemma_edges_concat(ns1: Seq<NodeShape>, ns2: Seq<NodeShape>, h1: nat, hi: nat)
    requires
        edges_below(ns1, h1),
        edges_below(ns2, hi),
        h1 <= hi,
    ensures
        edges_below(ns1 + ns2, hi),
{
    let ns = ns1 + ns2;
    assert forall|j: int, x: usize|
        #![trigger ns[j].next.contains(x)]
        #![trigger ns[j].back_edges.contains(x)]
        0 <= j < ns.len() && (ns[j].next.contains(x) || ns[j].back_edges.contains(x)) implies x < hi by {
        if j < ns1.len() {
            assert(ns[j] == ns1[j]);
        } else {
            assert(ns[j] == ns2[j - ns1.len()]);
        }
    }
}

proof fn lemma_with_key_below(s: Seq<usize>, k: usize, hi: nat)
    requires
        forall|x: usize| #[trigger] s.contains(x) ==> x < hi,
        k < hi,
    ensures
        forall|x: usize| #[trigger] with_key(s, k).contains(x) ==> x < hi,
{
    lemma_with_key_contains(s, k);
}

proof fn lemma_push_below(s: Seq<usize>, k: usize, hi: nat)
    requires
        forall|x: usize| #[trigger] s.contains(x) ==> x < hi,
        k < hi,
    ensures
        forall|x: usize| #[trigger] s.push(k).contains(x) ==> x < hi,
{
    let t = s.push(k);
    assert forall|x: usize| #[trigger] t.contains(x) implies x < hi by {
        let j = choose|j: int| 0 <= j < t.len() && t[j] == x;
        if j < s.len() {
            assert(t[j] == s[j]);
            assert(s.contains(x));
        } else {
            assert(t[j] == k);
        }
    }
}

proof fn lemma_unseen_positive(a: Analysis, seen: Map<u32, usize>, f: u32)
    requires
        a.blocks@.dom().finite(),
        a.blocks@.contains_key(f),
        !seen.contains_key(f),
    ensures
        unseen_count(a, seen) >= 1,
{
    assert(a.blocks@.dom().difference(seen.dom()).contains(f));
}

proof fn lemma_chain_edges(a: Analysis, b: u32, seen: Map<u32, usize>, ix: nat, fuel: nat)
    requires
        a.wf(),
        a.blocks@.contains_key(b),
        !seen.contains_key(b),
        fuel == unseen_count(a, seen),
        forall|k: u32| #[trigger] seen.contains_key(k) ==> seen[k] < ix,
        chain_nodes(a, b, seen, ix, fuel).1 <= usize::MAX,
    ensures
        edges_below(chain_nodes(a, b, seen, ix, fuel).0, chain_nodes(a, b, seen, ix, fuel).1),
    decreases fuel, 0nat, 0nat,
{
    lemma_unseen_step(a, seen, b, ix as usize);
    let fs = followers(a, b);
    let seen2 = seen.insert(b, ix as usize);
    lemma_chain_grows(a, b, seen, ix, fuel);
    lemma_children_grow(a, fs, seen2, ix + 1, (fuel - 1) as nat);
    assert forall|f: u32| #[trigger] fs.contains(f) implies a.blocks@.contains_key(f) by {
        lemma_followers_stored(a, b, a.blocks@[b].outputs@, f);
    }
    lemma_children_edges(a, fs, seen2, ix + 1, (fuel - 1) as nat);
    let c = chain_children(a, fs, seen2, ix + 1, (fuel - 1) as nat);
    let n = NodeShape { id: ix as usize, block: b, input: 0, next: c.2, back_edges: c.3 };
    let ns = c.0.push(n);
    assert forall|j: int, x: usize|
        #![trigger ns[j].next.contains(x)]
        #![trigger ns[j].back_edges.contains(x)]
        0 <= j < ns.len() && (ns[j].next.contains(x) || ns[j].back_edges.contains(x)) implies x < c.1 by {
        if j < c.0.len() {
            assert(ns[j] == c.0[j]);
        }
    }
}

proof fn lemma_children_edges(a: Analysis, fs: Seq<u32>, seen: Map<u32, usize>, ix: nat, fuel: nat)
    requires
        a.wf(),
        fuel == unseen_count(a, seen),
        forall|f: u32| #[trigger] fs.contains(f) ==> a.blocks@.contains_key(f),
        forall|k: u32| #[trigger] seen.contains_key(k) ==> seen[k] < ix,
        chain_children(a, fs, seen, ix, fuel).1 <= usize::MAX,
    ensures
        edges_below(chain_children(a, fs, seen, ix, fuel).0, chain_children(a, fs, seen, ix, fuel).1),
        forall|x: usize| #[trigger] chain_children(a, fs, seen, ix, fuel).2.contains(x) ==> x < chain_children(a, fs, seen, ix, fuel).1,
        forall|x: usize| #[trigger] chain_children(a, fs, seen, ix, fuel).3.contains(x) ==> x < ix,
    decreases fuel, 1nat, fs.len(),
{
    if fs.len() > 0 {
        assert forall|f: u32| #[trigger] fs.drop_last().contains(f) implies a.blocks@.contains_key(f) by {
            let j = choose|j: int| 0 <= j < fs.len() - 1 && fs.drop_last()[j] == f;
            assert(fs[j] == f);
            assert(fs.contains(f));
        }
        lemma_children_grow(a, fs, seen, ix, fuel);
        lemma_children_edges(a, fs.drop_last(), seen, ix, fuel);
        lemma_children_grow(a, fs.drop_last(), seen, ix, fuel);
        let prev = chain_children(a, fs.drop_last(), seen, ix, fuel);
        let f = fs.last();
        assert(fs[fs.len() - 1] == f);
        assert(fs.contains(f));
        if seen.contains_key(f) {
            lemma_with_key_below(prev.3, seen[f], ix);
        } else {
            lemma_unseen_positive(a, seen, f);
            lemma_chain_grows(a, f, seen, prev.1, fuel);
            lemma_chain_edges(a, f, seen, prev.1, fuel);
            let sub = chain_nodes(a, f, seen, prev.1, fuel);
            lemma_edges_concat(prev.0, sub.0, prev.1, sub.1);
            lemma_push_below(prev.2, prev.1 as usize, sub.1);
            assert forall|x: usize| #[trigger] prev.2.contains(x) implies x < sub.1 by {}
        }
    } else {
        assert(edges_below(Seq::<NodeShape>::empty(), ix));
    }
}

/// The nodes that analyzing builds from `g`, the analysis once its dirty
/// blocks are gathered: the nodes `g` had, then the nodes of all chains
/// ordered by number, with each chain optimized in turn.
pub open spec fn analyzed_nodes(g: Analysis) -> Seq<NodeShape> {
    optimize_all(g.context(), shapes(g.nodes@) + by_id(all_chains(g).0), all_chains(g).1)
}

/// Analyzing `g` is defined: the nodes can be numbered, and every chain
/// can be optimized in turn.
pub open spec fn analysis_defined(g: Analysis) -> bool {
    &&& g.nodes@.len() + all_chains(g).2 <= usize::MAX
    &&& optimize_all_defined(g.context(), shapes(g.nodes@) + by_id(all_chains(g).0), all_chains(g).1)
}

/// Some node of `ns` is numbered `x` and holds a stored block.
pub open spec fn has_block_node(a: Analysis, ns: Seq<NodeShape>, x: usize) -> bool {
    exists|j: int| 0 <= j < ns.len() && (#[trigger] ns[j]).id == x && a.blocks@.contains_key(ns[j].block)
}

/// Some block on the path is mapped to node `x`.
pub open spec fn on_path(seen: Map<u32, usize>, x: usize) -> bool {
    exists|k: u32| #[trigger] seen.contains_key(k) && seen[k] == x
}

/// Every follower and back edge of the nodes is a node of theirs that
/// holds a stored block, or a node on the path.
pub open spec fn targets_known(a: Analysis, ns: Seq<NodeShape>, seen: Map<u32, usize>) -> bool {
    forall|j: int, x: usize|
        #![trigger ns[j].next.contains(x)]
        #![trigger ns[j].back_edges.contains(x)]
        0 <= j < ns.len() && (ns[j].next.contains(x) || ns[j].back_edges.contains(x)) ==> has_block_node(a, ns, x)
            || on_path(seen, x)
}

proof fn lemma_block_node_concat(a: Analysis, ns1: Seq<NodeShape>, ns2: Seq<NodeShape>)
    ensures
        forall|x: usize| #[trigger] has_block_node(a, ns1 + ns2, x) <== has_block_node(a, ns1, x) || has_block_node(a, ns2, x),
{
    assert forall|x: usize| has_block_node(a, ns1, x) || has_block_node(a, ns2, x) implies #[trigger] has_block_node(a, ns1 + ns2, x) by {
        if has_block_node(a, ns1, x) {
            let j = choose|j: int| 0 <= j < ns1.len() && (#[trigger] ns1[j]).id == x && a.blocks@.contains_key(ns1[j].block);
            assert((ns1 + ns2)[j] == ns1[j]);
        } else {
            let j = choose|j: int| 0 <= j < ns2.len() && (#[trigger] ns2[j]).id == x && a.blocks@.contains_key(ns2[j].block);
            assert((ns1 + ns2)[j + ns1.len()] == ns2[j]);
        }
    }
}

proof fn lemma_targets_concat(a: Analysis, ns1: Seq<NodeShape>, ns2: Seq<NodeShape>, seen: Map<u32, usize>)
    requires
        targets_known(a, ns1, seen),
        targets_known(a, ns2, seen),
    ensures
        targets_known(a, ns1 + ns2, seen),
{
    lemma_block_node_concat(a, ns1, ns2);
    let ns = ns1 + ns2;
    assert forall|j: int, x: usize|
        #![trigger ns[j].next.contains(x)]
        #![trigger ns[j].back_edges.contains(x)]
        0 <= j < ns.len() && (ns[j].next.contains(x) || ns[j].back_edges.contains(x)) implies has_block_node(a, ns, x)
            || on_path(seen, x) by {
        if j < ns1.len() {
            assert(ns[j] == ns1[j]);
        } else {
            assert(ns[j] == ns2[j - ns1.len()]);
        }
    }
}

proof fn lemma_chain_targets(a: Analysis, b: u32, seen: Map<u32, usize>, ix: nat, fuel: nat)
    requires
        a.wf(),
        a.blocks@.contains_key(b),
        !seen.contains_key(b),
        fuel == unseen_count(a, seen),
    ensures
        targets_known(a, chain_nodes(a, b, seen, ix, fuel).0, seen),
        has_block_node(a, chain_nodes(a, b, seen, ix, fuel).0, ix as usize),
    decreases fuel, 0nat, 0nat,
{
    lemma_unseen_positive(a, seen, b);
    lemma_unseen_step(a, seen, b, ix as usize);
    let fs = followers(a, b);
    let seen2 = seen.insert(b, ix as usize);
    assert forall|f: u32| #[trigger] fs.contains(f) implies a.blocks@.contains_key(f) by {
        lemma_followers_stored(a, b, a.blocks@[b].outputs@, f);
    }
    lemma_children_targets(a, fs, seen2, ix + 1, (fuel - 1) as nat);
    let c = chain_children(a, fs, seen2, ix + 1, (fuel - 1) as nat);
    let n = NodeShape { id: ix as usize, block: b, input: 0, next: c.2, back_edges: c.3 };
    let ns = c.0.push(n);
    assert(ns[c.0.len() as int] == n);
    assert(has_block_node(a, ns, ix as usize));
    assert forall|x: usize| #[trigger] has_block_node(a, c.0, x) implies has_block_node(a, ns, x) by {
        let j = choose|j: int| 0 <= j < c.0.len() && (#[trigger] c.0[j]).id == x && a.blocks@.contains_key(c.0[j].block);
        assert(ns[j] == c.0[j]);
    }
    assert forall|x: usize| #[trigger] on_path(seen2, x) implies has_block_node(a, ns, x) || on_path(seen, x) by {
        let k = choose|k: u32| #[trigger] seen2.contains_key(k) && seen2[k] == x;
        if k != b {
            assert(seen.contains_key(k) && seen[k] == x);
        }
    }
    assert forall|j: int, x: usize|
        #![trigger ns[j].next.contains(x)]
        #![trigger ns[j].back_edges.contains(x)]
        0 <= j < ns.len() && (ns[j].next.contains(x) || ns[j].back_edges.contains(x)) implies has_block_node(a, ns, x)
            || on_path(seen, x) by {
        if j < c.0.len() {
            assert(ns[j] == c.0[j]);
            assert(has_block_node(a, c.0, x) || on_path(seen2, x));
        } else {
            assert(ns[j] == n);
        }
    }
}

proof fn lemma_children_targets(a: Analysis, fs: Seq<u32>, seen: Map<u32, usize>, ix: nat, fuel: nat)
    requires
        a.wf(),
        fuel == unseen_count(a, seen),
        forall|f: u32| #[trigger] fs.contains(f) ==> a.blocks@.contains_key(f),
    ensures
        targets_known(a, chain_children(a, fs, seen, ix, fuel).0, seen),
        forall|x: usize| #[trigger] chain_children(a, fs, seen, ix, fuel).2.contains(x) ==> has_block_node(
            a,
            chain_children(a, fs, seen, ix, fuel).0,
            x,
        ),
        forall|x: usize| #[trigger] chain_children(a, fs, seen, ix, fuel).3.contains(x) ==> on_path(seen, x),
    decreases fuel, 1nat, fs.len(),
{
    if fs.len() > 0 {
        assert forall|f: u32| #[trigger] fs.drop_last().contains(f) implies a.blocks@.contains_key(f) by {
            let j = choose|j: int| 0 <= j < fs.len() - 1 && fs.drop_last()[j] == f;
            assert(fs[j] == f);
            assert(fs.contains(f));
        }
        lemma_children_targets(a, fs.drop_last(), seen, ix, fuel);
        let prev = chain_children(a, fs.drop_last(), seen, ix, fuel);
        let f = fs.last();
        assert(fs[fs.len() - 1] == f);
        assert(fs.contains(f));
        if seen.contains_key(f) {
            lemma_with_key_contains(prev.3, seen[f]);
        } else {
            lemma_chain_targets(a, f, seen, prev.1, fuel);
            let sub = chain_nodes(a, f, seen, prev.1, fuel);
            lemma_targets_concat(a, prev.0, sub.0, seen);
            lemma_block_node_concat(a, prev.0, sub.0);
            let pushed = prev.2.push(prev.1 as usize);
            assert forall|x: usize| #[trigger] pushed.contains(x) implies has_block_node(a, prev.0 + sub.0, x) by {
                let j = choose|j: int| 0 <= j < pushed.len() && pushed[j] == x;
                if j < prev.2.len() {
                    assert(pushed[j] == prev.2[j]);
                    assert(prev.2.contains(x));
                } else {
                    assert(pushed[j] == prev.1 as usize);
                }
            }
        }
    } else {
        assert(targets_known(a, Seq::<NodeShape>::empty(), seen));
    }
}

proof fn lemma_setup_targets(a: Analysis, setups: Seq<u32>)
    requires
        a.wf(),
        forall|i: int| 0 <= i < setups.len() ==> a.blocks@.contains_key(#[trigger] setups[i]),
    ensures
        targets_known(a, setup_chains(a, setups).0, Map::empty()),
    decreases setups.len(),
{
    if setups.len() > 0 {
        let p = setup_chains(a, setups.drop_last());
        let b = setups.last();
        assert(setups[setups.len() - 1] == b);
        lemma_setup_targets(a, setups.drop_last());
        lemma_chain_targets(a, b, Map::empty(), p.2, unseen_count(a, Map::empty()));
        lemma_targets_concat(a, p.0, chain_nodes(a, b, Map::empty(), p.2, unseen_count(a, Map::empty())).0, Map::empty());
    } else {
        assert(targets_known(a, Seq::<NodeShape>::empty(), Map::empty()));
    }
}

proof fn lemma_root_targets(a: Analysis, roots: Seq<u32>, ix: nat)
    requires
        a.wf(),
        forall|i: int| 0 <= i < roots.len() ==> a.blocks@.contains_key(#[trigger] roots[i]),
    ensures
        targets_known(a, root_chains(a, roots, ix).0, Map::empty()),
        forall|i: int| 0 <= i < root_chains(a, roots, ix).1.len() ==> has_block_node(
            a,
            root_chains(a, roots, ix).0,
            #[trigger] root_chains(a, roots, ix).1[i],
        ),
    decreases roots.len(),
{
    if roots.len() > 0 {
        let p = root_chains(a, roots.drop_last(), ix);
        let b = roots.last();
        assert(roots[roots.len() - 1] == b);
        lemma_root_targets(a, roots.drop_last(), ix);
        let u = unseen_count(a, Map::empty());
        lemma_chain_targets(a, b, Map::empty(), p.2, u);
        let c = chain_nodes(a, b, Map::empty(), p.2, u);
        lemma_targets_concat(a, p.0, c.0, Map::empty());
        lemma_block_node_concat(a, p.0, c.0);
        let q = root_chains(a, roots, ix);
        assert forall|i: int| 0 <= i < q.1.len() implies has_block_node(a, q.0, #[trigger] q.1[i]) by {
            if i < p.1.len() {
                assert(q.1[i] == p.1[i]);
            }
        }
    } else {
        assert(targets_known(a, Seq::<NodeShape>::empty(), Map::empty()));
    }
}

proof fn lemma_input_targets(a: Analysis, tags: Seq<u32>, start: (Seq<NodeShape>, Seq<usize>, nat))
    requires
        a.wf(),
        forall|i: int| 0 <= i < tags.len() ==> a.root_blocks@.contains_key(#[trigger] tags[i]),
        targets_known(a, start.0, Map::empty()),
    ensures
        targets_known(a, input_chains(a, tags, start).0, Map::empty()),
    decreases tags.len(),
{
    if tags.len() > 0 {
        let p = input_chains(a, tags.drop_last(), start);
        let t = tags.last();
        assert(tags[tags.len() - 1] == t);
        lemma_input_targets(a, tags.drop_last(), start);
        let roots = a.root_blocks@[t]@;
        assert forall|i: int| 0 <= i < roots.len() implies a.blocks@.contains_key(#[trigger] roots[i]) by {
            assert(a.root_blocks@.contains_key(t));
        }
        lemma_root_targets(a, roots, p.2 + 1);
        let r = root_chains(a, roots, p.2 + 1);
        let n = NodeShape { id: p.2 as usize, block: 0, input: t, next: r.1, back_edges: Seq::empty() };
        let ns = r.0.push(n);
        assert forall|x: usize| #[trigger] has_block_node(a, r.0, x) implies has_block_node(a, ns, x) by {
            let j = choose|j: int| 0 <= j < r.0.len() && (#[trigger] r.0[j]).id == x && a.blocks@.contains_key(r.0[j].block);
            assert(ns[j] == r.0[j]);
        }
        assert forall|j: int, x: usize|
            #![trigger ns[j].next.contains(x)]
            #![trigger ns[j].back_edges.contains(x)]
            0 <= j < ns.len() && (ns[j].next.contains(x) || ns[j].back_edges.contains(x)) implies has_block_node(a, ns, x)
                || on_path(Map::empty(), x) by {
            if j < r.0.len() {
                assert(ns[j] == r.0[j]);
                assert(has_block_node(a, r.0, x) || on_path(Map::<u32, usize>::empty(), x));
            } else {
                assert(ns[j] == n);
                if n.next.contains(x) {
                    let i = choose|i: int| 0 <= i < n.next.len() && n.next[i] == x;
                    assert(has_block_node(a, r.0, r.1[i]));
                }
            }
        }
        lemma_targets_concat(a, p.0, ns, Map::empty());
    }
}

/// Every follower and back edge of the nodes built for the analysis is a
/// built node that holds a stored block.
proof fn lemma_all_chains_targets(a: Analysis)
    requires
        a.wf(),
    ensures
        forall|j: int, x: usize|
            #![trigger all_chains(a).0[j].next.contains(x)]
            #![trigger all_chains(a).0[j].back_edges.contains(x)]
            0 <= j < all_chains(a).0.len() && (all_chains(a).0[j].next.contains(x) || all_chains(a).0[j].back_edges.contains(x))
                ==> has_block_node(a, all_chains(a).0, x),
{
    let setups = setup_chains(a, a.setup_blocks@);
    lemma_setup_targets(a, a.setup_blocks@);
    a.root_blocks.lemma_wf();
    assert forall|i: int| 0 <= i < a.root_blocks.order().len() implies a.root_blocks@.contains_key(#[trigger] a.root_blocks.order()[i]) by {
        assert(a.root_blocks.order().contains(a.root_blocks.order()[i]));
    }
    lemma_input_targets(a, a.root_blocks.order(), setups);
    let ns = all_chains(a).0;
    assert forall|j: int, x: usize|
        #![trigger ns[j].next.contains(x)]
        #![trigger ns[j].back_edges.contains(x)]
        0 <= j < ns.len() && (ns[j].next.contains(x) || ns[j].back_edges.contains(x)) implies has_block_node(a, ns, x) by {
        assert(has_block_node(a, ns, x) || on_path(Map::<u32, usize>::empty(), x));
    }
}

/// Analyzing an analysis that has no nodes yet is defined whenever the
/// nodes it builds can be numbered: every chain then follows only nodes of
/// stored blocks, so optimizing the chains in turn never fails.
pub proof fn lemma_fresh_analysis_defined(g: Analysis)
    requires
        g.wf(),
        g.nodes@.len() == 0,
        all_chains(g).2 <= usize::MAX,
    ensures
        analysis_defined(g),
{
    let total = all_chains(g);
    let ns = total.0;
    lemma_all_chains_edges(g);
    lemma_all_chains_targets(g);
    lemma_by_id_edges(ns, total.2);
    let init = shapes(g.nodes@) + by_id(ns);
    assert(init =~= by_id(ns));
    let cx = g.context();
    assert forall|i: int, x: usize|
        #![trigger init[i].next.contains(x)]
        #![trigger init[i].back_edges.contains(x)]
        0 <= i < init.len() && (init[i].next.contains(x) || init[i].back_edges.contains(x)) implies (x as int)
            < init.len() && cx.blocks.contains_key(init[x as int].block) by {
        assert(by_id(ns)[i].next.contains(x) || by_id(ns)[i].back_edges.contains(x));
        assert(has_id(ns, i));
        let w = choose|w: int| 0 <= w < ns.len() && (#[trigger] ns[w]).id == i;
        assert(by_id(ns)[i] == ns[w]);
        assert(ns[w].next.contains(x) || ns[w].back_edges.contains(x));
        assert(has_block_node(g, ns, x));
        let j = choose|j: int| 0 <= j < ns.len() && (#[trigger] ns[j]).id == x && g.blocks@.contains_key(ns[j].block);
        assert(has_id(ns, x as int));
        let k = choose|k: int| 0 <= k < ns.len() && (#[trigger] ns[k]).id == x as int;
        assert(by_id(ns)[x as int] == ns[k]);
        if j != k {
            if j < k {
                assert(ns[j].id != ns[k].id);
            } else {
                assert(ns[k].id != ns[j].id);
            }
        }
    }
    assert(targets_stored(cx, init));
    lemma_optimize_all_defined(cx, init, total.1);
}

/// Every follower of a node is numbered above it.
pub open spec fn next_ascending(ns: Seq<NodeShape>) -> bool {
    forall|j: int, x: usize| #![trigger ns[j].next.contains(x)] 0 <= j < ns.len() && ns[j].next.contains(x) ==> x > ns[j].id
}

proof fn lemma_ascending_concat(ns1: Seq<NodeShape>, ns2: Seq<NodeShape>)
    requires
        next_ascending(ns1),
        next_ascending(ns2),
    ensures
        next_ascending(ns1 + ns2),
{
    let ns = ns1 + ns2;
    assert forall|j: int, x: usize| #![trigger ns[j].next.contains(x)] 0 <= j < ns.len() && ns[j].next.contains(x) implies x > ns[j].id by {
        if j < ns1.len() {
            assert(ns[j] == ns1[j]);
        } else {
            assert(ns[j] == ns2[j - ns1.len()]);
        }
    }
}

proof fn lemma_chain_ascending(a: Analysis, b: u32, seen: Map<u32, usize>, ix: nat, fuel: nat)
    requires
        chain_nodes(a, b, seen, ix, fuel).1 <= usize::MAX,
    ensures
        next_ascending(chain_nodes(a, b, seen, ix, fuel).0),
    decreases fuel, 0nat, 0nat,
{
    lemma_chain_grows(a, b, seen, ix, fuel);
    if fuel > 0 {
        let fs = followers(a, b);
        let seen2 = seen.insert(b, ix as usize);
        lemma_children_ascending(a, fs, seen2, ix + 1, (fuel - 1) as nat);
        let c = chain_children(a, fs, seen2, ix + 1, (fuel - 1) as nat);
        let n = NodeShape { id: ix as usize, block: b, input: 0, next: c.2, back_edges: c.3 };
        let ns = c.0.push(n);
        assert forall|j: int, x: usize| #![trigger ns[j].next.contains(x)] 0 <= j < ns.len() && ns[j].next.contains(x) implies x > ns[j].id by {
            if j < c.0.len() {
                assert(ns[j] == c.0[j]);
            } else {
                assert(ns[j] == n);
            }
        }
    } else {
        assert(next_ascending(Seq::<NodeShape>::empty()));
    }
}

proof fn lemma_children_ascending(a: Analysis, fs: Seq<u32>, seen: Map<u32, usize>, ix: nat, fuel: nat)
    requires
        chain_children(a, fs, seen, ix, fuel).1 <= usize::MAX,
    ensures
        next_ascending(chain_children(a, fs, seen, ix, fuel).0),
        forall|x: usize| #[trigger] chain_children(a, fs, seen, ix, fuel).2.contains(x) ==> x >= ix,
    decreases fuel, 1nat, fs.len(),
{
    if fs.len() > 0 {
        lemma_children_grow(a, fs, seen, ix, fuel);
        lemma_children_grow(a, fs.drop_last(), seen, ix, fuel);
        lemma_children_ascending(a, fs.drop_last(), seen, ix, fuel);
        let prev = chain_children(a, fs.drop_last(), seen, ix, fuel);
        let f = fs.last();
        if !seen.contains_key(f) {
            lemma_chain_grows(a, f, seen, prev.1, fuel);
            lemma_chain_ascending(a, f, seen, prev.1, fuel);
            let sub = chain_nodes(a, f, seen, prev.1, fuel);
            lemma_ascending_concat(prev.0, sub.0);
            let pushed = prev.2.push(prev.1 as usize);
            assert forall|x: usize| #[trigger] pushed.contains(x) implies x >= ix by {
                let j = choose|j: int| 0 <= j < pushed.len() && pushed[j] == x;
                if j < prev.2.len() {
                    assert(pushed[j] == prev.2[j]);
                    assert(prev.2.contains(x));
                }
            }
        }
    } else {
        assert(next_ascending(Seq::<NodeShape>::empty()));
    }
}

proof fn lemma_setup_ascending(a: Analysis, setups: Seq<u32>)
    requires
        setup_chains(a, setups).2 <= usize::MAX,
    ensures
        next_ascending(setup_chains(a, setups).0),
    decreases setups.len(),
{
    if setups.len() > 0 {
        let p = setup_chains(a, setups.drop_last());
        let u = unseen_count(a, Map::empty());
        lemma_setup_chains(a, setups, setups.len() - 1);
        assert(setups.take(setups.len() - 1) =~= setups.drop_last());
        lemma_setup_ascending(a, setups.drop_last());
        lemma_chain_ascending(a, setups.last(), Map::empty(), p.2, u);
        lemma_ascending_concat(p.0, chain_nodes(a, setups.last(), Map::empty(), p.2, u).0);
    } else {
        assert(next_ascending(Seq::<NodeShape>::empty()));
    }
}

proof fn lemma_root_ascending(a: Analysis, roots: Seq<u32>, ix: nat)
    requires
        root_chains(a, roots, ix).2 <= usize::MAX,
    ensures
        next_ascending(root_chains(a, roots, ix).0),
        forall|i: int| 0 <= i < root_chains(a, roots, ix).1.len() ==> #[trigger] root_chains(a, roots, ix).1[i] >= ix,
    decreases roots.len(),
{
    if roots.len() > 0 {
        let p = root_chains(a, roots.drop_last(), ix);
        let u = unseen_count(a, Map::empty());
        lemma_root_chains(a, roots, ix, roots.len() - 1);
        assert(roots.take(roots.len() - 1) =~= roots.drop_last());
        lemma_root_chains(a, roots.drop_last(), ix, 0);
        lemma_root_ascending(a, roots.drop_last(), ix);
        lemma_chain_grows(a, roots.last(), Map::empty(), p.2, u);
        lemma_chain_ascending(a, roots.last(), Map::empty(), p.2, u);
        lemma_ascending_concat(p.0, chain_nodes(a, roots.last(), Map::empty(), p.2, u).0);
        let q = root_chains(a, roots, ix);
        assert forall|i: int| 0 <= i < q.1.len() implies #[trigger] q.1[i] >= ix by {
            if i < p.1.len() {
                assert(q.1[i] == p.1[i]);
            }
        }
    } else {
        assert(next_ascending(Seq::<NodeShape>::empty()));
    }
}

proof fn lemma_input_ascending(a: Analysis, tags: Seq<u32>, start: (Seq<NodeShape>, Seq<usize>, nat))
    requires
        next_ascending(start.0),
        input_chains(a, tags, start).2 <= usize::MAX,
    ensures
        next_ascending(input_chains(a, tags, start).0),
    decreases tags.len(),
{
    if tags.len() > 0 {
        let p = input_chains(a, tags.drop_last(), start);
        let t = tags.last();
        lemma_input_chains(a, tags, start, tags.len() - 1);
        assert(tags.take(tags.len() - 1) =~= tags.drop_last());
        lemma_input_ascending(a, tags.drop_last(), start);
        let roots = a.root_blocks@[t]@;
        lemma_root_chains(a, roots, p.2 + 1, 0);
        lemma_root_ascending(a, roots, p.2 + 1);
        let r = root_chains(a, roots, p.2 + 1);
        let n = NodeShape { id: p.2 as usize, block: 0, input: t, next: r.1, back_edges: Seq::empty() };
        let ns = r.0.push(n);
        assert forall|j: int, x: usize| #![trigger ns[j].next.contains(x)] 0 <= j < ns.len() && ns[j].next.contains(x) implies x > ns[j].id by {
            if j < r.0.len() {
                assert(ns[j] == r.0[j]);
            } else {
                assert(ns[j] == n);
                let i = choose|i: int| 0 <= i < r.1.len() && r.1[i] == x;
                assert(r.1[i] >= p.2 + 1);
            }
        }
        lemma_ascending_concat(p.0, ns);
    }
}

/// Every follower of a node built for the analysis is numbered above it.
pub proof fn lemma_all_chains_ascending(a: Analysis)
    requires
        a.wf(),
        all_chains(a).2 <= usize::MAX,
    ensures
        next_ascending(all_chains(a).0),
{
    let setups = setup_chains(a, a.setup_blocks@);
    lemma_input_chains(a, a.root_blocks.order(), setups, 0);
    lemma_setup_ascending(a, a.setup_blocks@);
    lemma_input_ascending(a, a.root_blocks.order(), setups);
}

proof fn lemma_setup_edges(a: Analysis, setups: Seq<u32>)
    requires
        a.wf(),
        forall|i: int| 0 <= i < setups.len() ==> a.blocks@.contains_key(#[trigger] setups[i]),
        setup_chains(a, setups).2 <= usize::MAX,
    ensures
        edges_below(setup_chains(a, setups).0, setup_chains(a, setups).2),
        forall|i: int| 0 <= i < setup_chains(a, setups).1.len() ==> #[trigger] setup_chains(a, setups).1[i] < setup_chains(a, setups).2,
    decreases setups.len(),
{
    if setups.len() > 0 {
        let p = setup_chains(a, setups.drop_last());
        let b = setups.last();
        let u = unseen_count(a, Map::empty());
        assert(setups[setups.len() - 1] == b);
        lemma_chain_grows(a, b, Map::empty(), p.2, u);
        lemma_setup_chains(a, setups, setups.len() - 1);
        assert(setups.take(setups.len() - 1) =~= setups.drop_last());
        lemma_setup_edges(a, setups.drop_last());
        lemma_unseen_positive(a, Map::empty(), b);
        lemma_chain_edges(a, b, Map::empty(), p.2, u);
        let c = chain_nodes(a, b, Map::empty(), p.2, u);
        lemma_edges_concat(p.0, c.0, p.2, c.1);
    } else {
        assert(edges_below(Seq::<NodeShape>::empty(), 0));
    }
}

proof fn lemma_root_edges(a: Analysis, roots: Seq<u32>, ix: nat)
    requires
        a.wf(),
        forall|i: int| 0 <= i < roots.len() ==> a.blocks@.contains_key(#[trigger] roots[i]),
        root_chains(a, roots, ix).2 <= usize::MAX,
    ensures
        edges_below(root_chains(a, roots, ix).0, root_chains(a, roots, ix).2),
        forall|i: int| 0 <= i < root_chains(a, roots, ix).1.len() ==> #[trigger] root_chains(a, roots, ix).1[i] < root_chains(a, roots, ix).2,
    decreases roots.len(),
{
    if roots.len() > 0 {
        let p = root_chains(a, roots.drop_last(), ix);
        let b = roots.last();
        let u = unseen_count(a, Map::empty());
        assert(roots[roots.len() - 1] == b);
        lemma_chain_grows(a, b, Map::empty(), p.2, u);
        lemma_root_chains(a, roots, ix, roots.len() - 1);
        assert(roots.take(roots.len() - 1) =~= roots.drop_last());
        lemma_root_edges(a, roots.drop_last(), ix);
        lemma_unseen_positive(a, Map::empty(), b);
        lemma_chain_edges(a, b, Map::empty(), p.2, u);
        let c = chain_nodes(a, b, Map::empty(), p.2, u);
        lemma_edges_concat(p.0, c.0, p.2, c.1);
    } else {
        assert(edges_below(Seq::<NodeShape>::empty(), ix));
    }
}

proof fn lemma_input_edges(a: Analysis, tags: Seq<u32>, start: (Seq<NodeShape>, Seq<usize>, nat))
    requires
        a.wf(),
        forall|i: int| 0 <= i < tags.len() ==> a.root_blocks@.contains_key(#[trigger] tags[i]),
        edges_below(start.0, start.2),
        forall|i: int| 0 <= i < start.1.len() ==> #[trigger] start.1[i] < start.2,
        input_chains(a, tags, start).2 <= usize::MAX,
    ensures
        edges_below(input_chains(a, tags, start).0, input_chains(a, tags, start).2),
        forall|i: int| 0 <= i < input_chains(a, tags, start).1.len() ==> #[trigger] input_chains(a, tags, start).1[i] < input_chains(a, tags, start).2,
    decreases tags.len(),
{
    if tags.len() > 0 {
        let p = input_chains(a, tags.drop_last(), start);
        let t = tags.last();
        assert(tags[tags.len() - 1] == t);
        lemma_input_chains(a, tags, start, tags.len() - 1);
        assert(tags.take(tags.len() - 1) =~= tags.drop_last());
        lemma_input_edges(a, tags.drop_last(), start);
        let roots = a.root_blocks@[t]@;
        assert forall|i: int| 0 <= i < roots.len() implies a.blocks@.contains_key(#[trigger] roots[i]) by {
            assert(a.root_blocks@.contains_key(t));
        }
        lemma_root_chains(a, roots, p.2 + 1, 0);
        lemma_root_edges(a, roots, p.2 + 1);
        let r = root_chains(a, roots, p.2 + 1);
        let n = NodeShape { id: p.2 as usize, block: 0, input: t, next: r.1, back_edges: Seq::empty() };
        let ns = r.0.push(n);
        assert forall|j: int, x: usize|
            #![trigger ns[j].next.contains(x)]
            #![trigger ns[j].back_edges.contains(x)]
            0 <= j < ns.len() && (ns[j].next.contains(x) || ns[j].back_edges.contains(x)) implies x < r.2 by {
            if j < r.0.len() {
                assert(ns[j] == r.0[j]);
            } else {
                assert(ns[j] == n);
                if n.next.contains(x) {
                    let i = choose|i: int| 0 <= i < n.next.len() && n.next[i] == x;
                    assert(r.1[i] < r.2);
                }
            }
        }
        lemma_edges_concat(p.0, ns, p.2, r.2);
        let q = input_chains(a, tags, start);
        assert forall|i: int| 0 <= i < q.1.len() implies #[trigger] q.1[i] < q.2 by {
            if i < p.1.len() {
                assert(q.1[i] == p.1[i]);
            }
        }
    }
}

/// The nodes built for the analysis are numbered from 0 up to their count,
/// each number once, and every follower, back edge and chain root is one
/// of those numbers.
pub proof fn lemma_all_chains_edges(a: Analysis)
    requires
        a.wf(),
        all_chains(a).2 <= usize::MAX,
    ensures
        edges_below(all_chains(a).0, all_chains(a).2),
        forall|i: int| 0 <= i < all_chains(a).1.len() ==> #[trigger] all_chains(a).1[i] < all_chains(a).2,
        numbered(all_chains(a).0, 0, all_chains(a).2),
{
    let setups = setup_chains(a, a.setup_blocks@);
    lemma_input_chains(a, a.root_blocks.order(), setups, 0);
    lemma_setup_chains(a, a.setup_blocks@, 0);
    lemma_setup_edges(a, a.setup_blocks@);
    a.root_blocks.lemma_wf();
    assert forall|i: int| 0 <= i < a.root_blocks.order().len() implies a.root_blocks@.contains_key(#[trigger] a.root_blocks.order()[i]) by {
        assert(a.root_blocks.order().contains(a.root_blocks.order()[i]));
    }
    lemma_input_edges(a, a.root_blocks.order(), setups);
}

/// Ordering numbered nodes by number keeps every edge below the bound.
pub(crate) proof fn lemma_by_id_edges(ns: Seq<NodeShape>, hi: nat)
    requires
        numbered(ns, 0, hi),
        edges_below(ns, hi),
    ensures
        edges_below(by_id(ns), hi),
        forall|k: int| 0 <= k < hi ==> (#[trigger] by_id(ns)[k]).id == k,
{
    let r = by_id(ns);
    assert forall|j: int, x: usize|
        #![trigger r[j].next.contains(x)]
        #![trigger r[j].back_edges.contains(x)]
        0 <= j < r.len() && (r[j].next.contains(x) || r[j].back_edges.contains(x)) implies x < hi by {
        assert(has_id(ns, j));
        let w = choose|w: int| 0 <= w < ns.len() && (#[trigger] ns[w]).id == j;
        assert(r[j] == ns[w]);
    }
    assert forall|k: int| 0 <= k < hi implies (#[trigger] by_id(ns)[k]).id == k by {
        assert(has_id(ns, k));
    }
}

impl Analysis {
    /// Every block is stored under its own id and keeps its tables in
    /// order; dirty, setup and listed blocks are stored; the root lists keep
    /// their order; and nodes and chains point at stored nodes.
    pub open spec fn wf(&self) -> bool {
        &&& self.root_blocks.wf()
        &&& forall|k: u32| #[trigger] self.blocks@.contains_key(k) ==> self.blocks@[k].id == k
            && self.blocks@[k].wf()
        &&& forall|i: int| 0 <= i < self.dirty_blocks@.len() ==> self.blocks@.contains_key(
            #[trigger] self.dirty_blocks@[i],
        )
        &&& forall|i: int| 0 <= i < self.setup_blocks@.len() ==> self.blocks@.contains_key(
            #[trigger] self.setup_blocks@[i],
        )
        &&& forall|t: (u32, u32, u32), j: int| #[trigger] self.inputs@.contains_key(t) && 0 <= j < self.inputs@[t]@.len()
            ==> self.blocks@.contains_key(#[trigger] self.inputs@[t]@[j])
        &&& forall|t: u32, j: int| #[trigger] self.root_blocks@.contains_key(t) && 0 <= j < self.root_blocks@[t]@.len()
            ==> self.blocks@.contains_key(#[trigger] self.root_blocks@[t]@[j])
        &&& forall|i: int| 0 <= i < self.chains@.len() ==> #[trigger] self.chains@[i] < self.nodes@.len()
        &&& forall|i: int, x: usize|
            #![trigger self.nodes@[i].next@.contains(x)]
            #![trigger self.nodes@[i].back_edges@.contains(x)]
            0 <= i < self.nodes@.len() && (self.nodes@[i].next@.contains(x)
            || self.nodes@[i].back_edges@.contains(x)) ==> x < self.nodes@.len()
    }

    /// An analysis with no blocks, whose only external input is the tag
    /// `timer_change` (the interned id of "system/timer/change").
    pub fn new(timer_change: u32) -> (r: Analysis)
        ensures
            r.wf(),
            r.blocks@ == Map::<u32, BlockInfo>::empty(),
            r.inputs@ == Map::<(u32, u32, u32), Vec<u32>>::empty(),
            r.setup_blocks@ == Seq::<u32>::empty(),
            r.root_blocks@ == Map::<u32, Vec<u32>>::empty(),
            r.root_blocks.order() == Seq::<u32>::empty(),
            r.tags@ == Map::<u32, TagInfo>::empty(),
            r.externals@ == set![timer_change],
            r.chains@ == Seq::<usize>::empty(),
            r.nodes@ == Seq::<Node>::empty(),
            r.dirty_blocks@ == Seq::<u32>::empty(),
    {
        let mut externals = HashSet::new();
        externals.insert(timer_change);
        assert(externals@ =~= set![timer_change]);
        Analysis {
            blocks: HashMap::new(),
            inputs: TripleMap::new(),
            setup_blocks: Vec::new(),
            root_blocks: IdMap::new(),
            tags: HashMap::new(),
            externals,
            chains: Vec::new(),
            nodes: Vec::new(),
            dirty_blocks: Vec::new(),
        }
    }

    /// Adds a block, replacing any earlier block of its id, and marks it
    /// for analysis.
    pub fn block(&mut self, block: &Block)
        requires
            old(self).wf(),
        ensures
            final(self).wf(),
            final(self).blocks@.dom() == old(self).blocks@.dom().insert(block.block_id),
            forall|k: u32| k != block.block_id && #[trigger] old(self).blocks@.contains_key(k)
                ==> final(self).blocks@[k] == old(self).blocks@[k],
            ({
                let b = final(self).blocks@[block.block_id];
                &&& b.id == block.block_id
                &&& b.constraints@ == block.constraints@
                &&& !b.has_scans
                &&& !b.is_pulse
                &&& b.field_to_tags@ == Map::<Field, Seq<u32>>::empty()
                &&& b.inputs@ == Seq::<(u32, u32, u32)>::empty()
                &&& b.outputs@ == Seq::<(u32, u32, u32)>::empty()
                &&& b.input_domains@ == Map::<(u32, u32), Domain>::empty()
                &&& b.input_domains.order() == Seq::<(u32, u32)>::empty()
                &&& b.output_domains@ == Map::<(u32, u32), Vec<Domain>>::empty()
                &&& b.output_domains.order() == Seq::<(u32, u32)>::empty()
            }),
            final(self).dirty_blocks@ == old(self).dirty_blocks@.push(block.block_id),
            final(self).inputs@ == old(self).inputs@,
            final(self).setup_blocks@ == old(self).setup_blocks@,
            final(self).root_blocks == old(self).root_blocks,
            final(self).tags@ == old(self).tags@,
            final(self).externals@ == old(self).externals@,
            final(self).chains@ == old(self).chains@,
            final(self).nodes@ == old(self).nodes@,
    {
        let id = block.block_id;
        self.blocks.insert(id, BlockInfo::new(block));
        self.dirty_blocks.push(id);
    }

    /// Registers a gathered block: it is listed under each of its inputs,
    /// and under the tag of each of its inputs that is external.
    fn register_inputs(&mut self, block: &BlockInfo)
        requires
            old(self).root_blocks.wf(),
        ensures
            final(self).root_blocks.wf(),
            id_lists(final(self).inputs@) == add_to_inputs(id_lists(old(self).inputs@), block.inputs@, block.id),
            (id_lists(final(self).root_blocks@), final(self).root_blocks.order()) == add_to_roots(
                id_lists(old(self).root_blocks@),
                old(self).root_blocks.order(),
                old(self).externals@,
                block.inputs@,
                block.id,
            ),
            final(self).blocks == old(self).blocks,
            final(self).setup_blocks == old(self).setup_blocks,
            final(self).tags == old(self).tags,
            final(self).externals == old(self).externals,
            final(self).chains == old(self).chains,
            final(self).nodes == old(self).nodes,
            final(self).dirty_blocks == old(self).dirty_blocks,
            forall|t: (u32, u32, u32), x: u32| final(self).inputs@.contains_key(t) && #[trigger] final(self).inputs@[t]@.contains(x)
                ==> x == block.id || (old(self).inputs@.contains_key(t) && old(self).inputs@[t]@.contains(x)),
            forall|t: u32, x: u32| final(self).root_blocks@.contains_key(t) && #[trigger] final(self).root_blocks@[t]@.contains(x)
                ==> x == block.id || (old(self).root_blocks@.contains_key(t) && old(self).root_blocks@[t]@.contains(x)),
    {
        let n = block.inputs.len();
        let mut j: usize = 0;
        while j < n
            invariant
                n == block.inputs@.len(),
                0 <= j <= n,
                self.root_blocks.wf(),
                id_lists(self.inputs@) == add_to_inputs(id_lists(old(self).inputs@), block.inputs@.take(j as int), block.id),
                (id_lists(self.root_blocks@), self.root_blocks.order()) == add_to_roots(
                    id_lists(old(self).root_blocks@),
                    old(self).root_blocks.order(),
                    old(self).externals@,
                    block.inputs@.take(j as int),
                    block.id,
                ),
                self.blocks == old(self).blocks,
                self.setup_blocks == old(self).setup_blocks,
                self.tags == old(self).tags,
                self.externals == old(self).externals,
                self.chains == old(self).chains,
                self.nodes == old(self).nodes,
                self.dirty_blocks == old(self).dirty_blocks,
                forall|t: (u32, u32, u32), x: u32| self.inputs@.contains_key(t) && #[trigger] self.inputs@[t]@.contains(x)
                    ==> x == block.id || (old(self).inputs@.contains_key(t) && old(self).inputs@[t]@.contains(x)),
                forall|t: u32, x: u32| self.root_blocks@.contains_key(t) && #[trigger] self.root_blocks@[t]@.contains(x)
                    ==> x == block.id || (old(self).root_blocks@.contains_key(t) && old(self).root_blocks@[t]@.contains(x)),
            decreases n - j,
        {
            let input = block.inputs[j];
            let ghost before_inputs = id_lists(self.inputs@);
            let ghost before_roots = id_lists(self.root_blocks@);
            assert(block.inputs@.take(j + 1).drop_last() =~= block.inputs@.take(j as int));
            let ghost inputs_before = self.inputs@;
            let ghost roots_before = self.root_blocks@;
            self.inputs.add_id(input, block.id);
            proof {
                lemma_with_key_contains(id_list(inputs_before, input), block.id);
            }
            assert(id_lists(self.inputs@) =~= before_inputs.insert(input, with_key(seq_or_empty(before_inputs, input), block.id)));
            if self.externals.contains(&input.0) {
                self.root_blocks.add_id(input.0, block.id);
                proof {
                    lemma_with_key_contains(id_list(roots_before, input.0), block.id);
                }
                assert(id_lists(self.root_blocks@) =~= before_roots.insert(input.0, with_key(seq_or_empty(before_roots, input.0), block.id)));
            }
            j = j + 1;
        }
        assert(block.inputs@.take(n as int) =~= block.inputs@);
    }

    /// The first part of the analysis: every dirty block, in order, has its
    /// register domains settled and its inputs and outputs gathered; it is
    /// listed under its inputs (and under its external input tags), made a
    /// setup block when it scans nothing, and, when it is a pulse, the tag
    /// of its first output is marked a pulse.  No block is dirty afterwards.
    pub fn gather_dirty_blocks<A, S, M, D>(
        &mut self,
        interner: &Interner,
        add: &A,
        subtract: &S,
        multiply: &M,
        divide: &D,
    ) where
        A: Fn(u64, u64) -> u64,
        S: Fn(u64, u64) -> u64,
        M: Fn(u64, u64) -> u64,
        D: Fn(u64, u64) -> u64,

        requires
            old(self).wf(),
            well_behaved(*add),
            well_behaved(*subtract),
            well_behaved(*multiply),
            well_behaved(*divide),
            forall|i: int|
                0 <= i < old(self).dirty_blocks@.len() ==> #[trigger] gathering_defined(
                    *old(self),
                    interner.values@,
                    arith_of(*add, *subtract, *multiply, *divide),
                    i,
                ),
        ensures
            final(self).wf(),
            gathered_state(*old(self), interner.values@, arith_of(*add, *subtract, *multiply, *divide), *final(self)),
    {
        let ghost a = *self;
        let ghost ar = arith_of(*add, *subtract, *multiply, *divide);
        let ghost values = interner.values@;
        let mut dirty: Vec<u32> = Vec::new();
        std::mem::swap(&mut dirty, &mut self.dirty_blocks);
        assert(dirty@ == a.dirty_blocks@);
        let n = dirty.len();
        let mut i: usize = 0;
        while i < n
            invariant
                n == dirty@.len(),
                dirty@ == a.dirty_blocks@,
                0 <= i <= n,
                a.wf(),
                ar == arith_of(*add, *subtract, *multiply, *divide),
                values == interner.values@,
                well_behaved(*add),
                well_behaved(*subtract),
                well_behaved(*multiply),
                well_behaved(*divide),
                forall|p: int| 0 <= p < a.dirty_blocks@.len() ==> #[trigger] gathering_defined(a, values, ar, p),
                self.dirty_blocks@ == Seq::<u32>::empty(),
                self.blocks@.dom() == a.blocks@.dom(),
                forall|k: u32| #[trigger] a.blocks@.contains_key(k) ==> gathered_times(
                    values,
                    a.blocks@[k],
                    self.blocks@[k],
                    ar,
                    count_of(dirty@.take(i as int), k),
                ),
                self.root_blocks.wf(),
                id_lists(self.inputs@) == inputs_after(a, values, ar, i as int),
                (id_lists(self.root_blocks@), self.root_blocks.order()) == roots_after(a, values, ar, i as int),
                self.setup_blocks@ == setup_after(a, values, ar, i as int),
                self.tags@.dom() == a.tags@.dom() + pulse_tags_after(a, values, ar, i as int).to_set(),
                forall|t: u32| #[trigger] a.tags@.contains_key(t) && !pulse_tags_after(a, values, ar, i as int).contains(t)
                    ==> self.tags@[t] == a.tags@[t],
                forall|t: u32| #[trigger] pulse_tags_after(a, values, ar, i as int).contains(t) && a.tags@.contains_key(t)
                    ==> self.tags@[t] == (TagInfo { is_pulse: true, ..a.tags@[t] }),
                forall|t: u32| #[trigger] pulse_tags_after(a, values, ar, i as int).contains(t) && !a.tags@.contains_key(t)
                    ==> fresh_tag_info(self.tags@[t]),
                self.externals == a.externals,
                self.chains == a.chains,
                self.nodes == a.nodes,
                forall|t: (u32, u32, u32), x: u32| self.inputs@.contains_key(t) && #[trigger] self.inputs@[t]@.contains(x)
                    ==> a.blocks@.contains_key(x),
                forall|t: u32, x: u32| self.root_blocks@.contains_key(t) && #[trigger] self.root_blocks@[t]@.contains(x)
                    ==> a.blocks@.contains_key(x),
                forall|j: int| 0 <= j < self.setup_blocks@.len() ==> a.blocks@.contains_key(#[trigger] self.setup_blocks@[j]),
            decreases n - i,
        {
            let block_id = dirty[i];
            let ghost c = count_of(dirty@.take(i as int), block_id);
            let ghost b0 = a.blocks@[block_id];
            assert(gathering_defined(a, values, ar, i as int));
            assert(a.blocks@.contains_key(block_id));
            assert(gathered_times(values, b0, self.blocks@[block_id], ar, c));
            let mut block = self.blocks.remove(&block_id).unwrap();
            assert(block.constraints@ == b0.constraints@);
            assert(block.field_to_tags@ == tags_after(b0.field_to_tags@, b0.constraints@, c));
            block.gather_inputs_outputs(interner, add, subtract, multiply, divide);
            proof {
                lemma_count_of_step(dirty@, i as int, block_id);
                assert forall|k: u32| k != block_id implies count_of(dirty@.take(i + 1), k) == count_of(dirty@.take(i as int), k) by {
                    lemma_count_of_step(dirty@, i as int, k);
                }
                assert(gathering(a, values, ar, i as int) == gathered_by(values, b0, ar, c + 1));
            }
            self.register_inputs(&block);
            if !block.has_scans {
                self.setup_blocks.push(block.id);
            }
            let ghost prev_marked = pulse_tags_after(a, values, ar, i as int);
            assert(block.is_pulse == gathering_pulse(a, i as int));
            if block.is_pulse {
                let tag = block.output_domains.pairs()[0].0;
                let ghost tags_before = self.tags@;
                mark_pulse(&mut self.tags, tag);
                proof {
                    assert(pulse_tags_after(a, values, ar, i + 1) == prev_marked.push(tag));
                    lemma_with_key_contains(prev_marked, tag);
                    assert forall|t: u32| #[trigger] prev_marked.push(tag).contains(t) <==> (prev_marked.contains(t) || t == tag) by {
                        if !prev_marked.contains(tag) {
                            assert(with_key(prev_marked, tag) == prev_marked.push(tag));
                        } else {
                            if prev_marked.push(tag).contains(t) {
                                let j = choose|j: int| 0 <= j < prev_marked.len() + 1 && prev_marked.push(tag)[j] == t;
                                if j < prev_marked.len() {
                                    assert(prev_marked[j] == t);
                                }
                            }
                            if prev_marked.contains(t) {
                                let j = choose|j: int| 0 <= j < prev_marked.len() && prev_marked[j] == t;
                                assert(prev_marked.push(tag)[j] == t);
                            }
                        }
                    }
                    assert(self.tags@.dom() =~= a.tags@.dom() + pulse_tags_after(a, values, ar, i + 1).to_set());
                    let next_marked = pulse_tags_after(a, values, ar, i + 1);
                    assert forall|t: u32| #[trigger] a.tags@.contains_key(t) && !next_marked.contains(t) implies self.tags@[t] == a.tags@[t] by {
                        assert(!prev_marked.contains(t) && t != tag);
                        assert(tags_before.contains_key(t));
                        assert(tags_before[t] == a.tags@[t]);
                    }
                    assert forall|t: u32| #[trigger] next_marked.contains(t) && a.tags@.contains_key(t) implies self.tags@[t] == (TagInfo { is_pulse: true, ..a.tags@[t] }) by {
                        if t != tag {
                            assert(prev_marked.contains(t));
                            assert(tags_before.contains_key(t));
                        } else if prev_marked.contains(t) {
                            assert(tags_before[t] == (TagInfo { is_pulse: true, ..a.tags@[t] }));
                        } else {
                            assert(tags_before[t] == a.tags@[t]);
                        }
                    }
                    assert forall|t: u32| #[trigger] next_marked.contains(t) && !a.tags@.contains_key(t) implies fresh_tag_info(self.tags@[t]) by {
                        if t != tag {
                            assert(prev_marked.contains(t));
                            assert(tags_before.contains_key(t));
                        } else if prev_marked.contains(t) {
                            assert(tags_before.contains_key(t));
                            assert(fresh_tag_info(tags_before[t]));
                        } else {
                            assert(!tags_before.contains_key(t));
                        }
                    }
                }
            } else {
                assert(pulse_tags_after(a, values, ar, i + 1) == prev_marked);
            }
            self.blocks.insert(block_id, block);
            assert(self.blocks@.dom() =~= a.blocks@.dom());
            i = i + 1;
        }
        assert(dirty@.take(n as int) =~= dirty@);
        assert forall|k: u32| #[trigger] self.blocks@.contains_key(k) implies self.blocks@[k].id == k && self.blocks@[k].wf() by {
            assert(a.blocks@.contains_key(k));
            assert(gathered_times(values, a.blocks@[k], self.blocks@[k], ar, count_of(dirty@, k)));
        }
        assert forall|t: (u32, u32, u32), j: int| #[trigger] self.inputs@.contains_key(t) && 0 <= j < self.inputs@[t]@.len()
            implies self.blocks@.contains_key(#[trigger] self.inputs@[t]@[j]) by {
            assert(self.inputs@[t]@.contains(self.inputs@[t]@[j]));
        }
        assert forall|t: u32, j: int| #[trigger] self.root_blocks@.contains_key(t) && 0 <= j < self.root_blocks@[t]@.len()
            implies self.blocks@.contains_key(#[trigger] self.root_blocks@[t]@[j]) by {
            assert(self.root_blocks@[t]@.contains(self.root_blocks@[t]@[j]));
        }
    }

    /// The blocks that follow block `b`: those listed under its outputs.
    pub(crate) fn follower_list(&self, b: u32) -> (r: Vec<u32>)
        requires
            self.blocks@.contains_key(b),
        ensures
            r@ == followers(*self, b),
    {
        let block = self.blocks.get(&b).unwrap();
        let mut r: Vec<u32> = Vec::new();
        let n = block.outputs.len();
        let mut i: usize = 0;
        while i < n
            invariant
                n == block.outputs@.len(),
                *block == self.blocks@[b],
                0 <= i <= n,
                r@ == followers_of(id_lists(self.inputs@), block.outputs@.take(i as int)),
            decreases n - i,
        {
            let o = block.outputs[i];
            assert(block.outputs@.take(i + 1).drop_last() =~= block.outputs@.take(i as int));
            let ghost before = r@;
            match self.inputs.get(o) {
                Some(list) => {
                    let m = list.len();
                    let mut j: usize = 0;
                    while j < m
                        invariant
                            m == list@.len(),
                            0 <= j <= m,
                            r@ == add_all(before, list@.take(j as int)),
                        decreases m - j,
                    {
                        let x = list[j];
                        assert(list@.take(j + 1).drop_last() =~= list@.take(j as int));
                        if !crate::tables::contains_id(&r, x) {
                            r.push(x);
                        }
                        j = j + 1;
                    }
                    assert(list@.take(m as int) =~= list@);
                    assert(seq_or_empty(id_lists(self.inputs@), o) == list@);
                },
                None => {
                    assert(seq_or_empty(id_lists(self.inputs@), o) == Seq::<u32>::empty());
                    assert(add_all(before, Seq::<u32>::empty()) == before);
                },
            }
            i = i + 1;
        }
        assert(block.outputs@.take(n as int) =~= block.outputs@);
        r
    }

    fn build_chain_from(
        &self,
        root_block: u32,
        nodes: &mut Vec<Node>,
        seen: &mut HashMap<u32, usize>,
        next_ix: &mut usize,
        Ghost(fuel): Ghost<nat>,
    ) -> (r: usize)
        requires
            self.wf(),
            self.blocks@.contains_key(root_block),
            fuel == unseen_count(*self, old(seen)@.remove(root_block)),
            chain_nodes(*self, root_block, old(seen)@.remove(root_block), *old(next_ix) as nat, fuel).1 <= usize::MAX,
        ensures
            final(seen)@ == old(seen)@.remove(root_block),
            shapes(final(nodes)@) == shapes(old(nodes)@) + chain_nodes(
                *self,
                root_block,
                old(seen)@.remove(root_block),
                *old(next_ix) as nat,
                fuel,
            ).0,
            *final(next_ix) as nat == chain_nodes(*self, root_block, old(seen)@.remove(root_block), *old(next_ix) as nat, fuel).1,
            r == *old(next_ix),
        decreases fuel,
    {
        let ghost seen0 = seen@.remove(root_block);
        proof {
            lemma_unseen_step(*self, seen0, root_block, *next_ix);
            lemma_chain_grows(*self, root_block, seen0, *next_ix as nat, fuel);
        }
        let ghost nodes0 = shapes(nodes@);
        let id = *next_ix;
        *next_ix = *next_ix + 1;
        seen.insert(root_block, id);
        assert(seen@ =~= seen0.insert(root_block, id));
        let ghost seen2 = seen@;
        let fs = self.follower_list(root_block);
        let ghost sub_fuel = (fuel - 1) as nat;
        let ghost total = chain_children(*self, fs@, seen2, id as nat + 1, sub_fuel);
        assert(total == chain_children(*self, followers(*self, root_block), seen0.insert(root_block, id), id as nat + 1, sub_fuel));
        let mut next: Vec<usize> = Vec::new();
        let mut back_edges: Vec<usize> = Vec::new();
        assert(fs@.take(0) =~= Seq::<u32>::empty());
        let n = fs.len();
        let mut j: usize = 0;
        while j < n
            invariant
                self.wf(),
                n == fs@.len(),
                fs@ == followers(*self, root_block),
                0 <= j <= n,
                seen@ == seen2,
                seen2 == seen0.insert(root_block, id),
                sub_fuel == unseen_count(*self, seen2),
                sub_fuel + 1 == fuel,
                total == chain_children(*self, fs@, seen2, id as nat + 1, sub_fuel),
                total.1 <= usize::MAX,
                ({
                    let c = chain_children(*self, fs@.take(j as int), seen2, id as nat + 1, sub_fuel);
                    &&& shapes(nodes@) == nodes0 + c.0
                    &&& *next_ix as nat == c.1
                    &&& next@ == c.2
                    &&& back_edges@ == c.3
                }),
            decreases n - j,
        {
            let f = fs[j];
            proof {
                assert(fs@.take(j + 1).drop_last() =~= fs@.take(j as int));
                lemma_children_prefix(*self, fs@, seen2, id as nat + 1, sub_fuel, j + 1);
                lemma_followers_stored(*self, root_block, self.blocks@[root_block].outputs@, f);
                assert(fs@.contains(f));
            }
            let ghost prev = chain_children(*self, fs@.take(j as int), seen2, id as nat + 1, sub_fuel);
            match seen.get(&f) {
                Some(edge) => {
                    if !contains_index(&back_edges, *edge) {
                        back_edges.push(*edge);
                    }
                },
                None => {
                    let ghost nodes_before = shapes(nodes@);
                    assert(seen@.remove(f) =~= seen@);
                    let child = self.build_chain_from(f, nodes, seen, next_ix, Ghost(sub_fuel));
                    next.push(child);
                    assert(shapes(nodes@) =~= nodes0 + (prev.0 + chain_nodes(*self, f, seen2, prev.1, sub_fuel).0));
                },
            }
            j = j + 1;
        }
        assert(fs@.take(n as int) =~= fs@);
        seen.remove(&root_block);
        assert(seen@ =~= seen0);
        let ghost before_push = shapes(nodes@);
        nodes.push(Node { id, block: root_block, input: 0, next, back_edges });
        assert(shapes(nodes@) =~= before_push.push(NodeShape { id, block: root_block, input: 0, next: next@, back_edges: back_edges@ }));
        id
    }

    /// Builds the chain that starts at `root_block`: the node of the block
    /// (numbered `next_ix`, which is advanced past every node built) follows
    /// into a sub-chain for each block that reads one of its outputs and is
    /// not on the current path (`seen`), and back to those that are.  The
    /// nodes are added to `nodes`, sub-chains first, numbered consecutively
    /// from `next_ix`, the node of `root_block` last.  `root_block` is put on
    /// the path while its chain is built and taken off after, so `seen` ends
    /// as it was, less any entry it had for `root_block`.
    pub fn build_chain(
        &self,
        root_block: u32,
        nodes: &mut Vec<Node>,
        seen: &mut HashMap<u32, usize>,
        next_ix: &mut usize,
    ) -> (r: usize)
        requires
            self.wf(),
            self.blocks@.contains_key(root_block),
            chain_nodes(
                *self,
                root_block,
                old(seen)@.remove(root_block),
                *old(next_ix) as nat,
                unseen_count(*self, old(seen)@.remove(root_block)),
            ).1 <= usize::MAX,
        ensures
            final(seen)@ == old(seen)@.remove(root_block),
            shapes(final(nodes)@) == shapes(old(nodes)@) + chain_nodes(
                *self,
                root_block,
                old(seen)@.remove(root_block),
                *old(next_ix) as nat,
                unseen_count(*self, old(seen)@.remove(root_block)),
            ).0,
            *final(next_ix) as nat == chain_nodes(
                *self,
                root_block,
                old(seen)@.remove(root_block),
                *old(next_ix) as nat,
                unseen_count(*self, old(seen)@.remove(root_block)),
            ).1,
            r == *old(next_ix),
            *final(next_ix) > *old(next_ix),
            numbered(shapes(final(nodes)@).skip(old(nodes)@.len() as int), *old(next_ix) as nat, *final(next_ix) as nat),
            final(nodes)@.last().id == r,
            final(nodes)@.last().block == root_block,
            final(nodes)@.last().input == 0,
    {
        let ghost s0 = seen@.remove(root_block);
        let ghost fuel = unseen_count(*self, s0);
        let ghost nodes0 = shapes(nodes@);
        let ghost ix = *next_ix as nat;
        proof {
            lemma_unseen_positive(*self, s0, root_block);
            lemma_chain_numbered(*self, root_block, s0, ix, fuel);
        }
        let r = self.build_chain_from(root_block, nodes, seen, next_ix, Ghost(fuel));
        proof {
            let c = chain_nodes(*self, root_block, s0, ix, fuel);
            assert(shapes(nodes@).skip(nodes0.len() as int) =~= c.0);
            let last = nodes@.len() - 1;
            assert(shapes(nodes@)[last] == nodes@[last].shape());
            assert(shapes(nodes@)[last] == c.0.last());
        }
        r
    }

    /// Builds all chains, numbering nodes from 0: one for each setup block,
    /// in order, then one for each external tag, in order of first root
    /// block, made of a node for the tag that leads to the chains of its root
    /// blocks.  Returns the nodes (sub-chains before their roots) and the
    /// chain roots.
    pub fn build_all_chains(&self) -> (r: (Vec<Node>, Vec<usize>))
        requires
            self.wf(),
            all_chains(*self).2 <= usize::MAX,
        ensures
            shapes(r.0@) == all_chains(*self).0,
            r.1@ == all_chains(*self).1,
    {
        let ghost total = all_chains(*self);
        let ghost u = unseen_count(*self, Map::empty());
        let ghost setups = setup_chains(*self, self.setup_blocks@);
        proof {
            lemma_input_chains(*self, self.root_blocks.order(), setups, 0);
            assert(self.root_blocks.order().take(0) =~= Seq::<u32>::empty());
        }
        let mut nodes: Vec<Node> = Vec::new();
        let mut chains: Vec<usize> = Vec::new();
        let mut seen: HashMap<u32, usize> = HashMap::new();
        let mut node_ix: usize = 0;
        let n = self.setup_blocks.len();
        let mut i: usize = 0;
        while i < n
            invariant
                self.wf(),
                n == self.setup_blocks@.len(),
                0 <= i <= n,
                u == unseen_count(*self, Map::empty()),
                setups == setup_chains(*self, self.setup_blocks@),
                setups.2 <= usize::MAX,
                ({
                    let p = setup_chains(*self, self.setup_blocks@.take(i as int));
                    &&& shapes(nodes@) == p.0
                    &&& chains@ == p.1
                    &&& node_ix as nat == p.2
                }),
            decreases n - i,
        {
            let setup = self.setup_blocks[i];
            proof {
                assert(self.setup_blocks@.take(i + 1).drop_last() =~= self.setup_blocks@.take(i as int));
                lemma_setup_chains(*self, self.setup_blocks@, i + 1);
            }
            seen.clear();
            assert(seen@ =~= Map::<u32, usize>::empty());
            assert(seen@.remove(setup) =~= Map::<u32, usize>::empty());
            let c = self.build_chain(setup, &mut nodes, &mut seen, &mut node_ix);
            chains.push(c);
            i = i + 1;
        }
        assert(self.setup_blocks@.take(n as int) =~= self.setup_blocks@);
        let tags = self.root_blocks.ids();
        let m = tags.len();
        let mut k: usize = 0;
        while k < m
            invariant
                self.wf(),
                m == tags@.len(),
                tags@ == self.root_blocks.order(),
                0 <= k <= m,
                u == unseen_count(*self, Map::empty()),
                setups == setup_chains(*self, self.setup_blocks@),
                total == input_chains(*self, self.root_blocks.order(), setups),
                total.2 <= usize::MAX,
                ({
                    let p = input_chains(*self, tags@.take(k as int), setups);
                    &&& shapes(nodes@) == p.0
                    &&& chains@ == p.1
                    &&& node_ix as nat == p.2
                }),
            decreases m - k,
        {
            let tag = tags[k];
            let ghost p = input_chains(*self, tags@.take(k as int), setups);
            proof {
                assert(tags@.take(k + 1).drop_last() =~= tags@.take(k as int));
                lemma_input_chains(*self, tags@, setups, k + 1);
                self.root_blocks.lemma_wf();
                assert(tags@[k as int] == tag);
                assert(self.root_blocks.order().contains(tag));
            }
            let roots = self.root_blocks.get(tag).unwrap();
            let ghost rs = root_chains(*self, roots@, p.2 + 1);
            proof {
                lemma_root_chains(*self, roots@, p.2 + 1, 0);
                assert(roots@.take(0) =~= Seq::<u32>::empty());
            }
            let id = node_ix;
            node_ix = node_ix + 1;
            let ghost nodes_before = shapes(nodes@);
            let mut next: Vec<usize> = Vec::new();
            let rn = roots.len();
            let mut j: usize = 0;
            while j < rn
                invariant
                    self.wf(),
                    rn == roots@.len(),
                    *roots == self.root_blocks@[tag],
                    self.root_blocks@.contains_key(tag),
                    0 <= j <= rn,
                    u == unseen_count(*self, Map::empty()),
                    rs == root_chains(*self, roots@, id as nat + 1),
                    rs.2 <= usize::MAX,
                    ({
                        let q = root_chains(*self, roots@.take(j as int), id as nat + 1);
                        &&& shapes(nodes@) == nodes_before + q.0
                        &&& next@ == q.1
                        &&& node_ix as nat == q.2
                    }),
                decreases rn - j,
            {
                let root = roots[j];
                let ghost q = root_chains(*self, roots@.take(j as int), id as nat + 1);
                proof {
                    assert(roots@.take(j + 1).drop_last() =~= roots@.take(j as int));
                    lemma_root_chains(*self, roots@, id as nat + 1, j + 1);
                    assert(self.root_blocks@[tag]@[j as int] == root);
                }
                seen.clear();
                assert(seen@ =~= Map::<u32, usize>::empty());
                assert(seen@.remove(root) =~= Map::<u32, usize>::empty());
                let c = self.build_chain(root, &mut nodes, &mut seen, &mut node_ix);
                next.push(c);
                assert(shapes(nodes@) =~= nodes_before + root_chains(*self, roots@.take(j + 1), id as nat + 1).0);
                j = j + 1;
            }
            assert(roots@.take(rn as int) =~= roots@);
            chains.push(id);
            let ghost before_push = shapes(nodes@);
            nodes.push(Node { id, block: 0, input: tag, next, back_edges: Vec::new() });
            assert(shapes(nodes@) =~= before_push.push(NodeShape { id, block: 0, input: tag, next: rs.1, back_edges: Seq::empty() }));
            assert(shapes(nodes@) =~= input_chains(*self, tags@.take(k + 1), setups).0);
            k = k + 1;
        }
        assert(tags@.take(m as int) =~= tags@);
        (nodes, chains)
    }

    /// Analyzes the program: the dirty blocks are gathered (as
    /// `gather_dirty_blocks` says), the chains are built from the setup
    /// blocks and the external tags, their nodes are added ordered by
    /// number, and each chain is optimized and then recorded.
    pub fn analyze<A, S, M, D>(
        &mut self,
        interner: &Interner,
        add: &A,
        subtract: &S,
        multiply: &M,
        divide: &D,
    ) where
        A: Fn(u64, u64) -> u64,
        S: Fn(u64, u64) -> u64,
        M: Fn(u64, u64) -> u64,
        D: Fn(u64, u64) -> u64,

        requires
            old(self).wf(),
            well_behaved(*add),
            well_behaved(*subtract),
            well_behaved(*multiply),
            well_behaved(*divide),
            forall|i: int|
                0 <= i < old(self).dirty_blocks@.len() ==> #[trigger] gathering_defined(
                    *old(self),
                    interner.values@,
                    arith_of(*add, *subtract, *multiply, *divide),
                    i,
                ),
            forall|g: Analysis|
                #[trigger] gathered_state(*old(self), interner.values@, arith_of(*add, *subtract, *multiply, *divide), g)
                    && g.wf() ==> analysis_defined(g),
        ensures
            final(self).wf(),
            ({
                let g = (Analysis { nodes: old(self).nodes, chains: old(self).chains, ..*final(self) });
                &&& gathered_state(*old(self), interner.values@, arith_of(*add, *subtract, *multiply, *divide), g)
                &&& g.wf()
                &&& shapes(final(self).nodes@) == analyzed_nodes(g)
                &&& final(self).chains@ == old(self).chains@ + all_chains(g).1
            }),
    {
        let ghost a0 = *self;
        self.gather_dirty_blocks(interner, add, subtract, multiply, divide);
        let ghost g = *self;
        let ghost total = all_chains(g);
        let ghost cx = g.context();
        let ghost init = shapes(g.nodes@) + by_id(total.0);
        assert(analysis_defined(g));
        proof {
            lemma_all_chains_edges(g);
        }
        let (built, chains) = self.build_all_chains();
        let mut sorted = Analysis::sort_by_id(built);
        proof {
            lemma_by_id_edges(total.0, total.2);
        }
        let ghost old_nodes = self.nodes@;
        self.nodes.append(&mut sorted);
        assert(shapes(self.nodes@) =~= init);
        assert forall|i: int, x: usize|
            #![trigger self.nodes@[i].next@.contains(x)]
            #![trigger self.nodes@[i].back_edges@.contains(x)]
            0 <= i < self.nodes@.len() && (self.nodes@[i].next@.contains(x)
            || self.nodes@[i].back_edges@.contains(x)) implies x < self.nodes@.len() by {
            if i < old_nodes.len() {
                assert(self.nodes@[i] == old_nodes[i]);
                assert(old_nodes[i].next@.contains(x) || old_nodes[i].back_edges@.contains(x));
            } else {
                let k = i - old_nodes.len();
                assert(shapes(self.nodes@)[i] == by_id(total.0)[k]);
                assert(shapes(self.nodes@)[i] == self.nodes@[i].shape());
                assert(by_id(total.0)[k].next.contains(x) || by_id(total.0)[k].back_edges.contains(x));
            }
        }
        assert(self.wf());
        let n = chains.len();
        let mut i: usize = 0;
        assert(chains@.take(0) =~= Seq::<usize>::empty());
        while i < n
            invariant
                self.wf(),
                n == chains@.len(),
                chains@ == total.1,
                0 <= i <= n,
                self.context() == cx,
                optimize_all_defined(cx, init, chains@),
                shapes(self.nodes@) == optimize_all(cx, init, chains@.take(i as int)),
                self.nodes@.len() == g.nodes@.len() + total.2,
                forall|j: int| 0 <= j < chains@.len() ==> #[trigger] chains@[j] < total.2,
                self.chains@ == g.chains@ + chains@.take(i as int),
                self.blocks == g.blocks,
                self.inputs == g.inputs,
                self.setup_blocks == g.setup_blocks,
                self.root_blocks == g.root_blocks,
                self.tags == g.tags,
                self.externals == g.externals,
                self.dirty_blocks == g.dirty_blocks,
            decreases n - i,
        {
            let c = chains[i];
            proof {
                assert(chains@.take(i + 1).drop_last() =~= chains@.take(i as int));
                lemma_optimize_all_prefix(cx, init, chains@, i + 1);
            }
            self.optimize_chain(c);
            self.chains.push(c);
            assert(self.chains@ =~= g.chains@ + chains@.take(i + 1));
            i = i + 1;
        }
        assert(chains@.take(n as int) =~= chains@);
        assert(g == (Analysis { nodes: a0.nodes, chains: a0.chains, ..*self }));
    }

    /// Orders nodes numbered 0 up to their count by number.
    pub fn sort_by_id(nodes: Vec<Node>) -> (r: Vec<Node>)
        requires
            numbered(shapes(nodes@), 0, nodes@.len() as nat),
        ensures
            shapes(r@) == by_id(shapes(nodes@)),
    {
        let ghost orig = nodes@;
        let ghost ns = shapes(orig);
        let mut nodes = nodes;
        let n = nodes.len();
        let mut slots: Vec<Option<Node>> = Vec::new();
        let mut i: usize = 0;
        while i < n
            invariant
                0 <= i <= n,
                slots@.len() == i,
            decreases n - i,
        {
            slots.push(None);
            i = i + 1;
        }
        while nodes.len() > 0
            invariant
                n == orig.len(),
                ns == shapes(orig),
                numbered(ns, 0, n as nat),
                slots@.len() == n,
                nodes@.len() <= n,
                nodes@ == orig.take(nodes@.len() as int),
                forall|j: int| nodes@.len() <= j < n ==> slots@[(#[trigger] orig[j]).id as int] == Some(orig[j]),
            decreases nodes@.len(),
        {
            let m = nodes.len();
            let node = nodes.pop().unwrap();
            assert(node == orig[m - 1]);
            assert(ns[m - 1] == node.shape());
            let id = node.id;
            slots.set(id, Some(node));
            assert(nodes@ =~= orig.take(m - 1));
            assert forall|j: int| m - 1 <= j < n implies slots@[(#[trigger] orig[j]).id as int] == Some(orig[j]) by {
                if j != m - 1 {
                    assert(ns[j] == orig[j].shape());
                    assert(ns[m - 1].id != ns[j].id);
                }
            }
        }
        assert forall|k: int| 0 <= k < n implies #[trigger] slots@[k] == Some(orig[choose|j: int| 0 <= j < ns.len() && (#[trigger] ns[j]).id == k]) by {
            assert(has_id(ns, k));
            let j = choose|j: int| 0 <= j < ns.len() && (#[trigger] ns[j]).id == k;
            assert(ns[j] == orig[j].shape());
        }
        let ghost full = slots@;
        let mut r: Vec<Node> = Vec::new();
        let mut i: usize = 0;
        while i < n
            invariant
                0 <= i <= n,
                n == orig.len(),
                ns == shapes(orig),
                slots@.len() == n,
                full.len() == n,
                forall|k: int| i <= k < n ==> slots@[k] == full[k],
                forall|k: int| 0 <= k < n ==> #[trigger] full[k] == Some(orig[choose|j: int| 0 <= j < ns.len() && (#[trigger] ns[j]).id == k]),
                r@.len() == i,
                forall|k: int| 0 <= k < i ==> Some(#[trigger] r@[k]) == full[k],
            decreases n - i,
        {
            let mut tmp: Option<Node> = None;
            slots.set_and_swap(i, &mut tmp);
            assert(tmp == full[i as int]);
            r.push(tmp.unwrap());
            i = i + 1;
        }
        assert forall|k: int| 0 <= k < n implies #[trigger] shapes(r@)[k] == by_id(ns)[k] by {
            assert(has_id(ns, k));
            let j = choose|j: int| 0 <= j < ns.len() && (#[trigger] ns[j]).id == k;
            assert(full[k] == Some(orig[j]));
            assert(Some(r@[k]) == full[k]);
            assert(ns[j] == orig[j].shape());
        }
        assert(shapes(r@) =~= by_id(ns));
        r
    }
}

} // verus!
