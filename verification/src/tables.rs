use std::collections::HashMap;
use vstd::prelude::*;

use crate::domain::Domain;
use crate::program::Field;

verus! {

broadcast use vstd::std_specs::hash::group_hash_axioms;

/// The key under which a (tag, attribute) pair is stored.
pub open spec fn pair_key(tag: u32, attribute: u32) -> u64 {
    ((tag as int) * 0x1_0000_0000 + (attribute as int)) as u64
}

/// Different pairs are stored under different keys.
pub proof fn lemma_pair_key_injective(t1: u32, a1: u32, t2: u32, a2: u32)
    ensures
        pair_key(t1, a1) == pair_key(t2, a2) <==> (t1 == t2 && a1 == a2),
{
    assert(0 <= (t1 as int) * 0x1_0000_0000 + (a1 as int) < 0x1_0000_0000_0000_0000) by (nonlinear_arith);
    assert(0 <= (t2 as int) * 0x1_0000_0000 + (a2 as int) < 0x1_0000_0000_0000_0000) by (nonlinear_arith);
    if pair_key(t1, a1) == pair_key(t2, a2) {
        assert((t1 as int) * 0x1_0000_0000 + (a1 as int) == (t2 as int) * 0x1_0000_0000 + (a2 as int));
        assert(t1 == t2 && a1 == a2) by (nonlinear_arith)
            requires
                (t1 as int) * 0x1_0000_0000 + (a1 as int) == (t2 as int) * 0x1_0000_0000 + (a2 as int),
                a1 < 0x1_0000_0000,
                a2 < 0x1_0000_0000,
        ;
    }
}

fn make_key(tag: u32, attribute: u32) -> (k: u64)
    ensures
        k == pair_key(tag, attribute),
{
    assert((tag as int) * 0x1_0000_0000 + (attribute as int) < 0x1_0000_0000_0000_0000) by (nonlinear_arith)
        requires tag < 0x1_0000_0000int, attribute < 0x1_0000_0000int;
    tag as u64 * 0x1_0000_0000 + attribute as u64
}

/// The order of keys after `k` is stored: a new key goes last.
pub open spec fn with_key<K>(order: Seq<K>, k: K) -> Seq<K> {
    if order.contains(k) {
        order
    } else {
        order.push(k)
    }
}

pub proof fn lemma_with_key_contains<K>(order: Seq<K>, k: K)
    ensures
        forall|q: K| #[trigger] with_key(order, k).contains(q) <==> (order.contains(q) || q == k),
{
    if !order.contains(k) {
        assert forall|q: K| #[trigger] order.push(k).contains(q) <==> (order.contains(q) || q == k) by {
            if q == k {
                assert(order.push(k)[order.len() as int] == k);
            }
            if order.contains(q) {
                let i = choose|i: int| 0 <= i < order.len() && order[i] == q;
                assert(order.push(k)[i] == q);
            }
            if order.push(k).contains(q) {
                let i = choose|i: int| 0 <= i < order.len() + 1 && order.push(k)[i] == q;
                if i < order.len() {
                    assert(order[i] == q);
                }
            }
        }
    }
}

pub proof fn lemma_with_key<K>(order: Seq<K>, k: K)
    requires
        order.no_duplicates(),
    ensures
        with_key(order, k).no_duplicates(),
        forall|q: K| #[trigger] with_key(order, k).contains(q) <==> (order.contains(q) || q == k),
{
    lemma_with_key_contains(order, k);
}

/// A value per (tag, attribute) pair; the pairs keep the order in which
/// they were first stored.
pub struct PairMap<V> {
    map: HashMap<u64, V>,
    order: Vec<(u32, u32)>,
}

impl<V> View for PairMap<V> {
    type V = Map<(u32, u32), V>;

    closed spec fn view(&self) -> Map<(u32, u32), V> {
        Map::new(
            |p: (u32, u32)| self.map@.contains_key(pair_key(p.0, p.1)),
            |p: (u32, u32)| self.map@[pair_key(p.0, p.1)],
        )
    }
}

impl<V> PairMap<V> {
    /// The stored pairs, in the order in which they were first stored.
    pub closed spec fn order(&self) -> Seq<(u32, u32)> {
        self.order@
    }

    /// The order lists each stored pair once.
    pub closed spec fn wf(&self) -> bool {
        &&& self.order@.no_duplicates()
        &&& forall|p: (u32, u32)| #[trigger] self.order@.contains(p) <==> self@.contains_key(p)
    }

    pub proof fn lemma_wf(&self)
        requires
            self.wf(),
        ensures
            self.order().no_duplicates(),
            forall|p: (u32, u32)| #[trigger] self.order().contains(p) <==> self@.contains_key(p),
    {
    }

    pub fn new() -> (r: PairMap<V>)
        ensures
            r.wf(),
            r@ == Map::<(u32, u32), V>::empty(),
            r.order() == Seq::<(u32, u32)>::empty(),
    {
        let r = PairMap { map: HashMap::new(), order: Vec::new() };
        assert(r@ =~= Map::<(u32, u32), V>::empty());
        r
    }

    pub fn get(&self, tag: u32, attribute: u32) -> (r: Option<&V>)
        ensures
            r == (if self@.contains_key((tag, attribute)) {
                Some(&self@[(tag, attribute)])
            } else {
                None
            }),
    {
        let k = make_key(tag, attribute);
        self.map.get(&k)
    }

    proof fn lemma_key_of(tag: u32, attribute: u32)
        ensures
            forall|p: (u32, u32)| #![auto] (pair_key(p.0, p.1) == pair_key(tag, attribute)) <==> p == (tag, attribute),
    {
        assert forall|p: (u32, u32)| #![auto] (pair_key(p.0, p.1) == pair_key(tag, attribute)) <==> p == (tag, attribute) by {
            lemma_pair_key_injective(p.0, p.1, tag, attribute);
        }
    }

    pub fn insert(&mut self, tag: u32, attribute: u32, d: V)
        requires
            old(self).wf(),
        ensures
            final(self).wf(),
            final(self)@ == old(self)@.insert((tag, attribute), d),
            final(self).order() == with_key(old(self).order(), (tag, attribute)),
    {
        let k = make_key(tag, attribute);
        proof {
            Self::lemma_key_of(tag, attribute);
        }
        if !self.map.contains_key(&k) {
            self.order.push((tag, attribute));
        }
        self.map.insert(k, d);
        assert(self@ =~= old(self)@.insert((tag, attribute), d));
        proof {
            lemma_with_key(old(self).order@, (tag, attribute));
            assert(self.order@ == with_key(old(self).order@, (tag, attribute)));
        }
    }

    pub fn clear(&mut self)
        ensures
            final(self).wf(),
            final(self)@ == Map::<(u32, u32), V>::empty(),
            final(self).order() == Seq::<(u32, u32)>::empty(),
    {
        self.map.clear();
        self.order.clear();
        assert(self@ =~= Map::<(u32, u32), V>::empty());
    }

    /// The stored pairs, in the order in which they were first stored.
    pub fn pairs(&self) -> (r: &Vec<(u32, u32)>)
        ensures
            r@ == self.order(),
    {
        &self.order
    }
}

impl<T> PairMap<Vec<T>> {
    /// Appends an item to the list of a pair, creating the list when needed.
    pub fn push_item(&mut self, tag: u32, attribute: u32, item: T)
        requires
            old(self).wf(),
        ensures
            final(self).wf(),
            final(self)@.dom() == old(self)@.dom().insert((tag, attribute)),
            forall|p: (u32, u32)| p != (tag, attribute) && #[trigger] old(self)@.contains_key(p) ==> final(self)@[p] == old(self)@[p],
            final(self)@[(tag, attribute)]@ == (if old(self)@.contains_key((tag, attribute)) {
                old(self)@[(tag, attribute)]@
            } else {
                Seq::empty()
            }).push(item),
            final(self).order() == with_key(old(self).order(), (tag, attribute)),
    {
        let k = make_key(tag, attribute);
        proof {
            Self::lemma_key_of(tag, attribute);
        }
        let mut list = match self.map.remove(&k) {
            Some(list) => list,
            None => {
                self.order.push((tag, attribute));
                Vec::new()
            },
        };
        list.push(item);
        self.map.insert(k, list);
        assert(self@.dom() =~= old(self)@.dom().insert((tag, attribute)));
        proof {
            lemma_with_key(old(self).order@, (tag, attribute));
            assert(self.order@ == with_key(old(self).order@, (tag, attribute)));
        }
    }
}

/// The key under which a (tag, attribute, value) triple is stored.
pub open spec fn triple_key(t: (u32, u32, u32)) -> u128 {
    ((t.0 as int) * 0x1_0000_0000_0000_0000 + (t.1 as int) * 0x1_0000_0000 + (t.2 as int)) as u128
}

/// Different triples are stored under different keys.
pub proof fn lemma_triple_key_injective(t: (u32, u32, u32), u: (u32, u32, u32))
    ensures
        triple_key(t) == triple_key(u) <==> t == u,
{
    let a = (t.0 as int) * 0x1_0000_0000_0000_0000 + (t.1 as int) * 0x1_0000_0000 + (t.2 as int);
    let b = (u.0 as int) * 0x1_0000_0000_0000_0000 + (u.1 as int) * 0x1_0000_0000 + (u.2 as int);
    assert(0 <= a < 0x1_0000_0000_0000_0000_0000_0000_0000_0000) by (nonlinear_arith)
        requires
            a == (t.0 as int) * 0x1_0000_0000_0000_0000 + (t.1 as int) * 0x1_0000_0000 + (t.2 as int),
            t.0 < 0x1_0000_0000int,
            t.1 < 0x1_0000_0000int,
            t.2 < 0x1_0000_0000int,
    ;
    assert(0 <= b < 0x1_0000_0000_0000_0000_0000_0000_0000_0000) by (nonlinear_arith)
        requires
            b == (u.0 as int) * 0x1_0000_0000_0000_0000 + (u.1 as int) * 0x1_0000_0000 + (u.2 as int),
            u.0 < 0x1_0000_0000int,
            u.1 < 0x1_0000_0000int,
            u.2 < 0x1_0000_0000int,
    ;
    if a == b {
        assert(t.0 == u.0 && t.1 == u.1 && t.2 == u.2) by (nonlinear_arith)
            requires
                a == b,
                a == (t.0 as int) * 0x1_0000_0000_0000_0000 + (t.1 as int) * 0x1_0000_0000 + (t.2 as int),
                b == (u.0 as int) * 0x1_0000_0000_0000_0000 + (u.1 as int) * 0x1_0000_0000 + (u.2 as int),
                t.0 < 0x1_0000_0000int,
                t.1 < 0x1_0000_0000int,
                t.2 < 0x1_0000_0000int,
                u.0 < 0x1_0000_0000int,
                u.1 < 0x1_0000_0000int,
                u.2 < 0x1_0000_0000int,
        ;
    }
}

fn make_triple_key(t: (u32, u32, u32)) -> (k: u128)
    ensures
        k == triple_key(t),
{
    assert((t.0 as int) * 0x1_0000_0000_0000_0000 + (t.1 as int) * 0x1_0000_0000 + (t.2 as int) < 0x1_0000_0000_0000_0000_0000_0000_0000_0000) by (nonlinear_arith)
        requires
            t.0 < 0x1_0000_0000int,
            t.1 < 0x1_0000_0000int,
            t.2 < 0x1_0000_0000int,
    ;
    assert((t.0 as int) * 0x1_0000_0000_0000_0000 < 0x1_0000_0000_0000_0000_0000_0000_0000_0000) by (nonlinear_arith)
        requires t.0 < 0x1_0000_0000int;
    assert((t.1 as int) * 0x1_0000_0000 < 0x1_0000_0000_0000_0000) by (nonlinear_arith)
        requires t.1 < 0x1_0000_0000int;
    (t.0 as u128) * 0x1_0000_0000_0000_0000 + (t.1 as u128) * 0x1_0000_0000 + (t.2 as u128)
}

/// A value per (tag, attribute, value) triple.
pub struct TripleMap<V> {
    map: HashMap<u128, V>,
}

impl<V> View for TripleMap<V> {
    type V = Map<(u32, u32, u32), V>;

    closed spec fn view(&self) -> Map<(u32, u32, u32), V> {
        Map::new(
            |t: (u32, u32, u32)| self.map@.contains_key(triple_key(t)),
            |t: (u32, u32, u32)| self.map@[triple_key(t)],
        )
    }
}

impl<V> TripleMap<V> {
    pub fn new() -> (r: TripleMap<V>)
        ensures
            r@ == Map::<(u32, u32, u32), V>::empty(),
    {
        let r = TripleMap { map: HashMap::new() };
        assert(r@ =~= Map::<(u32, u32, u32), V>::empty());
        r
    }

    pub fn get(&self, t: (u32, u32, u32)) -> (r: Option<&V>)
        ensures
            r == (if self@.contains_key(t) {
                Some(&self@[t])
            } else {
                None
            }),
    {
        let k = make_triple_key(t);
        self.map.get(&k)
    }

    proof fn lemma_key_of(self, t: (u32, u32, u32))
        ensures
            forall|u: (u32, u32, u32)| #![auto] (triple_key(u) == triple_key(t)) <==> u == t,
    {
        assert forall|u: (u32, u32, u32)| #![auto] (triple_key(u) == triple_key(t)) <==> u == t by {
            lemma_triple_key_injective(u, t);
        }
    }

    pub fn insert(&mut self, t: (u32, u32, u32), d: V)
        ensures
            final(self)@ == old(self)@.insert(t, d),
    {
        let k = make_triple_key(t);
        self.map.insert(k, d);
        proof {
            self.lemma_key_of(t);
        }
        assert(self@ =~= old(self)@.insert(t, d));
    }

    pub fn remove(&mut self, t: (u32, u32, u32)) -> (r: Option<V>)
        ensures
            final(self)@ == old(self)@.remove(t),
            r == (if old(self)@.contains_key(t) {
                Some(old(self)@[t])
            } else {
                None
            }),
    {
        let k = make_triple_key(t);
        let r = self.map.remove(&k);
        proof {
            self.lemma_key_of(t);
        }
        assert(self@ =~= old(self)@.remove(t));
        r
    }
}

impl TripleMap<Vec<u32>> {
    /// Adds an id to the list of a triple unless it is there already.
    pub fn add_id(&mut self, t: (u32, u32, u32), id: u32)
        ensures
            final(self)@ == old(self)@.insert(t, final(self)@[t]),
            final(self)@[t]@ == with_key(id_list(old(self)@, t), id),
    {
        let k = make_triple_key(t);
        proof {
            self.lemma_key_of(t);
        }
        let mut list = match self.map.remove(&k) {
            Some(list) => list,
            None => Vec::new(),
        };
        if !contains_id(&list, id) {
            list.push(id);
        }
        self.map.insert(k, list);
        assert(self@ =~= old(self)@.insert(t, self@[t]));
    }
}

/// The ids listed for a key, none when it has no entry.
pub open spec fn id_list<K>(m: Map<K, Vec<u32>>, k: K) -> Seq<u32> {
    if m.contains_key(k) {
        m[k]@
    } else {
        Seq::empty()
    }
}

/// Whether a list holds an id.
pub fn contains_id(list: &Vec<u32>, id: u32) -> (r: bool)
    ensures
        r == list@.contains(id),
{
    let mut i: usize = 0;
    while i < list.len()
        invariant
            0 <= i <= list@.len(),
            forall|j: int| 0 <= j < i ==> list@[j] != id,
        decreases list@.len() - i,
    {
        if list[i] == id {
            return true;
        }
        i = i + 1;
    }
    false
}

/// A value per id; the ids keep the order in which they were first stored.
pub struct IdMap<V> {
    map: HashMap<u32, V>,
    order: Vec<u32>,
}

impl<V> View for IdMap<V> {
    type V = Map<u32, V>;

    closed spec fn view(&self) -> Map<u32, V> {
        self.map@
    }
}

impl<V> IdMap<V> {
    /// The stored ids, in the order in which they were first stored.
    pub closed spec fn order(&self) -> Seq<u32> {
        self.order@
    }

    /// The order lists each stored id once.
    pub closed spec fn wf(&self) -> bool {
        &&& self.order@.no_duplicates()
        &&& forall|k: u32| #[trigger] self.order@.contains(k) <==> self@.contains_key(k)
    }

    pub proof fn lemma_wf(&self)
        requires
            self.wf(),
        ensures
            self.order().no_duplicates(),
            forall|k: u32| #[trigger] self.order().contains(k) <==> self@.contains_key(k),
    {
    }

    pub fn new() -> (r: IdMap<V>)
        ensures
            r.wf(),
            r@ == Map::<u32, V>::empty(),
            r.order() == Seq::<u32>::empty(),
    {
        IdMap { map: HashMap::new(), order: Vec::new() }
    }

    pub fn get(&self, k: u32) -> (r: Option<&V>)
        ensures
            r == (if self@.contains_key(k) {
                Some(&self@[k])
            } else {
                None
            }),
    {
        self.map.get(&k)
    }

    /// The stored ids, in the order in which they were first stored.
    pub fn ids(&self) -> (r: &Vec<u32>)
        ensures
            r@ == self.order(),
    {
        &self.order
    }
}

impl IdMap<Vec<u32>> {
    /// Adds an id to the list of a key unless it is there already,
    /// creating the list when needed.
    pub fn add_id(&mut self, k: u32, id: u32)
        requires
            old(self).wf(),
        ensures
            final(self).wf(),
            final(self)@ == old(self)@.insert(k, final(self)@[k]),
            final(self)@[k]@ == with_key(id_list(old(self)@, k), id),
            final(self).order() == with_key(old(self).order(), k),
    {
        let mut list = match self.map.remove(&k) {
            Some(list) => list,
            None => {
                self.order.push(k);
                Vec::new()
            },
        };
        if !contains_id(&list, id) {
            list.push(id);
        }
        self.map.insert(k, list);
        assert(self@ =~= old(self)@.insert(k, self@[k]));
        proof {
            lemma_with_key(old(self).order@, k);
            assert(self.order@ == with_key(old(self).order@, k));
        }
    }
}

/// The tags found for each field.
pub struct FieldTags {
    registers: HashMap<usize, Vec<u32>>,
    values: HashMap<u32, Vec<u32>>,
}

impl View for FieldTags {
    type V = Map<Field, Seq<u32>>;

    closed spec fn view(&self) -> Map<Field, Seq<u32>> {
        Map::new(
            |f: Field|
                match f {
                    Field::Register(r) => self.registers@.contains_key(r),
                    Field::Value(v) => self.values@.contains_key(v),
                },
            |f: Field|
                match f {
                    Field::Register(r) => self.registers@[r]@,
                    Field::Value(v) => self.values@[v]@,
                },
        )
    }
}

/// The tags recorded for a field, none when it has no entry.
pub open spec fn tags_of(m: Map<Field, Seq<u32>>, f: Field) -> Seq<u32> {
    if m.contains_key(f) {
        m[f]
    } else {
        Seq::empty()
    }
}

impl FieldTags {
    pub fn new() -> (r: FieldTags)
        ensures
            r@ == Map::<Field, Seq<u32>>::empty(),
    {
        let r = FieldTags { registers: HashMap::new(), values: HashMap::new() };
        assert(r@ =~= Map::<Field, Seq<u32>>::empty());
        r
    }

    pub fn get(&self, f: &Field) -> (r: Option<&Vec<u32>>)
        ensures
            match r {
                Some(t) => self@.contains_key(*f) && t@ == self@[*f],
                None => !self@.contains_key(*f),
            },
    {
        match f {
            Field::Register(r) => self.registers.get(r),
            Field::Value(v) => self.values.get(v),
        }
    }

    /// Appends a tag to the field's list, creating the list when needed.
    pub fn push(&mut self, f: &Field, tag: u32)
        ensures
            final(self)@ == old(self)@.insert(*f, tags_of(old(self)@, *f).push(tag)),
    {
        match f {
            Field::Register(r) => {
                let mut list = match self.registers.remove(r) {
                    Some(list) => list,
                    None => Vec::new(),
                };
                list.push(tag);
                self.registers.insert(*r, list);
            },
            Field::Value(v) => {
                let mut list = match self.values.remove(v) {
                    Some(list) => list,
                    None => Vec::new(),
                };
                list.push(tag);
                self.values.insert(*v, list);
            },
        }
        assert(self@ =~= old(self)@.insert(*f, tags_of(old(self)@, *f).push(tag)));
    }
}

} // verus!
