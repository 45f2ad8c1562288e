use std::collections::hash_map::DefaultHasher;
use std::hash::{Hash, Hasher};
use vstd::laws_eq::obeys_concrete_eq;
use vstd::prelude::*;
use vstd::std_specs::cmp::PartialEqSpec;

use crate::trie::{inserted, keeps, removed, Trie};

verus! {

broadcast use vstd::laws_eq::group_laws_eq;

/// An entry of a bucket. Two entries are equal when their keys are, whatever their values.
pub struct KeyValue<K, V> {
    pub key: K,
    pub value: Option<V>,
}

impl<K: PartialEq, V> PartialEq for KeyValue<K, V> {
    fn eq(&self, other: &Self) -> (r: bool) {
        self.key == other.key
    }
}

impl<K: PartialEq, V> vstd::std_specs::cmp::PartialEqSpecImpl for KeyValue<K, V> {
    open spec fn obeys_eq_spec() -> bool {
        K::obeys_eq_spec()
    }

    open spec fn eq_spec(&self, other: &Self) -> bool {
        self.key.eq_spec(&other.key)
    }
}

/// The path of a 64-bit hash: bit `i`, from the least significant one, is label `i`.
pub open spec fn hash_path(h: u64) -> Seq<bool> {
    Seq::new(64, |i: int| (h >> (i as u64)) & 1u64 == 1u64)
}

/// The position of the first entry of `b` whose key equals `k`, or `b.len()` where there is none.
pub open spec fn first_with_key<K: PartialEq, V>(b: Seq<KeyValue<K, V>>, k: K) -> int
    decreases b.len(),
{
    if b.len() == 0 {
        0
    } else if b[0].key.eq_spec(&k) {
        0
    } else {
        1 + first_with_key(b.drop_first(), k)
    }
}

/// The value of the first entry of `b` whose key equals `k`.
pub open spec fn lookup<K: PartialEq, V>(b: Seq<KeyValue<K, V>>, k: K) -> Option<V> {
    let i = first_with_key(b, k);
    if i < b.len() {
        b[i].value
    } else {
        None
    }
}

proof fn lemma_first_with_key<K: PartialEq, V>(b: Seq<KeyValue<K, V>>, k: K)
    ensures
        0 <= first_with_key(b, k) <= b.len(),
        first_with_key(b, k) < b.len() ==> b[first_with_key(b, k)].key.eq_spec(&k),
        forall|j: int| 0 <= j < first_with_key(b, k) ==> !(#[trigger] b[j].key.eq_spec(&k)),
    decreases b.len(),
{
    if b.len() > 0 && !b[0].key.eq_spec(&k) {
        lemma_first_with_key(b.drop_first(), k);
        assert forall|j: int| 0 <= j < first_with_key(b, k) implies !(#[trigger] b[j].key.eq_spec(&k)) by {
            if j > 0 {
                assert(b[j] == b.drop_first()[j - 1]);
            }
        }
    }
}

/// Feeds `key` into `state`.
/// Relies on std's `Hash::hash` of the key type, which writes the key into the hasher;
/// nothing is assumed of the state that results.
#[verifier::external_body]
fn feed_hasher<K: Hash>(key: &K, state: &mut DefaultHasher) {
    key.hash(state)
}

/// The trie path of a 64-bit hash.
pub fn hash_to_path(h: u64) -> (r: Vec<bool>)
    ensures
        r@ == hash_path(h),
{
    let mut r: Vec<bool> = Vec::new();
    let mut i: u64 = 0;
    while i < 64
        invariant
            i <= 64,
            r@ == hash_path(h).subrange(0, i as int),
        decreases 64 - i,
    {
        let bit = h & (1u64 << i) > 0;
        proof {
            assert((h & (1u64 << i) > 0) == ((h >> i) & 1u64 == 1u64)) by (bit_vector)
                requires i < 64;
        }
        r.push(bit);
        i = i + 1;
        proof { assert(r@ =~= hash_path(h).subrange(0, i as int)); }
    }
    proof { assert(r@ =~= hash_path(h)); }
    r
}

/// A persistent map kept in a trie whose paths are the bits of the keys' hashes. Entries
/// whose keys collide share a bucket and are told apart by key equality.
pub struct HashMap<K, V = ()> {
    trie: Trie<bool, KeyValue<K, V>>,
}

/// A persistent set: a map whose entries carry no value.
pub type HashSet<K> = HashMap<K, ()>;

/// Every entry of every bucket holds a value.
pub open spec fn all_valued<K, V>(m: Map<Seq<bool>, Seq<KeyValue<K, V>>>) -> bool {
    forall|p: Seq<bool>, i: int| 0 <= i < m[p].len() ==> (#[trigger] m[p][i]).value is Some
}

impl<K, V> View for HashMap<K, V> {
    type V = Map<Seq<bool>, Seq<KeyValue<K, V>>>;

    /// The bucket of every path, in the order of insertion.
    closed spec fn view(&self) -> Map<Seq<bool>, Seq<KeyValue<K, V>>> {
        self.trie@
    }
}

impl<K, V> HashMap<K, V> {
    #[verifier::type_invariant]
    spec fn inv(self) -> bool {
        all_valued(self.trie@)
    }
}

impl<K: PartialEq, V> HashMap<K, V> {
    pub fn new() -> (r: Self)
        ensures
            r@ == Map::new(|p: Seq<bool>| true, |p: Seq<bool>| Seq::<KeyValue<K, V>>::empty()),
            all_valued(r@),
    {
        let trie: Trie<bool, KeyValue<K, V>> = Trie::new();
        proof {
            assert forall|p: Seq<bool>, i: int| 0 <= i < trie@[p].len() implies (#[trigger] trie@[p][i]).value is Some by {
                assert(trie@[p].len() == 0);
            }
        }
        HashMap { trie }
    }

    /// A new version with the entry `key`, `value` appended to the bucket at `path`; an
    /// entry with an equal key that is there already stays, and stays first.
    pub fn insert_at(&self, path: &[bool], key: K, value: V) -> (r: Self)
        ensures
            r@ == inserted(self@, path@, KeyValue { key, value: Some(value) }),
            all_valued(r@),
    {
        proof {
            assert(obeys_concrete_eq::<bool>());
            use_type_invariant(self);
        }
        let trie = self.trie.insert_store(path, KeyValue { key, value: Some(value) });
        proof {
            assert forall|p: Seq<bool>, i: int| 0 <= i < trie@[p].len() implies (#[trigger] trie@[p][i]).value is Some by {
                if p == path@ {
                    if i < self@[p].len() {
                        assert(trie@[p][i] == self@[p][i]);
                    }
                } else {
                    assert(trie@[p] == self@[p]);
                }
            }
        }
        HashMap { trie }
    }

    /// The value of the first entry at `path` whose key equals `k`.
    pub fn get_at(&self, path: &[bool], k: &K) -> (r: Option<&V>)
        requires
            K::obeys_eq_spec(),
        ensures
            r is Some <==> lookup(self@[path@], *k) is Some,
            r matches Some(v) ==> *v == lookup(self@[path@], *k)->Some_0,
            r is Some <==> first_with_key(self@[path@], *k) < self@[path@].len(),
    {
        proof {
            assert(obeys_concrete_eq::<bool>());
            use_type_invariant(self);
        }
        let ghost b = self@[path@];
        proof { lemma_first_with_key(b, *k); }
        match self.trie.get_store(path) {
            None => {
                proof { assert(b.len() == 0); }
                None
            },
            Some(store) => {
                let mut i: usize = 0;
                while i < store.len()
                    invariant
                        i <= store@.len(),
                        K::obeys_eq_spec(),
                        store@.map_values(|x: &KeyValue<K, V>| *x) == b,
                        b == self@[path@],
                        all_valued(self@),
                        forall|j: int| 0 <= j < i ==> !(#[trigger] b[j].key.eq_spec(k)),
                    decreases store@.len() - i,
                {
                    let kv: &KeyValue<K, V> = store[i];
                    proof { assert(b[i as int] == *kv); }
                    if kv.key == *k {
                        proof {
                            assert(b[i as int].key.eq_spec(k));
                            assert(b.len() == store@.len());
                            lemma_first_with_key(b, *k);
                            let f = first_with_key(b, *k);
                            if f < i {
                                assert(b[f].key.eq_spec(k));
                            }
                            assert(f == i);
                            assert(lookup(b, *k) == kv.value);
                        }
                        let r = kv.value.as_ref();
                        proof {
                            assert(self@[path@][i as int].value is Some);
                            assert(r is Some <==> kv.value is Some);
                        }
                        return r;
                    }
                    i = i + 1;
                }
                proof {
                    lemma_first_with_key(b, *k);
                    if first_with_key(b, *k) < b.len() {
                        assert(b[first_with_key(b, *k)].key.eq_spec(k));
                    }
                }
                None
            },
        }
    }

    /// A new version without any entry at `path` whose key equals `key`; `None` where there
    /// is no such entry.
    pub fn remove_at(&self, path: &[bool], key: K) -> (r: Option<Self>)
        requires
            K::obeys_eq_spec(),
        ensures
            r is None <==> first_with_key(self@[path@], key) == self@[path@].len(),
            r is None <==> lookup(self@[path@], key) is None,
            r matches Some(m) ==> m@ == removed(self@, path@, KeyValue { key, value: None }),
            r matches Some(m) ==> all_valued(m@),
    {
        proof {
            assert(obeys_concrete_eq::<bool>());
            use_type_invariant(self);
        }
        let ghost probe = KeyValue::<K, V> { key, value: None };
        let r = self.trie.remove_store(path, &KeyValue { key, value: None });
        proof {
            let b = self@[path@];
            lemma_first_with_key(b, key);
            if crate::trie::holds_equal(b, probe) {
                let i = choose|i: int| 0 <= i < b.len() && #[trigger] b[i].eq_spec(&probe);
                assert(b[i].key.eq_spec(&key));
            }
            if first_with_key(b, key) < b.len() {
                assert(b[first_with_key(b, key)].eq_spec(&probe));
                assert(b[first_with_key(b, key)].value is Some);
            }
        }
        match r {
            None => None,
            Some(trie) => {
                proof {
                    assert forall|p: Seq<bool>, i: int| 0 <= i < trie@[p].len() implies (#[trigger] trie@[p][i]).value is Some by {
                        if p == path@ {
                            let b = self@[p];
                            let q = valued::<K, V>();
                            assert forall|j: int| 0 <= j < b.len() implies #[trigger] q(b[j]) by {
                                assert(b[j].value is Some);
                            }
                            lemma_filter_preserves(b, keeps(probe), q);
                            assert(q(trie@[p][i]));
                        } else {
                            assert(trie@[p] == self@[p]);
                        }
                    }
                }
                Some(HashMap { trie })
            },
        }
    }
}

impl<K: Hash + PartialEq, V> HashMap<K, V> {
    /// The path of `key`: the bits of its hash under std's `DefaultHasher`.
    fn get_bits(key: &K) -> (r: Vec<bool>)
        ensures
            exists|h: u64| r@ == hash_path(h),
    {
        let mut s = DefaultHasher::new();
        feed_hasher(key, &mut s);
        let hash = s.finish();
        hash_to_path(hash)
    }

    /// A new version with the entry `key`, `value` added at the path of `key`'s hash; an
    /// entry with an equal key that is there already stays, and stays first.
    pub fn insert(&self, key: K, value: V) -> (r: Self)
        ensures
            exists|h: u64| r@ == inserted(self@, hash_path(h), KeyValue { key, value: Some(value) }),
            all_valued(r@),
    {
        let bits = Self::get_bits(&key);
        self.insert_at(&bits, key, value)
    }

    /// The value of the first entry whose key equals `k`, at the path of `k`'s hash.
    pub fn get(&self, k: &K) -> (r: Option<&V>)
        requires
            K::obeys_eq_spec(),
        ensures
            exists|h: u64| {
                &&& r is Some <==> lookup(#[trigger] self@[hash_path(h)], *k) is Some
                &&& r matches Some(v) ==> *v == lookup(self@[hash_path(h)], *k)->Some_0
            },
    {
        let bits = Self::get_bits(k);
        self.get_at(&bits, k)
    }

    /// A new version without any entry whose key equals `key` at the path of `key`'s hash;
    /// `None` where there is no such entry.
    pub fn remove(&self, key: K) -> (r: Option<Self>)
        requires
            K::obeys_eq_spec(),
        ensures
            exists|h: u64| {
                &&& r is None <==> first_with_key(#[trigger] self@[hash_path(h)], key) == self@[hash_path(h)].len()
                &&& r is None <==> lookup(self@[hash_path(h)], key) is None
                &&& r matches Some(m) ==> m@ == removed(self@, hash_path(h), KeyValue { key, value: None })
                &&& r matches Some(m) ==> all_valued(m@)
            },
    {
        let bits = Self::get_bits(&key);
        self.remove_at(&bits, key)
    }
}

impl<K: Hash + PartialEq, V> Default for HashMap<K, V> {
    fn default() -> (r: Self)
        ensures
            r@ == Map::new(|p: Seq<bool>| true, |p: Seq<bool>| Seq::<KeyValue<K, V>>::empty()),
            all_valued(r@),
    {
        HashMap::new()
    }
}

impl<K, V> Clone for HashMap<K, V> {
    /// Another handle on the same nodes.
    fn clone(&self) -> (r: Self)
        ensures
            r@ == self@,
            all_valued(r@),
    {
        proof { use_type_invariant(self); }
        HashMap { trie: self.trie.clone() }
    }
}

proof fn lemma_lookup_push<K: PartialEq, V>(b: Seq<KeyValue<K, V>>, e: KeyValue<K, V>, k: K)
    ensures
        first_with_key(b, k) < b.len() ==> lookup(b.push(e), k) == lookup(b, k),
        first_with_key(b, k) == b.len() && e.key.eq_spec(&k) ==> lookup(b.push(e), k) == e.value,
        first_with_key(b, k) == b.len() && !e.key.eq_spec(&k) ==> lookup(b.push(e), k) is None,
    decreases b.len(),
{
    if b.len() > 0 && !b[0].key.eq_spec(&k) {
        lemma_lookup_push(b.drop_first(), e, k);
        assert(b.push(e).drop_first() =~= b.drop_first().push(e));
    }
    lemma_first_with_key(b, k);
    lemma_first_with_key(b.push(e), k);
}

/// Two keys whose hashes coincide share a path `p`; after both are inserted into a map
/// that held neither there, each is found with its own value.
pub proof fn lemma_colliding_keys<K: PartialEq, V>(m: HashMap<K, V>, p: Seq<bool>, a: K, va: V, b: K, vb: V)
    requires
        all_valued(m@),
        lookup(m@[p], a) is None,
        lookup(m@[p], b) is None,
        a.eq_spec(&a),
        b.eq_spec(&b),
        !a.eq_spec(&b),
    ensures
        ({
            let m2 = inserted(inserted(m@, p, KeyValue { key: a, value: Some(va) }), p, KeyValue { key: b, value: Some(vb) });
            lookup(m2[p], a) == Some(va) && lookup(m2[p], b) == Some(vb)
        }),
{
    let ea = KeyValue { key: a, value: Some(va) };
    let eb = KeyValue { key: b, value: Some(vb) };
    let b0 = m@[p];
    lemma_lookup_none_iff_absent(m, p, a);
    lemma_lookup_none_iff_absent(m, p, b);
    lemma_lookup_push(b0, ea, a);
    lemma_lookup_push(b0, ea, b);
    lemma_first_with_key(b0.push(ea), a);
    lemma_first_with_key(b0.push(ea), b);
    assert(first_with_key(b0.push(ea), b) == b0.len() + 1) by {
        lemma_first_with_key(b0, b);
        assert forall|j: int| 0 <= j < b0.len() + 1 implies !(#[trigger] b0.push(ea)[j].key.eq_spec(&b)) by {
            if j < b0.len() {
                assert(b0.push(ea)[j] == b0[j]);
            }
        }
        if first_with_key(b0.push(ea), b) < b0.len() + 1 {
            assert(b0.push(ea)[first_with_key(b0.push(ea), b)].key.eq_spec(&b));
        }
    }
    lemma_lookup_push(b0.push(ea), eb, a);
    lemma_lookup_push(b0.push(ea), eb, b);
}

/// With two colliding keys inserted as above, removing the first leaves the second with
/// its value and the first absent.
pub proof fn lemma_remove_isolated<K: PartialEq, V>(m: HashMap<K, V>, p: Seq<bool>, a: K, va: V, b: K, vb: V)
    requires
        all_valued(m@),
        lookup(m@[p], a) is None,
        lookup(m@[p], b) is None,
        a.eq_spec(&a),
        b.eq_spec(&b),
        !a.eq_spec(&b),
        !b.eq_spec(&a),
    ensures
        ({
            let m2 = inserted(inserted(m@, p, KeyValue { key: a, value: Some(va) }), p, KeyValue { key: b, value: Some(vb) });
            let m3 = removed(m2, p, KeyValue { key: a, value: None });
            &&& first_with_key(m2[p], a) < m2[p].len()
            &&& lookup(m3[p], a) is None
            &&& lookup(m3[p], b) == Some(vb)
        }),
{
    let ea = KeyValue { key: a, value: Some(va) };
    let eb = KeyValue { key: b, value: Some(vb) };
    let ka = KeyValue::<K, V> { key: a, value: None };
    let b0 = m@[p];
    let b2 = b0.push(ea).push(eb);
    lemma_lookup_none_iff_absent(m, p, a);
    lemma_lookup_none_iff_absent(m, p, b);
    lemma_first_with_key(b2, a);
    assert(b2[b0.len() as int] == ea);
    lemma_first_with_key(b0, a);
    lemma_first_with_key(b0, b);
    let kept = b0.filter(keeps(ka));
    reveal(Seq::filter);
    assert(b2.drop_last() =~= b0.push(ea));
    assert(b0.push(ea).drop_last() =~= b0);
    assert(!keeps(ka)(ea));
    assert(keeps(ka)(eb));
    assert(b0.push(ea).filter(keeps(ka)) == kept);
    assert(b2.filter(keeps(ka)) == kept.push(eb));
    let qa = lacks_key::<K, V>(a);
    let qb = lacks_key::<K, V>(b);
    assert forall|j: int| 0 <= j < b0.len() implies #[trigger] qa(b0[j]) by {
        assert(!b0[j].key.eq_spec(&a));
    }
    assert forall|j: int| 0 <= j < b0.len() implies #[trigger] qb(b0[j]) by {
        assert(!b0[j].key.eq_spec(&b));
    }
    lemma_filter_preserves(b0, keeps(ka), qa);
    lemma_filter_preserves(b0, keeps(ka), qb);
    assert forall|j: int| 0 <= j < kept.len() implies !(#[trigger] kept[j].key.eq_spec(&a)) && !kept[j].key.eq_spec(&b) by {
        assert(qa(kept[j]));
        assert(qb(kept[j]));
    }
    lemma_first_with_key(kept, a);
    lemma_first_with_key(kept, b);
    if first_with_key(kept, a) < kept.len() {
        assert(kept[first_with_key(kept, a)].key.eq_spec(&a));
    }
    if first_with_key(kept, b) < kept.len() {
        assert(kept[first_with_key(kept, b)].key.eq_spec(&b));
    }
    lemma_lookup_push(kept, eb, a);
    lemma_lookup_push(kept, eb, b);
}

proof fn lemma_first_with_key_at<K: PartialEq, V>(b: Seq<KeyValue<K, V>>, k: K, i: int)
    requires
        0 <= i <= b.len(),
        i < b.len() ==> b[i].key.eq_spec(&k),
        forall|j: int| 0 <= j < i ==> !(#[trigger] b[j].key.eq_spec(&k)),
    ensures
        first_with_key(b, k) == i,
{
    lemma_first_with_key(b, k);
    let f = first_with_key(b, k);
    if f < i {
        assert(b[f].key.eq_spec(&k));
    }
    if i < f {
        assert(!b[i].key.eq_spec(&k));
    }
}

proof fn lemma_first_with_key_push<K: PartialEq, V>(b: Seq<KeyValue<K, V>>, e: KeyValue<K, V>, k: K)
    ensures
        first_with_key(b.push(e), k) == if first_with_key(b, k) < b.len() {
            first_with_key(b, k)
        } else if e.key.eq_spec(&k) {
            b.len() as int
        } else {
            (b.len() + 1) as int
        },
{
    lemma_first_with_key(b, k);
    let f = first_with_key(b, k);
    let c = b.push(e);
    assert forall|j: int| 0 <= j < b.len() implies c[j] == b[j] by {}
    if f < b.len() {
        assert(c[f] == b[f]);
        assert forall|j: int| 0 <= j < f implies !(#[trigger] c[j].key.eq_spec(&k)) by {
            assert(c[j] == b[j]);
        }
        lemma_first_with_key_at(c, k, f);
    } else {
        assert forall|j: int| 0 <= j < b.len() implies !(#[trigger] c[j].key.eq_spec(&k)) by {
            assert(c[j] == b[j]);
        }
        if e.key.eq_spec(&k) {
            lemma_first_with_key_at(c, k, b.len() as int);
        } else {
            assert forall|j: int| 0 <= j < c.len() implies !(#[trigger] c[j].key.eq_spec(&k)) by {
                if j < b.len() {
                    assert(c[j] == b[j]);
                }
            }
            lemma_first_with_key_at(c, k, c.len() as int);
        }
    }
}

/// In a map whose entries all hold a value, a key is found exactly where some entry has it.
pub proof fn lemma_lookup_none_iff_absent<K: PartialEq, V>(m: HashMap<K, V>, p: Seq<bool>, k: K)
    requires
        all_valued(m@),
    ensures
        lookup(m@[p], k) is None <==> first_with_key(m@[p], k) == m@[p].len(),
{
    lemma_first_with_key(m@[p], k);
    if first_with_key(m@[p], k) < m@[p].len() {
        assert(m@[p][first_with_key(m@[p], k)].value is Some);
    }
}

/// Inserting `k` with `v` at path `p` of a map whose entries all hold a value: a key `q`
/// that was found keeps its value (a repeated insert does not replace), and one that was
/// not found is now found with `v` where `k` equals it.
pub proof fn lemma_lookup_after_insert<K: PartialEq, V>(m: HashMap<K, V>, p: Seq<bool>, k: K, v: V, q: K)
    requires
        all_valued(m@),
    ensures
        lookup(inserted(m@, p, KeyValue { key: k, value: Some(v) })[p], q) == if lookup(m@[p], q) is Some {
            lookup(m@[p], q)
        } else if k.eq_spec(&q) {
            Some(v)
        } else {
            None
        },
{
    lemma_lookup_none_iff_absent(m, p, q);
    lemma_first_with_key(m@[p], q);
    lemma_lookup_push(m@[p], KeyValue { key: k, value: Some(v) }, q);
}

proof fn lemma_filter_lookup<K: PartialEq, V>(s: Seq<KeyValue<K, V>>, a: K, q: K)
    requires
        forall|x: K| #[trigger] x.eq_spec(&q) ==> !x.eq_spec(&a),
    ensures
        lookup(s.filter(keeps(KeyValue { key: a, value: None })), q) == lookup(s, q),
        (first_with_key(s.filter(keeps(KeyValue { key: a, value: None })), q)
            < s.filter(keeps(KeyValue { key: a, value: None })).len()) == (first_with_key(s, q) < s.len()),
    decreases s.len(),
{
    reveal(Seq::filter);
    let ka = KeyValue::<K, V> { key: a, value: None };
    if s.len() == 0 {
        assert(s.filter(keeps(ka)) == s);
    } else {
        let t = s.drop_last();
        let e = s.last();
        assert(s == t.push(e));
        lemma_filter_lookup(t, a, q);
        let ft = t.filter(keeps(ka));
        lemma_first_with_key_push(t, e, q);
        lemma_lookup_push(t, e, q);
        lemma_first_with_key(t, q);
        lemma_first_with_key(ft, q);
        if keeps(ka)(e) {
            assert(s.filter(keeps(ka)) == ft.push(e));
            lemma_first_with_key_push(ft, e, q);
            lemma_lookup_push(ft, e, q);
        } else {
            assert(s.filter(keeps(ka)) == ft);
            assert(e.key.eq_spec(&a));
            assert(!e.key.eq_spec(&q));
        }
    }
}

/// Removing key `a` at path `p` leaves no entry with `a` there; where key equality is an
/// equivalence and `q` differs from `a`, `q` is found as before, also when it collides.
pub proof fn lemma_remove_then_lookup<K: PartialEq, V>(m: HashMap<K, V>, p: Seq<bool>, a: K, q: K)
    ensures
        lookup(removed(m@, p, KeyValue { key: a, value: None })[p], a) is None,
        vstd::laws_eq::obeys_eq::<K>() && !a.eq_spec(&q)
            ==> lookup(removed(m@, p, KeyValue { key: a, value: None })[p], q) == lookup(m@[p], q),
{
    let ka = KeyValue::<K, V> { key: a, value: None };
    let b0 = m@[p];
    let kept = b0.filter(keeps(ka));
    lemma_filter_keeps_kept(b0, ka);
    lemma_first_with_key(kept, a);
    if first_with_key(kept, a) < kept.len() {
        assert(!kept[first_with_key(kept, a)].key.eq_spec(&a));
    }
    if vstd::laws_eq::obeys_eq::<K>() && !a.eq_spec(&q) {
        reveal(vstd::laws_eq::obeys_eq_spec_properties);
        assert forall|x: K| #[trigger] x.eq_spec(&q) implies !x.eq_spec(&a) by {
            if x.eq_spec(&a) {
                assert(a.eq_spec(&x));
                assert(a.eq_spec(&q));
            }
        }
        lemma_filter_lookup(b0, a, q);
    }
}

/// Every entry that `keeps(ka)` keeps has a key other than `ka.key`.
proof fn lemma_filter_keeps_kept<K: PartialEq, V>(s: Seq<KeyValue<K, V>>, ka: KeyValue<K, V>)
    ensures
        forall|j: int| 0 <= j < s.filter(keeps(ka)).len() ==> !(#[trigger] s.filter(keeps(ka))[j]).key.eq_spec(&ka.key),
    decreases s.len(),
{
    reveal(Seq::filter);
    if s.len() > 0 {
        let t = s.drop_last();
        lemma_filter_keeps_kept(t, ka);
        let ft = t.filter(keeps(ka));
        assert forall|j: int| 0 <= j < s.filter(keeps(ka)).len() implies !(#[trigger] s.filter(keeps(ka))[j]).key.eq_spec(&ka.key) by {
            if keeps(ka)(s.last()) {
                assert(s.filter(keeps(ka)) == ft.push(s.last()));
                if j < ft.len() {
                    assert(s.filter(keeps(ka))[j] == ft[j]);
                }
            } else {
                assert(s.filter(keeps(ka)) == ft);
            }
        }
    }
}

spec fn lacks_key<K: PartialEq, V>(k: K) -> spec_fn(KeyValue<K, V>) -> bool {
    |e: KeyValue<K, V>| !e.key.eq_spec(&k)
}

spec fn valued<K, V>() -> spec_fn(KeyValue<K, V>) -> bool {
    |e: KeyValue<K, V>| e.value is Some
}

/// What holds of every entry of `s` holds of every entry that `filter` keeps.
proof fn lemma_filter_preserves<A>(s: Seq<A>, pred: spec_fn(A) -> bool, q: spec_fn(A) -> bool)
    requires
        forall|j: int| 0 <= j < s.len() ==> #[trigger] q(s[j]),
    ensures
        forall|j: int| 0 <= j < s.filter(pred).len() ==> #[trigger] q(s.filter(pred)[j]),
    decreases s.len(),
{
    reveal(Seq::filter);
    if s.len() > 0 {
        let t = s.drop_last();
        assert forall|j: int| 0 <= j < t.len() implies #[trigger] q(t[j]) by {
            assert(t[j] == s[j]);
        }
        lemma_filter_preserves(t, pred, q);
        assert(q(s[s.len() - 1]));
        assert(s.last() == s[s.len() - 1]);
        let ft = t.filter(pred);
        assert forall|j: int| 0 <= j < s.filter(pred).len() implies #[trigger] q(s.filter(pred)[j]) by {
            if pred(s.last()) {
                assert(s.filter(pred) == ft.push(s.last()));
                if j < ft.len() {
                    assert(s.filter(pred)[j] == ft[j]);
                }
            } else {
                assert(s.filter(pred) == ft);
            }
        }
    }
}

} // verus!
