use std::rc::Rc;
use vstd::laws_eq::obeys_concrete_eq;
use vstd::prelude::*;
use vstd::std_specs::cmp::PartialEqSpec;

verus! {

/// A persistent multi-map from paths of labels to buckets of values. Each node holds the
/// bucket of the path that ends there and its edges to child nodes; the children are shared
/// between versions.
pub struct Trie<L = u8, U = bool> {
    value: Vec<Rc<U>>,
    nodes: Vec<(L, Rc<Trie<L, U>>)>,
}

/// The position of the first occurrence of `l` in `ls`, or `ls.len()` where there is none.
spec fn first_index<L>(ls: Seq<L>, l: L) -> int
    decreases ls.len(),
{
    if ls.len() == 0 {
        0
    } else if ls[0] == l {
        0
    } else {
        1 + first_index(ls.drop_first(), l)
    }
}

/// The entries that `remove_store` keeps when it removes those equal to `probe`.
pub open spec fn keeps<U: PartialEq>(probe: U) -> spec_fn(U) -> bool {
    |x: U| !x.eq_spec(&probe)
}

/// Whether some entry of `s` equals `probe`.
pub open spec fn holds_equal<U: PartialEq>(s: Seq<U>, probe: U) -> bool {
    exists|i: int| 0 <= i < s.len() && #[trigger] s[i].eq_spec(&probe)
}

spec fn labels<L, U>(nodes: Seq<(L, Rc<Trie<L, U>>)>) -> Seq<L> {
    nodes.map_values(|e: (L, Rc<Trie<L, U>>)| e.0)
}

proof fn lemma_first_index<L>(ls: Seq<L>, l: L)
    ensures
        0 <= first_index(ls, l) <= ls.len(),
        first_index(ls, l) < ls.len() ==> ls[first_index(ls, l)] == l,
        forall|j: int| 0 <= j < first_index(ls, l) ==> ls[j] != l,
    decreases ls.len(),
{
    if ls.len() > 0 && ls[0] != l {
        lemma_first_index(ls.drop_first(), l);
        assert forall|j: int| 0 <= j < first_index(ls, l) implies ls[j] != l by {
            if j > 0 {
                assert(ls[j] == ls.drop_first()[j - 1]);
            }
        }
    }
}

proof fn lemma_first_index_at<L>(ls: Seq<L>, l: L, i: int)
    requires
        0 <= i <= ls.len(),
        i < ls.len() ==> ls[i] == l,
        forall|j: int| 0 <= j < i ==> ls[j] != l,
    ensures
        first_index(ls, l) == i,
{
    lemma_first_index(ls, l);
}

impl<L, U> View for Trie<L, U> {
    type V = Map<Seq<L>, Seq<U>>;

    /// The bucket of every path; empty where no node lies at the path.
    closed spec fn view(&self) -> Map<Seq<L>, Seq<U>> {
        Map::new(|p: Seq<L>| true, |p: Seq<L>| self.store(p))
    }
}

/// The buckets after `v` is appended to the bucket at `p`.
pub open spec fn inserted<L, U>(m: Map<Seq<L>, Seq<U>>, p: Seq<L>, v: U) -> Map<Seq<L>, Seq<U>> {
    m.insert(p, m[p].push(v))
}

/// The buckets after the entries equal to `probe` leave the bucket at `p`.
pub open spec fn removed<L, U: PartialEq>(m: Map<Seq<L>, Seq<U>>, p: Seq<L>, probe: U) -> Map<Seq<L>, Seq<U>> {
    m.insert(p, m[p].filter(keeps(probe)))
}

/// A map that gives every path a bucket.
pub open spec fn is_total<L, U>(m: Map<Seq<L>, Seq<U>>) -> bool {
    forall|p: Seq<L>| #[trigger] m.contains_key(p)
}

impl<L, U> Trie<L, U> {
    /// The bucket stored at path `p`: empty where no node lies at `p`.
    spec fn store(self, p: Seq<L>) -> Seq<U>
        decreases p.len(),
    {
        if p.len() == 0 {
            self.value@.map_values(|v: Rc<U>| *v)
        } else {
            let i = first_index(labels(self.nodes@), p[0]);
            if i < self.nodes@.len() {
                self.nodes@[i].1.store(p.drop_first())
            } else {
                Seq::empty()
            }
        }
    }
}

fn share_values<U>(value: &Vec<Rc<U>>) -> (r: Vec<Rc<U>>)
    ensures
        r@ == value@,
{
    let mut r: Vec<Rc<U>> = Vec::new();
    let mut i: usize = 0;
    while i < value.len()
        invariant
            i <= value@.len(),
            r@ == value@.subrange(0, i as int),
        decreases value@.len() - i,
    {
        r.push(value[i].clone());
        i = i + 1;
        proof { assert(r@ =~= value@.subrange(0, i as int)); }
    }
    proof { assert(r@ =~= value@); }
    r
}

/// The edges of `nodes`, pointing at the same children.
fn share_edges<L: Copy, U>(nodes: &Vec<(L, Rc<Trie<L, U>>)>) -> (r: Vec<(L, Rc<Trie<L, U>>)>)
    ensures
        r@ == nodes@,
{
    let mut r: Vec<(L, Rc<Trie<L, U>>)> = Vec::new();
    let mut i: usize = 0;
    while i < nodes.len()
        invariant
            i <= nodes@.len(),
            r@ == nodes@.subrange(0, i as int),
        decreases nodes@.len() - i,
    {
        r.push((nodes[i].0, nodes[i].1.clone()));
        i = i + 1;
        proof { assert(r@ =~= nodes@.subrange(0, i as int)); }
    }
    proof { assert(r@ =~= nodes@); }
    r
}

/// The edges of `nodes` with the child of edge `idx` replaced by `child`.
fn replace_edge<L: Copy, U>(nodes: &Vec<(L, Rc<Trie<L, U>>)>, idx: usize, child: &Rc<Trie<L, U>>) -> (r: Vec<(L, Rc<Trie<L, U>>)>)
    requires
        idx < nodes@.len(),
    ensures
        r@ == nodes@.update(idx as int, (nodes@[idx as int].0, *child)),
{
    let mut r: Vec<(L, Rc<Trie<L, U>>)> = Vec::new();
    let mut i: usize = 0;
    let ghost target = nodes@.update(idx as int, (nodes@[idx as int].0, *child));
    while i < nodes.len()
        invariant
            i <= nodes@.len(),
            idx < nodes@.len(),
            target == nodes@.update(idx as int, (nodes@[idx as int].0, *child)),
            r@ == target.subrange(0, i as int),
        decreases nodes@.len() - i,
    {
        let label = nodes[i].0;
        if i == idx {
            r.push((label, child.clone()));
        } else {
            r.push((label, nodes[i].1.clone()));
        }
        i = i + 1;
        proof { assert(r@ =~= target.subrange(0, i as int)); }
    }
    proof { assert(r@ =~= target); }
    r
}

/// The index of the first edge labelled `l`, or the number of edges where there is none.
fn find_edge<L: PartialEq + Copy, U>(nodes: &Vec<(L, Rc<Trie<L, U>>)>, l: L) -> (r: usize)
    requires
        obeys_concrete_eq::<L>(),
    ensures
        r == first_index(labels(nodes@), l),
{
    proof { reveal(obeys_concrete_eq); }
    let ghost ls = labels(nodes@);
    let mut i: usize = 0;
    while i < nodes.len()
        invariant
            i <= nodes@.len(),
            ls == labels(nodes@),
            L::obeys_eq_spec(),
            forall|x: L, y: L| x.eq_spec(&y) <==> (x == y),
            forall|j: int| 0 <= j < i ==> ls[j] != l,
        decreases nodes@.len() - i,
    {
        if nodes[i].0 == l {
            proof { lemma_first_index_at(ls, l, i as int); }
            return i;
        }
        i = i + 1;
    }
    proof { lemma_first_index_at(ls, l, i as int); }
    i
}

impl<L: PartialEq + Copy, U: PartialEq> Trie<L, U> {
    pub fn new() -> (r: Self)
        ensures
            r@ == Map::new(|p: Seq<L>| true, |p: Seq<L>| Seq::<U>::empty()),
    {
        let r = Self::empty();
        proof { assert(r@ =~= Map::new(|p: Seq<L>| true, |p: Seq<L>| Seq::<U>::empty())); }
        r
    }

    fn empty() -> (r: Self)
        ensures
            forall|p: Seq<L>| #[trigger] r.store(p) == Seq::<U>::empty(),
    {
        let r = Trie { value: Vec::new(), nodes: Vec::new() };
        proof {
            assert forall|p: Seq<L>| #[trigger] r.store(p) == Seq::<U>::empty() by {
                if p.len() == 0 {
                    assert(r.store(p) =~= Seq::<U>::empty());
                }
            }
        }
        r
    }

    fn insert_from(&self, key: &[L], start: usize, store: U) -> (r: Self)
        requires
            start <= key@.len(),
            obeys_concrete_eq::<L>(),
        ensures
            forall|q: Seq<L>| #[trigger] r.store(q) == if q == key@.subrange(start as int, key@.len() as int) {
                self.store(q).push(store)
            } else {
                self.store(q)
            },
        decreases key@.len() - start,
    {
        let ghost path = key@.subrange(start as int, key@.len() as int);
        let mut value = share_values(&self.value);
        if start == key.len() {
            value.push(Rc::new(store));
            let nodes = share_edges(&self.nodes);
            let r = Trie { value, nodes };
            proof {
                assert(path.len() == 0);
                assert forall|q: Seq<L>| #[trigger] r.store(q) == if q == path {
                    self.store(q).push(store)
                } else {
                    self.store(q)
                } by {
                    if q.len() == 0 {
                        assert(q =~= path);
                        assert(r.store(q) =~= self.store(q).push(store));
                    } else {
                        assert(labels(r.nodes@) == labels(self.nodes@));
                    }
                }
            }
            return r;
        }
        let head = key[start];
        let idx = find_edge(&self.nodes, head);
        proof { lemma_first_index(labels(self.nodes@), head); }
        let r = if idx < self.nodes.len() {
            let child = Rc::new(self.nodes[idx].1.insert_from(key, start + 1, store));
            let nodes = replace_edge(&self.nodes, idx, &child);
            Trie { value, nodes }
        } else {
            let child = Rc::new(Trie::empty().insert_from(key, start + 1, store));
            let mut nodes = share_edges(&self.nodes);
            nodes.push((head, child));
            Trie { value, nodes }
        };
        proof {
            let rest = key@.subrange(start + 1, key@.len() as int);
            assert(path =~= seq![head] + rest);
            assert forall|q: Seq<L>| #[trigger] r.store(q) == if q == path {
                self.store(q).push(store)
            } else {
                self.store(q)
            } by {
                if q.len() > 0 {
                    let ls = labels(self.nodes@);
                    let rs = labels(r.nodes@);
                    lemma_first_index(ls, q[0]);
                    assert(path[0] == head);
                    assert(path.drop_first() =~= rest);
                    assert(q == path <==> (q[0] == head && q.drop_first() == rest)) by {
                        if q[0] == head && q.drop_first() == rest {
                            assert(q =~= path);
                        }
                    }
                    let si = first_index(ls, q[0]);
                    if idx < self.nodes@.len() {
                        assert(rs =~= ls);
                        assert(si == idx <==> q[0] == head);
                        if si == idx {
                            assert(r.store(q) == r.nodes@[idx as int].1.store(q.drop_first()));
                            assert(self.store(q) == self.nodes@[idx as int].1.store(q.drop_first()));
                            assert(r.store(q) == if q == path { self.store(q).push(store) } else { self.store(q) });
                        } else if si < ls.len() {
                            assert(r.nodes@[si] == self.nodes@[si]);
                            assert(r.store(q) == self.store(q));
                        } else {
                            assert(r.store(q) == self.store(q));
                        }
                    } else {
                        assert(rs =~= ls.push(head));
                        if si < ls.len() {
                            lemma_first_index_at(rs, q[0], si);
                            assert(q[0] != head);
                            assert(r.nodes@[si] == self.nodes@[si]);
                            assert(r.store(q) == self.store(q));
                        } else if q[0] == head {
                            lemma_first_index_at(rs, q[0], ls.len() as int);
                            assert(self.store(q) == Seq::<U>::empty());
                            assert(r.store(q) == r.nodes@[si].1.store(q.drop_first()));
                            assert(r.store(q) == if q == path { self.store(q).push(store) } else { self.store(q) });
                        } else {
                            lemma_first_index_at(rs, q[0], rs.len() as int);
                            assert(r.store(q) == self.store(q));
                        }
                    }
                } else {
                    assert(r.store(q) =~= self.store(q));
                }
            }
        }
        r
    }

    /// A new version with `store` appended to the bucket at path `key`; only the nodes along
    /// the path are copied.
    pub fn insert_store(&self, key: &[L], store: U) -> (r: Self)
        requires
            obeys_concrete_eq::<L>(),
        ensures
            is_total(self@),
            r@ == inserted(self@, key@, store),
    {
        let r = self.insert_from(key, 0, store);
        proof {
            assert(key@.subrange(0, key@.len() as int) =~= key@);
            assert(r@ =~= inserted(self@, key@, store));
        }
        r
    }
}

impl<L: PartialEq + Copy, U: PartialEq> Trie<L, U> {
    fn get_from(&self, key: &[L], start: usize) -> (r: Option<Vec<&U>>)
        requires
            start <= key@.len(),
            obeys_concrete_eq::<L>(),
        ensures
            r is Some <==> self.store(key@.subrange(start as int, key@.len() as int)).len() > 0,
            r matches Some(v) ==> v@.map_values(|x: &U| *x) == self.store(key@.subrange(start as int, key@.len() as int)),
        decreases key@.len() - start,
    {
        let ghost path = key@.subrange(start as int, key@.len() as int);
        if start == key.len() {
            let mut vr: Vec<&U> = Vec::new();
            let mut i: usize = 0;
            while i < self.value.len()
                invariant
                    i <= self.value@.len(),
                    vr@.len() == i,
                    forall|j: int| 0 <= j < i ==> *vr@[j] == *self.value@[j],
                decreases self.value@.len() - i,
            {
                let rc: &Rc<U> = &self.value[i];
                vr.push(&**rc);
                i = i + 1;
            }
            proof {
                assert(path.len() == 0);
                assert(vr@.map_values(|x: &U| *x) =~= self.store(path));
            }
            if vr.len() == 0 {
                return None;
            }
            return Some(vr);
        }
        let head = key[start];
        let idx = find_edge(&self.nodes, head);
        proof {
            assert(path[0] == head);
            assert(path.drop_first() =~= key@.subrange(start + 1, key@.len() as int));
        }
        if idx < self.nodes.len() {
            self.nodes[idx].1.get_from(key, start + 1)
        } else {
            None
        }
    }

    /// The bucket at path `key`, in the order of insertion; `None` where it is empty or no
    /// node lies at `key`.
    pub fn get_store(&self, key: &[L]) -> (r: Option<Vec<&U>>)
        requires
            obeys_concrete_eq::<L>(),
        ensures
            is_total(self@),
            r is Some <==> self@[key@].len() > 0,
            r matches Some(v) ==> v@.map_values(|x: &U| *x) == self@[key@],
    {
        proof { assert(key@.subrange(0, key@.len() as int) =~= key@); }
        self.get_from(key, 0)
    }
}

impl<L: PartialEq + Copy, U: PartialEq> Trie<L, U> {
    fn remove_from(&self, key: &[L], start: usize, probe: &U) -> (r: Option<Self>)
        requires
            start <= key@.len(),
            obeys_concrete_eq::<L>(),
            U::obeys_eq_spec(),
        ensures
            r is None <==> !holds_equal(self.store(key@.subrange(start as int, key@.len() as int)), *probe),
            r matches Some(t) ==> forall|q: Seq<L>| #[trigger] t.store(q) == if q == key@.subrange(start as int, key@.len() as int) {
                self.store(q).filter(keeps(*probe))
            } else {
                self.store(q)
            },
        decreases key@.len() - start,
    {
        let ghost path = key@.subrange(start as int, key@.len() as int);
        if start == key.len() {
            let ghost s = self.store(path);
            let mut kept: Vec<Rc<U>> = Vec::new();
            let mut i: usize = 0;
            proof {
                assert(path.len() == 0);
                reveal(Seq::filter);
                assert(s.subrange(0, 0).filter(keeps(*probe)) =~= Seq::<U>::empty());
            }
            while i < self.value.len()
                invariant
                    i <= self.value@.len(),
                    s == self.value@.map_values(|v: Rc<U>| *v),
                    U::obeys_eq_spec(),
                    kept@.map_values(|v: Rc<U>| *v) == s.subrange(0, i as int).filter(keeps(*probe)),
                    kept@.len() <= i,
                    kept@.len() == i <==> !holds_equal(s.subrange(0, i as int), *probe),
                decreases self.value@.len() - i,
            {
                let ghost before = kept@;
                let rc: &Rc<U> = &self.value[i];
                proof {
                    reveal(Seq::filter);
                    assert(s.subrange(0, i + 1).drop_last() =~= s.subrange(0, i as int));
                    assert(s.subrange(0, i + 1).last() == **rc);
                }
                if **rc != *probe {
                    kept.push(rc.clone());
                    proof {
                        assert(kept@.map_values(|v: Rc<U>| *v) =~= before.map_values(|v: Rc<U>| *v).push(**rc));
                        assert(holds_equal(s.subrange(0, i + 1), *probe) ==> holds_equal(s.subrange(0, i as int), *probe)) by {
                            if holds_equal(s.subrange(0, i + 1), *probe) {
                                let j = choose|j: int| 0 <= j < i + 1 && #[trigger] s.subrange(0, i + 1)[j].eq_spec(probe);
                                assert(s.subrange(0, i as int)[j] == s.subrange(0, i + 1)[j]);
                            }
                        }
                        assert(holds_equal(s.subrange(0, i as int), *probe) ==> holds_equal(s.subrange(0, i + 1), *probe)) by {
                            if holds_equal(s.subrange(0, i as int), *probe) {
                                let j = choose|j: int| 0 <= j < i && #[trigger] s.subrange(0, i as int)[j].eq_spec(probe);
                                assert(s.subrange(0, i as int)[j] == s.subrange(0, i + 1)[j]);
                            }
                        }
                    }
                } else {
                    proof {
                        assert(s.subrange(0, i + 1)[i as int].eq_spec(probe));
                    }
                }
                i = i + 1;
            }
            proof { assert(s.subrange(0, i as int) =~= s); }
            if kept.len() == self.value.len() {
                return None;
            }
            let nodes = share_edges(&self.nodes);
            let r = Trie { value: kept, nodes };
            proof {
                assert forall|q: Seq<L>| #[trigger] r.store(q) == if q == path {
                    self.store(q).filter(keeps(*probe))
                } else {
                    self.store(q)
                } by {
                    if q.len() == 0 {
                        assert(q =~= path);
                    } else {
                        assert(labels(r.nodes@) == labels(self.nodes@));
                    }
                }
            }
            return Some(r);
        }
        let head = key[start];
        let idx = find_edge(&self.nodes, head);
        proof {
            lemma_first_index(labels(self.nodes@), head);
            assert(path[0] == head);
            assert(path.drop_first() =~= key@.subrange(start + 1, key@.len() as int));
        }
        if idx >= self.nodes.len() {
            return None;
        }
        let sub = self.nodes[idx].1.remove_from(key, start + 1, probe);
        match sub {
            None => None,
            Some(t) => {
                let value = share_values(&self.value);
                let child = Rc::new(t);
                let nodes = replace_edge(&self.nodes, idx, &child);
                let r = Trie { value, nodes };
                proof {
                    let rest = key@.subrange(start + 1, key@.len() as int);
                    assert(path =~= seq![head] + rest);
                    assert forall|q: Seq<L>| #[trigger] r.store(q) == if q == path {
                        self.store(q).filter(keeps(*probe))
                    } else {
                        self.store(q)
                    } by {
                        if q.len() > 0 {
                            let ls = labels(self.nodes@);
                            assert(labels(r.nodes@) =~= ls);
                            lemma_first_index(ls, q[0]);
                            let si = first_index(ls, q[0]);
                            assert(q == path <==> (q[0] == head && q.drop_first() == rest)) by {
                                if q[0] == head && q.drop_first() == rest {
                                    assert(q =~= seq![head] + rest);
                                }
                            }
                            assert(si == idx <==> q[0] == head);
                            if si == idx {
                                assert(r.store(q) == r.nodes@[idx as int].1.store(q.drop_first()));
                                assert(self.store(q) == self.nodes@[idx as int].1.store(q.drop_first()));
                            } else if si < ls.len() {
                                assert(r.nodes@[si] == self.nodes@[si]);
                                assert(r.store(q) == self.store(q));
                            } else {
                                assert(r.store(q) == self.store(q));
                            }
                        } else {
                            assert(r.store(q) =~= self.store(q));
                        }
                    }
                }
                Some(r)
            },
        }
    }

    /// A new version without any entry equal to `probe` in the bucket at path `key`; `None`
    /// where that bucket holds no such entry. Nodes emptied on the way stay in place.
    pub fn remove_store(&self, key: &[L], probe: &U) -> (r: Option<Self>)
        requires
            obeys_concrete_eq::<L>(),
            U::obeys_eq_spec(),
        ensures
            is_total(self@),
            r is None <==> !holds_equal(self@[key@], *probe),
            r matches Some(t) ==> t@ == removed(self@, key@, *probe),
    {
        proof { assert(key@.subrange(0, key@.len() as int) =~= key@); }
        let r = self.remove_from(key, 0, probe);
        proof {
            if r is Some {
                assert(r->Some_0@ =~= removed(self@, key@, *probe));
            }
        }
        r
    }
}

impl<L: Copy, U> Clone for Trie<L, U> {
    /// Another version with the same buckets, sharing every child node.
    fn clone(&self) -> (r: Self)
        ensures
            r@ == self@,
    {
        let r = Trie {
            value: share_values(&self.value),
            nodes: share_edges(&self.nodes),
        };
        proof {
            assert forall|q: Seq<L>| #[trigger] r.store(q) == self.store(q) by {
                if q.len() == 0 {
                    assert(r.store(q) =~= self.store(q));
                }
            }
            assert(r@ =~= self@);
        }
        r
    }
}

impl<L: PartialEq + Copy, U: PartialEq> Default for Trie<L, U> {
    fn default() -> (r: Self)
        ensures
            r@ == Map::new(|p: Seq<L>| true, |p: Seq<L>| Seq::<U>::empty()),
    {
        Trie::new()
    }
}

/// Membership of paths: a path is present where its bucket holds an entry.
impl<L: PartialEq + Copy> Trie<L> {
    /// A new version in which `value` is present.
    pub fn insert(&self, value: &[L]) -> (r: Self)
        requires
            obeys_concrete_eq::<L>(),
        ensures
            r@ == inserted(self@, value@, true),
    {
        self.insert_store(value, true)
    }

    /// Whether `value` is present.
    pub fn search(&self, value: &[L]) -> (r: bool)
        requires
            obeys_concrete_eq::<L>(),
        ensures
            r == (self@[value@].len() > 0),
    {
        self.get_store(value).is_some()
    }

    /// A new version in which no `true` entry is left at `value`; `None` where there was none.
    pub fn remove(&self, value: &[L]) -> (r: Option<Self>)
        requires
            obeys_concrete_eq::<L>(),
        ensures
            r is None <==> !self@[value@].contains(true),
            r matches Some(t) ==> t@ == removed(self@, value@, true),
    {
        let r = self.remove_store(value, &true);
        proof {
            let b = self@[value@];
            if holds_equal(b, true) {
                let i = choose|i: int| 0 <= i < b.len() && #[trigger] b[i].eq_spec(&true);
                assert(b[i] == true);
            }
            if b.contains(true) {
                let i = choose|i: int| 0 <= i < b.len() && b[i] == true;
                assert(b[i].eq_spec(&true));
            }
        }
        r
    }
}

/// After `v` is stored at path `p`, the bucket at `p` is not empty and holds `v`.
pub proof fn lemma_insert_then_get<L, U>(t: Trie<L, U>, p: Seq<L>, v: U)
    ensures
        inserted(t@, p, v)[p].len() > 0,
        inserted(t@, p, v)[p].contains(v),
{
    let b = inserted(t@, p, v)[p];
    assert(b[b.len() - 1] == v);
}

/// Two values stored one after the other at the same path are both in its bucket.
pub proof fn lemma_two_values_at_one_path<L, U>(t: Trie<L, U>, p: Seq<L>, v1: U, v2: U)
    ensures
        inserted(inserted(t@, p, v1), p, v2)[p].contains(v1),
        inserted(inserted(t@, p, v1), p, v2)[p].contains(v2),
{
    let b = inserted(inserted(t@, p, v1), p, v2)[p];
    assert(b[b.len() - 2] == v1);
    assert(b[b.len() - 1] == v2);
}

/// At a path that held no value, storing `v` and then removing the entries equal to `v`
/// finds `v` to remove and leaves the bucket empty, so that the path reads as absent.
pub proof fn lemma_insert_then_remove<L, U: PartialEq>(t: Trie<L, U>, p: Seq<L>, v: U)
    requires
        t@[p].len() == 0,
        v.eq_spec(&v),
    ensures
        holds_equal(inserted(t@, p, v)[p], v),
        removed(inserted(t@, p, v), p, v)[p].len() == 0,
{
    let b = inserted(t@, p, v)[p];
    assert(b =~= seq![v]);
    assert(b[0].eq_spec(&v));
    reveal(Seq::filter);
    assert(b.drop_last() =~= Seq::<U>::empty());
    assert(Seq::<U>::empty().filter(keeps(v)) == Seq::<U>::empty());
    assert(!keeps(v)(b.last()));
    assert(b.filter(keeps(v)) =~= Seq::<U>::empty());
}

} // verus!
