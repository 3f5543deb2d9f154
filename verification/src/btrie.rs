//! A trie map keyed by sequences of ordered elements.
//!
//! Values are stored at exact key sequences and can be fetched either
//! by their full key or collectively below a key prefix, in ascending
//! key order.  Each node keeps its children sorted by key element, so
//! an in-order walk of a subtree visits the stored values in ascending
//! order of their full keys.

use vstd::prelude::*;

verus! {

use core::cmp::Ordering;
use vstd::laws_cmp::obeys_cmp;
use vstd::laws_eq::obeys_concrete_eq;
use vstd::pervasive::cloned;
use vstd::std_specs::cmp::OrdSpec;
use vstd::std_specs::cmp::PartialOrdSpec;

/// The key element type behaves like a mathematical total order: its
/// `cmp` follows a lawful comparison spec, its equality is plain value
/// equality, and cloning a key element yields the same value.
pub open spec fn key_model<K: Ord + Clone>() -> bool {
    &&& obeys_cmp::<K>()
    &&& obeys_concrete_eq::<K>()
    &&& forall|a: K, b: K| #[trigger] cloned(a, b) ==> b == a
}

/// A trie map with one optional value per node and children sorted by
/// key element.
pub struct BTrieMap<K, V> {
    /// Child subtries, keyed by one key element each, in strictly
    /// ascending key order.
    children: Vec<(K, Box<BTrieMap<K, V>>)>,
    /// The value stored at this node's own key, if any.
    value: Option<V>,
}

impl<K: Ord + Clone, V> BTrieMap<K, V> {
    /// The first child whose key element equals `k`, if any.
    pub closed spec fn spec_find_child(s: Seq<(K, Box<BTrieMap<K, V>>)>, k: K) -> Option<
        Box<BTrieMap<K, V>>,
    >
        decreases s.len(),
    {
        if s.len() == 0 {
            None
        } else if s[0].0 == k {
            Some(s[0].1)
        } else {
            Self::spec_find_child(s.drop_first(), k)
        }
    }

    /// The node reached by walking down `key`, if the whole path exists.
    pub closed spec fn spec_node_at(self, key: Seq<K>) -> Option<BTrieMap<K, V>>
        decreases key.len(),
    {
        if key.len() == 0 {
            Some(self)
        } else {
            match Self::spec_find_child(self.children@, key.first()) {
                Some(c) => c.spec_node_at(key.drop_first()),
                None => None,
            }
        }
    }

    /// The value stored at exactly `key`, if any.
    pub closed spec fn spec_get(self, key: Seq<K>) -> Option<V> {
        match self.spec_node_at(key) {
            Some(t) => t.value,
            None => None,
        }
    }

    /// The values of this node and of the first `j` child subtries, in
    /// traversal order.
    spec fn spec_values_upto(self, j: int) -> Seq<V>
        decreases self, j,
        via Self::spec_values_upto_decreases
    {
        if j <= 0 {
            if self.value is Some {
                seq![self.value.unwrap()]
            } else {
                Seq::empty()
            }
        } else if j <= self.children@.len() {
            self.spec_values_upto(j - 1) + self.children[j - 1].1.spec_values_upto(
                self.children[j - 1].1.children@.len() as int,
            )
        } else {
            self.spec_values_upto(j - 1)
        }
    }

    #[via_fn]
    proof fn spec_values_upto_decreases(self, j: int) {
        broadcast use vstd::std_specs::vec::group_vec_axioms;

        if 0 < j <= self.children@.len() {
            assert(decreases_to!(self => self.children));
            assert(decreases_to!(self.children => self.children[j - 1]));
            assert(decreases_to!(self.children[j - 1] => self.children[j - 1].1));
        }
    }

    /// All values of the subtree rooted here, in ascending full-key
    /// order: the node's own value first, then each child in key order.
    pub closed spec fn spec_values(self) -> Seq<V> {
        self.spec_values_upto(self.children@.len() as int)
    }

    /// The children's key elements are strictly ascending.  The claim
    /// is made under [`key_model`]: without a lawful comparison on `K`
    /// no order of the children can be promised.
    spec fn sorted_children(self) -> bool {
        key_model::<K>() ==> forall|i: int, j: int|
            0 <= i < j < self.children@.len() ==> (#[trigger] self.children@[i].0.cmp_spec(
                &self.children@[j].0,
            )) is Less
    }

    /// Well-formedness of the first `j` children.
    spec fn wf_children(self, j: int) -> bool
        decreases self, j,
        via Self::wf_children_decreases
    {
        j <= 0 || (self.wf_children(j - 1) && (j > self.children@.len() || (self.children[j
            - 1].1.sorted_children() && self.children[j - 1].1.wf_children(
            self.children[j - 1].1.children@.len() as int,
        ))))
    }

    #[via_fn]
    proof fn wf_children_decreases(self, j: int) {
        broadcast use vstd::std_specs::vec::group_vec_axioms;

        if 0 < j <= self.children@.len() {
            assert(decreases_to!(self => self.children));
            assert(decreases_to!(self.children => self.children[j - 1]));
            assert(decreases_to!(self.children[j - 1] => self.children[j - 1].1));
        }
    }

    /// Well-formedness: children are strictly ascending by key element
    /// and recursively well-formed.
    pub closed spec fn wf(self) -> bool {
        &&& self.sorted_children()
        &&& self.wf_children(self.children@.len() as int)
    }
}

impl<K: Ord + Clone, V> Default for BTrieMap<K, V> {
    /// Creates an empty `BTrieMap`.
    fn default() -> (r: Self)
        ensures
            r.wf(),
            forall|q: Seq<K>| r.spec_get(q) is None,
    {
        Self::new()
    }
}

/// Consequences of [`key_model`], spelled out for use in proofs:
/// `cmp_spec` equality is value equality, comparison is antisymmetric
/// and transitive, `cmp` follows `cmp_spec`, and clones equal their
/// originals.
pub proof fn lemma_key_facts<K: Ord + Clone>()
    requires
        key_model::<K>(),
    ensures
        K::obeys_cmp_spec(),
        forall|a: K, b: K| (#[trigger] a.cmp_spec(&b)) is Equal <==> a == b,
        forall|a: K, b: K| (#[trigger] a.cmp_spec(&b)) is Less <==> b.cmp_spec(&a) is Greater,
        forall|a: K, b: K, c: K|
            a.cmp_spec(&b) is Less && #[trigger] b.cmp_spec(&c) is Less ==> #[trigger] a.cmp_spec(
                &c,
            ) is Less,
        forall|a: K, b: K| #[trigger] cloned(a, b) ==> b == a,
{
    reveal(vstd::laws_cmp::obeys_cmp_partial_ord);
    reveal(vstd::laws_cmp::obeys_cmp_ord);
    reveal(vstd::laws_cmp::obeys_partial_cmp_spec_properties);
    reveal(vstd::laws_eq::obeys_concrete_eq);
    assert forall|a: K, b: K| (#[trigger] a.cmp_spec(&b)) is Equal <==> a == b by {
        assert(a.partial_cmp_spec(&b) == Some(a.cmp_spec(&b)));
    }
    assert forall|a: K, b: K| (#[trigger] a.cmp_spec(&b)) is Less <==> b.cmp_spec(&a) is Greater
    by {
        assert(a.partial_cmp_spec(&b) == Some(a.cmp_spec(&b)));
        assert(b.partial_cmp_spec(&a) == Some(b.cmp_spec(&a)));
    }
    assert forall|a: K, b: K, c: K|
        a.cmp_spec(&b) is Less && #[trigger] b.cmp_spec(&c) is Less implies #[trigger] a.cmp_spec(
        &c,
    ) is Less by {
        assert(a.partial_cmp_spec(&b) == Some(a.cmp_spec(&b)));
        assert(b.partial_cmp_spec(&c) == Some(b.cmp_spec(&c)));
        assert(a.partial_cmp_spec(&c) == Some(a.cmp_spec(&c)));
    }
}

/// Two non-empty sequences with equal heads and equal tails are equal.
proof fn lemma_eq_by_head_tail<A>(a: Seq<A>, b: Seq<A>)
    requires
        a.len() > 0,
        b.len() > 0,
        a.first() == b.first(),
        a.drop_first() == b.drop_first(),
    ensures
        a == b,
{
    assert(a =~= seq![a.first()] + a.drop_first());
    assert(b =~= seq![b.first()] + b.drop_first());
}

impl<K: Ord + Clone, V> BTrieMap<K, V> {
    /// If the first match for `k` in `s` is at position `j`, the child
    /// lookup returns that child.
    proof fn lemma_find_child_at(s: Seq<(K, Box<BTrieMap<K, V>>)>, k: K, j: int)
        requires
            0 <= j < s.len(),
            s[j].0 == k,
            forall|l: int| 0 <= l < j ==> (#[trigger] s[l]).0 != k,
        ensures
            Self::spec_find_child(s, k) == Some(s[j].1),
        decreases j,
    {
        if j > 0 {
            Self::lemma_find_child_at(s.drop_first(), k, j - 1);
        }
    }

    /// If no key element of `s` equals `k`, the child lookup fails.
    proof fn lemma_find_child_absent(s: Seq<(K, Box<BTrieMap<K, V>>)>, k: K)
        requires
            forall|l: int| 0 <= l < s.len() ==> (#[trigger] s[l]).0 != k,
        ensures
            Self::spec_find_child(s, k) is None,
        decreases s.len(),
    {
        if s.len() > 0 {
            Self::lemma_find_child_absent(s.drop_first(), k);
        }
    }

    /// Replacing the subtree of the child at position `j` leaves the
    /// lookup of every other key element unchanged.
    proof fn lemma_find_child_update(
        s: Seq<(K, Box<BTrieMap<K, V>>)>,
        s2: Seq<(K, Box<BTrieMap<K, V>>)>,
        j: int,
        k: K,
    )
        requires
            s.len() == s2.len(),
            0 <= j < s.len(),
            forall|l: int| 0 <= l < s.len() ==> (#[trigger] s2[l]).0 == s[l].0,
            forall|l: int| 0 <= l < s.len() && l != j ==> (#[trigger] s2[l]).1 == s[l].1,
            k != s[j].0,
        ensures
            Self::spec_find_child(s2, k) == Self::spec_find_child(s, k),
        decreases s.len(),
    {
        if s.len() > 0 {
            if s[0].0 == k {
            } else {
                if j == 0 {
                    assert(forall|l: int|
                        0 <= l < s.len() - 1 ==> (#[trigger] s2.drop_first()[l]).1
                            == s.drop_first()[l].1);
                    Self::lemma_find_child_same(s.drop_first(), s2.drop_first(), k);
                } else {
                    Self::lemma_find_child_update(s.drop_first(), s2.drop_first(), j - 1, k);
                }
            }
        }
    }

    /// Lookup only depends on the entries themselves.
    proof fn lemma_find_child_same(
        s: Seq<(K, Box<BTrieMap<K, V>>)>,
        s2: Seq<(K, Box<BTrieMap<K, V>>)>,
        k: K,
    )
        requires
            s.len() == s2.len(),
            forall|l: int| 0 <= l < s.len() ==> (#[trigger] s2[l]).0 == s[l].0,
            forall|l: int| 0 <= l < s.len() ==> (#[trigger] s2[l]).1 == s[l].1,
        ensures
            Self::spec_find_child(s2, k) == Self::spec_find_child(s, k),
        decreases s.len(),
    {
        if s.len() > 0 {
            Self::lemma_find_child_same(s.drop_first(), s2.drop_first(), k);
        }
    }

    /// Inserting an entry at position `j` leaves the lookup of every
    /// other key element unchanged, and a key element absent before
    /// the insertion finds exactly the new entry.
    proof fn lemma_find_child_insert(
        s: Seq<(K, Box<BTrieMap<K, V>>)>,
        j: int,
        p: (K, Box<BTrieMap<K, V>>),
        k: K,
    )
        requires
            0 <= j <= s.len(),
        ensures
            k != p.0 ==> Self::spec_find_child(s.insert(j, p), k) == Self::spec_find_child(s, k),
            k == p.0 && (forall|l: int| 0 <= l < s.len() ==> (#[trigger] s[l]).0 != k)
                ==> Self::spec_find_child(s.insert(j, p), k) == Some(p.1),
        decreases j,
    {
        let s2 = s.insert(j, p);
        if j == 0 {
            assert(s2.drop_first() =~= s);
            if s.len() == 0 {
            }
        } else {
            assert(s2[0] == s[0]);
            assert(s2.drop_first() =~= s.drop_first().insert(j - 1, p));
            Self::lemma_find_child_insert(s.drop_first(), j - 1, p, k);
        }
    }

    /// All of the first `m` children of a node satisfying
    /// `wf_children(m)` are well-formed.
    proof fn lemma_wf_children_to_all(self, m: int)
        requires
            self.wf_children(m),
            m <= self.children@.len(),
        ensures
            forall|l: int| 0 <= l < m ==> (#[trigger] self.children@[l]).1.wf(),
        decreases m,
    {
        if m > 0 {
            self.lemma_wf_children_to_all(m - 1);
        }
    }

    /// A node whose first `m` children are each well-formed satisfies
    /// `wf_children(m)`.
    proof fn lemma_all_to_wf_children(self, m: int)
        requires
            m <= self.children@.len(),
            forall|l: int| 0 <= l < m ==> (#[trigger] self.children@[l]).1.wf(),
        ensures
            self.wf_children(m),
        decreases m,
    {
        if m > 0 {
            self.lemma_all_to_wf_children(m - 1);
        }
    }

    /// Creates an empty `BTrieMap`: no value is stored at any key.
    pub fn new() -> (r: Self)
        ensures
            r.wf(),
            forall|q: Seq<K>| r.spec_get(q) is None,
            r.spec_values() == Seq::<V>::empty(),
    {
        let r = BTrieMap { children: Vec::new(), value: None };
        proof {
            assert forall|q: Seq<K>| r.spec_get(q) is None by {
                if q.len() > 0 {
                    assert(Self::spec_find_child(r.children@, q.first()) is None);
                }
            }
            assert(r.spec_values() =~= Seq::<V>::empty());
        }
        r
    }
}

/// Where a probe for a key element ends: at a matching child, or at
/// the position where a child for it would have to be inserted to keep
/// the children sorted.
enum ChildProbe {
    /// A child with the probed key element exists at this position.
    Found(usize),
    /// No child matches; one would belong at this position.
    Vacancy(usize),
}

impl<K: Ord + Clone, V> BTrieMap<K, V> {
    /// Scans the sorted children for the key element `k`.
    fn probe_children(&self, k: &K) -> (r: ChildProbe)
        ensures
            r matches ChildProbe::Found(j) ==> j < self.children@.len(),
            r matches ChildProbe::Vacancy(j) ==> j <= self.children@.len(),
            key_model::<K>() ==> match r {
                ChildProbe::Found(j) => j < self.children@.len() && self.children@[j as int].0
                    == *k && (forall|l: int|
                    0 <= l < j ==> (#[trigger] self.children@[l].0.cmp_spec(k)) is Less),
                ChildProbe::Vacancy(j) => j <= self.children@.len() && (forall|l: int|
                    0 <= l < j ==> (#[trigger] self.children@[l].0.cmp_spec(k)) is Less) && (j
                    < self.children@.len() ==> self.children@[j as int].0.cmp_spec(k) is Greater),
            },
    {
        let mut j: usize = 0;
        while j < self.children.len()
            invariant
                j <= self.children@.len(),
                key_model::<K>() ==> forall|l: int|
                    0 <= l < j ==> (#[trigger] self.children@[l].0.cmp_spec(k)) is Less,
            decreases self.children@.len() - j,
        {
            proof {
                if key_model::<K>() {
                    lemma_key_facts::<K>();
                }
            }
            let pair = &self.children[j];
            match pair.0.cmp(k) {
                Ordering::Less => {
                    j = j + 1;
                },
                Ordering::Equal => {
                    return ChildProbe::Found(j);
                },
                Ordering::Greater => {
                    return ChildProbe::Vacancy(j);
                },
            }
        }
        ChildProbe::Vacancy(j)
    }

    /// Walks down `key` and returns the node at its end, if the whole
    /// path exists.
    fn get_node<'a>(&'a self, key: &[K]) -> (r: Option<&'a Self>)
        requires
            self.wf(),
        ensures
            r matches Some(t) ==> t.wf(),
            key_model::<K>() ==> match r {
                Some(t) => self.spec_node_at(key@) == Some(*t),
                None => self.spec_node_at(key@) is None,
            },
    {
        let mut cur: &Self = self;
        let mut i: usize = 0;
        proof {
            assert(key@.skip(0) =~= key@);
        }
        while i < key.len()
            invariant
                cur.wf(),
                i <= key@.len(),
                key_model::<K>() ==> self.spec_node_at(key@) == cur.spec_node_at(
                    key@.skip(i as int),
                ),
            decreases key@.len() - i,
        {
            match cur.probe_children(&key[i]) {
                ChildProbe::Found(j) => {
                    proof {
                        if key_model::<K>() {
                            lemma_key_facts::<K>();
                            assert forall|l: int| 0 <= l < j implies (#[trigger] cur.children@[l]).0
                                != key@[i as int] by {
                                assert(cur.children@[l].0.cmp_spec(&key@[i as int]) is Less);
                            }
                            Self::lemma_find_child_at(cur.children@, key@[i as int], j as int);
                            assert(key@.skip(i as int).first() == key@[i as int]);
                            assert(key@.skip(i as int).drop_first() =~= key@.skip(i as int + 1));
                        }
                        cur.lemma_wf_children_to_all(cur.children@.len() as int);
                    }
                    let pair = &cur.children[j];
                    cur = &*pair.1;
                    i = i + 1;
                },
                ChildProbe::Vacancy(_) => {
                    proof {
                        if key_model::<K>() {
                            lemma_key_facts::<K>();
                            assert forall|l: int|
                                0 <= l < cur.children@.len() implies (#[trigger] cur.children@[l]).0
                                != key@[i as int] by {
                                let c = cur.children@[l].0.cmp_spec(&key@[i as int]);
                                assert(c is Less || c is Greater);
                            }
                            Self::lemma_find_child_absent(cur.children@, key@[i as int]);
                        }
                    }
                    return None;
                },
            }
        }
        proof {
            assert(key@.skip(i as int) =~= Seq::<K>::empty());
        }
        Some(cur)
    }

    /// Returns the value stored at exactly `key`, if any.
    pub fn get<'a>(&'a self, key: &[K]) -> (r: Option<&'a V>)
        requires
            self.wf(),
        ensures
            key_model::<K>() ==> match r {
                Some(v) => self.spec_get(key@) == Some(*v),
                None => self.spec_get(key@) is None,
            },
    {
        match self.get_node(key) {
            Some(t) => t.value.as_ref(),
            None => None,
        }
    }

    /// Returns `true` if a value is stored at exactly `key`.
    pub fn contains(&self, key: &[K]) -> (r: bool)
        requires
            self.wf(),
        ensures
            key_model::<K>() ==> (r <==> self.spec_get(key@) is Some),
    {
        match self.get(key) {
            Some(_) => true,
            None => false,
        }
    }

    /// Collects all values of the subtree rooted here, in ascending
    /// full-key order.
    fn get_values<'a>(&'a self) -> (r: Vec<&'a V>)
        requires
            self.wf(),
        ensures
            r@.len() == self.spec_values().len(),
            forall|m: int| 0 <= m < r@.len() ==> *(#[trigger] r@[m]) == self.spec_values()[m],
        decreases self,
    {
        broadcast use vstd::std_specs::vec::group_vec_axioms;

        let mut r: Vec<&V> = Vec::new();
        match &self.value {
            Some(v) => {
                r.push(v);
            },
            None => {},
        }
        let mut j: usize = 0;
        while j < self.children.len()
            invariant
                self.wf(),
                j <= self.children@.len(),
                r@.len() == self.spec_values_upto(j as int).len(),
                forall|m: int|
                    0 <= m < r@.len() ==> *(#[trigger] r@[m]) == self.spec_values_upto(
                        j as int,
                    )[m],
            decreases self.children@.len() - j,
        {
            proof {
                self.lemma_wf_children_to_all(self.children@.len() as int);
                assert(decreases_to!(self.children => self.children[j as int]));
            }
            let pair = &self.children[j];
            let mut cv = pair.1.get_values();
            r.append(&mut cv);
            proof {
                assert(self.spec_values_upto(j as int + 1) == self.spec_values_upto(j as int)
                    + self.children@[j as int].1.spec_values());
            }
            j = j + 1;
        }
        r
    }

    /// Stores `value` at the key suffix `key[i..]`, overwriting any
    /// existing value at that exact key and leaving every other key
    /// untouched.
    fn insert_at(&mut self, key: &[K], i: usize, value: V)
        requires
            old(self).wf(),
            i <= key@.len(),
        ensures
            final(self).wf(),
            key_model::<K>() ==> forall|q: Seq<K>| #![trigger final(self).spec_get(q)]
                final(self).spec_get(q) == (if q == key@.skip(i as int) {
                    Some(value)
                } else {
                    old(self).spec_get(q)
                }),
        decreases key@.len() - i,
    {
        broadcast use vstd::std_specs::vec::group_vec_axioms;

        let ghost i0 = i as int;
        let ghost old_children = self.children@;
        let ghost n0 = self.children@.len() as int;
        proof {
            self.lemma_wf_children_to_all(n0);
            if key_model::<K>() {
                lemma_key_facts::<K>();
            }
        }
        if i == key.len() {
            self.value = Some(value);
            proof {
                self.lemma_all_to_wf_children(n0);
                assert(key@.skip(i0) =~= Seq::<K>::empty());
                if key_model::<K>() {
                    assert forall|q: Seq<K>| #![trigger self.spec_get(q)] self.spec_get(q) == (
                    if q == key@.skip(i0) {
                        Some(value)
                    } else {
                        old(self).spec_get(q)
                    }) by {
                        if q.len() == 0 {
                            assert(q =~= key@.skip(i0));
                        } else {
                            assert(self.spec_node_at(q) == old(self).spec_node_at(q));
                        }
                    }
                }
            }
            return;
        }
        match self.probe_children(&key[i]) {
            ChildProbe::Found(j) => {
                let ghost j0 = j as int;
                let pair = &mut self.children[j];
                pair.1.insert_at(key, i + 1, value);
                proof {
                    let ch = self.children@;
                    assert(ch == old_children.update(j0, ch[j0]));
                    assert(ch[j0].0 == old_children[j0].0);
                    assert forall|l: int| 0 <= l < n0 implies (#[trigger] ch[l]).0
                        == old_children[l].0 by {}
                    assert forall|l: int| 0 <= l < n0 && l != j0 implies (#[trigger] ch[l]).1
                        == old_children[l].1 by {}
                    assert forall|l: int| 0 <= l < n0 implies (#[trigger] ch[l]).1.wf() by {
                        if l != j0 {
                            assert(old_children[l].1.wf());
                        }
                    }
                    self.lemma_all_to_wf_children(n0);
                    assert(self.wf());
                    if key_model::<K>() {
                        let ki = key@[i0];
                        assert forall|l: int| 0 <= l < j0 implies (#[trigger] old_children[l]).0
                            != ki by {
                            assert(old_children[l].0.cmp_spec(&ki) is Less);
                        }
                        assert(key@.skip(i0).len() > 0);
                        assert(key@.skip(i0).first() == key@[i0]);
                        assert(key@.skip(i0).drop_first() =~= key@.skip(i0 + 1));
                        assert forall|q: Seq<K>| #![trigger self.spec_get(q)] self.spec_get(q)
                            == (if q == key@.skip(i0) {
                            Some(value)
                        } else {
                            old(self).spec_get(q)
                        }) by {
                            if q.len() == 0 {
                                assert(q != key@.skip(i0));
                            } else {
                                let k0 = q.first();
                                if k0 == ki {
                                    Self::lemma_find_child_at(ch, k0, j0);
                                    Self::lemma_find_child_at(old_children, k0, j0);
                                    assert(self.spec_get(q) == ch[j0].1.spec_get(q.drop_first()));
                                    assert(old(self).spec_get(q) == old_children[j0].1.spec_get(
                                        q.drop_first(),
                                    ));
                                    if q.drop_first() == key@.skip(i0 + 1) {
                                        lemma_eq_by_head_tail(q, key@.skip(i0));
                                    } else {
                                        assert(q != key@.skip(i0));
                                    }
                                } else {
                                    Self::lemma_find_child_update(old_children, ch, j0, k0);
                                    assert(self.spec_node_at(q) == old(self).spec_node_at(q));
                                    assert(q != key@.skip(i0));
                                }
                            }
                        }
                    }
                }
            },
            ChildProbe::Vacancy(j) => {
                let ghost j0 = j as int;
                let mut node = BTrieMap { children: Vec::new(), value: Some(value) };
                proof {
                    node.lemma_all_to_wf_children(0);
                    if key_model::<K>() {
                        assert forall|q: Seq<K>| #![trigger node.spec_get(q)] node.spec_get(q)
                            == (if q == key@.skip(key@.len() as int) {
                            Some(value)
                        } else {
                            None::<V>
                        }) by {
                            assert(key@.skip(key@.len() as int) =~= Seq::<K>::empty());
                            if q.len() == 0 {
                                assert(q =~= key@.skip(key@.len() as int));
                            } else {
                                assert(Self::spec_find_child(node.children@, q.first()) is None);
                            }
                        }
                    }
                }
                let mut t = key.len();
                while t > i + 1
                    invariant
                        i + 1 <= t <= key@.len(),
                        i0 == i as int,
                        node.wf(),
                        key_model::<K>() ==> forall|q: Seq<K>| #![trigger node.spec_get(q)]
                            node.spec_get(q) == (if q == key@.skip(t as int) {
                                Some(value)
                            } else {
                                None::<V>
                            }),
                    decreases t - i,
                {
                    t = t - 1;
                    let kt = key[t].clone();
                    let mut cvec: Vec<(K, Box<BTrieMap<K, V>>)> = Vec::new();
                    cvec.push((kt, Box::new(node)));
                    let inner = BTrieMap { children: cvec, value: None };
                    proof {
                        assert(inner.children@[0].1.wf());
                        inner.lemma_all_to_wf_children(1);
                        if key_model::<K>() {
                            lemma_key_facts::<K>();
                            assert(cloned(key@[t as int], kt));
                            assert(kt == key@[t as int]);
                            assert forall|q: Seq<K>| #![trigger inner.spec_get(q)] inner.spec_get(
                                q,
                            ) == (if q == key@.skip(t as int) {
                                Some(value)
                            } else {
                                None::<V>
                            }) by {
                                assert(key@.skip(t as int).len() > 0);
                                assert(key@.skip(t as int).first() == key@[t as int]);
                                assert(key@.skip(t as int).drop_first() =~= key@.skip(
                                    t as int + 1,
                                ));
                                if q.len() > 0 {
                                    if q.first() == key@[t as int] {
                                        assert(inner.spec_get(q) == inner.children@[0].1.spec_get(
                                            q.drop_first(),
                                        ));
                                        if q.drop_first() == key@.skip(t as int + 1) {
                                            lemma_eq_by_head_tail(q, key@.skip(t as int));
                                        } else {
                                            assert(q != key@.skip(t as int));
                                        }
                                    } else {
                                        assert(inner.children@.drop_first() =~= Seq::<(
                                            K,
                                            Box<BTrieMap<K, V>>,
                                        )>::empty());
                                        assert(Self::spec_find_child(
                                            inner.children@.drop_first(),
                                            q.first(),
                                        ) is None);
                                        assert(q != key@.skip(t as int));
                                    }
                                }
                            }
                        }
                    }
                    node = inner;
                }
                let ki = key[i].clone();
                self.children.insert(j, (ki, Box::new(node)));
                proof {
                    let ch = self.children@;
                    let newpair = (ki, ch[j0].1);
                    assert(ch =~= old_children.insert(j0, newpair));
                    assert forall|l: int| 0 <= l < ch.len() implies (#[trigger] ch[l]).1.wf() by {
                        if l < j0 {
                            assert(ch[l] == old_children[l]);
                        } else if l > j0 {
                            assert(ch[l] == old_children[l - 1]);
                        } else {
                            assert(ch[l].1 == newpair.1);
                        }
                    }
                    self.lemma_all_to_wf_children(ch.len() as int);
                    if key_model::<K>() {
                        let kk = key@[i0];
                        assert(cloned(kk, ki));
                        assert(ki == kk);
                        assert(key@.skip(i0).len() > 0);
                        assert(key@.skip(i0).first() == kk);
                        assert(key@.skip(i0).drop_first() =~= key@.skip(i0 + 1));
                        assert forall|l: int| 0 <= l < n0 implies (#[trigger] old_children[l]).0
                            != kk by {
                            if l < j0 {
                                assert(old_children[l].0.cmp_spec(&kk) is Less);
                            } else {
                                if l > j0 {
                                    assert(old_children[j0].0.cmp_spec(&old_children[l].0)
                                        is Less);
                                    assert(kk.cmp_spec(&old_children[j0].0) is Less);
                                }
                                assert(kk.cmp_spec(&old_children[l].0) is Less);
                            }
                        }
                        // the children stay strictly ascending around the new entry
                        assert forall|a: int, b: int| 0 <= a < b < ch.len() implies (
                        #[trigger] ch[a].0.cmp_spec(&ch[b].0)) is Less by {
                            if b < j0 {
                                assert(ch[a] == old_children[a] && ch[b] == old_children[b]);
                            } else if a > j0 {
                                assert(ch[a] == old_children[a - 1] && ch[b] == old_children[b
                                    - 1]);
                            } else if a < j0 && b == j0 {
                                assert(ch[a] == old_children[a]);
                                assert(old_children[a].0.cmp_spec(&kk) is Less);
                            } else if a == j0 {
                                assert(ch[b] == old_children[b - 1]);
                                assert(kk.cmp_spec(&old_children[b - 1].0) is Less);
                            } else {
                                assert(ch[a] == old_children[a] && ch[b] == old_children[b - 1]);
                            }
                        }
                        assert(self.wf());
                        assert forall|q: Seq<K>| #![trigger self.spec_get(q)] self.spec_get(q)
                            == (if q == key@.skip(i0) {
                            Some(value)
                        } else {
                            old(self).spec_get(q)
                        }) by {
                            if q.len() == 0 {
                                assert(q != key@.skip(i0));
                            } else {
                                let k0 = q.first();
                                Self::lemma_find_child_insert(old_children, j0, newpair, k0);
                                if k0 == kk {
                                    Self::lemma_find_child_absent(old_children, k0);
                                    assert(self.spec_get(q) == ch[j0].1.spec_get(q.drop_first()));
                                    assert(old(self).spec_get(q) is None);
                                    if q.drop_first() == key@.skip(i0 + 1) {
                                        lemma_eq_by_head_tail(q, key@.skip(i0));
                                    } else {
                                        assert(q != key@.skip(i0));
                                    }
                                } else {
                                    assert(self.spec_node_at(q) == old(self).spec_node_at(q));
                                    assert(q != key@.skip(i0));
                                }
                            }
                        }
                    }
                }
            },
        }
    }

    /// Stores `value` at exactly `key`, overwriting any existing value
    /// there and leaving every other key untouched.
    pub fn insert(&mut self, key: &[K], value: V)
        requires
            old(self).wf(),
        ensures
            final(self).wf(),
            key_model::<K>() ==> forall|q: Seq<K>| #![trigger final(self).spec_get(q)]
                final(self).spec_get(q) == (if q == key@ {
                    Some(value)
                } else {
                    old(self).spec_get(q)
                }),
    {
        self.insert_at(key, 0, value);
        proof {
            assert(key@.skip(0) =~= key@);
        }
    }

    /// Returns all values stored at keys beginning with `prefix`, in
    /// ascending key order.
    pub fn get_with_prefix<'a>(&'a self, prefix: &[K]) -> (r: Vec<&'a V>)
        requires
            self.wf(),
        ensures
            key_model::<K>() ==> match self.spec_node_at(prefix@) {
                Some(t) => r@.len() == t.spec_values().len() && (forall|m: int|
                    0 <= m < r@.len() ==> *(#[trigger] r@[m]) == t.spec_values()[m]),
                None => r@.len() == 0,
            },
    {
        match self.get_node(prefix) {
            Some(t) => t.get_values(),
            None => Vec::new(),
        }
    }
}

} // verus!
