//! A doubly linked sequence container with XOR-compressed links.
//!
//! Every node stores one element together with a single link word: the
//! bitwise XOR of the identities of its two neighbours, where the sentinel
//! identity [`NIL`] stands for "no neighbour".  A link word can only be
//! decoded relative to one already-known neighbour, so every traversal and
//! every mutation carries that direction context along.
//!
//! Nodes live in a growable arena owned by the container; a node's identity
//! is its arena slot index, and freed slots are kept on a free list for
//! reuse.

use vstd::prelude::*;

verus! {

use core::cmp::Ordering;
use vstd::std_specs::cmp::PartialEqSpec;
use vstd::std_specs::cmp::PartialOrdSpec;

/// Lexicographic comparison of two element sequences by elementwise
/// order, in traversal order.
pub open spec fn lex_cmp_seq<T: PartialOrd>(a: Seq<T>, b: Seq<T>) -> Option<Ordering>
    decreases a.len(),
{
    if a.len() == 0 && b.len() == 0 {
        Some(Ordering::Equal)
    } else if a.len() == 0 {
        Some(Ordering::Less)
    } else if b.len() == 0 {
        Some(Ordering::Greater)
    } else {
        match a.first().partial_cmp_spec(&b.first()) {
            Some(Ordering::Equal) => lex_cmp_seq(a.drop_first(), b.drop_first()),
            o => o,
        }
    }
}

/// Sentinel identity meaning "no neighbour" in a link word.
pub const NIL: usize = usize::MAX;

/// A double-ended sequence container storing one XOR link word per node.
///
/// Viewed abstractly (`self@`) it is the sequence of its elements from
/// front to back.
pub struct XorLinkedList<T> {
    /// Link word of each arena slot: XOR of the two neighbour identities.
    links: Vec<usize>,
    /// Element of each arena slot; `None` marks a free slot.
    datas: Vec<Option<T>>,
    /// Stack of free arena slots, available for reuse.
    free: Vec<usize>,
    /// Identity of the first node, or `NIL` when empty.
    head: usize,
    /// Identity of the last node, or `NIL` when empty.
    tail: usize,
    /// Number of live nodes.
    len: usize,
    /// Arena slots of the live nodes, in sequence order (ghost).
    order: Ghost<Seq<usize>>,
}

/// The free list `free` holds exactly valid, vacant, pairwise distinct
/// arena slots of `datas`.
pub(crate) open spec fn free_list_inv<T>(free: Seq<usize>, datas: Seq<Option<T>>) -> bool {
    &&& forall|k: int| 0 <= k < free.len() ==> (#[trigger] free[k]) < datas.len()
    &&& forall|k: int| 0 <= k < free.len() ==> datas[(#[trigger] free[k]) as int] is None
    &&& forall|k: int, l: int|
        0 <= k < l < free.len() ==> free[k] != free[l]
}

/// XOR decoding: combining a link word `a ^ b` with its second
/// constituent recovers the first.
pub proof fn lemma_xor_cancel_right(a: usize, b: usize)
    by (bit_vector)
    ensures
        (a ^ b) ^ b == a,
{
}

/// XOR decoding: combining a link word `a ^ b` with its first
/// constituent recovers the second.
pub proof fn lemma_xor_cancel_left(a: usize, b: usize)
    by (bit_vector)
    ensures
        (a ^ b) ^ a == b,
{
}

impl<T> XorLinkedList<T> {
    /// Identity of the node at sequence position `i`, or `NIL` when `i`
    /// is outside the sequence (the direction context for decoding).
    pub(crate) closed spec fn pos_ident(self, i: int) -> usize {
        if 0 <= i < self.order@.len() {
            self.order@[i]
        } else {
            NIL
        }
    }

    /// Well-formedness of the representation: the ghost order lists the
    /// live arena slots, link words XOR-encode neighbouring identities,
    /// and the free list accounts for every vacant slot.
    pub closed spec fn wf(self) -> bool {
        let n = self.order@.len() as int;
        &&& self.len == n
        &&& self.links@.len() == self.datas@.len()
        &&& self.free@.len() + n == self.datas@.len()
        &&& self.datas@.len() <= usize::MAX
        &&& forall|i: int| 0 <= i < n ==> (#[trigger] self.order@[i]) < self.datas@.len()
        &&& forall|i: int| 0 <= i < n ==> (#[trigger] self.datas@[self.order@[i] as int]) is Some
        &&& forall|i: int, j: int|
            0 <= i < j < n ==> self.order@[i] != self.order@[j]
        &&& forall|i: int|
            0 <= i < n ==> (#[trigger] self.links@[self.order@[i] as int]) == (self.pos_ident(
                i - 1,
            ) ^ self.pos_ident(i + 1))
        &&& self.head == self.pos_ident(0)
        &&& self.tail == self.pos_ident(n - 1)
        &&& free_list_inv(self.free@, self.datas@)
    }
}

impl<T> Default for XorLinkedList<T> {
    /// Creates an empty `XorLinkedList`.
    fn default() -> (r: Self)
        ensures
            r.wf(),
            r@ == Seq::<T>::empty(),
    {
        Self::new()
    }
}

impl<T> View for XorLinkedList<T> {
    type V = Seq<T>;

    closed spec fn view(&self) -> Seq<T> {
        Seq::new(self.order@.len(), |i: int| self.datas@[self.order@[i] as int].unwrap())
    }
}

impl<T> XorLinkedList<T> {
    /// Creates an empty `XorLinkedList`.
    pub fn new() -> (r: Self)
        ensures
            r.wf(),
            r@ == Seq::<T>::empty(),
    {
        XorLinkedList {
            links: Vec::new(),
            datas: Vec::new(),
            free: Vec::new(),
            head: NIL,
            tail: NIL,
            len: 0,
            order: Ghost(Seq::empty()),
        }
    }

    /// Returns the number of elements.
    pub fn len(&self) -> (n: usize)
        requires
            self.wf(),
        ensures
            n == self@.len(),
    {
        self.len
    }

    /// Returns `true` if the container holds no elements.
    pub fn is_empty(&self) -> (r: bool)
        requires
            self.wf(),
        ensures
            r <==> self@.len() == 0,
    {
        self.len == 0
    }

    /// Takes a vacant arena slot (reusing the free list when possible),
    /// stores `data` there, and returns the slot's identity.
    fn alloc_slot(
        links: &mut Vec<usize>,
        datas: &mut Vec<Option<T>>,
        free: &mut Vec<usize>,
        data: T,
    ) -> (j: usize)
        requires
            old(links)@.len() == old(datas)@.len(),
            old(datas)@.len() <= usize::MAX,
            old(free)@.len() > 0 || old(datas)@.len() < usize::MAX,
            free_list_inv(old(free)@, old(datas)@),
        ensures
            final(links)@.len() == final(datas)@.len(),
            final(datas)@.len() <= usize::MAX,
            old(datas)@.len() <= final(datas)@.len(),
            j < final(datas)@.len(),
            j == old(datas)@.len() || old(datas)@[j as int] is None,
            final(datas)@[j as int] == Some(data),
            forall|i: int|
                0 <= i < old(datas)@.len() && i != j ==> final(datas)@[i] == old(datas)@[i],
            forall|i: int|
                0 <= i < old(links)@.len() && i != j ==> final(links)@[i] == old(links)@[i],
            free_list_inv(final(free)@, final(datas)@),
            final(free)@.len() + 1 + old(datas)@.len() == old(free)@.len() + final(datas)@.len(),
    {
        match free.pop() {
            Some(j) => {
                datas.set(j, Some(data));
                j
            },
            None => {
                let j = links.len();
                links.push(0);
                datas.push(Some(data));
                j
            },
        }
    }

    /// Vacates the occupied arena slot `j`, pushes it on the free list,
    /// and returns the element it held.
    fn free_slot(datas: &mut Vec<Option<T>>, free: &mut Vec<usize>, j: usize) -> (d: T)
        requires
            j < old(datas)@.len(),
            old(datas)@[j as int] is Some,
            free_list_inv(old(free)@, old(datas)@),
        ensures
            d == old(datas)@[j as int].unwrap(),
            final(datas)@ == old(datas)@.update(j as int, None::<T>),
            final(free)@.len() == old(free)@.len() + 1,
            free_list_inv(final(free)@, final(datas)@),
    {
        let slot = &mut datas[j];
        let d = slot.take();
        free.push(j);
        d.unwrap()
    }

    /// Adds an element at the back.
    pub fn push_back(&mut self, data: T)
        requires
            old(self).wf(),
            old(self)@.len() < usize::MAX,
        ensures
            final(self).wf(),
            final(self)@ == old(self)@.push(data),
    {
        let ghost old_ord = self.order@;
        let j = Self::alloc_slot(&mut self.links, &mut self.datas, &mut self.free, data);
        if self.len == 0 {
            self.links.set(j, NIL ^ NIL);
            self.head = j;
            self.tail = j;
            self.len = 1;
            self.order = Ghost(Seq::empty().push(j));
        } else {
            let t = self.tail;
            let w = self.links[t];
            let p = w ^ NIL;
            proof {
                lemma_xor_cancel_right(self.pos_ident(self.len as int - 2), NIL);
            }
            self.links.set(t, p ^ j);
            self.links.set(j, t ^ NIL);
            self.tail = j;
            self.len = self.len + 1;
            self.order = Ghost(old_ord.push(j));
        }
        proof {
            assert(self@ =~= old(self)@.push(data));
        }
    }

    /// Adds an element at the front.
    pub fn push_front(&mut self, data: T)
        requires
            old(self).wf(),
            old(self)@.len() < usize::MAX,
        ensures
            final(self).wf(),
            final(self)@ == seq![data] + old(self)@,
    {
        let ghost old_ord = self.order@;
        let j = Self::alloc_slot(&mut self.links, &mut self.datas, &mut self.free, data);
        if self.len == 0 {
            self.links.set(j, NIL ^ NIL);
            self.head = j;
            self.tail = j;
            self.len = 1;
            self.order = Ghost(Seq::empty().push(j));
        } else {
            let h = self.head;
            let w = self.links[h];
            let nx = w ^ NIL;
            proof {
                lemma_xor_cancel_left(NIL, self.pos_ident(1));
            }
            self.links.set(h, j ^ nx);
            self.links.set(j, NIL ^ h);
            self.head = j;
            self.len = self.len + 1;
            self.order = Ghost(Seq::empty().push(j) + old_ord);
        }
        proof {
            assert(self@ =~= seq![data] + old(self)@);
        }
    }

    /// Removes the element at the front and returns it, or `None` if the
    /// container is empty.
    pub fn pop_front(&mut self) -> (r: Option<T>)
        requires
            old(self).wf(),
        ensures
            final(self).wf(),
            old(self)@.len() == 0 ==> r is None && final(self)@ == old(self)@,
            old(self)@.len() > 0 ==> r == Some(old(self)@.first()) && final(self)@ == old(
                self,
            )@.drop_first(),
    {
        if self.len == 0 {
            return None;
        }
        let ghost old_ord = self.order@;
        let h = self.head;
        let w = self.links[h];
        let nx = w ^ NIL;
        proof {
            lemma_xor_cancel_left(NIL, self.pos_ident(1));
        }
        if nx == NIL {
            self.head = NIL;
            self.tail = NIL;
        } else {
            let wn = self.links[nx];
            let nn = wn ^ h;
            proof {
                lemma_xor_cancel_left(self.pos_ident(0), self.pos_ident(2));
            }
            self.links.set(nx, NIL ^ nn);
            self.head = nx;
        }
        self.len = self.len - 1;
        self.order = Ghost(old_ord.drop_first());
        let d = Self::free_slot(&mut self.datas, &mut self.free, h);
        proof {
            assert(self@ =~= old(self)@.drop_first());
        }
        Some(d)
    }

    /// Removes the element at the back and returns it, or `None` if the
    /// container is empty.
    pub fn pop_back(&mut self) -> (r: Option<T>)
        requires
            old(self).wf(),
        ensures
            final(self).wf(),
            old(self)@.len() == 0 ==> r is None && final(self)@ == old(self)@,
            old(self)@.len() > 0 ==> r == Some(old(self)@.last()) && final(self)@ == old(
                self,
            )@.drop_last(),
    {
        if self.len == 0 {
            return None;
        }
        let ghost old_ord = self.order@;
        let t = self.tail;
        let w = self.links[t];
        let p = w ^ NIL;
        proof {
            lemma_xor_cancel_right(self.pos_ident(self.len as int - 2), NIL);
        }
        if p == NIL {
            self.head = NIL;
            self.tail = NIL;
        } else {
            let wp = self.links[p];
            let pp = wp ^ t;
            proof {
                lemma_xor_cancel_right(
                    self.pos_ident(self.len as int - 3),
                    self.pos_ident(self.len as int - 1),
                );
            }
            self.links.set(p, pp ^ NIL);
            self.tail = p;
        }
        self.len = self.len - 1;
        self.order = Ghost(old_ord.drop_last());
        let d = Self::free_slot(&mut self.datas, &mut self.free, t);
        proof {
            assert(self@ =~= old(self)@.drop_last());
        }
        Some(d)
    }

    /// Returns a reference to the front element, or `None` if the
    /// container is empty.
    pub fn front(&self) -> (r: Option<&T>)
        requires
            self.wf(),
        ensures
            self@.len() == 0 ==> r is None,
            self@.len() > 0 ==> (r matches Some(x) && *x == self@.first()),
    {
        if self.len == 0 {
            None
        } else {
            let h = self.head;
            match &self.datas[h] {
                Some(x) => Some(x),
                None => {
                    proof {
                        assert(false);
                    }
                    None
                },
            }
        }
    }

    /// Returns a reference to the back element, or `None` if the
    /// container is empty.
    pub fn back(&self) -> (r: Option<&T>)
        requires
            self.wf(),
        ensures
            self@.len() == 0 ==> r is None,
            self@.len() > 0 ==> (r matches Some(x) && *x == self@.last()),
    {
        if self.len == 0 {
            None
        } else {
            let t = self.tail;
            match &self.datas[t] {
                Some(x) => Some(x),
                None => {
                    proof {
                        assert(false);
                    }
                    None
                },
            }
        }
    }

    /// Returns a mutable reference to the front element, or `None` if the
    /// container is empty.
    pub fn front_mut(&mut self) -> (r: Option<&mut T>)
        requires
            old(self).wf(),
        ensures
            final(self).wf(),
            old(self)@.len() == 0 ==> r is None && final(self)@ == old(self)@,
            old(self)@.len() > 0 ==> (r matches Some(m) && *m == old(self)@.first()
                && final(self)@ =~= old(self)@.update(0, *final(r.unwrap()))),
    {
        if self.len == 0 {
            return None;
        }
        let h = self.head;
        let slot = &mut self.datas[h];
        let r = slot.as_mut();
        r
    }

    /// Returns a mutable reference to the back element, or `None` if the
    /// container is empty.
    pub fn back_mut(&mut self) -> (r: Option<&mut T>)
        requires
            old(self).wf(),
        ensures
            final(self).wf(),
            old(self)@.len() == 0 ==> r is None && final(self)@ == old(self)@,
            old(self)@.len() > 0 ==> (r matches Some(m) && *m == old(self)@.last()
                && final(self)@ =~= old(self)@.update(old(self)@.len() - 1, *final(r.unwrap()))),
    {
        if self.len == 0 {
            return None;
        }
        let t = self.tail;
        let slot = &mut self.datas[t];
        let r = slot.as_mut();
        r
    }

    /// Removes and frees all elements.
    pub fn clear(&mut self)
        requires
            old(self).wf(),
        ensures
            final(self).wf(),
            final(self)@ == Seq::<T>::empty(),
    {
        *self = Self::new();
    }

    /// Moves all elements of `other` to the end of `self`, in order,
    /// leaving `other` empty.
    pub fn append(&mut self, other: &mut Self)
        requires
            old(self).wf(),
            old(other).wf(),
            old(self)@.len() + old(other)@.len() <= usize::MAX,
        ensures
            final(self).wf(),
            final(other).wf(),
            final(self)@ == old(self)@ + old(other)@,
            final(other)@ == Seq::<T>::empty(),
    {
        if self.len == 0 {
            core::mem::swap(self, other);
            proof {
                assert(self@ =~= old(self)@ + old(other)@);
                assert(other@ =~= Seq::<T>::empty());
            }
            return;
        }
        while !other.is_empty()
            invariant
                self.wf(),
                other.wf(),
                self@ + other@ == old(self)@ + old(other)@,
                self@.len() + other@.len() <= usize::MAX,
            decreases other@.len(),
        {
            let x = other.pop_front().unwrap();
            proof {
                assert((self@.push(x) + other@) =~= (old(self)@ + old(other)@));
            }
            self.push_back(x);
        }
        proof {
            assert(self@ =~= old(self)@ + old(other)@);
            assert(other@ =~= Seq::<T>::empty());
        }
    }

    /// Returns a forward/backward traversal cursor borrowing the container.
    pub fn iter(&self) -> (it: Iter<T>)
        requires
            self.wf(),
        ensures
            it.wf(),
            it.elements() == self@,
            it.start() == 0,
            it.end() == self@.len(),
    {
        Iter {
            list: self,
            fwd: self.head,
            fwd_prev: NIL,
            back: self.tail,
            back_next: NIL,
            remaining: self.len,
            lo: Ghost(0),
            hi: Ghost(self@.len() as int),
        }
    }

    /// Returns a traversal cursor whose stepping methods take the
    /// container by mutable reference and hand out mutable references
    /// to its elements.
    pub fn iter_mut(&self) -> (it: IterMut)
        requires
            self.wf(),
        ensures
            it.wf_for(*self),
            it.start() == 0,
            it.end() == self@.len(),
    {
        IterMut {
            fwd: self.head,
            fwd_prev: NIL,
            back: self.tail,
            back_next: NIL,
            remaining: self.len,
            lo: Ghost(0),
            hi: Ghost(self@.len() as int),
        }
    }

    /// Consumes the container into an owning cursor that drains it.
    pub fn into_iter(self) -> (it: IntoIter<T>)
        requires
            self.wf(),
        ensures
            it.wf(),
            it@ == self@,
    {
        IntoIter { list: self }
    }

    /// Returns `true` if some element equals `x`.
    pub fn contains(&self, x: &T) -> (r: bool) where T: PartialEq
        requires
            self.wf(),
        ensures
            T::obeys_eq_spec() ==> (r <==> exists|i: int|
                0 <= i < self@.len() && self@[i].eq_spec(x)),
    {
        let mut it = self.iter();
        while it.len() > 0
            invariant
                it.wf(),
                it.elements() == self@,
                it.end() == self@.len(),
                0 <= it.start() <= self@.len(),
                T::obeys_eq_spec() ==> forall|i: int|
                    0 <= i < it.start() ==> !self@[i].eq_spec(x),
            decreases self@.len() - it.start(),
        {
            let e = it.next().unwrap();
            if e.eq(x) {
                return true;
            }
        }
        false
    }

    /// Elementwise equality with another container, in traversal order.
    pub fn eq(&self, other: &Self) -> (r: bool) where T: PartialEq
        requires
            self.wf(),
            other.wf(),
        ensures
            T::obeys_eq_spec() ==> (r <==> (self@.len() == other@.len() && forall|i: int|
                0 <= i < self@.len() ==> self@[i].eq_spec(&other@[i]))),
    {
        if self.len() != other.len() {
            return false;
        }
        let mut it1 = self.iter();
        let mut it2 = other.iter();
        while it1.len() > 0
            invariant
                it1.wf(),
                it2.wf(),
                it1.elements() == self@,
                it2.elements() == other@,
                it1.end() == self@.len(),
                it2.end() == other@.len(),
                it1.start() == it2.start(),
                0 <= it1.start() <= self@.len(),
                self@.len() == other@.len(),
                T::obeys_eq_spec() ==> forall|i: int|
                    0 <= i < it1.start() ==> self@[i].eq_spec(&other@[i]),
            decreases self@.len() - it1.start(),
        {
            let a = it1.next().unwrap();
            let b = it2.next().unwrap();
            if !a.eq(b) {
                return false;
            }
        }
        true
    }

    /// Lexicographic comparison with another container, by elementwise
    /// order in traversal order.
    pub fn lex_cmp(&self, other: &Self) -> (r: Option<Ordering>) where T: PartialOrd
        requires
            self.wf(),
            other.wf(),
        ensures
            T::obeys_partial_cmp_spec() ==> r == lex_cmp_seq(self@, other@),
    {
        let mut it1 = self.iter();
        let mut it2 = other.iter();
        proof {
            assert(self@.skip(0) =~= self@);
            assert(other@.skip(0) =~= other@);
        }
        while it1.len() > 0 && it2.len() > 0
            invariant
                it1.wf(),
                it2.wf(),
                it1.elements() == self@,
                it2.elements() == other@,
                it1.end() == self@.len(),
                it2.end() == other@.len(),
                it1.start() == it2.start(),
                0 <= it1.start() <= self@.len(),
                it1.start() <= other@.len(),
                T::obeys_partial_cmp_spec() ==> lex_cmp_seq(self@, other@) == lex_cmp_seq(
                    self@.skip(it1.start()),
                    other@.skip(it2.start()),
                ),
            decreases self@.len() - it1.start(),
        {
            let ghost k = it1.start();
            let a = it1.next().unwrap();
            let b = it2.next().unwrap();
            proof {
                assert(self@.skip(k).first() == self@[k]);
                assert(other@.skip(k).first() == other@[k]);
            }
            let c = a.partial_cmp(b);
            match c {
                Some(Ordering::Equal) => {
                    proof {
                        assert(self@.skip(k).drop_first() =~= self@.skip(k + 1));
                        assert(other@.skip(k).drop_first() =~= other@.skip(k + 1));
                    }
                },
                _ => {
                    return c;
                },
            }
        }
        let ghost k = it1.start();
        proof {
            assert(self@.skip(k).len() == self@.len() - k);
            assert(other@.skip(k).len() == other@.len() - k);
        }
        if it1.len() == 0 && it2.len() == 0 {
            Some(Ordering::Equal)
        } else if it1.len() == 0 {
            Some(Ordering::Less)
        } else {
            Some(Ordering::Greater)
        }
    }

    /// Builds a fresh container by cloning each element in traversal
    /// order; no node storage is shared with the original.
    pub fn duplicate(&self) -> (r: Self) where T: Clone
        requires
            self.wf(),
        ensures
            r.wf(),
            r@.len() == self@.len(),
            forall|i: int|
                0 <= i < self@.len() ==> vstd::pervasive::cloned(self@[i], #[trigger] r@[i]),
    {
        let mut r = Self::new();
        let mut it = self.iter();
        while it.len() > 0
            invariant
                r.wf(),
                it.wf(),
                it.elements() == self@,
                it.end() == self@.len(),
                r@.len() == it.start(),
                0 <= it.start() <= self@.len(),
                self@.len() <= usize::MAX,
                forall|i: int|
                    0 <= i < it.start() ==> vstd::pervasive::cloned(self@[i], #[trigger] r@[i]),
            decreases self@.len() - it.start(),
        {
            let e = it.next().unwrap();
            let c = e.clone();
            r.push_back(c);
        }
        r
    }

    /// Appends every element of `values` at the back, in order.
    pub fn extend(&mut self, values: Vec<T>)
        requires
            old(self).wf(),
            old(self)@.len() + values@.len() <= usize::MAX,
        ensures
            final(self).wf(),
            final(self)@ == old(self)@ + values@,
    {
        let mut vals = values;
        while !vals.is_empty()
            invariant
                self.wf(),
                self@ + vals@ == old(self)@ + values@,
                self@.len() + vals@.len() <= usize::MAX,
            decreases vals@.len(),
        {
            let x = vals.remove(0);
            proof {
                assert((self@.push(x) + vals@) =~= (old(self)@ + values@));
            }
            self.push_back(x);
        }
        proof {
            assert(self@ =~= old(self)@ + values@);
        }
    }
}

/// The failure of [`XorLinkedList::split_off`]: the requested index
/// exceeds the container's length.
#[derive(Clone, Copy, Debug, PartialEq, Eq)]
pub enum SplitOffError {
    /// The index passed to `split_off` was greater than the length.
    IndexOutOfRange,
}

impl<T> XorLinkedList<T> {
    /// Splits the container at `at`: `self` keeps the elements before
    /// `at` and a new container holding the elements from `at` on is
    /// returned.  An index greater than the length is rejected before
    /// any mutation.
    pub fn split_off(&mut self, at: usize) -> (r: Result<XorLinkedList<T>, SplitOffError>)
        requires
            old(self).wf(),
        ensures
            final(self).wf(),
            at > old(self)@.len() ==> r == Err::<XorLinkedList<T>, SplitOffError>(
                SplitOffError::IndexOutOfRange,
            ) && final(self)@ == old(self)@,
            at <= old(self)@.len() ==> (r matches Ok(s) && s.wf() && s@ == old(self)@.skip(
                at as int,
            ) && final(self)@ == old(self)@.take(at as int)),
    {
        let len = self.len();
        if at > len {
            return Err(SplitOffError::IndexOutOfRange);
        }
        if at == 0 {
            let mut second = Self::new();
            core::mem::swap(self, &mut second);
            proof {
                assert(second@ =~= old(self)@.skip(0));
                assert(self@ =~= old(self)@.take(0));
            }
            return Ok(second);
        }
        if at == len {
            let second = Self::new();
            proof {
                assert(second@ =~= old(self)@.skip(len as int));
                assert(self@ =~= old(self)@.take(len as int));
            }
            return Ok(second);
        }
        // Walk in from whichever end is nearer to the split point.
        if at <= len - at {
            // Move the shorter prefix into a fresh container, then
            // exchange the two containers.
            let mut first = Self::new();
            let mut k: usize = 0;
            while k < at
                invariant
                    self.wf(),
                    first.wf(),
                    k <= at,
                    0 < at < old(self)@.len(),
                    self@ == old(self)@.skip(k as int),
                    first@ == old(self)@.take(k as int),
                decreases at - k,
            {
                proof {
                    assert(self@.len() == old(self)@.len() - k);
                }
                let x = self.pop_front().unwrap();
                proof {
                    assert(old(self)@.skip(k as int).drop_first() =~= old(self)@.skip(
                        k as int + 1,
                    ));
                    assert(old(self)@.skip(k as int).first() == old(self)@[k as int]);
                    assert(old(self)@.take(k as int).push(old(self)@[k as int]) =~= old(
                        self,
                    )@.take(k as int + 1));
                }
                first.push_back(x);
                k = k + 1;
            }
            core::mem::swap(self, &mut first);
            Ok(first)
        } else {
            // Move the shorter suffix out through its end.
            let mut second = Self::new();
            let mut k: usize = 0;
            while k < len - at
                invariant
                    self.wf(),
                    second.wf(),
                    k <= len - at,
                    0 < at < old(self)@.len(),
                    len == old(self)@.len(),
                    self@ == old(self)@.take(len as int - k),
                    second@ == old(self)@.skip(len as int - k),
                decreases len - at - k,
            {
                proof {
                    assert(self@.len() == old(self)@.len() - k);
                }
                let x = self.pop_back().unwrap();
                proof {
                    assert(old(self)@.take(len as int - k).drop_last() =~= old(self)@.take(
                        len as int - (k + 1),
                    ));
                    assert(old(self)@.take(len as int - k).last() == old(self)@[len as int - k
                        - 1]);
                    assert(seq![old(self)@[len as int - k - 1]] + old(self)@.skip(len as int - k)
                        =~= old(self)@.skip(len as int - (k + 1)));
                }
                second.push_front(x);
                k = k + 1;
            }
            Ok(second)
        }
    }
}

/// Splitting a sequence anywhere within bounds and appending the two
/// parts back together reconstructs the original element order
/// exactly; with `split_off` and `append` stated over `take`, `skip`
/// and concatenation, this is the round trip of the two operations.
pub proof fn lemma_split_then_append_reconstructs<T>(s: Seq<T>, at: int)
    requires
        0 <= at <= s.len(),
    ensures
        s.take(at) + s.skip(at) == s,
{
    assert(s.take(at) + s.skip(at) =~= s);
}

/// Splitting at the length hands over an empty container and keeps
/// everything; splitting at zero hands over everything and keeps an
/// empty container.
pub proof fn lemma_split_at_bounds<T>(s: Seq<T>)
    ensures
        s.skip(s.len() as int) == Seq::<T>::empty(),
        s.take(s.len() as int) == s,
        s.skip(0) == s,
        s.take(0) == Seq::<T>::empty(),
{
    assert(s.skip(s.len() as int) =~= Seq::<T>::empty());
    assert(s.take(s.len() as int) =~= s);
    assert(s.skip(0) =~= s);
    assert(s.take(0) =~= Seq::<T>::empty());
}

/// Containers holding the same element sequence are elementwise equal
/// under `eq`, however their operation histories differ.
pub proof fn lemma_eq_of_equal_views<T: PartialEq>(a: XorLinkedList<T>, b: XorLinkedList<T>)
    requires
        vstd::laws_eq::obeys_concrete_eq::<T>(),
        a@ == b@,
    ensures
        a@.len() == b@.len(),
        forall|i: int| 0 <= i < a@.len() ==> a@[i].eq_spec(&b@[i]),
{
    reveal(vstd::laws_eq::obeys_concrete_eq);
}

/// A shared traversal cursor over a [`XorLinkedList`].
///
/// The cursor can advance from the front (`next`) and from the back
/// (`next_back`); both directions share one remaining-count, so
/// converging traversal visits every element exactly once.  Per
/// direction it tracks the node to visit next together with the node
/// most recently visited on that side: the direction context needed to
/// decode an XOR link word.
pub struct Iter<'a, T> {
    /// Borrowed container being traversed.
    list: &'a XorLinkedList<T>,
    /// Identity of the next node to yield from the front.
    fwd: usize,
    /// Identity of the node last yielded from the front (`NIL` at start).
    fwd_prev: usize,
    /// Identity of the next node to yield from the back.
    back: usize,
    /// Identity of the node last yielded from the back (`NIL` at start).
    back_next: usize,
    /// Elements not yet yielded in either direction.
    remaining: usize,
    /// Position of the forward cursor (ghost).
    lo: Ghost<int>,
    /// One past the position of the backward cursor (ghost).
    hi: Ghost<int>,
}

impl<'a, T> Iter<'a, T> {
    /// The element sequence of the underlying container.
    pub closed spec fn elements(self) -> Seq<T> {
        self.list@
    }

    /// Number of elements already yielded from the front; the next
    /// forward step yields `self.elements()[self.start()]`.
    pub closed spec fn start(self) -> int {
        self.lo@
    }

    /// One past the position of the next backward element: elements at
    /// positions `[end, len)` were already yielded from the back.
    pub closed spec fn end(self) -> int {
        self.hi@
    }

    /// The cursor's pairs of (current, previously visited) identities
    /// agree with the container's node order on both sides.
    pub closed spec fn wf(self) -> bool {
        &&& self.list.wf()
        &&& 0 <= self.lo@ <= self.hi@ <= self.list@.len()
        &&& self.remaining == self.hi@ - self.lo@
        &&& self.fwd == self.list.pos_ident(self.lo@)
        &&& self.fwd_prev == self.list.pos_ident(self.lo@ - 1)
        &&& self.back == self.list.pos_ident(self.hi@ - 1)
        &&& self.back_next == self.list.pos_ident(self.hi@)
    }

    /// Number of elements not yet yielded in either direction.
    pub fn len(&self) -> (n: usize)
        requires
            self.wf(),
        ensures
            n == self.end() - self.start(),
    {
        self.remaining
    }

    /// Yields the next element from the front, or `None` once the
    /// shared remaining-count is exhausted.
    pub fn next(&mut self) -> (r: Option<&'a T>)
        requires
            old(self).wf(),
        ensures
            final(self).wf(),
            final(self).elements() == old(self).elements(),
            final(self).end() == old(self).end(),
            old(self).start() == old(self).end() ==> r is None && final(self).start() == old(
                self,
            ).start(),
            old(self).start() < old(self).end() ==> (r matches Some(x) && *x == old(
                self,
            ).elements()[old(self).start()] && final(self).start() == old(self).start() + 1),
    {
        if self.remaining == 0 {
            return None;
        }
        let l = self.list;
        let cur = self.fwd;
        let w = l.links[cur];
        let nx = w ^ self.fwd_prev;
        proof {
            lemma_xor_cancel_left(l.pos_ident(self.lo@ - 1), l.pos_ident(self.lo@ + 1));
        }
        self.fwd_prev = cur;
        self.fwd = nx;
        self.remaining = self.remaining - 1;
        self.lo = Ghost(self.lo@ + 1);
        match &l.datas[cur] {
            Some(x) => Some(x),
            None => {
                proof {
                    assert(false);
                }
                None
            },
        }
    }

    /// Yields the next element from the back, or `None` once the
    /// shared remaining-count is exhausted.
    pub fn next_back(&mut self) -> (r: Option<&'a T>)
        requires
            old(self).wf(),
        ensures
            final(self).wf(),
            final(self).elements() == old(self).elements(),
            final(self).start() == old(self).start(),
            old(self).start() == old(self).end() ==> r is None && final(self).end() == old(
                self,
            ).end(),
            old(self).start() < old(self).end() ==> (r matches Some(x) && *x == old(
                self,
            ).elements()[old(self).end() - 1] && final(self).end() == old(self).end() - 1),
    {
        if self.remaining == 0 {
            return None;
        }
        let l = self.list;
        let cur = self.back;
        let w = l.links[cur];
        let pv = w ^ self.back_next;
        proof {
            lemma_xor_cancel_right(l.pos_ident(self.hi@ - 2), l.pos_ident(self.hi@));
        }
        self.back_next = cur;
        self.back = pv;
        self.remaining = self.remaining - 1;
        self.hi = Ghost(self.hi@ - 1);
        match &l.datas[cur] {
            Some(x) => Some(x),
            None => {
                proof {
                    assert(false);
                }
                None
            },
        }
    }
}

/// Converging forward and backward traversal over one cursor never
/// double-yields and never skips: the elements yielded from the front
/// (`[0, start)`), the elements yielded from the back (`[end, len)`)
/// and the elements still pending (`[start, end)`) partition the whole
/// sequence, so once the cursor is exhausted the two directions
/// together have yielded every element exactly once.
pub proof fn lemma_traversal_partition<'a, T>(it: Iter<'a, T>)
    requires
        it.wf(),
    ensures
        0 <= it.start() <= it.end() <= it.elements().len(),
        it.start() + (it.end() - it.start()) + (it.elements().len() - it.end())
            == it.elements().len(),
{
}

/// A mutating traversal cursor over a [`XorLinkedList`].
///
/// The cursor holds no borrow itself; its stepping methods take the
/// container by mutable reference and hand out mutable references to
/// its elements.  Like [`Iter`] it keeps a (current, previously
/// visited) identity pair per direction and one shared
/// remaining-count.
pub struct IterMut {
    /// Identity of the next node to yield from the front.
    fwd: usize,
    /// Identity of the node last yielded from the front (`NIL` at start).
    fwd_prev: usize,
    /// Identity of the next node to yield from the back.
    back: usize,
    /// Identity of the node last yielded from the back (`NIL` at start).
    back_next: usize,
    /// Elements not yet yielded in either direction.
    remaining: usize,
    /// Position of the forward cursor (ghost).
    lo: Ghost<int>,
    /// One past the position of the backward cursor (ghost).
    hi: Ghost<int>,
}

impl IterMut {
    /// Number of elements already yielded from the front.
    pub closed spec fn start(self) -> int {
        self.lo@
    }

    /// One past the position of the next backward element.
    pub closed spec fn end(self) -> int {
        self.hi@
    }

    /// The cursor's identity pairs agree with `l`'s node order.
    pub closed spec fn wf_for<T>(self, l: XorLinkedList<T>) -> bool {
        &&& l.wf()
        &&& 0 <= self.lo@ <= self.hi@ <= l@.len()
        &&& self.remaining == self.hi@ - self.lo@
        &&& self.fwd == l.pos_ident(self.lo@)
        &&& self.fwd_prev == l.pos_ident(self.lo@ - 1)
        &&& self.back == l.pos_ident(self.hi@ - 1)
        &&& self.back_next == l.pos_ident(self.hi@)
    }

    /// Yields a mutable reference to the next element from the front,
    /// or `None` once the shared remaining-count is exhausted.
    pub fn next<'a, T>(&mut self, list: &'a mut XorLinkedList<T>) -> (r: Option<&'a mut T>)
        requires
            old(self).wf_for(*old(list)),
        ensures
            old(self).start() == old(self).end() ==> r is None && *final(list) == *old(list)
                && final(self).wf_for(*final(list)) && final(self).start() == old(self).start()
                && final(self).end() == old(self).end(),
            old(self).start() < old(self).end() ==> (r matches Some(m) && *m == old(
                list,
            )@[old(self).start()] && final(list)@ =~= old(list)@.update(
                old(self).start(),
                *final(r.unwrap()),
            ) && final(self).wf_for(*final(list)) && final(self).start() == old(self).start() + 1
                && final(self).end() == old(self).end()),
    {
        if self.remaining == 0 {
            return None;
        }
        let cur = self.fwd;
        let w = list.links[cur];
        let nx = w ^ self.fwd_prev;
        proof {
            lemma_xor_cancel_left(list.pos_ident(self.lo@ - 1), list.pos_ident(self.lo@ + 1));
        }
        self.fwd_prev = cur;
        self.fwd = nx;
        self.remaining = self.remaining - 1;
        self.lo = Ghost(self.lo@ + 1);
        let slot = &mut list.datas[cur];
        slot.as_mut()
    }

    /// Yields a mutable reference to the next element from the back,
    /// or `None` once the shared remaining-count is exhausted.
    pub fn next_back<'a, T>(&mut self, list: &'a mut XorLinkedList<T>) -> (r: Option<&'a mut T>)
        requires
            old(self).wf_for(*old(list)),
        ensures
            old(self).start() == old(self).end() ==> r is None && *final(list) == *old(list)
                && final(self).wf_for(*final(list)) && final(self).start() == old(self).start()
                && final(self).end() == old(self).end(),
            old(self).start() < old(self).end() ==> (r matches Some(m) && *m == old(
                list,
            )@[old(self).end() - 1] && final(list)@ =~= old(list)@.update(
                old(self).end() - 1,
                *final(r.unwrap()),
            ) && final(self).wf_for(*final(list)) && final(self).start() == old(self).start()
                && final(self).end() == old(self).end() - 1),
    {
        if self.remaining == 0 {
            return None;
        }
        let cur = self.back;
        let w = list.links[cur];
        let pv = w ^ self.back_next;
        proof {
            lemma_xor_cancel_right(list.pos_ident(self.hi@ - 2), list.pos_ident(self.hi@));
        }
        self.back_next = cur;
        self.back = pv;
        self.remaining = self.remaining - 1;
        self.hi = Ghost(self.hi@ - 1);
        let slot = &mut list.datas[cur];
        slot.as_mut()
    }
}

/// An owning traversal cursor that drains a [`XorLinkedList`].
///
/// Each forward step pops from the front and each backward step pops
/// from the back, freeing nodes as they are consumed; whatever is not
/// consumed is freed when the cursor is dropped.
pub struct IntoIter<T> {
    /// The remaining, not yet consumed part of the container.
    list: XorLinkedList<T>,
}

impl<T> View for IntoIter<T> {
    type V = Seq<T>;

    closed spec fn view(&self) -> Seq<T> {
        self.list@
    }
}

impl<T> IntoIter<T> {
    /// Well-formedness of the remaining container.
    pub closed spec fn wf(self) -> bool {
        self.list.wf()
    }

    /// Number of elements not yet consumed.
    pub fn len(&self) -> (n: usize)
        requires
            self.wf(),
        ensures
            n == self@.len(),
    {
        self.list.len()
    }

    /// Removes and returns the next element from the front.
    pub fn next(&mut self) -> (r: Option<T>)
        requires
            old(self).wf(),
        ensures
            final(self).wf(),
            old(self)@.len() == 0 ==> r is None && final(self)@ == old(self)@,
            old(self)@.len() > 0 ==> r == Some(old(self)@.first()) && final(self)@ == old(
                self,
            )@.drop_first(),
    {
        self.list.pop_front()
    }

    /// Removes and returns the next element from the back.
    pub fn next_back(&mut self) -> (r: Option<T>)
        requires
            old(self).wf(),
        ensures
            final(self).wf(),
            old(self)@.len() == 0 ==> r is None && final(self)@ == old(self)@,
            old(self)@.len() > 0 ==> r == Some(old(self)@.last()) && final(self)@ == old(
                self,
            )@.drop_last(),
    {
        self.list.pop_back()
    }
}

} // verus!
