//! Generation-checked slot storage.
//!
//! A `HandleSlab<T>` stores values in slots and hands out `Handle`s made of a
//! slot index and the slot's generation. Removing a value bumps the slot's
//! generation, so handles to the removed value never reach a later occupant.
use vstd::prelude::*;

verus! {

/// Stable identifier of a value stored in a `HandleSlab`.
#[derive(Clone, Copy, Debug, PartialEq, Eq, Structural, Hash)]
pub struct Handle {
    index: usize,
    generation: u64,
}

impl Handle {
    pub closed spec fn idx(self) -> usize {
        self.index
    }

    /// Slot index of the handle.
    pub fn slot(&self) -> (r: usize)
        ensures
            r == self.idx(),
    {
        self.index
    }
}

struct Slot<T> {
    generation: u64,
    value: Option<T>,
}

/// Arena mapping handles to values.
pub struct HandleSlab<T> {
    slots: Vec<Slot<T>>,
    order: Vec<Handle>,
    issued: Ghost<Set<Handle>>,
}

impl<T> HandleSlab<T> {
    /// `h` names the current occupant of its slot.
    pub closed spec fn live_at(self, h: Handle) -> bool {
        &&& (h.index as int) < self.slots@.len()
        &&& self.slots@[h.index as int].value is Some
        &&& self.slots@[h.index as int].generation == h.generation
    }

    /// The live entries.
    pub closed spec fn view(self) -> Map<Handle, T> {
        Map::new(
            |h: Handle| self.live_at(h),
            |h: Handle| self.slots@[h.index as int].value->Some_0,
        )
    }

    /// Number of slots, live or free.
    pub closed spec fn slot_count(self) -> int {
        self.slots@.len() as int
    }

    /// Slot `i` exists, holds nothing, and its generation can still move on,
    /// so `insert` may put a value there.
    pub closed spec fn reusable(self, i: int) -> bool {
        &&& 0 <= i < self.slots@.len()
        &&& self.slots@[i].value is None
        &&& self.slots@[i].generation < u64::MAX
    }

    /// Every handle this slab has ever returned from `insert`.
    pub closed spec fn issued(self) -> Set<Handle> {
        self.issued@
    }

    /// Handles that were issued and whose value has since been removed.
    pub open spec fn retired(self) -> Set<Handle> {
        self.issued().difference(self@.dom())
    }

    /// Live handles in the order of their insertion.
    pub closed spec fn order(self) -> Seq<Handle> {
        self.order@
    }

    pub closed spec fn wf(self) -> bool {
        &&& forall|i: int|
            #![trigger self.slots@[i]]
            0 <= i < self.slots@.len() && self.slots@[i].value is Some
                ==> self.slots@[i].generation < u64::MAX
        &&& forall|h: Handle|
            #![trigger self.issued@.contains(h)]
            self.issued@.contains(h) ==> {
                &&& (h.index as int) < self.slots@.len()
                &&& h.generation <= self.slots@[h.index as int].generation
                &&& (h.generation == self.slots@[h.index as int].generation
                    ==> self.slots@[h.index as int].value is Some)
            }
        &&& forall|i: int|
            #![trigger self.slots@[i]]
            0 <= i < self.slots@.len() && self.slots@[i].value is Some
                ==> self.issued@.contains(
                Handle { index: i as usize, generation: self.slots@[i].generation },
            )
        &&& self.order@.no_duplicates()
        &&& forall|h: Handle| #[trigger] self.order@.contains(h) <==> self.live_at(h)
    }

    /// An empty slab.
    pub fn new() -> (r: Self)
        ensures
            r.wf(),
            r@ == Map::<Handle, T>::empty(),
            r.issued() == Set::<Handle>::empty(),
            r.order() == Seq::<Handle>::empty(),
    {
        let r = HandleSlab { slots: Vec::new(), order: Vec::new(), issued: Ghost(Set::empty()) };
        assert(r@ =~= Map::<Handle, T>::empty());
        r
    }

    /// Number of live entries.
    pub fn len(&self) -> (r: usize)
        requires
            self.wf(),
        ensures
            r == self@.len(),
            r == self.order().len(),
    {
        proof {
            self.lemma_order_is_dom();
        }
        self.order.len()
    }

    proof fn lemma_order_is_dom(&self)
        requires
            self.wf(),
        ensures
            self.order@.to_set() == self@.dom(),
            self@.dom().finite(),
            self@.len() == self.order@.len(),
    {
        assert(self.order@.to_set() =~= self@.dom());
        self.order@.unique_seq_to_set();
    }

    /// Whether `h` names a live entry.
    pub fn contains(&self, h: Handle) -> (r: bool)
        requires
            self.wf(),
        ensures
            r == self@.contains_key(h),
    {
        h.index < self.slots.len() && self.slots[h.index].value.is_some()
            && self.slots[h.index].generation == h.generation
    }

    /// The value that `h` names, if it is live.
    pub fn get(&self, h: Handle) -> (r: Option<&T>)
        requires
            self.wf(),
        ensures
            r matches Some(v) <==> self@.contains_key(h),
            r matches Some(v) ==> *v == self@[h],
    {
        if h.index < self.slots.len() && self.slots[h.index].generation == h.generation {
            match &self.slots[h.index].value {
                Some(v) => Some(v),
                None => None,
            }
        } else {
            None
        }
    }

    /// Lowest slot that can take a new value, or the slot count when none can.
    fn first_free(&self) -> (r: usize)
        requires
            self.wf(),
        ensures
            r <= self.slots@.len(),
            r < self.slots@.len() ==> self.slots@[r as int].value is None
                && self.slots@[r as int].generation < u64::MAX,
            forall|j: int|
                0 <= j < r ==> #[trigger] self.slots@[j].value is Some
                    || self.slots@[j].generation == u64::MAX,
    {
        let mut i: usize = 0;
        while i < self.slots.len()
            invariant
                i <= self.slots@.len(),
                forall|j: int|
                    0 <= j < i ==> #[trigger] self.slots@[j].value is Some
                        || self.slots@[j].generation == u64::MAX,
            decreases self.slots@.len() - i,
        {
            if self.slots[i].value.is_none() && self.slots[i].generation < u64::MAX {
                return i;
            }
            i = i + 1;
        }
        i
    }

    /// Stores `value` and returns a handle never issued before. The lowest
    /// reusable slot is taken; storage grows when there is none.
    pub fn insert(&mut self, value: T) -> (h: Handle)
        requires
            old(self).wf(),
        ensures
            final(self).wf(),
            !old(self).issued().contains(h),
            !old(self)@.contains_key(h),
            final(self)@ == old(self)@.insert(h, value),
            final(self).issued() == old(self).issued().insert(h),
            final(self).retired() == old(self).retired(),
            final(self).order() == old(self).order().push(h),
            forall|j: int| 0 <= j < h.idx() ==> !old(self).reusable(j),
            h.idx() < old(self).slot_count() ==> old(self).reusable(h.idx() as int),
            h.idx() >= old(self).slot_count() ==> h.idx() == old(self).slot_count(),
    {
        let i = self.first_free();
        let h;
        if i < self.slots.len() {
            let g = self.slots[i].generation;
            h = Handle { index: i, generation: g };
            self.slots.set(i, Slot { generation: g, value: Some(value) });
        } else {
            h = Handle { index: i, generation: 0 };
            self.slots.push(Slot { generation: 0, value: Some(value) });
        }
        self.order.push(h);
        proof {
            let pre = *old(self);
            assert(!pre.issued@.contains(h));
            self.issued@ = pre.issued@.insert(h);
            assert(!pre.order@.contains(h));
            assert(self.order@ == pre.order@.push(h));
            assert forall|x: Handle|
                #[trigger] self.order@.contains(x) <==> (pre.order@.contains(x) || x == h) by {
                if pre.order@.contains(x) {
                    let j = choose|j: int| 0 <= j < pre.order@.len() && pre.order@[j] == x;
                    assert(self.order@[j] == x);
                }
                if x == h {
                    assert(self.order@[pre.order@.len() as int] == x);
                }
                if self.order@.contains(x) {
                    let j = choose|j: int| 0 <= j < self.order@.len() && self.order@[j] == x;
                    if j < pre.order@.len() {
                        assert(pre.order@[j] == x);
                    }
                }
            }
            assert(forall|x: Handle| x != h ==> (self.live_at(x) <==> pre.live_at(x)));
            assert(self@ =~= pre@.insert(h, value));
            assert(self.retired() =~= pre.retired());
        }
        h
    }

    /// Removes the entry that `h` names; `None` when `h` is not live. The
    /// slot's generation moves on, so `h` never names a value again.
    pub fn remove(&mut self, h: Handle) -> (r: Option<T>)
        requires
            old(self).wf(),
        ensures
            final(self).wf(),
            r matches Some(v) <==> old(self)@.contains_key(h),
            r matches Some(v) ==> v == old(self)@[h],
            final(self)@ == old(self)@.remove(h),
            final(self).issued() == old(self).issued(),
            old(self)@.contains_key(h) ==> final(self).retired() == old(self).retired().insert(h),
            !old(self)@.contains_key(h) ==> final(self).retired() == old(self).retired(),
            final(self).order() == old(self).order().filter(|x: Handle| x != h),
            final(self).slot_count() == old(self).slot_count(),
            forall|j: int| j != h.idx() ==> #[trigger] final(self).reusable(j) == old(self).reusable(j),
    {
        if !self.contains(h) {
            proof {
                assert(self@ =~= old(self)@.remove(h));
                assert(self.order@.filter(|x: Handle| x != h) =~= self.order@) by {
                    
                    lemma_filter_all(self.order@, h);
                }
            }
            return None;
        }
        let k = self.position_of(h);
        let i = h.index;
        let g = self.slots[i].generation;
        let mut slot = Slot { generation: g + 1, value: None };
        std::mem::swap(&mut slot, &mut self.slots[i]);
        self.order.remove(k);
        proof {
            let pre = *old(self);
            assert(forall|x: Handle| x != h ==> (self.live_at(x) <==> pre.live_at(x)));
            assert(!self.live_at(h));
            assert(self@ =~= pre@.remove(h));
            assert(self.retired() =~= pre.retired().insert(h));
            lemma_remove_unique(pre.order@, k as int, h);
            assert(self.order@ == pre.order@.remove(k as int));
            assert forall|x: Handle| #[trigger] self.order@.contains(x) <==> self.live_at(x) by {
                if self.order@.contains(x) {
                    let j = choose|j: int| 0 <= j < self.order@.len() && self.order@[j] == x;
                    if j < k {
                        assert(pre.order@[j] == x);
                        assert(pre.order@.contains(x));
                    } else {
                        assert(pre.order@[j + 1] == x);
                        assert(pre.order@.contains(x));
                    }
                    assert(x != h);
                    assert(pre.live_at(x));
                }
                if self.live_at(x) {
                    assert(x != h);
                    assert(pre.order@.contains(x));
                    let j = choose|j: int| 0 <= j < pre.order@.len() && pre.order@[j] == x;
                    assert(j != k);
                    if j < k {
                        assert(self.order@[j] == x);
                    } else {
                        assert(self.order@[j - 1] == x);
                    }
                }
            }
        }
        slot.value
    }

    fn position_of(&self, h: Handle) -> (k: usize)
        requires
            self.wf(),
            self.live_at(h),
        ensures
            k < self.order@.len(),
            self.order@[k as int] == h,
    {
        assert(self.order@.contains(h));
        let mut k: usize = 0;
        while k < self.order.len()
            invariant
                k <= self.order@.len(),
                self.order@.contains(h),
                forall|j: int| 0 <= j < k ==> self.order@[j] != h,
            decreases self.order@.len() - k,
        {
            if self.order[k] == h {
                return k;
            }
            k = k + 1;
        }
        k
    }

    /// Puts `value` in place of the entry that `h` names and returns the
    /// previous value; `None`, with nothing changed, when `h` is not live.
    pub fn replace(&mut self, h: Handle, value: T) -> (r: Option<T>)
        requires
            old(self).wf(),
        ensures
            final(self).wf(),
            r matches Some(v) <==> old(self)@.contains_key(h),
            r matches Some(v) ==> v == old(self)@[h] && final(self)@ == old(self)@.insert(h, value),
            r is None ==> final(self)@ == old(self)@,
            final(self).issued() == old(self).issued(),
            final(self).order() == old(self).order(),
    {
        if !self.contains(h) {
            return None;
        }
        let mut slot = Slot { generation: h.generation, value: Some(value) };
        std::mem::swap(&mut slot, &mut self.slots[h.index]);
        proof {
            let pre = *old(self);
            assert(forall|x: Handle| #[trigger] self.live_at(x) <==> pre.live_at(x));
            assert(self@ =~= pre@.insert(h, value));
        }
        slot.value
    }

    /// Mutable access to the value that `h` names, if it is live.
    pub fn get_mut(&mut self, h: Handle) -> (r: Option<&mut T>)
        requires
            old(self).wf(),
        ensures
            r is Some <==> old(self)@.contains_key(h),
            r matches Some(v) ==> *v == old(self)@[h] && final(self)@ == old(self)@.insert(h, *final(v)),
            r is None ==> final(self)@ == old(self)@,
            final(self).wf(),
            final(self).issued() == old(self).issued(),
            final(self).order() == old(self).order(),
    {
        if !self.contains(h) {
            return None;
        }
        let slot = &mut self.slots[h.index];
        match &mut slot.value {
            Some(v) => Some(v),
            None => None,
        }
    }

    /// Two live handles in one slot are the same handle.
    pub proof fn lemma_one_per_slot(&self, a: Handle, b: Handle)
        requires
            self.wf(),
            self@.contains_key(a),
            self@.contains_key(b),
            a.idx() == b.idx(),
        ensures
            a == b,
    {
    }

    /// The insertion order lists each live handle once and nothing else, and
    /// every live handle was issued.
    pub proof fn lemma_order_matches(&self)
        requires
            self.wf(),
        ensures
            self@.dom().finite(),
            self.order().no_duplicates(),
            self.order().to_set() == self@.dom(),
            self.order().len() == self@.len(),
            self@.dom().subset_of(self.issued()),
    {
        self.lemma_order_is_dom();
    }

    /// The live entries form a finite map.
    pub proof fn lemma_finite(&self)
        requires
            self.wf(),
        ensures
            self@.dom().finite(),
    {
        self.lemma_order_is_dom();
    }

    /// Live handles in the order they were inserted.
    pub fn handles(&self) -> (r: Vec<Handle>)
        requires
            self.wf(),
        ensures
            r@ == self.order(),
            r@.to_set() == self@.dom(),
            r@.no_duplicates(),
    {
        proof {
            self.lemma_order_is_dom();
        }
        self.order.clone()
    }
}

proof fn lemma_filter_all(s: Seq<Handle>, h: Handle)
    requires
        !s.contains(h),
    ensures
        s.filter(|x: Handle| x != h) == s,
    decreases s.len(),
{
    reveal_with_fuel(Seq::filter, 1);
    if s.len() > 0 {
        lemma_filter_all(s.drop_last(), h);
        assert(s.drop_last().push(s.last()) =~= s);
    }
}

proof fn lemma_remove_unique(s: Seq<Handle>, k: int, h: Handle)
    requires
        0 <= k < s.len(),
        s[k] == h,
        s.no_duplicates(),
    ensures
        s.remove(k).no_duplicates(),
        s.remove(k) == s.filter(|x: Handle| x != h),
    decreases s.len(),
{
    reveal_with_fuel(Seq::filter, 1);
    let f = |x: Handle| x != h;
    if k == s.len() - 1 {
        assert(s.remove(k) =~= s.drop_last());
        assert(!s.drop_last().contains(h));
        lemma_filter_all(s.drop_last(), h);
    } else {
        let t = s.drop_last();
        assert(t.no_duplicates());
        lemma_remove_unique(t, k, h);
        assert(s.last() != h);
        assert(s.remove(k) =~= t.remove(k).push(s.last()));
    }
}

} // verus!
