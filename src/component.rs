//! Sparse per-entity component storage.
//!
//! A `ComponentTable<T>` holds at most one value per entity. Entries sit at
//! the slot index of their entity and keep the full id, so an entry of a
//! removed entity never answers for a later entity in the same slot.
use crate::entity::{descends, lemma_descendants_removed, EntityError, EntityId, EntityStore};
use vstd::prelude::*;

verus! {

/// Values of one component kind, keyed by entity.
pub struct ComponentTable<T> {
    entries: Vec<Option<(EntityId, T)>>,
}

impl<T> ComponentTable<T> {
    pub closed spec fn holds(self, e: EntityId) -> bool {
        &&& (e.idx() as int) < self.entries@.len()
        &&& self.entries@[e.idx() as int] is Some
        &&& self.entries@[e.idx() as int]->Some_0.0 == e
    }

    /// The attached values.
    pub closed spec fn view(self) -> Map<EntityId, T> {
        Map::new(|e: EntityId| self.holds(e), |e: EntityId| self.entries@[e.idx() as int]->Some_0.1)
    }

    /// A table with no entries.
    pub fn new() -> (r: Self)
        ensures
            r@ == Map::<EntityId, T>::empty(),
    {
        let r = ComponentTable { entries: Vec::new() };
        assert(r@ =~= Map::<EntityId, T>::empty());
        r
    }

    /// Whether `e` has a value here.
    pub fn contains(&self, e: EntityId) -> (r: bool)
        ensures
            r == self@.contains_key(e),
    {
        let i = e.slot();
        if i < self.entries.len() {
            match &self.entries[i] {
                Some(entry) => entry.0 == e,
                None => false,
            }
        } else {
            false
        }
    }

    /// The value attached to `e`, if any.
    pub fn get(&self, e: EntityId) -> (r: Option<&T>)
        ensures
            r matches Some(v) <==> self@.contains_key(e),
            r matches Some(v) ==> *v == self@[e],
    {
        let i = e.slot();
        if i < self.entries.len() {
            match &self.entries[i] {
                Some(entry) => {
                    if entry.0 == e {
                        Some(&entry.1)
                    } else {
                        None
                    }
                },
                None => None,
            }
        } else {
            None
        }
    }

    /// Attaches `value` to the live entity `e`, replacing and returning the
    /// value it had; `UnknownEntity`, with nothing changed, when `e` is not
    /// live.
    pub fn attach(&mut self, entities: &EntityStore, e: EntityId, value: T) -> (r: Result<
        Option<T>,
        EntityError,
    >)
        requires
            entities.wf(),
        ensures
            r is Err <==> !entities.live(e),
            r matches Err(err) ==> err == EntityError::UnknownEntity && final(self)@ == old(self)@,
            r matches Ok(prev) ==> {
                &&& final(self)@.contains_key(e)
                &&& final(self)@[e] == value
                &&& forall|x: EntityId|
                    x != e && #[trigger] final(self)@.contains_key(x) ==> old(self)@.contains_key(x)
                        && final(self)@[x] == old(self)@[x]
                &&& forall|x: EntityId|
                    x != e && #[trigger] old(self)@.contains_key(x) && entities.live(x)
                        ==> final(self)@.contains_key(x)
                &&& (prev matches Some(v) <==> old(self)@.contains_key(e))
                &&& (prev matches Some(v) ==> v == old(self)@[e])
            },
    {
        if !entities.contains(e) {
            return Err(EntityError::UnknownEntity);
        }
        let i = e.slot();
        let ghost pre = self.entries@;
        while self.entries.len() <= i
            invariant
                pre.len() <= self.entries@.len(),
                forall|j: int| 0 <= j < pre.len() ==> self.entries@[j] == pre[j],
                forall|j: int| pre.len() <= j < self.entries@.len() ==> self.entries@[j] is None,
            decreases i + 1 - self.entries@.len(),
        {
            self.entries.push(None);
        }
        proof {
            assert forall|x: EntityId| #[trigger] self.holds(x) <==> old(self).holds(x) by {}
        }
        let mut slot = Some((e, value));
        std::mem::swap(&mut slot, &mut self.entries[i]);
        proof {
            assert forall|x: EntityId|
                x != e && #[trigger] old(self)@.contains_key(x) && entities.live(x) implies self@.contains_key(x) by {
                if x.idx() == e.idx() {
                    entities.lemma_one_per_slot(x, e);
                }
            }
        }
        match slot {
            Some(entry) => {
                if entry.0 == e {
                    Ok(Some(entry.1))
                } else {
                    Ok(None)
                }
            },
            None => Ok(None),
        }
    }

    /// Takes the value attached to `e` off the table.
    pub fn detach(&mut self, e: EntityId) -> (r: Option<T>)
        ensures
            final(self)@ == old(self)@.remove(e),
            r matches Some(v) <==> old(self)@.contains_key(e),
            r matches Some(v) ==> v == old(self)@[e],
    {
        if !self.contains(e) {
            proof {
                assert(self@ =~= old(self)@.remove(e));
            }
            return None;
        }
        let i = e.slot();
        let mut slot: Option<(EntityId, T)> = None;
        std::mem::swap(&mut slot, &mut self.entries[i]);
        proof {
            assert(forall|x: EntityId| x.idx() != e.idx() ==> (#[trigger] self.holds(x) <==> old(self).holds(x)));
            assert(self@ =~= old(self)@.remove(e));
        }
        match slot {
            Some(entry) => Some(entry.1),
            None => None,
        }
    }

    /// Drops every entry whose entity is no longer live in `entities`.
    pub fn retain_live(&mut self, entities: &EntityStore)
        requires
            entities.wf(),
        ensures
            forall|x: EntityId|
                #[trigger] final(self)@.contains_key(x) <==> old(self)@.contains_key(x) && entities.live(x),
            forall|x: EntityId| #[trigger] final(self)@.contains_key(x) ==> final(self)@[x] == old(self)@[x],
    {
        let n = self.entries.len();
        let mut i: usize = 0;
        while i < n
            invariant
                entities.wf(),
                n == self.entries@.len(),
                n == old(self).entries@.len(),
                i <= n,
                forall|j: int| i <= j < n ==> #[trigger] self.entries@[j] == old(self).entries@[j],
                forall|j: int|
                    0 <= j < i ==> (#[trigger] self.entries@[j] is Some ==> old(self).entries@[j] is Some
                        && self.entries@[j] == old(self).entries@[j] && entities.live(self.entries@[j]->Some_0.0)),
                forall|j: int|
                    0 <= j < i && old(self).entries@[j] is Some && entities.live(old(self).entries@[j]->Some_0.0)
                        ==> #[trigger] self.entries@[j] == old(self).entries@[j],
            decreases n - i,
        {
            let keep = match &self.entries[i] {
                Some(entry) => entities.contains(entry.0),
                None => true,
            };
            if !keep {
                self.entries.set(i, None);
            }
            i = i + 1;
        }
        proof {
            assert forall|x: EntityId|
                #[trigger] self@.contains_key(x) <==> old(self)@.contains_key(x) && entities.live(x) by {
                if (x.idx() as int) < n {
                    let j = x.idx() as int;
                    assert(self.entries@[j] == old(self).entries@[j] || self.entries@[j] is None);
                }
            }
        }
    }
}

/// Once an entity has been removed and a table cleared of entities that are
/// no longer live, the table holds nothing for the entity or anything that
/// was below it.
pub proof fn lemma_removed_subtree_has_no_components<T>(
    before: EntityStore,
    after: EntityStore,
    table: ComponentTable<T>,
    root: EntityId,
    d: EntityId,
    n: nat,
)
    requires
        after.wf(),
        !after.live(root),
        forall|x: EntityId| #[trigger]
            after.live(x) ==> before.live(x) && after.parent(x) == before.parent(x),
        forall|x: EntityId| #[trigger] table@.contains_key(x) ==> after.live(x),
        descends(before, d, root, n),
    ensures
        !after.live(d),
        !table@.contains_key(d),
{
    lemma_descendants_removed(before, after, root, d, n);
}

} // verus!
