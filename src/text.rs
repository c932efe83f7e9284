//! Registry of on-screen text overlays.
//!
//! Each text holds a payload (its uploaded texture and quad, owned by the
//! graphics layer) and a visibility flag. The registry hands out ids, tracks
//! visibility, lists what to draw in insertion order, and reports texts
//! still alive at teardown.
use crate::handle::{Handle, HandleSlab};
use vstd::prelude::*;

verus! {

/// A handle to a piece of text created with a `TextRenderer`.
#[derive(Clone, Copy, Debug, PartialEq, Eq, Structural)]
pub struct TextId {
    handle: Handle,
}

/// One text overlay.
pub struct Text<G> {
    payload: G,
    visible: bool,
}

impl<G> Text<G> {
    pub closed spec fn shown(self) -> bool {
        self.visible
    }

    pub closed spec fn data(self) -> G {
        self.payload
    }

    pub fn set_visible(&mut self, visible: bool)
        ensures
            final(self).shown() == visible,
            final(self).data() == old(self).data(),
    {
        self.visible = visible;
    }

    pub fn is_visible(&self) -> (r: bool)
        ensures
            r == self.shown(),
    {
        self.visible
    }

    pub fn payload(&self) -> (r: &G)
        ensures
            *r == self.data(),
    {
        &self.payload
    }
}

/// Text overlays keyed by `TextId`.
pub struct TextRenderer<G> {
    slab: HandleSlab<Text<G>>,
}

/// The ids among `order` whose text is visible in `m`, in order.
pub open spec fn visible_in<G>(order: Seq<Handle>, m: Map<Handle, Text<G>>) -> Seq<Handle>
    decreases order.len(),
{
    if order.len() == 0 {
        Seq::empty()
    } else {
        let rest = visible_in(order.drop_last(), m);
        if m[order.last()].shown() {
            rest.push(order.last())
        } else {
            rest
        }
    }
}

impl TextId {
    pub closed spec fn handle(self) -> Handle {
        self.handle
    }
}

impl<G> TextRenderer<G> {
    pub closed spec fn view(self) -> Map<Handle, Text<G>> {
        self.slab@
    }

    pub closed spec fn order(self) -> Seq<Handle> {
        self.slab.order()
    }

    pub closed spec fn wf(self) -> bool {
        self.slab.wf()
    }

    /// Every handle ever handed out by `insert`.
    pub closed spec fn issued(self) -> Set<Handle> {
        self.slab.issued()
    }

    /// The live texts are finite, listed once each by `order()`, and were
    /// all issued.
    pub proof fn lemma_order_matches(&self)
        requires
            self.wf(),
        ensures
            self@.dom().finite(),
            self.order().no_duplicates(),
            self.order().to_set() == self@.dom(),
            self.order().len() == self@.len(),
            self@.dom().subset_of(self.issued()),
    {
        self.slab.lemma_order_matches();
    }

    pub open spec fn live(self, id: TextId) -> bool {
        self@.contains_key(id.handle())
    }

    pub fn new() -> (r: Self)
        ensures
            r.wf(),
            r@ == Map::<Handle, Text<G>>::empty(),
            r.order() == Seq::<Handle>::empty(),
            r.issued() == Set::<Handle>::empty(),
    {
        TextRenderer { slab: HandleSlab::new() }
    }

    /// Registers a visible text with `payload`.
    pub fn insert(&mut self, payload: G) -> (id: TextId)
        requires
            old(self).wf(),
        ensures
            final(self).wf(),
            !old(self).live(id),
            !old(self).issued().contains(id.handle()),
            final(self).issued() == old(self).issued().insert(id.handle()),
            final(self)@ == old(self)@.insert(id.handle(), final(self)@[id.handle()]),
            final(self)@[id.handle()].shown(),
            final(self)@[id.handle()].data() == payload,
            final(self).order() == old(self).order().push(id.handle()),
    {
        let h = self.slab.insert(Text { payload, visible: true });
        TextId { handle: h }
    }

    /// Unregisters `id`; `false` when it was not live.
    pub fn remove(&mut self, id: TextId) -> (r: bool)
        requires
            old(self).wf(),
        ensures
            final(self).wf(),
            r == old(self).live(id),
            final(self)@ == old(self)@.remove(id.handle()),
            final(self).issued() == old(self).issued(),
            final(self).order() == old(self).order().filter(|x: Handle| x != id.handle()),
    {
        self.slab.remove(id.handle).is_some()
    }

    /// The text `id` names, if it is live.
    pub fn text(&self, id: TextId) -> (r: Option<&Text<G>>)
        requires
            self.wf(),
        ensures
            r matches Some(t) <==> self.live(id),
            r matches Some(t) ==> *t == self@[id.handle()],
    {
        self.slab.get(id.handle)
    }

    /// Mutable access to the text `id` names, if it is live.
    pub fn text_mut(&mut self, id: TextId) -> (r: Option<&mut Text<G>>)
        requires
            old(self).wf(),
        ensures
            r is Some <==> old(self).live(id),
            r matches Some(t) ==> *t == old(self)@[id.handle()] && final(self)@ == old(self)@.insert(
                id.handle(),
                *final(t),
            ),
            r is None ==> final(self)@ == old(self)@,
            final(self).wf(),
            final(self).order() == old(self).order(),
            final(self).issued() == old(self).issued(),
    {
        self.slab.get_mut(id.handle)
    }

    /// Shows or hides the text `id`; `false`, with nothing changed, when it
    /// is not live.
    pub fn set_visible(&mut self, id: TextId, visible: bool) -> (r: bool)
        requires
            old(self).wf(),
        ensures
            final(self).wf(),
            r == old(self).live(id),
            final(self).order() == old(self).order(),
            final(self).issued() == old(self).issued(),
            r ==> final(self)@.dom() == old(self)@.dom() && final(self)@[id.handle()].shown() == visible
                && final(self)@[id.handle()].data() == old(self)@[id.handle()].data() && forall|h: Handle|
                h != id.handle() ==> #[trigger] final(self)@[h] == old(self)@[h],
            !r ==> final(self)@ == old(self)@,
    {
        match self.slab.get_mut(id.handle) {
            Some(t) => {
                t.visible = visible;
                proof {
                    assert(self@.dom() =~= old(self)@.dom());
                }
                true
            },
            None => false,
        }
    }

    /// Ids of the visible texts, in insertion order: what a frame draws.
    pub fn visible(&self) -> (r: Vec<TextId>)
        requires
            self.wf(),
        ensures
            r@.len() == visible_in(self.order(), self@).len(),
            forall|t: int| 0 <= t < r@.len() ==> (#[trigger] r@[t]).handle() == visible_in(self.order(), self@)[t],
    {
        let order = self.slab.handles();
        let mut out: Vec<TextId> = Vec::new();
        let mut i: usize = 0;
        while i < order.len()
            invariant
                self.wf(),
                order@ == self.order(),
                order@.to_set() == self@.dom(),
                i <= order@.len(),
                out@.len() == visible_in(order@.subrange(0, i as int), self@).len(),
                forall|t: int|
                    0 <= t < out@.len() ==> (#[trigger] out@[t]).handle() == visible_in(
                        order@.subrange(0, i as int),
                        self@,
                    )[t],
            decreases order@.len() - i,
        {
            let h = order[i];
            proof {
                assert(order@.subrange(0, i + 1).drop_last() =~= order@.subrange(0, i as int));
                assert(order@.to_set().contains(h));
            }
            match self.slab.get(h) {
                Some(t) => {
                    if t.visible {
                        out.push(TextId { handle: h });
                    }
                },
                None => {},
            }
            i = i + 1;
        }
        proof {
            assert(order@.subrange(0, order@.len() as int) =~= order@);
        }
        out
    }

    /// Number of live texts; non-zero at teardown means texts leaked.
    pub fn len(&self) -> (r: usize)
        requires
            self.wf(),
        ensures
            r == self@.len(),
    {
        self.slab.len()
    }
}

} // verus!
