//! The entity hierarchy: entities named by handles, each with an optional
//! parent and an ordered list of children.
use crate::handle::{Handle, HandleSlab};
use vstd::prelude::*;

verus! {

/// Identifier of an entity.
pub type EntityId = Handle;

/// Links and label of one entity.
pub struct EntityNode {
    pub parent: Option<EntityId>,
    pub children: Vec<EntityId>,
    pub label: String,
}

/// Why an entity operation was refused.
#[derive(Clone, Copy, Debug, PartialEq, Eq, Structural)]
pub enum EntityError {
    UnknownParent,
    UnknownEntity,
}

/// Entities and their parent/child links.
pub struct EntityStore {
    nodes: HandleSlab<EntityNode>,
    depth: Ghost<Map<EntityId, nat>>,
}

/// `c` with the entries equal to `x` left out.
pub open spec fn without(c: Seq<EntityId>, x: EntityId) -> Seq<EntityId>
    decreases c.len(),
{
    if c.len() == 0 {
        Seq::empty()
    } else if c.last() == x {
        without(c.drop_last(), x)
    } else {
        without(c.drop_last(), x).push(c.last())
    }
}

proof fn lemma_push_contains(d: Seq<EntityId>, l: EntityId, y: EntityId)
    ensures
        d.push(l).contains(y) <==> d.contains(y) || y == l,
{
    let c = d.push(l);
    if c.contains(y) {
        let k = choose|k: int| 0 <= k < c.len() && c[k] == y;
        if k < d.len() {
            assert(d[k] == y);
        }
    }
    if d.contains(y) {
        let k = choose|k: int| 0 <= k < d.len() && d[k] == y;
        assert(c[k] == y);
    }
    if y == l {
        assert(c[d.len() as int] == y);
    }
}

proof fn lemma_without(c: Seq<EntityId>, x: EntityId)
    ensures
        forall|y: EntityId| #[trigger] without(c, x).contains(y) <==> c.contains(y) && y != x,
        c.no_duplicates() ==> without(c, x).no_duplicates(),
    decreases c.len(),
{
    if c.len() == 0 {
        assert(without(c, x) =~= Seq::<EntityId>::empty());
        assert forall|y: EntityId| #[trigger] without(c, x).contains(y) <==> c.contains(y) && y != x by {
            assert(!c.contains(y));
            assert(!without(c, x).contains(y));
        }
    } else {
        let d = c.drop_last();
        let l = c.last();
        assert(d.push(l) =~= c);
        lemma_without(d, x);
        let w = without(d, x);
        assert forall|y: EntityId| #[trigger] without(c, x).contains(y) <==> c.contains(y) && y != x by {
            lemma_push_contains(d, l, y);
            if l != x {
                lemma_push_contains(w, l, y);
            }
        }
        if c.no_duplicates() {
            assert(d.no_duplicates());
            if l != x {
                assert(!d.contains(l));
                assert(!w.contains(l));
                let v = w.push(l);
                assert forall|i: int, j: int| 0 <= i < j < v.len() implies v[i] != v[j] by {
                    if j == w.len() {
                        assert(v[i] == w[i]);
                    }
                }
            }
        }
    }
}

/// `d` is `a` or lies below it, at most `n` parent links away in `s`.
pub open spec fn descends(s: EntityStore, d: EntityId, a: EntityId, n: nat) -> bool
    decreases n,
{
    d == a || (n > 0 && s.live(d) && s.parent(d) is Some && descends(
        s,
        s.parent(d)->Some_0,
        a,
        (n - 1) as nat,
    ))
}

/// After a store loses `root`, keeping the links of what stays, nothing that
/// was below `root` is live any more.
pub proof fn lemma_descendants_removed(
    before: EntityStore,
    after: EntityStore,
    root: EntityId,
    d: EntityId,
    n: nat,
)
    requires
        after.wf(),
        !after.live(root),
        forall|x: EntityId| #[trigger]
            after.live(x) ==> before.live(x) && after.parent(x) == before.parent(x),
        descends(before, d, root, n),
    ensures
        !after.live(d),
    decreases n,
{
    if d != root {
        let p = before.parent(d)->Some_0;
        lemma_descendants_removed(before, after, root, p, (n - 1) as nat);
        if after.live(d) {
            assert(after.parent(d) == Some(p));
        }
    }
}

fn copy_without(v: &Vec<EntityId>, x: EntityId) -> (r: Vec<EntityId>)
    ensures
        r@ == without(v@, x),
{
    let mut out: Vec<EntityId> = Vec::new();
    let mut i: usize = 0;
    while i < v.len()
        invariant
            i <= v@.len(),
            out@ == without(v@.subrange(0, i as int), x),
        decreases v@.len() - i,
    {
        proof {
            assert(v@.subrange(0, i + 1).drop_last() =~= v@.subrange(0, i as int));
        }
        if v[i] != x {
            out.push(v[i]);
        }
        i = i + 1;
    }
    proof {
        assert(v@.subrange(0, v@.len() as int) =~= v@);
    }
    out
}

impl EntityStore {
    pub closed spec fn view(self) -> Map<EntityId, EntityNode> {
        self.nodes@
    }

    pub open spec fn live(self, e: EntityId) -> bool {
        self@.contains_key(e)
    }

    pub open spec fn parent(self, e: EntityId) -> Option<EntityId> {
        self@[e].parent
    }

    pub open spec fn children(self, e: EntityId) -> Seq<EntityId> {
        self@[e].children@
    }

    /// Every link has its counterpart and points at a live entity.
    pub open spec fn links_ok(self) -> bool {
        &&& forall|e: EntityId|
            #[trigger] self.live(e) && self.parent(e) is Some ==> {
                let p = self.parent(e)->Some_0;
                &&& self.live(p)
                &&& self.children(p).contains(e)
            }
        &&& forall|e: EntityId|
            #[trigger] self.live(e) ==> self.children(e).no_duplicates()
        &&& forall|e: EntityId, c: EntityId|
            #[trigger] self.live(e) && #[trigger] self.children(e).contains(c) ==> self.live(c)
                && self.parent(c) == Some(e)
    }

    /// Every entity lies one level below its parent, so parent links have
    /// no cycle.
    pub closed spec fn depth_ok(self) -> bool {
        forall|e: EntityId|
            #[trigger] self.live(e) && self.parent(e) is Some ==> self.depth@[e] == self.depth@[self.parent(
                e,
            )->Some_0] + 1
    }

    pub closed spec fn wf(self) -> bool {
        &&& self.nodes.wf()
        &&& self.links_ok()
        &&& self.depth_ok()
    }

    /// An empty store.
    pub fn new() -> (r: Self)
        ensures
            r.wf(),
            r@ == Map::<EntityId, EntityNode>::empty(),
    {
        EntityStore { nodes: HandleSlab::new(), depth: Ghost(Map::empty()) }
    }

    /// Two live entities never share a slot.
    pub proof fn lemma_one_per_slot(&self, a: EntityId, b: EntityId)
        requires
            self.wf(),
            self.live(a),
            self.live(b),
            a.idx() == b.idx(),
        ensures
            a == b,
    {
        self.nodes.lemma_one_per_slot(a, b);
    }

    /// The children of a live entity are live, and it is their parent.
    pub proof fn lemma_child_live(&self, e: EntityId, c: EntityId)
        requires
            self.wf(),
            self.live(e),
            self.children(e).contains(c),
        ensures
            self.live(c),
            self.parent(c) == Some(e),
    {
    }

    /// Whether `e` is live.
    pub fn contains(&self, e: EntityId) -> (r: bool)
        requires
            self.wf(),
        ensures
            r == self.live(e),
    {
        self.nodes.contains(e)
    }

    /// Number of live entities.
    pub fn len(&self) -> (r: usize)
        requires
            self.wf(),
        ensures
            r == self@.len(),
    {
        self.nodes.len()
    }

    /// A new entity without parent.
    pub fn add_root(&mut self, label: &str) -> (e: EntityId)
        requires
            old(self).wf(),
        ensures
            final(self).wf(),
            !old(self).live(e),
            final(self)@.dom() == old(self)@.dom().insert(e),
            final(self).parent(e) is None,
            final(self).children(e) == Seq::<EntityId>::empty(),
            final(self)@[e].label@ == label@,
            forall|x: EntityId| x != e ==> final(self)@[x] == old(self)@[x],
    {
        let node = EntityNode { parent: None, children: Vec::new(), label: label.to_owned() };
        let e = self.nodes.insert(node);
        proof {
            self.depth@ = self.depth@.insert(e, 0);
            assert(forall|x: EntityId| x != e ==> #[trigger] self@[x] == old(self)@[x]);
            assert(forall|x: EntityId| #[trigger] self.live(x) <==> old(self).live(x) || x == e);
            assert forall|x: EntityId, c: EntityId|
                #[trigger] self.live(x) && #[trigger] self.children(x).contains(c) implies self.live(c)
                    && self.parent(c) == Some(x) by {
                if x == e {
                    assert(self.children(x).len() == 0);
                } else {
                    assert(old(self).live(x) && old(self).children(x).contains(c));
                }
            }
            assert forall|x: EntityId|
                #[trigger] self.live(x) && self.parent(x) is Some implies {
                    let p = self.parent(x)->Some_0;
                    &&& self.live(p)
                    &&& self.children(p).contains(x)
                } by {
                if x != e {
                    assert(old(self).live(x));
                    let p = old(self).parent(x)->Some_0;
                    assert(old(self).children(p).contains(x));
                    assert(p != e);
                }
            }
            assert(self@.dom() =~= old(self)@.dom().insert(e));
        }
        e
    }

    /// A new entity as the last child of `parent`; `UnknownParent` when
    /// `parent` is not live.
    pub fn add(&mut self, parent: EntityId, label: &str) -> (r: Result<EntityId, EntityError>)
        requires
            old(self).wf(),
        ensures
            final(self).wf(),
            r is Err <==> !old(self).live(parent),
            r matches Err(err) ==> err == EntityError::UnknownParent && final(self)@ == old(self)@,
            r matches Ok(e) ==> {
                &&& !old(self).live(e)
                &&& final(self)@.dom() == old(self)@.dom().insert(e)
                &&& final(self).parent(e) == Some(parent)
                &&& final(self).children(e) == Seq::<EntityId>::empty()
                &&& final(self)@[e].label@ == label@
                &&& final(self).children(parent) == old(self).children(parent).push(e)
                &&& final(self).parent(parent) == old(self).parent(parent)
                &&& final(self)@[parent].label == old(self)@[parent].label
                &&& forall|x: EntityId| x != e && x != parent ==> final(self)@[x] == old(self)@[x]
            },
    {
        if !self.nodes.contains(parent) {
            return Err(EntityError::UnknownParent);
        }
        let node = EntityNode { parent: Some(parent), children: Vec::new(), label: label.to_owned() };
        let e = self.nodes.insert(node);
        let blank = EntityNode { parent: None, children: Vec::new(), label: String::new() };
        let ghost mid = self.nodes@;
        let taken = self.nodes.replace(parent, blank);
        let mut pnode = match taken {
            Some(n) => n,
            None => {
                proof {
                    assert(mid.contains_key(parent));
                }
                return Err(EntityError::UnknownParent);
            },
        };
        pnode.children.push(e);
        let _ = self.nodes.replace(parent, pnode);
        proof {
            let pre = *old(self);
            self.depth@ = self.depth@.insert(e, self.depth@[parent] + 1);
            assert(parent != e);
            assert(forall|x: EntityId| x != e && x != parent ==> #[trigger] self@[x] == pre@[x]);
            assert(forall|x: EntityId| #[trigger] self.live(x) <==> pre.live(x) || x == e);
            assert(self.children(parent) == pre.children(parent).push(e));
            assert(!pre.children(parent).contains(e)) by {
                if pre.children(parent).contains(e) {
                    assert(pre.live(parent) && pre.children(parent).contains(e));
                    assert(pre.live(e));
                }
            }
            assert forall|x: EntityId, c: EntityId|
                #[trigger] self.live(x) && #[trigger] self.children(x).contains(c) implies self.live(c)
                    && self.parent(c) == Some(x) by {
                if x == e {
                    assert(self.children(x).len() == 0);
                } else if x == parent {
                    if c != e {
                        let k = choose|k: int| 0 <= k < self.children(x).len() && self.children(x)[k] == c;
                        assert(pre.children(x)[k] == c);
                        assert(pre.children(x).contains(c));
                    }
                } else {
                    assert(pre.live(x) && pre.children(x).contains(c));
                    assert(c != e);
                }
            }
            assert forall|x: EntityId|
                #[trigger] self.live(x) && self.parent(x) is Some implies {
                    let p = self.parent(x)->Some_0;
                    &&& self.live(p)
                    &&& self.children(p).contains(x)
                } by {
                if x == e {
                    assert(self.children(parent)[self.children(parent).len() - 1] == e);
                } else {
                    assert(pre.live(x));
                    let p = pre.parent(x)->Some_0;
                    assert(pre.children(p).contains(x));
                    assert(p != e);
                    if p == parent {
                        let k = choose|k: int| 0 <= k < pre.children(p).len() && pre.children(p)[k] == x;
                        assert(self.children(p)[k] == x);
                    }
                }
            }
            assert forall|x: EntityId| #[trigger] self.live(x) implies self.children(x).no_duplicates() by {
                if x != e && x != parent {
                    assert(pre.live(x));
                }
            }
            assert(self@.dom() =~= pre@.dom().insert(e));
        }
        Ok(e)
    }

    /// The parent of `e`, when `e` is live and has one.
    pub fn parent_of(&self, e: EntityId) -> (r: Option<EntityId>)
        requires
            self.wf(),
        ensures
            !self.live(e) ==> r is None,
            self.live(e) ==> r == self.parent(e),
    {
        match self.nodes.get(e) {
            Some(n) => n.parent,
            None => None,
        }
    }

    /// The children of `e` in the order they were added; empty when `e` is
    /// not live.
    pub fn children_of(&self, e: EntityId) -> (r: Vec<EntityId>)
        requires
            self.wf(),
        ensures
            !self.live(e) ==> r@ == Seq::<EntityId>::empty(),
            self.live(e) ==> r@ == self.children(e),
    {
        match self.nodes.get(e) {
            Some(n) => {
                let mut out: Vec<EntityId> = Vec::new();
                let mut i: usize = 0;
                while i < n.children.len()
                    invariant
                        i <= n.children@.len(),
                        out@ == n.children@.subrange(0, i as int),
                    decreases n.children@.len() - i,
                {
                    out.push(n.children[i]);
                    proof {
                        assert(out@ =~= n.children@.subrange(0, i + 1));
                    }
                    i = i + 1;
                }
                proof {
                    assert(out@ =~= n.children@);
                }
                out
            },
            None => Vec::new(),
        }
    }
    /// Removes `e` and everything below it, and takes `e` off its parent's
    /// list of children. Returns the removed entities, `e` first, each
    /// listed after its parent; `UnknownEntity` when `e` is not live.
    pub fn remove(&mut self, e: EntityId) -> (r: Result<Vec<EntityId>, EntityError>)
        requires
            old(self).wf(),
        ensures
            final(self).wf(),
            r is Err <==> !old(self).live(e),
            r matches Err(err) ==> err == EntityError::UnknownEntity && final(self)@ == old(self)@,
            r matches Ok(removed) ==> {
                &&& removed@.len() > 0
                &&& removed@[0] == e
                &&& removed@.no_duplicates()
                &&& forall|t: int| 0 <= t < removed@.len() ==> old(self).live(#[trigger] removed@[t])
                &&& forall|t: int|
                    0 < t < removed@.len() ==> #[trigger] old(self).parent(removed@[t]) is Some
                        && removed@.subrange(0, t).contains(old(self).parent(removed@[t])->Some_0)
                &&& forall|x: EntityId|
                    #[trigger] final(self).live(x) <==> old(self).live(x) && !removed@.contains(x)
                &&& forall|x: EntityId|
                    #[trigger] final(self).live(x) ==> final(self).parent(x) == old(self).parent(x)
                        && final(self)@[x].label == old(self)@[x].label
                &&& forall|x: EntityId|
                    #[trigger] final(self).live(x) && Some(x) != old(self).parent(e) ==> final(self)@[x]
                        == old(self)@[x]
                &&& old(self).parent(e) matches Some(p) ==> final(self).live(p) && final(self).children(p)
                    == without(old(self).children(p), e)
            },
    {
        let parent = match self.nodes.get(e) {
            Some(n) => n.parent,
            None => {
                return Err(EntityError::UnknownEntity);
            },
        };
        let ghost pre = *old(self);
        if let Some(p) = parent {
            let blank = EntityNode { parent: None, children: Vec::new(), label: String::new() };
            let taken = self.nodes.replace(p, blank);
            match taken {
                Some(pnode) => {
                    let EntityNode { parent: pp, children, label } = pnode;
                    let kept = copy_without(&children, e);
                    let _ = self.nodes.replace(p, EntityNode { parent: pp, children: kept, label });
                },
                None => {
                    proof {
                        assert(pre.live(e) && pre.parent(e) is Some);
                    }
                },
            }
            proof {
                lemma_without(pre.children(p), e);
                assert(self.nodes@[p].children@ == without(pre.children(p), e));
            }
        }
        let ghost base = self.nodes@;
        let ghost depth = self.depth@;
        proof {
            assert forall|x: EntityId| #[trigger] base.contains_key(x) <==> pre.live(x) by {}
            assert forall|x: EntityId| #[trigger] base.contains_key(x) ==> base[x].parent == pre.parent(x)
                && base[x].label == pre@[x].label && (Some(x) != parent ==> base[x] == pre@[x]) by {}
            assert forall|x: EntityId, c: EntityId|
                #[trigger] base.contains_key(x) && #[trigger] base[x].children@.contains(c) implies base.contains_key(c)
                    && base[c].parent == Some(x) && c != e by {
                assert(pre.live(x));
                if Some(x) == parent {
                    assert(pre.children(x).contains(c));
                } else {
                    assert(pre.children(x).contains(c));
                    if c == e {
                        assert(pre.parent(e) == Some(x));
                    }
                }
            }
        }
        let mut removed: Vec<EntityId> = Vec::new();
        let mut stack: Vec<EntityId> = Vec::new();
        stack.push(e);
        let ghost total = base.len();
        proof {
            self.nodes.lemma_finite();
        }
        while stack.len() > 0
            invariant
                self.nodes.wf(),
                base.dom().finite(),
                total == base.len(),
                base.contains_key(e),
                forall|x: EntityId|
                    #[trigger] self.nodes@.contains_key(x) <==> base.contains_key(x) && !removed@.contains(x),
                forall|x: EntityId| #[trigger] self.nodes@.contains_key(x) ==> self.nodes@[x] == base[x],
                removed@.no_duplicates(),
                forall|t: int| 0 <= t < removed@.len() ==> base.contains_key(#[trigger] removed@[t]),
                removed@.len() > 0 ==> removed@[0] == e,
                forall|t: int|
                    0 < t < removed@.len() ==> #[trigger] base[removed@[t]].parent is Some
                        && removed@.subrange(0, t).contains(base[removed@[t]].parent->Some_0),
                forall|k: int|
                    0 <= k < stack@.len() ==> #[trigger] stack@[k] == e || (base.contains_key(stack@[k])
                        && base[stack@[k]].parent is Some && removed@.contains(
                        base[stack@[k]].parent->Some_0,
                    )),
                forall|x: EntityId|
                    #[trigger] self.nodes@.contains_key(x) && base[x].parent is Some && !self.nodes@.contains_key(
                        base[x].parent->Some_0,
                    ) ==> x == e || stack@.contains(x),
                removed@.len() == 0 ==> self.nodes@.contains_key(e),
                removed@.len() == 0 ==> stack@.len() > 0,
                pre.wf(),
                self.depth@ == depth,
                depth == pre.depth@,
                forall|x: EntityId| #[trigger] base.contains_key(x) <==> pre.live(x),
                forall|x: EntityId| #[trigger] base.contains_key(x) ==> base[x].parent == pre.parent(x),
                forall|t: int| 0 <= t < removed@.len() ==> depth[#[trigger] removed@[t]] >= depth[e],
                forall|x: EntityId, c: EntityId|
                    #[trigger] base.contains_key(x) && #[trigger] base[x].children@.contains(c) ==> base.contains_key(c)
                        && base[c].parent == Some(x) && c != e,
                forall|x: EntityId| #[trigger] base.contains_key(x) && Some(x) != parent ==> base[x] == pre@[x],
                parent == pre.parent(e),
                parent matches Some(p) ==> base[p].children@ == without(pre.children(p), e),
                parent matches Some(p) ==> base.contains_key(p) && p != e,
            decreases total - removed@.len(), stack@.len(),
        {
            let ghost stack_old = stack@;
            let x = match stack.pop() {
                Some(x) => x,
                None => e,
            };
            let ghost before_stack = stack@;
            proof {
                assert(stack_old == before_stack.push(x));
                assert(stack_old[stack_old.len() - 1] == x);
            }
            match self.nodes.remove(x) {
                Some(node) => {
                    let ghost prev_removed = removed@;
                    removed.push(x);
                    proof {
                        assert(removed@[removed@.len() - 1] == x);
                        assert(!prev_removed.contains(x));
                        assert forall|y: EntityId| prev_removed.contains(y) implies #[trigger] removed@.contains(y) by {
                            lemma_push_contains(prev_removed, x, y);
                        }
                        if x != e {
                            let q = base[x].parent->Some_0;
                            assert(pre.live(x));
                            assert(pre.parent(x) == Some(q));
                            assert(depth[x] == depth[q] + 1);
                            let t = choose|t: int| 0 <= t < prev_removed.len() && prev_removed[t] == q;
                            assert(depth[prev_removed[t]] >= depth[e]);
                        }
                        assert forall|t: int| 0 <= t < removed@.len() implies depth[#[trigger] removed@[t]] >= depth[e] by {
                            if t < prev_removed.len() {
                                assert(removed@[t] == prev_removed[t]);
                            }
                        }
                        assert forall|t: int| 0 < t < removed@.len() implies #[trigger] base[removed@[t]].parent is Some
                            && removed@.subrange(0, t).contains(base[removed@[t]].parent->Some_0) by {
                            if t < prev_removed.len() {
                                assert(removed@.subrange(0, t) =~= prev_removed.subrange(0, t));
                            } else {
                                assert(removed@.subrange(0, t) =~= prev_removed);
                            }
                        }
                        assert(removed@.to_set().subset_of(base.dom()));
                        removed@.unique_seq_to_set();
                        vstd::set_lib::lemma_len_subset(removed@.to_set(), base.dom());
                    }
                    let mut i: usize = 0;
                    while i < node.children.len()
                        invariant
                            node.children@ == base[x].children@,
                            base.contains_key(x),
                            removed@.contains(x),
                            i <= node.children@.len(),
                            stack@.len() == before_stack.len() + i,
                            forall|k: int| 0 <= k < before_stack.len() ==> stack@[k] == before_stack[k],
                            forall|k: int| 0 <= k < i ==> stack@[before_stack.len() + k] == node.children@[k],
                        decreases node.children@.len() - i,
                    {
                        stack.push(node.children[i]);
                        i = i + 1;
                    }
                    proof {
                        assert forall|k: int| 0 <= k < stack@.len() implies #[trigger] stack@[k] == e || (base.contains_key(stack@[k])
                            && base[stack@[k]].parent is Some && removed@.contains(base[stack@[k]].parent->Some_0)) by {
                            if k < before_stack.len() {
                                assert(stack@[k] == before_stack[k]);
                                assert(stack_old[k] == before_stack[k]);
                            } else {
                                let c = node.children@[k - before_stack.len()];
                                assert(base[x].children@.contains(c));
                            }
                        }
                        assert forall|y: EntityId|
                            #[trigger] self.nodes@.contains_key(y) && base[y].parent is Some && !self.nodes@.contains_key(base[y].parent->Some_0)
                                implies y == e || stack@.contains(y) by {
                            if base[y].parent->Some_0 == x {
                                assert(base.contains_key(x));
                                assert(pre.live(y));
                                let q = base[y].parent->Some_0;
                                if y != e {
                                    assert(pre.parent(y) == Some(q));
                                    assert(pre.children(q).contains(y));
                                    assert(base[q].children@.contains(y)) by {
                                        lemma_without(pre.children(q), e);
                                    }
                                    let k = choose|k: int| 0 <= k < base[x].children@.len() && base[x].children@[k] == y;
                                    assert(stack@[before_stack.len() + k] == y);
                                }
                            } else if y != e {
                                assert(before_stack.push(x).contains(y));
                                lemma_push_contains(before_stack, x, y);
                                assert(y != x);
                                let k = choose|k: int| 0 <= k < before_stack.len() && before_stack[k] == y;
                                assert(stack@[k] == y);
                            }
                        }
                    }
                },
                None => {
                    proof {
                        if removed@.len() == 0 {
                            assert(stack_old[stack_old.len() - 1] == x);
                            assert(x == e);
                        }
                        assert forall|k: int| 0 <= k < stack@.len() implies #[trigger] stack@[k] == e || (base.contains_key(stack@[k])
                            && base[stack@[k]].parent is Some && removed@.contains(base[stack@[k]].parent->Some_0)) by {
                            assert(stack_old[k] == stack@[k]);
                        }
                        assert forall|y: EntityId|
                            #[trigger] self.nodes@.contains_key(y) && base[y].parent is Some && !self.nodes@.contains_key(base[y].parent->Some_0)
                                implies y == e || stack@.contains(y) by {
                            if y != e {
                                lemma_push_contains(before_stack, x, y);
                            }
                        }
                    }
                },
            }
        }
        Ok(removed)
    }
}

} // verus!
