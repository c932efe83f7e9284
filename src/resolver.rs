//! Initialization order of systems from their declared dependencies.
//!
//! Systems are named by a numeric kind. The resolver returns the positions of
//! the registered descriptors in an order where every dependency comes before
//! the systems that declare it; among systems that are ready at the same time
//! the one registered first goes first.
use vstd::prelude::*;
use vstd::arithmetic::div_mod::{lemma_mod_self_0, lemma_small_mod};
use vstd::set_lib::*;

verus! {

/// A registered system: its kind and the kinds it must see initialized.
#[derive(Clone, Debug)]
pub struct SystemDescriptor {
    pub kind: u64,
    pub deps: Vec<u64>,
}

/// Why no initialization order exists.
#[derive(Clone, Debug, PartialEq, Eq)]
pub enum DependencyError {
    /// Two descriptors share a kind.
    DuplicateSystem(u64),
    /// `system` declares `missing`, which no descriptor has.
    MissingDependency { system: u64, missing: u64 },
    /// The kinds of a dependency cycle: each depends on the next, the last
    /// on the first.
    CyclicDependency(Vec<u64>),
}

pub open spec fn unique_kinds(s: Seq<SystemDescriptor>) -> bool {
    forall|i: int, j: int|
        0 <= i < s.len() && 0 <= j < s.len() && i != j ==> #[trigger] s[i].kind != #[trigger] s[j].kind
}

pub open spec fn registered(s: Seq<SystemDescriptor>, k: u64) -> bool {
    exists|i: int| 0 <= i < s.len() && #[trigger] s[i].kind == k
}

pub open spec fn all_registered(s: Seq<SystemDescriptor>) -> bool {
    forall|i: int, t: int|
        0 <= i < s.len() && 0 <= t < s[i].deps@.len() ==> registered(s, #[trigger] s[i].deps@[t])
}

/// Descriptor `i` declares the kind of descriptor `j`.
pub open spec fn depends_on(s: Seq<SystemDescriptor>, i: int, j: int) -> bool {
    &&& 0 <= i < s.len()
    &&& 0 <= j < s.len()
    &&& s[i].deps@.contains(s[j].kind)
}

/// Every dependency of descriptor `i` is among `placed`.
pub open spec fn ready(s: Seq<SystemDescriptor>, placed: Seq<usize>, i: int) -> bool {
    forall|j: int| #[trigger] depends_on(s, i, j) ==> placed.contains(j as usize)
}

/// `order` lists each descriptor once, each after all it depends on.
pub open spec fn is_topological(s: Seq<SystemDescriptor>, order: Seq<usize>) -> bool {
    &&& order.len() == s.len()
    &&& order.no_duplicates()
    &&& forall|p: int| 0 <= p < order.len() ==> #[trigger] order[p] < s.len()
    &&& forall|p: int, j: int|
        0 <= p < order.len() && #[trigger] depends_on(s, order[p] as int, j) ==> order.subrange(
            0,
            p,
        ).contains(j as usize)
}

/// At each position, no lower descriptor not yet placed was ready.
pub open spec fn takes_lowest_ready(s: Seq<SystemDescriptor>, order: Seq<usize>) -> bool {
    forall|p: int, i: int|
        0 <= p < order.len() && 0 <= i < order[p] && !#[trigger] order.subrange(0, p).contains(
            i as usize,
        ) ==> !ready(s, order.subrange(0, p), i)
}

/// `c` is a dependency cycle among the kinds of `s`.
pub open spec fn is_kind_cycle(s: Seq<SystemDescriptor>, c: Seq<u64>) -> bool {
    &&& c.len() > 0
    &&& forall|t: int|
        #![trigger c[t]]
        0 <= t < c.len() ==> exists|i: int|
            #![trigger s[i]]
            0 <= i < s.len() && s[i].kind == c[t] && s[i].deps@.contains(
                c[(t + 1) % (c.len() as int)],
            )
}

pub open spec fn below(n: nat) -> Set<usize> {
    Set::new(|x: usize| (x as nat) < n)
}

proof fn lemma_below_len(n: nat)
    requires
        n <= usize::MAX + 1,
    ensures
        below(n).finite(),
        below(n).len() == n,
    decreases n,
{
    if n == 0 {
        assert(below(n) =~= Set::<usize>::empty());
    } else {
        lemma_below_len((n - 1) as nat);
        assert(below(n) =~= below((n - 1) as nat).insert((n - 1) as usize));
    }
}

/// A sequence of distinct values below `n` has at most `n` entries, and
/// exactly `n` when it holds them all.
proof fn lemma_distinct_below(s: Seq<usize>, n: nat)
    requires
        n <= usize::MAX + 1,
        s.no_duplicates(),
        forall|p: int| 0 <= p < s.len() ==> (#[trigger] s[p] as nat) < n,
    ensures
        s.len() <= n,
        (forall|x: usize| (x as nat) < n ==> #[trigger] s.contains(x)) ==> s.len() == n,
{
    lemma_below_len(n);
    s.unique_seq_to_set();
    assert(s.to_set().subset_of(below(n)));
    lemma_len_subset(s.to_set(), below(n));
    if forall|x: usize| (x as nat) < n ==> #[trigger] s.contains(x) {
        assert(s.to_set() =~= below(n));
    }
}

/// Positions of the dependencies of each descriptor.
spec fn adjacency_ok(s: Seq<SystemDescriptor>, adj: Seq<Vec<usize>>) -> bool {
    &&& adj.len() == s.len()
    &&& forall|i: int|
        0 <= i < s.len() ==> (#[trigger] adj[i])@.len() == s[i].deps@.len()
    &&& forall|i: int, t: int|
        0 <= i < s.len() && 0 <= t < adj[i]@.len() ==> {
            &&& #[trigger] adj[i]@[t] < s.len()
            &&& s[adj[i]@[t] as int].kind == s[i].deps@[t]
        }
}

fn position_of_kind(systems: &Vec<SystemDescriptor>, k: u64) -> (r: Option<usize>)
    ensures
        r matches Some(j) ==> j < systems@.len() && systems@[j as int].kind == k,
        r is None ==> !registered(systems@, k),
{
    let mut j: usize = 0;
    while j < systems.len()
        invariant
            j <= systems@.len(),
            forall|q: int| 0 <= q < j ==> #[trigger] systems@[q].kind != k,
        decreases systems@.len() - j,
    {
        if systems[j].kind == k {
            return Some(j);
        }
        j = j + 1;
    }
    None
}

fn find_duplicate(systems: &Vec<SystemDescriptor>) -> (r: Option<u64>)
    ensures
        r is None <==> unique_kinds(systems@),
        r matches Some(k) ==> exists|i: int, j: int|
            0 <= i < j < systems@.len() && systems@[i].kind == k && systems@[j].kind == k,
{
    let n = systems.len();
    let mut j: usize = 0;
    while j < n
        invariant
            n == systems@.len(),
            j <= n,
            forall|a: int, b: int|
                0 <= a < j && 0 <= b < j && a != b ==> #[trigger] systems@[a].kind
                    != #[trigger] systems@[b].kind,
        decreases n - j,
    {
        let mut i: usize = 0;
        while i < j
            invariant
                n == systems@.len(),
                i <= j < n,
                forall|a: int| 0 <= a < i ==> #[trigger] systems@[a].kind != systems@[j as int].kind,
            decreases j - i,
        {
            if systems[i].kind == systems[j].kind {
                return Some(systems[j].kind);
            }
            i = i + 1;
        }
        j = j + 1;
    }
    None
}

/// Replaces every declared kind by the position of its descriptor.
fn build_adjacency(systems: &Vec<SystemDescriptor>) -> (r: Result<Vec<Vec<usize>>, DependencyError>)
    requires
        unique_kinds(systems@),
    ensures
        r is Ok <==> all_registered(systems@),
        r matches Ok(adj) ==> adjacency_ok(systems@, adj@),
        r matches Err(e) ==> e matches DependencyError::MissingDependency { system, missing } && exists|i: int|
            0 <= i < systems@.len() && systems@[i].kind == system && systems@[i].deps@.contains(missing)
                && !registered(systems@, missing),
{
    let n = systems.len();
    let mut adj: Vec<Vec<usize>> = Vec::new();
    let mut i: usize = 0;
    while i < n
        invariant
            n == systems@.len(),
            i <= n,
            adj@.len() == i,
            forall|a: int| 0 <= a < i ==> (#[trigger] adj@[a])@.len() == systems@[a].deps@.len(),
            forall|a: int, t: int|
                0 <= a < i && 0 <= t < adj@[a]@.len() ==> {
                    &&& #[trigger] adj@[a]@[t] < n
                    &&& systems@[adj@[a]@[t] as int].kind == systems@[a].deps@[t]
                },
            forall|a: int, t: int|
                0 <= a < i && 0 <= t < systems@[a].deps@.len() ==> registered(
                    systems@,
                    #[trigger] systems@[a].deps@[t],
                ),
        decreases n - i,
    {
        let deps = &systems[i].deps;
        let mut row: Vec<usize> = Vec::new();
        let mut t: usize = 0;
        while t < deps.len()
            invariant
                n == systems@.len(),
                i < n,
                deps@ == systems@[i as int].deps@,
                t <= deps@.len(),
                row@.len() == t,
                forall|q: int|
                    0 <= q < t ==> #[trigger] row@[q] < n && systems@[row@[q] as int].kind
                        == deps@[q],
            decreases deps@.len() - t,
        {
            match position_of_kind(systems, deps[t]) {
                Some(j) => {
                    row.push(j);
                },
                None => {
                    proof {
                        assert(systems@[i as int].deps@.contains(deps@[t as int]));
                        assert(!registered(systems@, systems@[i as int].deps@[t as int]));
                    }
                    return Err(
                        DependencyError::MissingDependency { system: systems[i].kind, missing: deps[t] },
                    );
                },
            }
            t = t + 1;
        }
        proof {
            assert forall|q: int| 0 <= q < systems@[i as int].deps@.len() implies registered(
                systems@,
                #[trigger] systems@[i as int].deps@[q],
            ) by {
                assert(systems@[row@[q] as int].kind == deps@[q]);
            }
        }
        adj.push(row);
        i = i + 1;
    }
    Ok(adj)
}

/// First dependency of `i` that is not placed yet, if any.
fn first_unplaced_dep(
    systems: &Vec<SystemDescriptor>,
    adj: &Vec<Vec<usize>>,
    placed: &Vec<bool>,
    i: usize,
) -> (r: Option<usize>)
    requires
        unique_kinds(systems@),
        adjacency_ok(systems@, adj@),
        placed@.len() == systems@.len(),
        i < systems@.len(),
    ensures
        r matches Some(j) ==> j < systems@.len() && depends_on(systems@, i as int, j as int)
            && !placed@[j as int],
        r is None ==> forall|j: int| #[trigger]
            depends_on(systems@, i as int, j) ==> placed@[j],
{
    let row = &adj[i];
    let mut t: usize = 0;
    while t < row.len()
        invariant
            row@ == adj@[i as int]@,
            i < systems@.len(),
            adjacency_ok(systems@, adj@),
            placed@.len() == systems@.len(),
            t <= row@.len(),
            forall|q: int| 0 <= q < t ==> placed@[#[trigger] row@[q] as int],
        decreases row@.len() - t,
    {
        let j = row[t];
        if !placed[j] {
            proof {
                assert(systems@[i as int].deps@[t as int] == systems@[j as int].kind);
                assert(systems@[i as int].deps@.contains(systems@[j as int].kind));
            }
            return Some(j);
        }
        t = t + 1;
    }
    proof {
        assert forall|j: int| #[trigger] depends_on(systems@, i as int, j) implies placed@[j] by {
            let q = choose|q: int|
                0 <= q < systems@[i as int].deps@.len() && systems@[i as int].deps@[q]
                    == systems@[j].kind;
            assert(systems@[row@[q] as int].kind == systems@[j].kind);
            assert(row@[q] as int == j);
        }
    }
    None
}

spec fn placed_matches(placed: Seq<bool>, order: Seq<usize>) -> bool {
    forall|j: int| 0 <= j < placed.len() ==> (#[trigger] placed[j] <==> order.contains(j as usize))
}

/// Follows unplaced dependencies from `start` until one repeats; returns the
/// kinds around the loop found.
fn extract_cycle(
    systems: &Vec<SystemDescriptor>,
    adj: &Vec<Vec<usize>>,
    placed: &Vec<bool>,
    start: usize,
) -> (c: Vec<u64>)
    requires
        unique_kinds(systems@),
        adjacency_ok(systems@, adj@),
        placed@.len() == systems@.len(),
        start < systems@.len(),
        !placed@[start as int],
        forall|v: int|
            0 <= v < systems@.len() && !placed@[v] ==> exists|j: int|
                #[trigger] depends_on(systems@, v, j) && !placed@[j],
    ensures
        is_kind_cycle(systems@, c@),
{
    let n = systems.len();
    let mut path: Vec<usize> = Vec::new();
    let mut on_path: Vec<bool> = Vec::new();
    let mut v: usize = 0;
    while v < n
        invariant
            v <= n,
            on_path@.len() == v,
            forall|q: int| 0 <= q < v ==> !(#[trigger] on_path@[q]),
        decreases n - v,
    {
        on_path.push(false);
        v = v + 1;
    }
    path.push(start);
    on_path.set(start, true);
    proof {
        assert forall|q: int| 0 <= q < n implies (#[trigger] on_path@[q] <==> path@.contains(q as usize)) by {
            if q == start {
                assert(path@[0] == start);
            }
        }
    }
    loop
        invariant
            n == systems@.len(),
            unique_kinds(systems@),
            adjacency_ok(systems@, adj@),
            placed@.len() == n,
            on_path@.len() == n,
            forall|v: int|
                0 <= v < systems@.len() && !placed@[v] ==> exists|j: int|
                    #[trigger] depends_on(systems@, v, j) && !placed@[j],
            path@.len() > 0,
            path@.no_duplicates(),
            forall|p: int| 0 <= p < path@.len() ==> #[trigger] path@[p] < n && !placed@[path@[p] as int],
            forall|q: int| 0 <= q < n ==> (#[trigger] on_path@[q] <==> path@.contains(q as usize)),
            forall|p: int|
                0 <= p < path@.len() - 1 ==> depends_on(
                    systems@,
                    #[trigger] path@[p] as int,
                    path@[p + 1] as int,
                ),
        decreases n - path@.len(),
    {
        let cur = path[path.len() - 1];
        let w = match first_unplaced_dep(systems, adj, placed, cur) {
            Some(w) => w,
            None => {
                proof {
                    let j = choose|j: int| #[trigger] depends_on(systems@, cur as int, j) && !placed@[j];
                }
                path.len()
            },
        };
        if w >= n {
            proof {
                let j = choose|j: int| #[trigger] depends_on(systems@, cur as int, j) && !placed@[j];
                assert(false);
            }
            return Vec::new();
        }
        if on_path[w] {
            let mut q: usize = 0;
            while q < path.len() && path[q] != w
                invariant
                    q <= path@.len(),
                    forall|p: int| 0 <= p < q ==> path@[p] != w,
                decreases path@.len() - q,
            {
                q = q + 1;
            }
            if q >= path.len() {
                proof {
                    assert(path@.contains(w as usize));
                    let p = choose|p: int| 0 <= p < path@.len() && path@[p] == w;
                    assert(false);
                }
                return Vec::new();
            }
            let start_q = q;
            let mut c: Vec<u64> = Vec::new();
            let mut p: usize = start_q;
            while p < path.len()
                invariant
                    start_q <= p <= path@.len(),
                    c@.len() == p - start_q,
                    forall|t: int|
                        0 <= t < c@.len() ==> #[trigger] c@[t] == systems@[path@[start_q + t] as int].kind,
                    forall|r: int| 0 <= r < path@.len() ==> #[trigger] path@[r] < n,
                    n == systems@.len(),
                decreases path@.len() - p,
            {
                c.push(systems[path[p]].kind);
                p = p + 1;
            }
            proof {
                assert(path@[start_q as int] == w);
                let len = c@.len() as int;
                assert forall|t: int| #![trigger c@[t]] 0 <= t < len implies exists|i: int|
                    #![trigger systems@[i]]
                    0 <= i < systems@.len() && systems@[i].kind == c@[t]
                        && systems@[i].deps@.contains(c@[(t + 1) % len]) by {
                    let i = path@[start_q + t] as int;
                    if t + 1 < len {
                        lemma_small_mod((t + 1) as nat, len as nat);
                        assert(depends_on(systems@, path@[start_q + t] as int, path@[start_q + t + 1] as int));
                    } else {
                        lemma_mod_self_0(len);
                        assert(depends_on(systems@, cur as int, w as int));
                    }
                }
            }
            return c;
        }
        proof {
            assert(!path@.contains(w));
        }
        let ghost prev = path@;
        let ghost prev_on = on_path@;
        path.push(w);
        on_path.set(w, true);
        proof {
            assert(path@ == prev.push(w));
            assert forall|q: int| 0 <= q < n implies (#[trigger] on_path@[q] <==> path@.contains(q as usize)) by {
                if q == w {
                    assert(path@[path@.len() - 1] == w);
                } else {
                    assert(on_path@[q] == prev_on[q]);
                    if path@.contains(q as usize) {
                        let p = choose|p: int| 0 <= p < path@.len() && path@[p] == q as usize;
                        assert(prev[p] == q as usize);
                    }
                    if prev.contains(q as usize) {
                        let p = choose|p: int| 0 <= p < prev.len() && prev[p] == q as usize;
                        assert(path@[p] == q as usize);
                    }
                }
            }
            lemma_distinct_below(path@, n as nat);
        }
    }
}

/// Computes the initialization order of `systems`, as positions into it.
///
/// Fails with `DuplicateSystem` when two descriptors share a kind, else with
/// `MissingDependency` when a declared kind has no descriptor, else with
/// `CyclicDependency` when no order exists. Among the systems ready at a
/// step, the one registered first is taken.
pub fn resolve(systems: &Vec<SystemDescriptor>) -> (r: Result<Vec<usize>, DependencyError>)
    ensures
        r matches Ok(order) ==> {
            &&& unique_kinds(systems@)
            &&& all_registered(systems@)
            &&& is_topological(systems@, order@)
            &&& takes_lowest_ready(systems@, order@)
        },
        !unique_kinds(systems@) ==> r matches Err(DependencyError::DuplicateSystem(_)),
        r matches Err(DependencyError::DuplicateSystem(k)) ==> exists|i: int, j: int|
            0 <= i < j < systems@.len() && systems@[i].kind == k && systems@[j].kind == k,
        unique_kinds(systems@) && !all_registered(systems@) ==> r matches Err(
            DependencyError::MissingDependency { .. },
        ),
        r matches Err(DependencyError::MissingDependency { system, missing }) ==> {
            &&& unique_kinds(systems@)
            &&& !registered(systems@, missing)
            &&& exists|i: int|
                0 <= i < systems@.len() && systems@[i].kind == system
                    && systems@[i].deps@.contains(missing)
        },
        r matches Err(DependencyError::CyclicDependency(c)) ==> {
            &&& unique_kinds(systems@)
            &&& all_registered(systems@)
            &&& is_kind_cycle(systems@, c@)
        },
{
    if let Some(k) = find_duplicate(systems) {
        return Err(DependencyError::DuplicateSystem(k));
    }
    let adj = match build_adjacency(systems) {
        Ok(adj) => adj,
        Err(e) => {
            return Err(e);
        },
    };
    let n = systems.len();
    let mut placed: Vec<bool> = Vec::new();
    let mut v: usize = 0;
    while v < n
        invariant
            v <= n,
            placed@.len() == v,
            forall|q: int| 0 <= q < v ==> !(#[trigger] placed@[q]),
        decreases n - v,
    {
        placed.push(false);
        v = v + 1;
    }
    let mut order: Vec<usize> = Vec::new();
    while order.len() < n
        invariant
            n == systems@.len(),
            unique_kinds(systems@),
            all_registered(systems@),
            adjacency_ok(systems@, adj@),
            placed@.len() == n,
            placed_matches(placed@, order@),
            order@.no_duplicates(),
            order@.len() <= n,
            forall|p: int| 0 <= p < order@.len() ==> #[trigger] order@[p] < n,
            forall|p: int, j: int|
                0 <= p < order@.len() && #[trigger] depends_on(systems@, order@[p] as int, j)
                    ==> order@.subrange(0, p).contains(j as usize),
            takes_lowest_ready(systems@, order@),
        decreases n - order@.len(),
    {
        let mut i: usize = 0;
        let mut pick: Option<usize> = None;
        let mut unplaced: Option<usize> = None;
        while i < n && pick.is_none()
            invariant
                n == systems@.len(),
                unique_kinds(systems@),
                adjacency_ok(systems@, adj@),
                placed@.len() == n,
                placed_matches(placed@, order@),
                i <= n,
                forall|q: int| 0 <= q < i && !placed@[q] ==> #[trigger] ready(systems@, order@, q) ==> pick == Some(q as usize),
                pick matches Some(q) ==> q < n && !placed@[q as int] && ready(systems@, order@, q as int) && q + 1 == i,
                forall|q: int| 0 <= q < i && pick.is_none() ==> (placed@[q] || !#[trigger] ready(systems@, order@, q)),
                unplaced matches Some(u) ==> u < n && !placed@[u as int],
                unplaced is None ==> forall|q: int| 0 <= q < i ==> #[trigger] placed@[q],
            decreases n - i,
        {
            if !placed[i] {
                if unplaced.is_none() {
                    unplaced = Some(i);
                }
                match first_unplaced_dep(systems, &adj, &placed, i) {
                    None => {
                        proof {
                            assert forall|j: int| #[trigger] depends_on(systems@, i as int, j) implies order@.contains(j as usize) by {
                                assert(placed@[j]);
                            }
                        }
                        pick = Some(i);
                    },
                    Some(j) => {
                        proof {
                            assert(depends_on(systems@, i as int, j as int));
                            assert(!order@.contains(j as usize));
                        }
                    },
                }
            }
            i = i + 1;
        }
        match pick {
            Some(q) => {
                let ghost prev = order@;
                order.push(q);
                placed.set(q, true);
                proof {
                    assert(order@ == prev.push(q));
                    assert(!prev.contains(q));
                    assert(order@.subrange(0, prev.len() as int) =~= prev);
                    assert forall|j: int| 0 <= j < n implies (#[trigger] placed@[j] <==> order@.contains(j as usize)) by {
                        if j == q {
                            assert(order@[prev.len() as int] == q);
                        } else {
                            if order@.contains(j as usize) {
                                let p = choose|p: int| 0 <= p < order@.len() && order@[p] == j as usize;
                                assert(prev[p] == j as usize);
                            }
                            if prev.contains(j as usize) {
                                let p = choose|p: int| 0 <= p < prev.len() && prev[p] == j as usize;
                                assert(order@[p] == j as usize);
                            }
                        }
                    }
                    assert forall|p: int, j: int|
                        0 <= p < order@.len() && #[trigger] depends_on(systems@, order@[p] as int, j)
                            implies order@.subrange(0, p).contains(j as usize) by {
                        if p < prev.len() {
                            assert(order@.subrange(0, p) =~= prev.subrange(0, p));
                        }
                    }
                    assert forall|p: int, i2: int|
                        0 <= p < order@.len() && 0 <= i2 < order@[p] && !#[trigger] order@.subrange(0, p).contains(
                            i2 as usize,
                        ) implies !ready(systems@, order@.subrange(0, p), i2) by {
                        if p < prev.len() {
                            assert(order@.subrange(0, p) =~= prev.subrange(0, p));
                        } else {
                            assert(!prev.contains(i2 as usize));
                            assert(!placed@[i2] || i2 == q);
                        }
                    }
                    lemma_distinct_below(order@, n as nat);
                }
            },
            None => {
                match unplaced {
                    Some(u) => {
                        proof {
                            assert forall|v: int|
                                0 <= v < systems@.len() && !placed@[v] implies exists|j: int|
                                    #[trigger] depends_on(systems@, v, j) && !placed@[j] by {
                                assert(!ready(systems@, order@, v));
                                let j = choose|j: int| #[trigger] depends_on(systems@, v, j) && !order@.contains(j as usize);
                                assert(!placed@[j]);
                            }
                        }
                        let c = extract_cycle(systems, &adj, &placed, u);
                        return Err(DependencyError::CyclicDependency(c));
                    },
                    None => {
                        proof {
                            assert forall|x: usize| (x as nat) < n implies #[trigger] order@.contains(x) by {
                                assert(placed@[x as int]);
                            }
                            lemma_distinct_below(order@, n as nat);
                        }
                        return Err(DependencyError::CyclicDependency(Vec::new()));
                    },
                }
            },
        }
    }
    Ok(order)
}

spec fn system_of(s: Seq<SystemDescriptor>, k: u64) -> int {
    choose|i: int| 0 <= i < s.len() && #[trigger] s[i].kind == k
}

spec fn position_in(order: Seq<usize>, i: int) -> int {
    choose|p: int| 0 <= p < order.len() && #[trigger] order[p] == i as usize
}

#[verifier::rlimit(50)]
#[verifier::spinoff_prover]
proof fn lemma_order_covers(s: Seq<SystemDescriptor>, order: Seq<usize>, i: int)
    requires
        s.len() <= usize::MAX,
        is_topological(s, order),
        0 <= i < s.len(),
    ensures
        order.contains(i as usize),
{
    if !order.contains(i as usize) {
        let n = s.len();
        lemma_below_len(n);
        order.unique_seq_to_set();
        assert(order.to_set().subset_of(below(n).remove(i as usize)));
        lemma_len_subset(order.to_set(), below(n).remove(i as usize));
    }
}

#[verifier::rlimit(50)]
#[verifier::spinoff_prover]
proof fn lemma_edge_goes_back(s: Seq<SystemDescriptor>, order: Seq<usize>, c: Seq<u64>, t: int)
    requires
        s.len() <= usize::MAX,
        unique_kinds(s),
        is_kind_cycle(s, c),
        is_topological(s, order),
        0 <= t < c.len(),
    ensures
        ({
            let a = system_of(s, c[t]);
            let b = system_of(s, c[(t + 1) % (c.len() as int)]);
            &&& 0 <= a < s.len()
            &&& 0 <= b < s.len()
            &&& position_in(order, b) < position_in(order, a)
            &&& 0 <= position_in(order, a) < order.len()
        }),
{
    let len = c.len() as int;
    let u = (t + 1) % len;
    assert(0 <= u < len) by {
        vstd::arithmetic::div_mod::lemma_mod_bound(t + 1, len);
    }
    let i = choose|i: int| #![trigger s[i]] 0 <= i < s.len() && s[i].kind == c[t] && s[i].deps@.contains(c[u]);
    let i2 = choose|i: int| #![trigger s[i]] 0 <= i < s.len() && s[i].kind == c[u] && s[i].deps@.contains(c[(u + 1) % len]);
    let a = system_of(s, c[t]);
    let b = system_of(s, c[u]);
    assert(s[a].kind == c[t]);
    assert(a == i);
    assert(s[b].kind == c[u]);
    assert(depends_on(s, a, b));
    lemma_order_covers(s, order, a);
    let pa = position_in(order, a);
    assert(order[pa] == a as usize);
    assert(order.subrange(0, pa).contains(b as usize));
    let q = choose|q: int| 0 <= q < pa && order.subrange(0, pa)[q] == b as usize;
    let pb = position_in(order, b);
    assert(order[q] == b as usize);
    assert(order[pb] == b as usize);
    assert(pb == q);
}

#[verifier::rlimit(50)]
#[verifier::spinoff_prover]
proof fn lemma_chain(s: Seq<SystemDescriptor>, order: Seq<usize>, c: Seq<u64>, t: int)
    requires
        s.len() <= usize::MAX,
        unique_kinds(s),
        is_kind_cycle(s, c),
        is_topological(s, order),
        0 <= t < c.len(),
    ensures
        position_in(order, system_of(s, c[t])) + t <= position_in(order, system_of(s, c[0])),
    decreases t,
{
    if t > 0 {
        lemma_chain(s, order, c, t - 1);
        lemma_edge_goes_back(s, order, c, t - 1);
        lemma_small_mod(t as nat, c.len());
    }
}

/// Systems whose dependencies form a cycle have no initialization order, so
/// the resolver can only report an error for them.
pub proof fn lemma_cycle_has_no_order(s: Seq<SystemDescriptor>, c: Seq<u64>, order: Seq<usize>)
    requires
        s.len() <= usize::MAX,
        unique_kinds(s),
        is_kind_cycle(s, c),
    ensures
        !is_topological(s, order),
{
    if is_topological(s, order) {
        let last = c.len() - 1;
        lemma_chain(s, order, c, last);
        lemma_edge_goes_back(s, order, c, last);
        lemma_mod_self_0(c.len() as int);
    }
}

proof fn lemma_prefix_is_identity(s: Seq<SystemDescriptor>, order: Seq<usize>, p: int)
    requires
        is_topological(s, order),
        takes_lowest_ready(s, order),
        forall|i: int, j: int| #[trigger] depends_on(s, i, j) ==> j < i,
        0 <= p < order.len(),
    ensures
        forall|q: int| 0 <= q <= p ==> order[q] == q,
    decreases p,
{
    if p > 0 {
        lemma_prefix_is_identity(s, order, p - 1);
    }
    let prefix = order.subrange(0, p);
    assert forall|x: int| 0 <= x < p implies #[trigger] prefix.contains(x as usize) by {
        assert(prefix[x] == x as usize);
    }
    if (order[p] as int) < p {
        let x = order[p] as int;
        assert(order[x] == x);
        assert(false);
    }
    if (order[p] as int) > p {
        assert(!prefix.contains(p as usize)) by {
            if prefix.contains(p as usize) {
                let q = choose|q: int| 0 <= q < prefix.len() && prefix[q] == p as usize;
                assert(order[q] == q);
            }
        }
        assert(ready(s, prefix, p)) by {
            assert forall|j: int| #[trigger] depends_on(s, p, j) implies prefix.contains(j as usize) by {}
        }
    }
}

/// When every descriptor depends only on descriptors registered before it,
/// the resolver keeps the registration order.
pub proof fn lemma_registration_order_kept(s: Seq<SystemDescriptor>, order: Seq<usize>)
    requires
        is_topological(s, order),
        takes_lowest_ready(s, order),
        forall|i: int, j: int| #[trigger] depends_on(s, i, j) ==> j < i,
    ensures
        forall|p: int| 0 <= p < order.len() ==> #[trigger] order[p] == p,
{
    if order.len() > 0 {
        lemma_prefix_is_identity(s, order, order.len() - 1);
    }
}

} // verus!
