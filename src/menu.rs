//! The menu program: the engine systems it registers and the handle that
//! owns its running context.
use crate::resolver::{
    depends_on, is_topological, lemma_cycle_has_no_order, lemma_registration_order_kept,
    takes_lowest_ready, SystemDescriptor,
};
use crate::scheduler::{
    destroyed_from, initializes, is_init_order, stepped, tears_down_reversed, BuildError,
    BuildFailure, Context, ContextBuilder, LifecycleEvent, SystemBinding, SystemSet, TeardownError,
    TickError,
};
use vstd::prelude::*;

verus! {

pub const TICK_CONFIG: u64 = 1;
pub const WINDOW_CONFIG: u64 = 2;
pub const SHADER_CONFIG: u64 = 3;

pub const TICK: u64 = 100;
pub const FRAME_TIMERS: u64 = 101;
pub const WINDOW: u64 = 102;
pub const INPUT: u64 = 103;
pub const ENTITIES: u64 = 104;
pub const TRANSFORMS: u64 = 105;
pub const PROJECTIONS: u64 = 106;
pub const SHADERS: u64 = 107;
pub const UNIFORMS: u64 = 108;
pub const MESHES: u64 = 109;
pub const MATERIALS: u64 = 110;
pub const RENDER_PIPELINE: u64 = 111;
pub const TEXT_RENDERER: u64 = 112;

/// Why a frame or the teardown of the menu failed.
#[derive(Clone, Debug, PartialEq, Eq)]
pub enum MenuError {
    /// A frame failed.
    Frame(TickError),
    /// Explicit teardown failed for these kinds.
    Teardown(Vec<u64>),
}

/// The engine systems of the menu, in registration order.
pub open spec fn menu_kinds() -> Seq<u64> {
    seq![
        TICK, FRAME_TIMERS, WINDOW, INPUT, ENTITIES, TRANSFORMS, PROJECTIONS, SHADERS, UNIFORMS,
        MESHES, MATERIALS, RENDER_PIPELINE, TEXT_RENDERER,
    ]
}

/// Declared dependencies of the menu's system of kind `k`.
pub open spec fn menu_deps(k: u64) -> Seq<u64> {
    if k == TEXT_RENDERER {
        seq![WINDOW]
    } else {
        Seq::empty()
    }
}

/// `d` registers the menu's systems in order with their dependencies.
pub open spec fn menu_registered(d: Seq<SystemDescriptor>) -> bool {
    &&& d.len() == menu_kinds().len()
    &&& forall|q: int|
        0 <= q < d.len() ==> (#[trigger] d[q]).kind == menu_kinds()[q] && d[q].deps@ == menu_deps(
            d[q].kind,
        )
}

proof fn lemma_menu_deps_backward(d: Seq<SystemDescriptor>)
    requires
        menu_registered(d),
    ensures
        forall|i: int, j: int| #[trigger] depends_on(d, i, j) ==> j < i,
        crate::resolver::unique_kinds(d),
        crate::resolver::all_registered(d),
{
    assert forall|i: int, j: int| #[trigger] depends_on(d, i, j) implies j < i by {
        assert(d[i].kind == menu_kinds()[i]);
        assert(d[j].kind == menu_kinds()[j]);
        if d[i].kind != TEXT_RENDERER {
            assert(d[i].deps@.len() == 0);
        } else {
            assert(d[i].deps@ == seq![WINDOW]);
            assert(d[i].deps@.contains(d[j].kind));
            assert(d[j].kind == WINDOW);
        }
    }
    assert forall|i: int, j: int|
        0 <= i < d.len() && 0 <= j < d.len() && i != j implies #[trigger] d[i].kind != #[trigger] d[j].kind by {
        assert(d[i].kind == menu_kinds()[i]);
        assert(d[j].kind == menu_kinds()[j]);
    }
    assert forall|i: int, t: int|
        0 <= i < d.len() && 0 <= t < d[i].deps@.len() implies crate::resolver::registered(
            d,
            #[trigger] d[i].deps@[t],
        ) by {
        assert(d[i].kind == menu_kinds()[i]);
        if d[i].kind == TEXT_RENDERER {
            assert(d[2].kind == WINDOW);
        }
    }
}

/// The menu's systems come up in registration order.
pub proof fn lemma_menu_order(d: Seq<SystemDescriptor>, kinds: Seq<u64>)
    requires
        menu_registered(d),
        is_init_order(d, kinds),
    ensures
        kinds == menu_kinds(),
{
    let o = choose|o: Seq<usize>|
        {
            &&& is_topological(d, o)
            &&& takes_lowest_ready(d, o)
            &&& kinds.len() == o.len()
            &&& forall|p: int| 0 <= p < o.len() ==> #[trigger] kinds[p] == d[o[p] as int].kind
        };
    lemma_menu_deps_backward(d);
    lemma_registration_order_kept(d, o);
    assert forall|p: int| 0 <= p < kinds.len() implies kinds[p] == menu_kinds()[p] by {
        assert(o[p] == p);
    }
    assert(kinds =~= menu_kinds());
}

/// A frame result as the menu reports it.
pub open spec fn frame_result(t: Result<(), TickError>) -> Result<(), MenuError> {
    match t {
        Ok(()) => Ok(()),
        Err(e) => Err(MenuError::Frame(e)),
    }
}

/// A teardown result as the menu reports it.
pub open spec fn teardown_result(t: Result<(), TeardownError>) -> Result<(), MenuError> {
    match t {
        Ok(()) => Ok(()),
        Err(e) => Err(MenuError::Teardown(e.failed)),
    }
}

/// A running menu.
pub trait Menu {
    /// Runs one frame.
    fn run_frame(&mut self) -> Result<(), MenuError>;

    /// Tears the menu's systems down; later calls do nothing.
    fn destroy(&mut self) -> Result<(), MenuError>;
}

/// The menu over a built context.
pub struct MenuImpl<S> {
    context: Option<Context<S>>,
}

impl<S: SystemSet> MenuImpl<S> {
    pub closed spec fn context(self) -> Option<Context<S>> {
        self.context
    }

    pub fn new(context: Context<S>) -> (r: Self)
        ensures
            r.context() == Some(context),
    {
        MenuImpl { context: Some(context) }
    }

    /// The context, while the menu holds one.
    pub fn context_ref(&self) -> (r: Option<&Context<S>>)
        ensures
            r matches Some(c) <==> self.context() is Some,
            r matches Some(c) ==> *c == self.context()->Some_0,
    {
        match &self.context {
            Some(c) => Some(c),
            None => None,
        }
    }

    /// One frame of the context: a `step`, its error wrapped as `Frame`.
    pub fn step_frame(&mut self) -> (r: Result<(), MenuError>)
        ensures
            old(self).context() is None ==> r is Ok && final(self).context() is None,
            old(self).context() is Some ==> final(self).context() is Some && exists|t: Result<(), TickError>|
                #[trigger] stepped(old(self).context()->Some_0, final(self).context()->Some_0, t) && r
                    == frame_result(t),
    {
        let ghost held = self.context;
        let mut slot: Option<Context<S>> = None;
        std::mem::swap(&mut slot, &mut self.context);
        assert(slot == held);
        match slot {
            Some(c) => {
                let ghost before = c;
                let mut c = c;
                let t = c.step();
                proof {
                    assert(stepped(before, c, t));
                }
                self.context = Some(c);
                let r = match t {
                    Ok(()) => Ok(()),
                    Err(e) => Err(MenuError::Frame(e)),
                };
                proof {
                    assert(r == frame_result(t));
                    assert(held->Some_0 == before);
                    assert(self.context() == Some(c));
                    assert(stepped(old(self).context()->Some_0, self.context()->Some_0, t));
                }
                r
            },
            None => Ok(()),
        }
    }

    /// Tears the context down once, in reverse initialization order; a later
    /// call changes nothing and returns `Ok`.
    pub fn destroy_context(&mut self) -> (r: Result<(), MenuError>)
        ensures
            old(self).context() is None ==> r is Ok && final(self).context() is None,
            old(self).context() is Some ==> final(self).context() is Some && exists|t: Result<(), TeardownError>|
                #[trigger] destroyed_from(old(self).context()->Some_0, final(self).context()->Some_0, t) && r
                    == teardown_result(t),
    {
        let ghost held = self.context;
        let mut slot: Option<Context<S>> = None;
        std::mem::swap(&mut slot, &mut self.context);
        assert(slot == held);
        match slot {
            Some(c) => {
                let ghost before = c;
                let mut c = c;
                let t = c.destroy();
                proof {
                    assert(destroyed_from(before, c, t));
                }
                self.context = Some(c);
                let r = match t {
                    Ok(()) => Ok(()),
                    Err(e) => Err(MenuError::Teardown(e.failed)),
                };
                proof {
                    assert(r == teardown_result(t));
                    assert(held->Some_0 == before);
                    assert(self.context() == Some(c));
                    assert(destroyed_from(old(self).context()->Some_0, self.context()->Some_0, t));
                }
                r
            },
            None => Ok(()),
        }
    }
}

impl<S: SystemSet> Menu for MenuImpl<S> {
    fn run_frame(&mut self) -> (r: Result<(), MenuError>) {
        self.step_frame()
    }

    fn destroy(&mut self) -> (r: Result<(), MenuError>) {
        self.destroy_context()
    }
}

fn binding(kind: u64) -> (b: SystemBinding)
    ensures
        b.kind == kind,
        b.deps@ == menu_deps(kind),
        b.resources@ == (if kind == TICK {
            seq![TICK_CONFIG]
        } else if kind == WINDOW {
            seq![WINDOW_CONFIG]
        } else if kind == SHADERS {
            seq![SHADER_CONFIG]
        } else {
            Seq::<u64>::empty()
        }),
{
    let resources: Vec<u64> = if kind == TICK {
        vec![TICK_CONFIG]
    } else if kind == WINDOW {
        vec![WINDOW_CONFIG]
    } else if kind == SHADERS {
        vec![SHADER_CONFIG]
    } else {
        Vec::new()
    };
    let deps: Vec<u64> = if kind == TEXT_RENDERER {
        vec![WINDOW]
    } else {
        Vec::new()
    };
    proof {
        assert(deps@ =~= menu_deps(kind));
    }
    SystemBinding { kind, deps, resources }
}

/// Registers the engine systems of the menu in their order (the text
/// renderer after the window it draws into), with the tick, window and
/// shader configurations injected, and builds them.
///
/// On success the systems are initialized in registration order. A failed
/// initialization is handed back with its lifecycle log: the systems before
/// it were torn down again in reverse order.
pub fn create<S: SystemSet>(systems: S) -> (r: Result<MenuImpl<S>, BuildFailure<S>>)
    ensures
        r matches Ok(m) ==> {
            &&& m.context() is Some
            &&& m.context()->Some_0.order() == menu_kinds()
            &&& initializes(m.context()->Some_0.log(), menu_kinds())
            &&& !m.context()->Some_0.is_destroyed()
            &&& m.context()->Some_0.updated() == Seq::<u64>::empty()
        },
        r matches Err(f) ==> f.error matches BuildError::SystemInit { kind, reason } && exists|k: int|
            {
                &&& 0 <= k < menu_kinds().len()
                &&& kind == menu_kinds()[k]
                &&& f.log@.len() == 2 * k + 1
                &&& initializes(f.log@.subrange(0, k), menu_kinds().subrange(0, k))
                &&& f.log@[k] == LifecycleEvent::InitFailed(kind)
                &&& #[trigger] tears_down_reversed(f.log@.subrange(k + 1, 2 * k + 1), menu_kinds().subrange(0, k))
            },
{
    let b = ContextBuilder::new(systems).inject(TICK_CONFIG).inject(WINDOW_CONFIG).inject(SHADER_CONFIG);
    let kinds: Vec<u64> = vec![
        TICK, FRAME_TIMERS, WINDOW, INPUT, ENTITIES, TRANSFORMS, PROJECTIONS, SHADERS, UNIFORMS,
        MESHES, MATERIALS, RENDER_PIPELINE, TEXT_RENDERER,
    ];
    proof {
        assert(kinds@ =~= menu_kinds());
    }
    let mut b = b;
    let mut i: usize = 0;
    while i < kinds.len()
        invariant
            i <= kinds@.len(),
            kinds@ == menu_kinds(),
            b.resources() == seq![TICK_CONFIG, WINDOW_CONFIG, SHADER_CONFIG],
            b.descriptors().len() == i,
            forall|q: int|
                0 <= q < i ==> (#[trigger] b.descriptors()[q]).kind == menu_kinds()[q]
                    && b.descriptors()[q].deps@ == menu_deps(b.descriptors()[q].kind),
        decreases kinds@.len() - i,
    {
        let k = kinds[i];
        let bd = binding(k);
        proof {
            let res = seq![TICK_CONFIG, WINDOW_CONFIG, SHADER_CONFIG];
            assert(res[0] == TICK_CONFIG && res[1] == WINDOW_CONFIG && res[2] == SHADER_CONFIG);
            assert forall|t: int| 0 <= t < bd.resources@.len() implies b.resources().contains(
                #[trigger] bd.resources@[t],
            ) by {}
        }
        b = b.system(bd).unwrap();
        i = i + 1;
    }
    let ghost d = b.descriptors();
    match b.build() {
        Ok(context) => {
            proof {
                lemma_menu_order(d, context.order());
            }
            Ok(MenuImpl::new(context))
        },
        Err(f) => {
            proof {
                lemma_menu_deps_backward(d);
                if f.error is Dependency {
                    let c = f.error->Dependency_0->CyclicDependency_0@;
                    let o = Seq::new(13, |p: int| p as usize);
                    assert forall|p: int, j: int|
                        0 <= p < o.len() && #[trigger] depends_on(d, o[p] as int, j) implies o.subrange(
                            0,
                            p,
                        ).contains(j as usize) by {
                        assert(o.subrange(0, p)[j] == j as usize);
                    }
                    assert(is_topological(d, o));
                    lemma_cycle_has_no_order(d, c, o);
                }
                let kind = f.error->kind;
                let (ks, k) = choose|ks: Seq<u64>, k: int| crate::scheduler::failed_at(d, f.log@, kind, ks, k);
                lemma_menu_order(d, ks);
            }
            Err(f)
        },
    }
}

} // verus!
