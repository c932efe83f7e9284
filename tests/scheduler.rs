use doom_engine::resolver::DependencyError;
use doom_engine::scheduler::{
    BuildError, ContextBuilder, Lifecycle, LifecycleEvent, SystemBinding, SystemError, SystemSet,
    TickError,
};

#[derive(Default)]
struct Recorder {
    calls: Vec<(char, u64)>,
    fail_init: Option<u64>,
    fail_update: Option<u64>,
    fail_teardown: Option<u64>,
}

impl SystemSet for Recorder {
    fn init(&mut self, kind: u64) -> Result<(), u64> {
        self.calls.push(('i', kind));
        if self.fail_init == Some(kind) { Err(kind * 10) } else { Ok(()) }
    }
    fn update(&mut self, kind: u64) -> Result<(), u64> {
        self.calls.push(('u', kind));
        if self.fail_update == Some(kind) { Err(kind * 100) } else { Ok(()) }
    }
    fn teardown(&mut self, kind: u64) -> Result<(), u64> {
        self.calls.push(('t', kind));
        if self.fail_teardown == Some(kind) { Err(1) } else { Ok(()) }
    }
}

const A: u64 = 1;
const B: u64 = 2;
const C: u64 = 3;

fn bind(kind: u64, deps: Vec<u64>) -> SystemBinding {
    SystemBinding { kind, deps, resources: Vec::new() }
}

fn abc(rec: Recorder) -> ContextBuilder<Recorder> {
    ContextBuilder::new(rec)
        .system(bind(C, vec![A, B]))
        .unwrap()
        .system(bind(B, vec![A]))
        .unwrap()
        .system(bind(A, vec![]))
        .unwrap()
}

#[test]
fn chain_of_three_initializes_in_order_and_tears_down_in_reverse() {
    let mut ctx = match abc(Recorder::default()).build() {
        Ok(c) => c,
        Err(_) => panic!("build failed"),
    };
    assert_eq!(ctx.init_order(), &vec![A, B, C]);
    assert_eq!(
        ctx.lifecycle_log(),
        &vec![
            LifecycleEvent::Initialized(A),
            LifecycleEvent::Initialized(B),
            LifecycleEvent::Initialized(C)
        ]
    );
    assert_eq!(ctx.destroy(), Ok(()));
    assert_eq!(
        ctx.lifecycle_log()[3..].to_vec(),
        vec![
            LifecycleEvent::TornDown(C),
            LifecycleEvent::TornDown(B),
            LifecycleEvent::TornDown(A)
        ]
    );
    let calls: Vec<(char, u64)> = ctx.system_set().calls.clone();
    assert_eq!(calls, vec![('i', A), ('i', B), ('i', C), ('t', C), ('t', B), ('t', A)]);
    assert_eq!(ctx.state_of(A), Lifecycle::TornDown);
    assert_eq!(ctx.state_of(99), Lifecycle::Unregistered);
}

#[test]
fn mutual_dependency_fails_build_without_initializing() {
    let b = ContextBuilder::new(Recorder::default())
        .system(bind(24, vec![25]))
        .unwrap()
        .system(bind(25, vec![24]))
        .unwrap();
    match b.build() {
        Ok(_) => panic!("cycle accepted"),
        Err(f) => {
            match f.error {
                BuildError::Dependency(DependencyError::CyclicDependency(c)) => {
                    let mut c = c;
                    c.sort();
                    assert_eq!(c, vec![24, 25]);
                }
                other => panic!("unexpected {:?}", other),
            }
            assert!(f.log.is_empty());
            assert!(f.systems.calls.is_empty());
        }
    }
}

#[test]
fn failed_init_tears_down_earlier_systems_in_reverse() {
    let rec = Recorder { fail_init: Some(C), ..Recorder::default() };
    let b = ContextBuilder::new(rec)
        .system(bind(A, vec![]))
        .unwrap()
        .system(bind(B, vec![A]))
        .unwrap()
        .system(bind(C, vec![B]))
        .unwrap()
        .system(bind(4, vec![C]))
        .unwrap();
    match b.build() {
        Ok(_) => panic!("failure ignored"),
        Err(f) => {
            assert_eq!(f.error, BuildError::SystemInit { kind: C, reason: 30 });
            assert_eq!(
                f.log,
                vec![
                    LifecycleEvent::Initialized(A),
                    LifecycleEvent::Initialized(B),
                    LifecycleEvent::InitFailed(C),
                    LifecycleEvent::TornDown(B),
                    LifecycleEvent::TornDown(A)
                ]
            );
            assert_eq!(f.systems.calls, vec![('i', A), ('i', B), ('i', C), ('t', B), ('t', A)]);
        }
    }
}

#[test]
fn destroy_twice_is_the_same_as_once() {
    let mut ctx = match abc(Recorder::default()).build() {
        Ok(c) => c,
        Err(_) => panic!("build failed"),
    };
    assert_eq!(ctx.destroy(), Ok(()));
    let log_once = ctx.lifecycle_log().clone();
    let calls_once = ctx.system_set().calls.clone();
    assert_eq!(ctx.destroy(), Ok(()));
    assert_eq!(ctx.lifecycle_log(), &log_once);
    assert_eq!(ctx.system_set().calls, calls_once);
    assert!(ctx.destroyed());
}

#[test]
fn teardown_failure_is_reported_but_all_systems_are_torn_down() {
    let rec = Recorder { fail_teardown: Some(B), ..Recorder::default() };
    let mut ctx = match abc(rec).build() {
        Ok(c) => c,
        Err(_) => panic!("build failed"),
    };
    let r = ctx.destroy();
    assert_eq!(r.map_err(|e| e.failed), Err(vec![B]));
    assert_eq!(
        ctx.lifecycle_log()[3..].to_vec(),
        vec![
            LifecycleEvent::TornDown(C),
            LifecycleEvent::TeardownFailed(B),
            LifecycleEvent::TornDown(A)
        ]
    );
}

#[test]
fn step_updates_in_order_and_stops_at_failure() {
    let rec = Recorder { fail_update: Some(B), ..Recorder::default() };
    let mut ctx = match abc(rec).build() {
        Ok(c) => c,
        Err(_) => panic!("build failed"),
    };
    assert_eq!(ctx.step(), Err(TickError::SystemFailed { kind: B, reason: 200 }));
    assert_eq!(ctx.ticks(), 0);
    assert_eq!(ctx.system_set().calls[3..].to_vec(), vec![('u', A), ('u', B)]);
}

#[test]
fn step_counts_completed_ticks_and_refuses_after_destroy() {
    let mut ctx = match abc(Recorder::default()).build() {
        Ok(c) => c,
        Err(_) => panic!("build failed"),
    };
    assert_eq!(ctx.step(), Ok(()));
    assert_eq!(ctx.step(), Ok(()));
    assert_eq!(ctx.ticks(), 2);
    assert_eq!(ctx.state_of(B), Lifecycle::Initialized);
    ctx.destroy().unwrap();
    assert_eq!(ctx.step(), Err(TickError::Destroyed));
}

#[test]
fn registration_without_injected_resource_fails_at_once() {
    let b = ContextBuilder::new(Recorder::default()).inject(7);
    let ok = b.system(SystemBinding { kind: 1, deps: vec![], resources: vec![7] });
    let b = match ok {
        Ok(b) => b,
        Err(_) => panic!("injected resource refused"),
    };
    let r = b.system(SystemBinding { kind: 2, deps: vec![], resources: vec![7, 8] });
    match r {
        Ok(_) => panic!("missing resource accepted"),
        Err(e) => assert_eq!(e, SystemError::MissingResource { system: 2, resource: 8 }),
    }
}

#[test]
fn missing_dependency_fails_build_without_initializing() {
    let b = ContextBuilder::new(Recorder::default()).system(bind(1, vec![5])).unwrap();
    match b.build() {
        Ok(_) => panic!("missing dependency accepted"),
        Err(f) => {
            assert_eq!(
                f.error,
                BuildError::Dependency(DependencyError::MissingDependency { system: 1, missing: 5 })
            );
            assert!(f.systems.calls.is_empty());
        }
    }
}

#[test]
fn empty_context_builds_and_steps() {
    let mut ctx = match ContextBuilder::new(Recorder::default()).build() {
        Ok(c) => c,
        Err(_) => panic!("empty build failed"),
    };
    assert_eq!(ctx.step(), Ok(()));
    assert_eq!(ctx.ticks(), 1);
    assert!(ctx.lifecycle_log().is_empty());
}
