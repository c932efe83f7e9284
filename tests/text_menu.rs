use doom_engine::menu::{create, Menu, MenuError, TEXT_RENDERER, TICK, WINDOW, FRAME_TIMERS};
use doom_engine::scene_layout::{Config, Dependencies, SceneLayout};
use doom_engine::scheduler::{BuildError, LifecycleEvent, SystemSet};
use doom_engine::text::TextRenderer;

#[test]
fn texts_are_listed_visible_in_insertion_order() {
    let mut r: TextRenderer<&str> = TextRenderer::new();
    let a = r.insert("a");
    let b = r.insert("b");
    let c = r.insert("c");
    assert!(r.set_visible(b, false));
    assert_eq!(r.visible(), vec![a, c]);
    if let Some(t) = r.text_mut(c) {
        t.set_visible(false);
    }
    assert_eq!(r.visible(), vec![a]);
    assert!(r.remove(a));
    assert!(!r.remove(a));
    assert!(!r.set_visible(a, true));
    assert_eq!(r.len(), 2);
    assert_eq!(r.text(b).map(|t| *t.payload()), Some("b"));
    assert!(r.text(a).is_none());
}

#[derive(Default)]
struct Engine {
    inits: Vec<u64>,
    teardowns: Vec<u64>,
    fail_init: Option<u64>,
}

impl SystemSet for Engine {
    fn init(&mut self, kind: u64) -> Result<(), u64> {
        self.inits.push(kind);
        if self.fail_init == Some(kind) { Err(7) } else { Ok(()) }
    }
    fn update(&mut self, _kind: u64) -> Result<(), u64> {
        Ok(())
    }
    fn teardown(&mut self, kind: u64) -> Result<(), u64> {
        self.teardowns.push(kind);
        Ok(())
    }
}

#[test]
fn menu_builds_engine_systems_in_registration_order_and_destroys_once() {
    let mut menu = match create(Engine::default()) {
        Ok(m) => m,
        Err(f) => panic!("setup failed: {:?}", f.error),
    };
    let order = menu.context_ref().unwrap().init_order().clone();
    assert_eq!(order.len(), 13);
    assert_eq!(order[0], TICK);
    assert_eq!(order[12], TEXT_RENDERER);
    assert_eq!(menu.run_frame(), Ok(()));
    assert_eq!(menu.destroy(), Ok(()));
    assert_eq!(menu.destroy(), Ok(()));
    let ctx = menu.context_ref().unwrap();
    assert_eq!(ctx.system_set().teardowns.len(), 13);
    assert_eq!(ctx.lifecycle_log()[13], LifecycleEvent::TornDown(TEXT_RENDERER));
    assert!(matches!(menu.run_frame(), Err(MenuError::Frame(_))));
}

#[test]
fn scene_layout_keeps_single_level() {
    let config = Config {
        wad_path: "doom1.wad".to_string(),
        metadata_path: "meta.toml".to_string(),
        initial_level_index: 0,
    };
    let mut layout = SceneLayout::create(Dependencies { config: &config });
    assert_eq!(layout.level_index(), 0);
    assert_eq!(layout.level_name(), "mscene");
    layout.change_level(3);
    layout.update(Dependencies { config: &config });
    assert_eq!(layout.level_index(), 0);
    assert!(!layout.level_changed());
}

#[test]
fn menu_failed_init_hands_back_reverse_teardown() {
    let engine = Engine { fail_init: Some(WINDOW), ..Engine::default() };
    match create(engine) {
        Ok(_) => panic!("failure ignored"),
        Err(f) => {
            assert_eq!(f.error, BuildError::SystemInit { kind: WINDOW, reason: 7 });
            assert_eq!(
                f.log,
                vec![
                    LifecycleEvent::Initialized(TICK),
                    LifecycleEvent::Initialized(FRAME_TIMERS),
                    LifecycleEvent::InitFailed(WINDOW),
                    LifecycleEvent::TornDown(FRAME_TIMERS),
                    LifecycleEvent::TornDown(TICK)
                ]
            );
            assert_eq!(f.systems.teardowns, vec![FRAME_TIMERS, TICK]);
        }
    }
}

#[test]
fn removed_text_id_is_never_reissued() {
    let mut r: TextRenderer<u8> = TextRenderer::new();
    let a = r.insert(1);
    r.remove(a);
    let b = r.insert(2);
    assert_ne!(a, b);
    assert!(r.text(a).is_none());
    assert_eq!(r.text(b).map(|t| *t.payload()), Some(2));
}
