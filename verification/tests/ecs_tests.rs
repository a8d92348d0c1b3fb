use swirly_world::ecs::{Ecs, Entity, Renderer, System, C_COUNT};

type Store = Ecs<&'static str, fn(usize) -> usize, u8>;

fn double(x: usize) -> usize {
    x * 2
}

#[test]
fn new_store_is_empty() {
    let ecs: Store = Ecs::new();
    assert_eq!(ecs.entity_count(), 0);
    assert_eq!(ecs.system_count(), 0);
    assert_eq!(ecs.renderer_count(), 0);
}

#[test]
fn entities_get_consecutive_indices() {
    let mut ecs: Store = Ecs::new();
    assert_eq!(ecs.add_entity(), 0);
    assert_eq!(ecs.add_entity(), 1);
    assert_eq!(ecs.entity_count(), 2);
    assert!(ecs.is_alive(1));
}

#[test]
fn removed_index_is_reused_first() {
    let mut ecs: Store = Ecs::new();
    for _ in 0..4 {
        ecs.add_entity();
    }
    ecs.remove_entity(1);
    ecs.remove_entity(3);
    assert!(!ecs.is_alive(3));
    assert_eq!(ecs.add_entity(), 3);
    assert_eq!(ecs.add_entity(), 1);
    assert_eq!(ecs.add_entity(), 4);
    assert!(ecs.is_alive(1));
}

#[test]
fn reused_entity_starts_empty() {
    let mut ecs: Store = Ecs::new();
    let e = ecs.add_entity();
    ecs.set_component(e, 2, "sprite");
    ecs.remove_entity(e);
    let again = ecs.add_entity();
    assert_eq!(again, e);
    assert_eq!(ecs.get_component(again, 2), None);
}

#[test]
fn set_then_get_component() {
    let mut ecs: Store = Ecs::new();
    let e = ecs.add_entity();
    ecs.set_component(e, 0, "position");
    assert_eq!(ecs.get_component(e, 0), Some(&"position"));
    assert_eq!(ecs.get_component(e, 1), None);
    ecs.set_component(e, 0, "moved");
    assert_eq!(ecs.get_component(e, 0), Some(&"moved"));
}

#[test]
fn remove_then_get_component() {
    let mut ecs: Store = Ecs::new();
    let e = ecs.add_entity();
    ecs.set_component(e, C_COUNT - 1, "last");
    ecs.remove_component(e, C_COUNT - 1);
    assert_eq!(ecs.get_component(e, C_COUNT - 1), None);
}

#[test]
fn write_through_get_component_mut() {
    let mut ecs: Store = Ecs::new();
    let e = ecs.add_entity();
    assert!(ecs.get_component_mut(e, 4).is_none());
    ecs.set_component(e, 4, "a");
    if let Some(c) = ecs.get_component_mut(e, 4) {
        *c = "b";
    }
    assert_eq!(ecs.get_component(e, 4), Some(&"b"));
}

#[test]
fn is_match_needs_every_listed_component() {
    let mut ecs: Store = Ecs::new();
    let e = ecs.add_entity();
    ecs.set_component(e, 0, "p");
    ecs.set_component(e, 1, "v");
    assert!(ecs.is_match(e, &[0, 1]));
    assert!(!ecs.is_match(e, &[0, 2]));
    assert!(ecs.is_match(e, &[]));
}

#[test]
fn systems_run_on_live_matching_entities() {
    let mut ecs: Store = Ecs::new();
    let a = ecs.add_entity();
    let b = ecs.add_entity();
    ecs.set_component(a, 0, "p");
    ecs.set_component(b, 0, "p");
    ecs.add_system(System::new(vec![0], double as fn(usize) -> usize));
    assert_eq!((ecs.system(0).func)(21), 42);
    assert!(ecs.runs_system(a, 0));
    ecs.remove_entity(b);
    assert!(!ecs.runs_system(b, 0));
}

#[test]
fn renderers_draw_live_matching_entities_in_order() {
    let mut ecs: Store = Ecs::new();
    for _ in 0..4 {
        let e = ecs.add_entity();
        if e != 2 {
            ecs.set_component(e, 2, "sprite");
        }
    }
    ecs.remove_entity(0);
    ecs.add_renderer(Renderer::new(vec![2], 9));
    assert_eq!(ecs.renderer(0).draw, 9);
    assert_eq!(ecs.matching_entities(&ecs.renderer(0).filter.clone()), vec![1, 3]);
}

#[test]
fn new_entity_has_all_slots_empty() {
    let _e: Entity<u8> = Entity::new();
    let mut ecs: Store = Ecs::new();
    let e = ecs.add_entity();
    for i in 0..C_COUNT {
        assert_eq!(ecs.get_component(e, i), None);
    }
}
