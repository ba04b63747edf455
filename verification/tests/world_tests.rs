use photonical::defs::{BlockDef, Registry};
use photonical::world::{GridMap, World};

fn entities(n: usize) -> (hecs::World, Vec<hecs::Entity>) {
    let mut ecs = hecs::World::new();
    let v = (0..n).map(|_| ecs.spawn(())).collect();
    (ecs, v)
}

fn block(id: &str, size: u16) -> BlockDef {
    BlockDef {
        id: id.to_string(),
        name: id.to_string(),
        texture: "t.png".to_string(),
        script: None,
        size,
        editor_only: false,
        fields: serde_json::Map::new(),
        net: serde_json::Map::new(),
    }
}

#[test]
fn index_is_row_major() {
    let (_ecs, tiles) = entities(12);
    let map = GridMap::new(4, 3, tiles.clone());
    assert_eq!(map.index(0, 0), 0);
    assert_eq!(map.index(3, 0), 3);
    assert_eq!(map.index(1, 2), 9);
    assert_eq!(map.get(1, 2), tiles[9]);
}

#[test]
fn new_world_is_empty() {
    let (_ecs, tiles) = entities(6);
    let w = World::new(3, 2, tiles.clone());
    for y in 0..2 {
        for x in 0..3 {
            assert_eq!(w.get(x, y), None);
            assert_eq!(w.get_any(x, y), tiles[(y * 3 + x) as usize]);
        }
    }
}

#[test]
fn placing_fills_the_square() {
    let (mut ecs, tiles) = entities(16);
    let mut w = World::new(4, 4, tiles.clone());
    let e = ecs.spawn(());
    assert!(w.check_for_space(1, 1, 2));
    w.place_block(1, 1, 2, e);
    for (x, y) in [(1, 1), (2, 1), (1, 2), (2, 2)] {
        assert_eq!(w.get(x, y), Some(e));
        assert_eq!(w.get_any(x, y), e);
    }
    assert_eq!(w.get(0, 0), None);
    assert_eq!(w.get(3, 2), None);
    assert!(!w.check_for_space(0, 0, 2));
    assert!(w.check_for_space(0, 0, 1));
    assert!(w.check_for_space(3, 3, 1));
}

#[test]
fn space_must_stay_inside_the_map() {
    let (_ecs, tiles) = entities(16);
    let w = World::new(4, 4, tiles);
    assert!(w.check_for_space(2, 2, 2));
    assert!(!w.check_for_space(3, 0, 2));
    assert!(!w.check_for_space(0, 3, 2));
    assert!(w.check_for_space(0, 0, 0));
}

#[test]
fn removing_frees_the_square() {
    let (mut ecs, tiles) = entities(16);
    let mut reg = Registry::new();
    reg.register_block(block("small", 1), ".").unwrap();
    reg.register_block(block("big", 2), ".").unwrap();
    let mut w = World::new(4, 4, tiles);
    let e = ecs.spawn(());
    let f = ecs.spawn(());
    w.place_block(0, 0, 2, e);
    w.place_block(3, 3, 1, f);
    assert_eq!(w.remove_entity(&reg, 1, 0, 0), Ok(()));
    assert!(w.check_for_space(0, 0, 2));
    assert_eq!(w.get(3, 3), Some(f));
    assert_eq!(w.remove_entity(&reg, 7, 3, 3), Err(7));
    assert_eq!(w.get(3, 3), Some(f));
    assert_eq!(w.remove_entity(&reg, 0, 3, 3), Ok(()));
    assert_eq!(w.get(3, 3), None);
}

#[test]
fn get_mut_writes_one_cell() {
    let (mut ecs, tiles) = entities(4);
    let mut w = World::new(2, 2, tiles);
    let e = ecs.spawn(());
    *w.get_mut(1, 0) = Some(e);
    assert_eq!(w.get(1, 0), Some(e));
    assert_eq!(w.get(0, 1), None);
}
