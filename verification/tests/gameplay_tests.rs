use photonical::block_list::{offered_blocks, pick_block, COLS};
use photonical::camera::{CameraDirections, MoveKey};
use photonical::click::{on_mouse_down, placed_wavelength, plan_click, ClickError, ClickPlan, MouseAction, MouseKind, UNDEFINED_WAVELENGTH};
use photonical::defs::{BlockDef, Registry};
use photonical::entity::Entity;
use photonical::json::{ConfigError, NetKind};
use photonical::scripts::group_by_type;

fn block(id: &str, script: Option<&str>, editor_only: bool, net: &[(&str, serde_json::Value)]) -> BlockDef {
    let mut m = serde_json::Map::new();
    for (k, v) in net {
        m.insert(k.to_string(), v.clone());
    }
    BlockDef {
        id: id.to_string(),
        name: id.to_string(),
        texture: format!("{id}.png"),
        script: script.map(|s| s.to_string()),
        size: 1,
        editor_only,
        fields: serde_json::Map::new(),
        net: m,
    }
}

fn registry() -> Registry {
    let mut r = Registry::new();
    r.register_block(block("sand", None, false, &[]), ".").unwrap();
    r.register_block(
        block(
            "laser",
            None,
            false,
            &[
                ("mask", serde_json::Value::from(1u64)),
                ("power", serde_json::Value::from(3.0)),
                ("wavelength", serde_json::Value::from(650u64)),
            ],
        ),
        ".",
    )
    .unwrap();
    r.register_block(block("lamp", Some("lamp.lua"), true, &[]), ".").unwrap();
    r.register_block(block("broken", None, false, &[("mask", serde_json::Value::from(7u64))]), ".").unwrap();
    r.register_block(block("param", None, false, &[("power", serde_json::Value::from(1u64))]), ".").unwrap();
    r
}

#[test]
fn click_on_a_block_interacts() {
    let r = registry();
    assert!(matches!(plan_click(&r, true, Some(1)), Ok(ClickPlan::Interact)));
    assert!(matches!(plan_click(&r, true, None), Ok(ClickPlan::Interact)));
}

#[test]
fn click_without_selection_is_idle() {
    let r = registry();
    assert!(matches!(plan_click(&r, false, None), Ok(ClickPlan::Idle)));
}

#[test]
fn click_places_the_selected_block() {
    let r = registry();
    match plan_click(&r, false, Some(0)) {
        Ok(ClickPlan::Place(p)) => {
            assert_eq!(p.block, 0);
            assert_eq!(p.energy, None);
            assert!(p.static_tile);
            assert!(!p.scripted);
        }
        _ => panic!("expected a placement"),
    }
    match plan_click(&r, false, Some(1)) {
        Ok(ClickPlan::Place(p)) => {
            assert_eq!(p.energy, Some(NetKind::Producer));
            assert_eq!(p.wavelength, Ok(650));
            assert!(!p.static_tile);
        }
        _ => panic!("expected a placement"),
    }
    match plan_click(&r, false, Some(2)) {
        Ok(ClickPlan::Place(p)) => {
            assert!(p.scripted);
            assert!(!p.static_tile);
            assert_eq!(p.wavelength, Err(ConfigError::MissingWavelength));
        }
        _ => panic!("expected a placement"),
    }
    match plan_click(&r, false, Some(4)) {
        Ok(ClickPlan::Place(p)) => {
            assert_eq!(p.energy, None);
            assert!(!p.static_tile);
            assert!(!p.scripted);
        }
        _ => panic!("expected a placement"),
    }
}

#[test]
fn click_errors() {
    let r = registry();
    assert!(matches!(plan_click(&r, false, Some(9)), Err(ClickError::UnknownBlock(9))));
    assert!(matches!(plan_click(&r, false, Some(3)), Err(ClickError::Config(ConfigError::NoSuchMask))));
}

#[test]
fn placed_wavelengths() {
    assert_eq!(placed_wavelength(NetKind::Producer, 650), 650);
    assert_eq!(placed_wavelength(NetKind::Consumer, 3), 3);
    assert_eq!(placed_wavelength(NetKind::Storage, 650), UNDEFINED_WAVELENGTH);
    assert_eq!(placed_wavelength(NetKind::Node, 1), UNDEFINED_WAVELENGTH);
}

#[test]
fn editor_blocks_are_hidden_outside_editor_mode() {
    let r = registry();
    assert_eq!(offered_blocks(&r, false), vec![0, 1, 3, 4]);
    assert_eq!(offered_blocks(&r, true), vec![0, 1, 2, 3, 4]);
}

#[test]
fn picking_from_the_block_list() {
    let list = vec![0usize, 1, 3, 4, 7];
    assert_eq!(COLS, 4);
    assert_eq!(pick_block(&list, 5, 5, 40), Some(0));
    assert_eq!(pick_block(&list, 125, 5, 40), Some(4));
    assert_eq!(pick_block(&list, 5, 45, 40), Some(7));
    assert_eq!(pick_block(&list, 45, 45, 40), None);
}

#[test]
fn camera_keys_steer() {
    let mut c = CameraDirections::new();
    assert_eq!(c.movement(), (0, 0));
    c.key_down_event(MoveKey::W);
    assert_eq!(c.movement(), (0, -1));
    c.key_down_event(MoveKey::D);
    assert_eq!(c.movement(), (1, -1));
    c.key_down_event(MoveKey::S);
    assert_eq!(c.movement(), (1, 0));
    c.key_down_event(MoveKey::Other);
    assert_eq!(c.movement(), (1, 0));
    c.key_up_event(MoveKey::W);
    assert_eq!(c.movement(), (1, 1));
    c.key_down_event(MoveKey::A);
    assert_eq!(c.movement(), (0, 1));
    c.key_up_event(MoveKey::D);
    c.key_up_event(MoveKey::S);
    assert_eq!(c.movement(), (-1, 0));
    assert_eq!(c.directions, [false, true, false, false]);
}

#[test]
fn scripted_blocks_group_by_type() {
    let (kinds, group_of) = group_by_type(&vec![5, 2, 5, 9, 2]);
    assert_eq!(kinds, vec![5, 2, 9]);
    assert_eq!(group_of, vec![0, 1, 0, 2, 1]);
    let (kinds, group_of) = group_by_type(&vec![]);
    assert!(kinds.is_empty() && group_of.is_empty());
}

#[test]
fn entities_start_at_full_health() {
    let e = Entity::new(20);
    assert_eq!(e.health, 20);
    assert_eq!(e.max_health, 20);
}

#[test]
fn mouse_presses_pick_click_and_remove() {
    assert_eq!(on_mouse_down(MouseKind::Left, Some(4), Some(1)), (Some(4), MouseAction::Nothing));
    assert_eq!(on_mouse_down(MouseKind::Left, None, Some(1)), (Some(1), MouseAction::ClickCell));
    assert_eq!(on_mouse_down(MouseKind::Middle, None, None), (None, MouseAction::PickCellBlock));
    assert_eq!(on_mouse_down(MouseKind::Right, None, Some(2)), (None, MouseAction::Nothing));
    assert_eq!(on_mouse_down(MouseKind::Right, None, None), (None, MouseAction::RemoveCell));
    assert_eq!(on_mouse_down(MouseKind::Other, Some(3), Some(2)), (Some(2), MouseAction::Nothing));
}
