use photonical::defs::{BlockDef, ItemDef, RecipeDef, Registry};
use photonical::paths::{get_paths, MISSING_TEX};

fn block(id: &str, texture: &str, script: Option<&str>) -> BlockDef {
    BlockDef {
        id: id.to_string(),
        name: format!("{id} name"),
        texture: texture.to_string(),
        script: script.map(|s| s.to_string()),
        size: 1,
        editor_only: false,
        fields: serde_json::Map::new(),
        net: serde_json::Map::new(),
    }
}

fn item(id: &str, texture: &str) -> ItemDef {
    ItemDef { id: id.to_string(), name: id.to_uppercase(), texture: texture.to_string() }
}

#[test]
fn registered_block_is_found_with_rooted_paths() {
    let mut r = Registry::new();
    assert!(r.register_block(block("core:lamp", "tex/lamp.png", Some("lamp.lua")), "./mods/a").is_ok());
    let b = r.get_block("core:lamp").unwrap();
    assert_eq!(b.texture, "./mods/a/tex/lamp.png");
    assert_eq!(b.script.as_deref(), Some("./mods/a/lamp.lua"));
    assert_eq!(b.name, "core:lamp name");
    assert_eq!(r.get_block_index("core:lamp"), Some(0));
    assert!(r.get_block("core:none").is_none());
    assert_eq!(r.get_block_index("core:none"), None);
}

#[test]
fn block_indices_follow_registration_order() {
    let mut r = Registry::new();
    r.register_block(block("a", "a.png", None), ".").unwrap();
    r.register_block(block("b", "b.png", None), ".").unwrap();
    r.register_block(block("c", "c.png", None), ".").unwrap();
    assert_eq!(r.get_block_index("c"), Some(2));
    assert_eq!(r.get_block_directly(1).unwrap().id, "b");
    assert!(r.get_block_directly(3).is_none());
    assert_eq!(r.get_all_blocks().len(), 3);
    assert!(r.get_block("a").unwrap().script.is_none());
}

#[test]
fn duplicate_block_is_refused() {
    let mut r = Registry::new();
    r.register_block(block("x", "one.png", None), ".").unwrap();
    let e = r.register_block(block("x", "two.png", None), "./mods/b");
    assert_eq!(e, Err("Block id 'x' already registered".to_string()));
    assert_eq!(r.get_all_blocks().len(), 1);
    assert_eq!(r.get_block("x").unwrap().texture, "./one.png");
}

#[test]
fn items_register_and_refuse_duplicates() {
    let mut r = Registry::new();
    r.register_item(item("ore", "ore.png"), ".").unwrap();
    assert_eq!(r.get_item("ore").unwrap().texture, "./ore.png");
    assert_eq!(r.get_item("ore").unwrap().name, "ORE");
    assert_eq!(
        r.register_item(item("ore", "x.png"), "."),
        Err("Item id 'ore' already registered".to_string())
    );
    assert!(r.get_item("ingot").is_none());
}

#[test]
fn recipes_register_and_refuse_duplicates() {
    let mut r = Registry::new();
    let recipe = RecipeDef {
        id: "smelt".to_string(),
        time_bits: 2.5f32.to_bits(),
        inputs: vec![("ore".to_string(), 2)],
        outputs: vec![("ingot".to_string(), 1)],
    };
    r.register_recipe(recipe.clone()).unwrap();
    let got = r.get_recipe("smelt").unwrap();
    assert_eq!(f32::from_bits(got.time_bits), 2.5);
    assert_eq!(got.inputs, vec![("ore".to_string(), 2)]);
    assert_eq!(
        r.register_recipe(recipe),
        Err("Reciped id 'smelt' already registered".to_string())
    );
    assert!(r.get_recipe("melt").is_none());
}

#[test]
fn paths_are_sorted_and_unique() {
    let mut r = Registry::new();
    r.register_block(block("a", "z.png", None), ".").unwrap();
    r.register_block(block("b", "b.png", None), ".").unwrap();
    r.register_block(block("c", "z.png", None), ".").unwrap();
    r.register_item(item("i", "b.png"), ".").unwrap();
    r.register_item(item("j", "m.png"), ".").unwrap();
    let paths = get_paths(&r);
    assert_eq!(
        paths,
        vec![
            "./b.png".to_string(),
            "./m.png".to_string(),
            MISSING_TEX.to_string(),
            "./z.png".to_string(),
        ]
    );
}

#[test]
fn paths_of_empty_registry() {
    let r = Registry::new();
    assert_eq!(get_paths(&r), vec![MISSING_TEX.to_string()]);
}

#[test]
fn registering_an_item_keeps_the_others() {
    let mut r = Registry::new();
    r.register_item(item("ore", "ore.png"), "./a").unwrap();
    r.register_item(item("ingot", "ingot.png"), "./b").unwrap();
    assert!(r.register_item(item("ore", "other.png"), "./c").is_err());
    let ore = r.get_item("ore").unwrap();
    assert_eq!((ore.id.as_str(), ore.texture.as_str()), ("ore", "./a/ore.png"));
    let ingot = r.get_item("ingot").unwrap();
    assert_eq!((ingot.id.as_str(), ingot.texture.as_str()), ("ingot", "./b/ingot.png"));
    assert_eq!(r.get_all_items().len(), 2);
}
