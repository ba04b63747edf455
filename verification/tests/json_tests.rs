use photonical::defs::BlockDef;
use photonical::json::{get_wavelength, has_network, mask_kind, net_kind, ConfigError, NetKind};

fn def_with(net: &[(&str, serde_json::Value)]) -> BlockDef {
    let mut m = serde_json::Map::new();
    for (k, v) in net {
        m.insert(k.to_string(), v.clone());
    }
    BlockDef {
        id: "b".to_string(),
        name: "b".to_string(),
        texture: "b.png".to_string(),
        script: None,
        size: 1,
        editor_only: false,
        fields: serde_json::Map::new(),
        net: m,
    }
}

#[test]
fn wavelength_is_read() {
    let bd = def_with(&[("wavelength", serde_json::Value::from(532u64))]);
    assert_eq!(get_wavelength(&bd), Ok(532));
}

#[test]
fn wavelength_is_truncated_to_16_bits() {
    let bd = def_with(&[("wavelength", serde_json::Value::from(70000u64))]);
    assert_eq!(get_wavelength(&bd), Ok(4464));
}

#[test]
fn wavelength_errors() {
    assert_eq!(get_wavelength(&def_with(&[])), Err(ConfigError::MissingWavelength));
    let bd = def_with(&[("wavelength", serde_json::Value::from(-3i64))]);
    assert_eq!(get_wavelength(&bd), Err(ConfigError::InvalidWavelength));
    let bd = def_with(&[("wavelength", serde_json::Value::from("red"))]);
    assert_eq!(get_wavelength(&bd), Err(ConfigError::InvalidWavelength));
}

#[test]
fn error_messages() {
    assert_eq!(ConfigError::MissingWavelength.message(), "Missing parameter `wavelength`");
    assert_eq!(ConfigError::InvalidWavelength.message(), "Invalid value for `wavelength`");
    assert_eq!(ConfigError::NoSuchMask.message(), "No such mask");
}

#[test]
fn masks_name_kinds() {
    assert_eq!(mask_kind(Some(1)), Ok(NetKind::Producer));
    assert_eq!(mask_kind(Some(2)), Ok(NetKind::Consumer));
    assert_eq!(mask_kind(Some(3)), Ok(NetKind::Storage));
    assert_eq!(mask_kind(Some(4)), Ok(NetKind::Node));
    assert_eq!(mask_kind(Some(257)), Ok(NetKind::Producer));
    assert_eq!(mask_kind(Some(5)), Err(ConfigError::NoSuchMask));
    assert_eq!(mask_kind(None), Err(ConfigError::NoSuchMask));
}

#[test]
fn net_kind_of_definitions() {
    assert_eq!(net_kind(&def_with(&[])), Ok(None));
    assert!(!has_network(&def_with(&[])));
    let bd = def_with(&[("power", serde_json::Value::from(1.5))]);
    assert!(has_network(&bd));
    assert_eq!(net_kind(&bd), Ok(None));
    let bd = def_with(&[("mask", serde_json::Value::from(2u64))]);
    assert_eq!(net_kind(&bd), Ok(Some(NetKind::Consumer)));
    let bd = def_with(&[("mask", serde_json::Value::from(9u64))]);
    assert_eq!(net_kind(&bd), Err(ConfigError::NoSuchMask));
    let bd = def_with(&[("mask", serde_json::Value::from("x"))]);
    assert_eq!(net_kind(&bd), Err(ConfigError::NoSuchMask));
}

#[test]
fn cloned_definitions_keep_their_parameters() {
    let bd = def_with(&[("wavelength", serde_json::Value::from(9u64)), ("mask", serde_json::Value::from(3u64))]);
    let copy = bd.clone();
    assert_eq!(get_wavelength(&copy), Ok(9));
    assert_eq!(net_kind(&copy), Ok(Some(NetKind::Storage)));
}
