//! Parameters that block definitions carry in their JSON `net` object.

use vstd::prelude::*;
use vstd::string::StringExecFns;
use crate::defs::BlockDef;

verus! {

#[verifier::external_type_specification]
#[verifier::external_body]
pub struct ExJsonValue(serde_json::Value);

#[verifier::external_type_specification]
#[verifier::external_body]
#[verifier::reject_recursive_types(K)]
#[verifier::reject_recursive_types(V)]
pub struct ExJsonMap<K, V>(serde_json::Map<K, V>);

/// The entries of a JSON object, each value read as an unsigned integer
/// (`None` where it is not a non-negative integer).
pub uninterp spec fn json_u64_entries(m: serde_json::Map<String, serde_json::Value>) -> Map<Seq<char>, Option<u64>>;

/// `serde_json::Map::get` followed by `serde_json::Value::as_u64`: the entry
/// for `key`, if the object has one, read as an unsigned integer.
#[verifier::external_body]
fn json_get_u64(m: &serde_json::Map<String, serde_json::Value>, key: &str) -> (r: Option<Option<u64>>)
    ensures
        r == (if json_u64_entries(*m).contains_key(key@) {
            Some(json_u64_entries(*m)[key@])
        } else {
            None
        }),
{
    match m.get(key) {
        Some(v) => Some(v.as_u64()),
        None => None,
    }
}

/// `serde_json::Map::is_empty`: whether the object has no entries.
#[verifier::external_body]
fn json_is_empty(m: &serde_json::Map<String, serde_json::Value>) -> (r: bool)
    ensures
        r == json_u64_entries(*m).is_empty(),
{
    m.is_empty()
}

/// `Clone` of `serde_json::Map<String, Value>`: the copy holds the same
/// entries.
pub assume_specification[ <serde_json::Map<String, serde_json::Value> as Clone>::clone ](
    m: &serde_json::Map<String, serde_json::Value>,
) -> (r: serde_json::Map<String, serde_json::Value>)
    ensures
        json_u64_entries(r) == json_u64_entries(*m),
;

/// Name of the network parameter holding a block's wavelength.
pub const WAVELENGTH: &'static str = "wavelength";

/// Name of the network parameter holding a block's network mask.
pub const ENERGY_MASK: &'static str = "mask";

/// Mask of blocks that produce energy.
pub const PRODUCER: u8 = 1;

/// Mask of blocks that consume energy.
pub const CONSUMER: u8 = 2;

/// Mask of blocks that store energy.
pub const STORAGE: u8 = 3;

/// Mask of blocks that only relay beams.
pub const NODE: u8 = 4;

/// A problem in a block definition.
#[derive(Debug, Clone, Copy, PartialEq, Eq, Structural)]
pub enum ConfigError {
    /// The definition lacks the `wavelength` parameter.
    MissingWavelength,
    /// The `wavelength` parameter is not a non-negative integer.
    InvalidWavelength,
    /// The network mask names no known kind of block.
    NoSuchMask,
}

impl ConfigError {
    /// The message reported for this problem.
    pub fn message(&self) -> (s: String)
        ensures
            s@ == match self {
                ConfigError::MissingWavelength => "Missing parameter `wavelength`"@,
                ConfigError::InvalidWavelength => "Invalid value for `wavelength`"@,
                ConfigError::NoSuchMask => "No such mask"@,
            },
    {
        match self {
            ConfigError::MissingWavelength => String::from_str("Missing parameter `wavelength`"),
            ConfigError::InvalidWavelength => String::from_str("Invalid value for `wavelength`"),
            ConfigError::NoSuchMask => String::from_str("No such mask"),
        }
    }
}

/// The kind of network member a block definition describes.
#[derive(Debug, Clone, Copy, PartialEq, Eq, Structural)]
pub enum NetKind {
    Producer,
    Consumer,
    Storage,
    Node,
}

/// The wavelength of a block, truncated to 16 bits.
pub open spec fn spec_wavelength(bd: BlockDef) -> Result<u16, ConfigError> {
    let entries = json_u64_entries(bd.net);
    if !entries.contains_key(WAVELENGTH@) {
        Err(ConfigError::MissingWavelength)
    } else {
        match entries[WAVELENGTH@] {
            Some(v) => Ok((v % 65536) as u16),
            None => Err(ConfigError::InvalidWavelength),
        }
    }
}

/// The wavelength given by the `wavelength` entry of a definition's network
/// parameters: `entry` is `None` when there is no such entry and
/// `Some(None)` when its value is not a non-negative integer. The value is
/// truncated to 16 bits.
pub fn wavelength_from(entry: Option<Option<u64>>) -> (r: Result<u16, ConfigError>)
    ensures
        r == match entry {
            None => Err(ConfigError::MissingWavelength),
            Some(None) => Err(ConfigError::InvalidWavelength),
            Some(Some(v)) => Ok::<u16, ConfigError>((v % 65536) as u16),
        },
{
    match entry {
        None => Err(ConfigError::MissingWavelength),
        Some(None) => Err(ConfigError::InvalidWavelength),
        Some(Some(v)) => Ok((v % 65536) as u16),
    }
}

/// Reads the `wavelength` parameter of a block definition; the value is
/// truncated to 16 bits.
pub fn get_wavelength(bd: &BlockDef) -> (r: Result<u16, ConfigError>)
    ensures
        r == spec_wavelength(*bd),
{
    wavelength_from(json_get_u64(&bd.net, WAVELENGTH))
}

/// The kind named by a mask value: a missing or non-integer mask counts as
/// 0, and only the low 8 bits are read.
pub open spec fn spec_mask_kind(value: Option<u64>) -> Result<NetKind, ConfigError> {
    let b = match value {
        Some(v) => v % 256,
        None => 0,
    };
    if b == PRODUCER {
        Ok(NetKind::Producer)
    } else if b == CONSUMER {
        Ok(NetKind::Consumer)
    } else if b == STORAGE {
        Ok(NetKind::Storage)
    } else if b == NODE {
        Ok(NetKind::Node)
    } else {
        Err(ConfigError::NoSuchMask)
    }
}

/// The network role of a block definition: `None` when it has no network
/// parameters or no mask, otherwise the kind its mask names.
pub open spec fn spec_net_kind(bd: BlockDef) -> Result<Option<NetKind>, ConfigError> {
    let entries = json_u64_entries(bd.net);
    if entries.is_empty() || !entries.contains_key(ENERGY_MASK@) {
        Ok(None)
    } else {
        match spec_mask_kind(entries[ENERGY_MASK@]) {
            Ok(k) => Ok(Some(k)),
            Err(e) => Err(e),
        }
    }
}

/// Reads the kind named by a mask value.
pub fn mask_kind(value: Option<u64>) -> (r: Result<NetKind, ConfigError>)
    ensures
        r == spec_mask_kind(value),
{
    let b: u8 = match value {
        Some(v) => (v % 256) as u8,
        None => 0,
    };
    if b == PRODUCER {
        Ok(NetKind::Producer)
    } else if b == CONSUMER {
        Ok(NetKind::Consumer)
    } else if b == STORAGE {
        Ok(NetKind::Storage)
    } else if b == NODE {
        Ok(NetKind::Node)
    } else {
        Err(ConfigError::NoSuchMask)
    }
}

/// Whether a block definition carries network parameters at all.
pub fn has_network(bd: &BlockDef) -> (r: bool)
    ensures
        r == !json_u64_entries(bd.net).is_empty(),
{
    !json_is_empty(&bd.net)
}

/// The network role given by a definition's network parameters: `empty`
/// tells whether there are none, and `mask` is the `mask` entry as
/// `wavelength_from` takes its entry.
pub fn net_kind_from(empty: bool, mask: Option<Option<u64>>) -> (r: Result<Option<NetKind>, ConfigError>)
    ensures
        r == (if empty {
            Ok(None)
        } else {
            match mask {
                None => Ok(None),
                Some(value) => match spec_mask_kind(value) {
                    Ok(k) => Ok(Some(k)),
                    Err(e) => Err(e),
                },
            }
        }),
{
    if empty {
        return Ok(None);
    }
    match mask {
        None => Ok(None),
        Some(value) => match mask_kind(value) {
            Ok(k) => Ok(Some(k)),
            Err(e) => Err(e),
        },
    }
}

/// Reads the network role of a block definition.
pub fn net_kind(bd: &BlockDef) -> (r: Result<Option<NetKind>, ConfigError>)
    ensures
        r == spec_net_kind(*bd),
{
    let empty = json_is_empty(&bd.net);
    net_kind_from(empty, json_get_u64(&bd.net, ENERGY_MASK))
}

} // verus!
