//! What a left click on the world does.

use vstd::prelude::*;
use crate::defs::{Registry, BlockDef};
use crate::json::{ConfigError, NetKind, spec_net_kind, spec_wavelength, json_u64_entries, net_kind, get_wavelength, has_network};

verus! {

/// The wavelength given to blocks whose light has no particular colour:
/// storages and relay nodes. Wavelengths read from definitions fit in 16
/// bits, so it differs from all of them.
pub const UNDEFINED_WAVELENGTH: u32 = 0xFFFF_FFFF;

/// How to place a selected block.
#[derive(Debug, Clone, Copy)]
pub struct PlacePlan {
    /// Registry index of the block.
    pub block: u32,
    /// Its network role, when its definition names one.
    pub energy: Option<NetKind>,
    /// Its wavelength as the definition gives it; producers and consumers
    /// need it.
    pub wavelength: Result<u16, ConfigError>,
    /// Whether the block runs a script.
    pub scripted: bool,
    /// Whether the block becomes a plain tile: it has neither a script nor
    /// network parameters.
    pub static_tile: bool,
}

/// The outcome of a left click on a cell.
#[derive(Debug, Clone, Copy)]
pub enum ClickPlan {
    /// A block stands on the cell: its mouse handler runs.
    Interact,
    /// No block is selected.
    Idle,
    /// The selected block is to be placed.
    Place(PlacePlan),
}

/// Why a click cannot be carried out.
#[derive(Debug, Clone, Copy, PartialEq, Eq, Structural)]
pub enum ClickError {
    /// The selected registry index names no block.
    UnknownBlock(u32),
    /// The selected block's definition is faulty.
    Config(ConfigError),
}

/// The plan for placing block `b`, whose definition is `bd`.
pub open spec fn spec_place_plan(b: u32, bd: BlockDef) -> Result<ClickPlan, ClickError> {
    match spec_net_kind(bd) {
        Err(e) => Err(ClickError::Config(e)),
        Ok(k) => Ok(
            ClickPlan::Place(
                PlacePlan {
                    block: b,
                    energy: k,
                    wavelength: spec_wavelength(bd),
                    scripted: bd.script is Some,
                    static_tile: bd.script is None && json_u64_entries(bd.net).is_empty(),
                },
            ),
        ),
    }
}

/// The outcome of a click on a cell that is `occupied` or not, with block
/// `selected` chosen.
pub open spec fn spec_plan_click(blocks: Seq<BlockDef>, occupied: bool, selected: Option<u32>) -> Result<
    ClickPlan,
    ClickError,
> {
    if occupied {
        Ok(ClickPlan::Interact)
    } else {
        match selected {
            None => Ok(ClickPlan::Idle),
            Some(b) => if b < blocks.len() {
                spec_place_plan(b, blocks[b as int])
            } else {
                Err(ClickError::UnknownBlock(b))
            },
        }
    }
}

/// Decides what a left click does: a block on the cell gets the click;
/// otherwise the selected block, if any, is to be placed as its definition
/// says.
pub fn plan_click(registry: &Registry, occupied: bool, selected: Option<u32>) -> (r: Result<ClickPlan, ClickError>)
    ensures
        r == spec_plan_click(registry.blocks(), occupied, selected),
{
    if occupied {
        return Ok(ClickPlan::Interact);
    }
    let b = match selected {
        None => {
            return Ok(ClickPlan::Idle);
        },
        Some(b) => b,
    };
    let bd = match registry.get_block_directly(b) {
        Some(bd) => bd,
        None => {
            return Err(ClickError::UnknownBlock(b));
        },
    };
    let energy = match net_kind(bd) {
        Ok(k) => k,
        Err(e) => {
            return Err(ClickError::Config(e));
        },
    };
    let scripted = bd.script.is_some();
    Ok(
        ClickPlan::Place(
            PlacePlan {
                block: b,
                energy,
                wavelength: get_wavelength(bd),
                scripted,
                static_tile: !scripted && !has_network(bd),
            },
        ),
    )
}

/// The wavelength a placed block of kind `kind` shines with: producers and
/// consumers use their definition's wavelength, storages and relay nodes
/// the undefined one.
pub fn placed_wavelength(kind: NetKind, wavelength: u16) -> (w: u32)
    ensures
        w == match kind {
            NetKind::Producer | NetKind::Consumer => wavelength as u32,
            NetKind::Storage | NetKind::Node => UNDEFINED_WAVELENGTH,
        },
{
    match kind {
        NetKind::Producer | NetKind::Consumer => wavelength as u32,
        NetKind::Storage | NetKind::Node => UNDEFINED_WAVELENGTH,
    }
}

/// The mouse button that went down.
#[derive(Debug, Clone, Copy, PartialEq, Eq, Structural)]
pub enum MouseKind {
    Left,
    Middle,
    Right,
    Other,
}

/// What a mouse press on the world asks the game to do next.
#[derive(Debug, Clone, Copy, PartialEq, Eq, Structural)]
pub enum MouseAction {
    /// Nothing more.
    Nothing,
    /// Handle a left click on the cell under the pointer (see `plan_click`).
    ClickCell,
    /// Select the type of the block under the pointer, if any.
    PickCellBlock,
    /// Remove the block under the pointer.
    RemoveCell,
}

/// The selection and follow-up action after `button` goes down, where
/// `list_pick` is the block-list entry under the pointer and `selected` the
/// block chosen so far.
pub open spec fn spec_on_mouse_down(button: MouseKind, list_pick: Option<u32>, selected: Option<u32>) -> (
    Option<u32>,
    MouseAction,
) {
    match button {
        MouseKind::Left => match list_pick {
            Some(b) => (Some(b), MouseAction::Nothing),
            None => (selected, MouseAction::ClickCell),
        },
        MouseKind::Middle => (selected, MouseAction::PickCellBlock),
        MouseKind::Right => match selected {
            Some(_) => (None, MouseAction::Nothing),
            None => (None, MouseAction::RemoveCell),
        },
        MouseKind::Other => (selected, MouseAction::Nothing),
    }
}

/// Decides a mouse press on the playing field: a left press on the block
/// list selects that block and otherwise clicks the cell; a middle press
/// picks the block under the pointer; a right press drops the selection,
/// or removes the block under the pointer when nothing is selected.
pub fn on_mouse_down(button: MouseKind, list_pick: Option<u32>, selected: Option<u32>) -> (r: (
    Option<u32>,
    MouseAction,
))
    ensures
        r == spec_on_mouse_down(button, list_pick, selected),
{
    match button {
        MouseKind::Left => match list_pick {
            Some(b) => (Some(b), MouseAction::Nothing),
            None => (selected, MouseAction::ClickCell),
        },
        MouseKind::Middle => (selected, MouseAction::PickCellBlock),
        MouseKind::Right => match selected {
            Some(_) => (None, MouseAction::Nothing),
            None => (None, MouseAction::RemoveCell),
        },
        MouseKind::Other => (selected, MouseAction::Nothing),
    }
}

/// A placement places the selected block: only an empty cell with a block
/// selected leads to a placement, and the plan names exactly that block and
/// says whether it runs a script as its definition does.
pub proof fn law_placement_places_the_selected_block(
    blocks: Seq<BlockDef>,
    occupied: bool,
    selected: Option<u32>,
)
    ensures
        spec_plan_click(blocks, occupied, selected) matches Ok(ClickPlan::Place(p)) ==> {
            &&& !occupied
            &&& selected == Some(p.block)
            &&& p.block < blocks.len()
            &&& p.scripted == (blocks[p.block as int].script is Some)
            &&& p.static_tile ==> !p.scripted
        },
        occupied ==> spec_plan_click(blocks, occupied, selected) == Ok::<ClickPlan, ClickError>(ClickPlan::Interact),
        !occupied && selected is None ==> spec_plan_click(blocks, occupied, selected) == Ok::<ClickPlan, ClickError>(
            ClickPlan::Idle,
        ),
{
}

/// A press changes the selection only by picking from the block list with
/// the left button, or by dropping it with the right button; a middle press
/// and any other button keep it.
pub proof fn law_selection_changes_only_by_pick_or_drop(
    button: MouseKind,
    list_pick: Option<u32>,
    selected: Option<u32>,
)
    ensures
        button == MouseKind::Middle ==> spec_on_mouse_down(button, list_pick, selected).0 == selected,
        button == MouseKind::Other ==> spec_on_mouse_down(button, list_pick, selected).0 == selected,
        button == MouseKind::Right ==> spec_on_mouse_down(button, list_pick, selected).0 is None,
        button == MouseKind::Left && list_pick is Some ==> spec_on_mouse_down(button, list_pick, selected).0
            == list_pick,
        button == MouseKind::Left && list_pick is None ==> spec_on_mouse_down(button, list_pick, selected).0
            == selected,
        spec_on_mouse_down(button, list_pick, selected).1 == MouseAction::RemoveCell ==> button == MouseKind::Right
            && selected is None,
        spec_on_mouse_down(button, list_pick, selected).1 == MouseAction::ClickCell ==> button == MouseKind::Left
            && list_pick is None,
        spec_on_mouse_down(button, list_pick, selected).1 == MouseAction::PickCellBlock <==> button
            == MouseKind::Middle,
{
}

} // verus!
