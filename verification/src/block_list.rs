//! The list of blocks the player can pick from.

use vstd::prelude::*;
use vstd::arithmetic::div_mod::lemma_fundamental_div_mod_converse;
use crate::defs::{Registry, BlockDef, sat_u32};

verus! {

/// Columns of the block list.
pub const COLS: usize = 4;

/// Block `def` is offered: it is not reserved for the editor, or the editor
/// is on.
pub open spec fn offered(def: BlockDef, editor_mode: bool) -> bool {
    !def.editor_only || editor_mode
}

/// Positions, in registration order, of the blocks among `blocks` that are
/// offered.
pub open spec fn offered_positions(blocks: Seq<BlockDef>, editor_mode: bool) -> Seq<usize> {
    Seq::new(blocks.len(), |i: int| i as usize).filter(|i: usize| offered(blocks[i as int], editor_mode))
}

/// Positions, in registration order, of the registered blocks offered to
/// the player.
pub fn offered_blocks(registry: &Registry, editor_mode: bool) -> (r: Vec<usize>)
    ensures
        r@ == offered_positions(registry.blocks(), editor_mode),
{
    let blocks = registry.get_all_blocks();
    let ghost all = Seq::new(blocks@.len(), |i: int| i as usize);
    let ghost pred = |i: usize| offered(blocks@[i as int], editor_mode);
    let mut r: Vec<usize> = Vec::new();
    let mut i: usize = 0;
    while i < blocks.len()
        invariant
            i <= blocks.len(),
            blocks@ == registry.blocks(),
            all == Seq::new(blocks@.len(), |k: int| k as usize),
            pred == (|k: usize| offered(blocks@[k as int], editor_mode)),
            r@ == all.take(i as int).filter(pred),
        decreases blocks.len() - i,
    {
        proof {
            reveal_with_fuel(Seq::<_>::filter, 1);
            assert(all.take(i + 1).drop_last() =~= all.take(i as int));
        }
        if !blocks[i].editor_only || editor_mode {
            r.push(i);
        }
        i = i + 1;
    }
    proof {
        assert(all.take(blocks@.len() as int) =~= all);
    }
    r
}

/// Index into the list of the item under the pixel offset (`x`, `y`) from
/// the list's corner, for items `item_size` pixels wide.
pub open spec fn list_slot(x: int, y: int, item_size: int) -> int {
    x / item_size + (y / item_size) * COLS
}

/// The registry index of the block under the pixel offset (`x`, `y`) from
/// the list's corner, if an item lies there; `offered` lists the positions
/// of the offered blocks.
pub fn pick_block(list: &Vec<usize>, x: usize, y: usize, item_size: usize) -> (r: Option<u32>)
    requires
        item_size > 0,
        x / item_size + (y / item_size) * COLS <= usize::MAX,
    ensures
        r == (if list_slot(x as int, y as int, item_size as int) < list.len() {
            Some(sat_u32(list@[list_slot(x as int, y as int, item_size as int)] as int))
        } else {
            None
        }),
{
    let index = x / item_size + (y / item_size) * COLS;
    if index >= list.len() {
        return None;
    }
    let p = list[index];
    if p <= u32::MAX as usize {
        Some(p as u32)
    } else {
        Some(u32::MAX)
    }
}

/// The list is laid out in rows of `COLS` items of `item_size` pixels: any
/// pixel of the item cell in column `col` and row `row` names entry
/// `col + row * COLS` of the list.
pub proof fn law_pick_names_the_cell_under_the_pointer(
    item_size: int,
    col: int,
    row: int,
    dx: int,
    dy: int,
)
    requires
        item_size > 0,
        col >= 0,
        row >= 0,
        0 <= dx < item_size,
        0 <= dy < item_size,
    ensures
        list_slot(col * item_size + dx, row * item_size + dy, item_size) == col + row * COLS,
        list_slot(col * item_size + dx, row * item_size + dy, item_size) == list_slot(
            col * item_size,
            row * item_size,
            item_size,
        ),
{
    lemma_fundamental_div_mod_converse(col * item_size + dx, item_size, col, dx);
    lemma_fundamental_div_mod_converse(row * item_size + dy, item_size, row, dy);
    lemma_fundamental_div_mod_converse(col * item_size, item_size, col, 0);
    lemma_fundamental_div_mod_converse(row * item_size, item_size, row, 0);
}

} // verus!
