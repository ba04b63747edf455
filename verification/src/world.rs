//! The block grid: which block occupies each cell of the world.

use vstd::prelude::*;
use crate::defs::Registry;
use hecs::Entity as EcsEntity;

verus! {

#[verifier::external_type_specification]
#[verifier::external_body]
pub struct ExEntity(EcsEntity);

/// Position in row order of the cell at column `col`, row `row`.
pub open spec fn cell_index(w: int, col: int, row: int) -> int {
    row * w + col
}

/// Cell `i` lies in the `cols` by `rows` rectangle whose top-left cell is
/// (`x`, `y`).
pub open spec fn in_rect(w: int, x: int, y: int, cols: int, rows: int, i: int) -> bool {
    exists|col: int, row: int|
        x <= col < x + cols && y <= row < y + rows && i == #[trigger] cell_index(w, col, row)
}

/// The cells `size` by `size` from (`x`, `y`) stay inside a row-order
/// sequence of `len` cells.
pub open spec fn square_fits(w: int, x: int, y: int, size: int, len: int) -> bool {
    &&& x + size <= u16::MAX
    &&& y + size <= u16::MAX
    &&& size > 0 ==> cell_index(w, x + size - 1, y + size - 1) < len
}

/// `after` is `before` with every cell of the `size` by `size` square from
/// (`x`, `y`) set to `v`.
pub open spec fn square_set(
    before: Seq<Option<EcsEntity>>,
    after: Seq<Option<EcsEntity>>,
    w: int,
    x: int,
    y: int,
    size: int,
    v: Option<EcsEntity>,
) -> bool {
    &&& after.len() == before.len()
    &&& forall|i: int|
        0 <= i < after.len() ==> #[trigger] after[i] == if in_rect(w, x, y, size, size, i) {
            v
        } else {
            before[i]
        }
}

/// Every cell of the `size` by `size` square from (`x`, `y`) is free.
pub open spec fn square_free(cells: Seq<Option<EcsEntity>>, w: int, x: int, y: int, size: int) -> bool {
    forall|col: int, row: int|
        x <= col < x + size && y <= row < y + size ==> (#[trigger] cells[cell_index(w, col, row)]) is None
}

proof fn lemma_index_below(w: int, col: int, row: int, cmax: int, rmax: int)
    requires
        0 <= col <= cmax,
        0 <= row <= rmax,
        w >= 0,
    ensures
        cell_index(w, col, row) <= cell_index(w, cmax, rmax),
{
    assert(row * w <= rmax * w) by (nonlinear_arith)
        requires
            0 <= row <= rmax,
            w >= 0,
    ;
}

/// Sets every cell of the `size` by `size` square from (`x`, `y`) to `v`.
fn fill_square(
    cells: &mut Vec<Option<EcsEntity>>,
    w: u16,
    x: u16,
    y: u16,
    size: u16,
    v: Option<EcsEntity>,
)
    requires
        square_fits(w as int, x as int, y as int, size as int, old(cells).len() as int),
    ensures
        square_set(old(cells)@, final(cells)@, w as int, x as int, y as int, size as int, v),
{
    let ghost wi = w as int;
    let ghost orig = cells@;
    let end_x = x + size;
    let end_y = y + size;
    let mut col = x;
    while col < end_x
        invariant
            x <= col <= end_x,
            end_x == x + size,
            end_y == y + size,
            wi == w,
            cells.len() == orig.len(),
            square_fits(wi, x as int, y as int, size as int, orig.len() as int),
            forall|i: int|
                0 <= i < cells.len() ==> #[trigger] cells@[i] == if in_rect(
                    wi,
                    x as int,
                    y as int,
                    col - x,
                    size as int,
                    i,
                ) {
                    v
                } else {
                    orig[i]
                },
        decreases end_x - col,
    {
        let mut row = y;
        while row < end_y
            invariant
                x <= col < end_x,
                y <= row <= end_y,
                end_x == x + size,
                end_y == y + size,
                wi == w,
                cells.len() == orig.len(),
                square_fits(wi, x as int, y as int, size as int, orig.len() as int),
                forall|i: int|
                    0 <= i < cells.len() ==> #[trigger] cells@[i] == if in_rect(
                        wi,
                        x as int,
                        y as int,
                        col - x,
                        size as int,
                        i,
                    ) || in_rect(wi, col as int, y as int, 1, row - y, i) {
                        v
                    } else {
                        orig[i]
                    },
            decreases end_y - row,
        {
            proof {
                lemma_index_below(wi, col as int, row as int, (x + size - 1) as int, (y + size - 1) as int);
                assert(0 <= (row as int) * wi) by (nonlinear_arith)
                    requires
                        row >= 0,
                        wi >= 0,
                ;
            }
            let idx = (row as usize) * (w as usize) + (col as usize);
            let ghost before = cells@;
            cells.set(idx, v);
            proof {
                assert(idx as int == cell_index(wi, col as int, row as int));
                assert forall|i: int| 0 <= i < cells.len() implies #[trigger] cells@[i] == if in_rect(
                    wi,
                    x as int,
                    y as int,
                    col - x,
                    size as int,
                    i,
                ) || in_rect(wi, col as int, y as int, 1, row + 1 - y, i) {
                    v
                } else {
                    orig[i]
                } by {
                    if i == idx {
                        assert(in_rect(wi, col as int, y as int, 1, row + 1 - y, i)) by {
                            assert(i == cell_index(wi, col as int, row as int));
                        }
                    } else {
                        if in_rect(wi, col as int, y as int, 1, row + 1 - y, i) {
                            let (c2, r2) = choose|c2: int, r2: int|
                                col <= c2 < col + 1 && y <= r2 < row + 1 && i == #[trigger] cell_index(
                                    wi,
                                    c2,
                                    r2,
                                );
                            assert(r2 != row);
                            assert(in_rect(wi, col as int, y as int, 1, row - y, i));
                        }
                        assert(cells@[i] == before[i]);
                    }
                }
            }
            row = row + 1;
        }
        proof {
            assert forall|i: int| 0 <= i < cells.len() implies #[trigger] cells@[i] == if in_rect(
                wi,
                x as int,
                y as int,
                col + 1 - x,
                size as int,
                i,
            ) {
                v
            } else {
                orig[i]
            } by {
                if in_rect(wi, x as int, y as int, col + 1 - x, size as int, i) {
                    let (c2, r2) = choose|c2: int, r2: int|
                        x <= c2 < col + 1 && y <= r2 < y + size && i == #[trigger] cell_index(wi, c2, r2);
                    if c2 == col {
                        assert(in_rect(wi, col as int, y as int, 1, size as int, i));
                    } else {
                        assert(in_rect(wi, x as int, y as int, col - x, size as int, i));
                    }
                } else {
                    if in_rect(wi, x as int, y as int, col - x, size as int, i) {
                        let (c2, r2) = choose|c2: int, r2: int|
                            x <= c2 < col && y <= r2 < y + size && i == #[trigger] cell_index(wi, c2, r2);
                        assert(in_rect(wi, x as int, y as int, col + 1 - x, size as int, i));
                    }
                    if in_rect(wi, col as int, y as int, 1, size as int, i) {
                        let (c2, r2) = choose|c2: int, r2: int|
                            col <= c2 < col + 1 && y <= r2 < y + size && i == #[trigger] cell_index(wi, c2, r2);
                        assert(in_rect(wi, x as int, y as int, col + 1 - x, size as int, i));
                    }
                }
            }
        }
        col = col + 1;
    }
}


/// The ground tiles of the world, one entity per cell in row order.
pub struct GridMap {
    pub width: u16,
    pub height: u16,
    pub tiles: Vec<EcsEntity>,
}

impl GridMap {
    /// A map of `width` by `height` cells over the ground tiles `tiles`.
    pub fn new(width: u16, height: u16, tiles: Vec<EcsEntity>) -> (m: Self)
        requires
            tiles.len() == width * height,
        ensures
            m.width == width,
            m.height == height,
            m.tiles@ == tiles@,
    {
        GridMap { width, height, tiles }
    }

    /// Position in row order of the cell at column `x`, row `y`.
    pub fn index(&self, x: u16, y: u16) -> (i: usize)
        ensures
            i == cell_index(self.width as int, x as int, y as int),
    {
        proof {
            assert((y as int) * (self.width as int) <= 65535 * 65535) by (nonlinear_arith)
                requires
                    y <= 65535,
                    self.width <= 65535,
            ;
            assert(0 <= (y as int) * (self.width as int)) by (nonlinear_arith);
        }
        (y as usize) * (self.width as usize) + (x as usize)
    }

    /// The ground tile at column `x`, row `y`.
    pub fn get(&self, x: u16, y: u16) -> (e: EcsEntity)
        requires
            cell_index(self.width as int, x as int, y as int) < self.tiles.len(),
        ensures
            e == self.tiles@[cell_index(self.width as int, x as int, y as int)],
    {
        self.tiles[self.index(x, y)]
    }
}

/// The grid together with the block standing on each cell.
pub struct World {
    pub map: GridMap,
    /// The block entity on each cell in row order; a block of size `s`
    /// fills `s` by `s` cells.
    pub block_entities: Vec<Option<EcsEntity>>,
}

impl World {
    /// Both layers hold one entry per cell.
    pub open spec fn wf(&self) -> bool {
        &&& self.map.tiles.len() == self.map.width * self.map.height
        &&& self.block_entities.len() == self.map.width * self.map.height
    }

    /// A world of `width` by `height` cells over the ground tiles `tiles`,
    /// with no blocks placed.
    pub fn new(width: u16, height: u16, tiles: Vec<EcsEntity>) -> (w: Self)
        requires
            tiles.len() == width * height,
        ensures
            w.wf(),
            w.map.width == width,
            w.map.height == height,
            w.map.tiles@ == tiles@,
            forall|i: int| 0 <= i < w.block_entities.len() ==> #[trigger] w.block_entities@[i] is None,
    {
        let n = tiles.len();
        let mut block_entities: Vec<Option<EcsEntity>> = Vec::new();
        let mut i: usize = 0;
        while i < n
            invariant
                i <= n,
                block_entities.len() == i,
                forall|j: int| 0 <= j < i ==> #[trigger] block_entities@[j] is None,
            decreases n - i,
        {
            block_entities.push(None);
            i = i + 1;
        }
        World { map: GridMap::new(width, height, tiles), block_entities }
    }

    /// The block on column `x`, row `y`.
    pub fn get(&self, x: u16, y: u16) -> (e: Option<EcsEntity>)
        requires
            cell_index(self.map.width as int, x as int, y as int) < self.block_entities.len(),
        ensures
            e == self.block_entities@[cell_index(self.map.width as int, x as int, y as int)],
    {
        self.block_entities[self.map.index(x, y)]
    }

    /// The cell of column `x`, row `y`, for writing.
    pub fn get_mut(&mut self, x: u16, y: u16) -> (r: &mut Option<EcsEntity>)
        requires
            cell_index(old(self).map.width as int, x as int, y as int) < old(self).block_entities.len(),
        ensures
            *r == old(self).block_entities@[cell_index(old(self).map.width as int, x as int, y as int)],
            final(self).map == old(self).map,
            final(self).block_entities@ == old(self).block_entities@.update(
                cell_index(old(self).map.width as int, x as int, y as int),
                *final(r),
            ),
    {
        let i = self.map.index(x, y);
        &mut self.block_entities[i]
    }

    /// The block on column `x`, row `y`, or the ground tile there when no
    /// block stands on it.
    pub fn get_any(&self, x: u16, y: u16) -> (e: EcsEntity)
        requires
            self.wf(),
            cell_index(self.map.width as int, x as int, y as int) < self.block_entities.len(),
        ensures
            e == match self.block_entities@[cell_index(self.map.width as int, x as int, y as int)] {
                Some(b) => b,
                None => self.map.tiles@[cell_index(self.map.width as int, x as int, y as int)],
            },
    {
        let index = self.map.index(x, y);
        match self.block_entities[index] {
            Some(b) => b,
            None => self.map.tiles[index],
        }
    }

    /// Whether a block of side `size` fits with its top-left cell on column
    /// `x`, row `y`: it stays inside the map and every cell it covers is
    /// free.
    pub fn check_for_space(&self, x: u16, y: u16, size: u16) -> (r: bool)
        requires
            self.wf(),
            x + size <= u16::MAX,
            y + size <= u16::MAX,
        ensures
            r == (x + size <= self.map.width && y + size <= self.map.height && square_free(
                self.block_entities@,
                self.map.width as int,
                x as int,
                y as int,
                size as int,
            )),
    {
        let w = self.map.width;
        let h = self.map.height;
        if x + size > w || y + size > h {
            return false;
        }
        let end_x = x + size;
        let end_y = y + size;
        let mut col = x;
        while col < end_x
            invariant
                self.wf(),
                w == self.map.width,
                h == self.map.height,
                x <= col <= end_x,
                end_x == x + size <= w,
                end_y == y + size <= h,
                forall|c: int, r: int|
                    x <= c < col && y <= r < end_y ==> (#[trigger] self.block_entities@[cell_index(
                        w as int,
                        c,
                        r,
                    )]) is None,
            decreases end_x - col,
        {
            let mut row = y;
            while row < end_y
                invariant
                    self.wf(),
                    w == self.map.width,
                    h == self.map.height,
                    x <= col < end_x,
                    y <= row <= end_y,
                    end_x == x + size <= w,
                    end_y == y + size <= h,
                    forall|c: int, r: int|
                        (x <= c < col && y <= r < end_y) || (c == col && y <= r < row) ==> (
                        #[trigger] self.block_entities@[cell_index(w as int, c, r)]) is None,
                decreases end_y - row,
            {
                proof {
                    lemma_index_below(w as int, col as int, row as int, (w - 1) as int, (h - 1) as int);
                    assert(cell_index(w as int, (w - 1) as int, (h - 1) as int) < w * h) by (nonlinear_arith)
                        requires
                            w >= 1,
                            h >= 1,
                    ;
                }
                if self.get(col, row).is_some() {
                    return false;
                }
                row = row + 1;
            }
            col = col + 1;
        }
        true
    }

    /// Puts `e` on every cell of the `size` by `size` square whose top-left
    /// cell is column `x`, row `y`.
    pub fn place_block(&mut self, x: u16, y: u16, size: u16, e: EcsEntity)
        requires
            square_fits(old(self).map.width as int, x as int, y as int, size as int, old(self).block_entities.len() as int),
        ensures
            final(self).map == old(self).map,
            square_set(
                old(self).block_entities@,
                final(self).block_entities@,
                old(self).map.width as int,
                x as int,
                y as int,
                size as int,
                Some(e),
            ),
    {
        fill_square(&mut self.block_entities, self.map.width, x, y, size, Some(e));
    }

    /// Frees every cell of the square that a block of type `block_type`
    /// covers from its top-left cell on column `x`, row `y`; the block's
    /// size comes from the registry. Fails, changing nothing, when the
    /// registry has no such block.
    pub fn remove_entity(&mut self, registry: &Registry, block_type: u32, x: u16, y: u16) -> (r: Result<(), u32>)
        requires
            block_type < registry.blocks().len() ==> square_fits(
                old(self).map.width as int,
                x as int,
                y as int,
                registry.blocks()[block_type as int].size as int,
                old(self).block_entities.len() as int,
            ),
        ensures
            final(self).map == old(self).map,
            final(self).block_entities.len() == old(self).block_entities.len(),
            block_type >= registry.blocks().len() ==> r == Err::<(), u32>(block_type)
                && final(self).block_entities@ == old(self).block_entities@,
            block_type < registry.blocks().len() ==> r is Ok && square_set(
                old(self).block_entities@,
                final(self).block_entities@,
                old(self).map.width as int,
                x as int,
                y as int,
                registry.blocks()[block_type as int].size as int,
                None,
            ),
    {
        let size = match registry.get_block_directly(block_type) {
            Some(def) => def.size,
            None => {
                return Err(block_type);
            },
        };
        fill_square(&mut self.block_entities, self.map.width, x, y, size, None);
        Ok(())
    }
}

/// A placed block fills its whole square.
pub proof fn law_placed_square_is_taken(
    before: Seq<Option<EcsEntity>>,
    after: Seq<Option<EcsEntity>>,
    w: int,
    x: int,
    y: int,
    size: int,
    e: EcsEntity,
    col: int,
    row: int,
)
    requires
        square_set(before, after, w, x, y, size, Some(e)),
        x <= col < x + size,
        y <= row < y + size,
        0 <= cell_index(w, col, row) < after.len(),
    ensures
        after[cell_index(w, col, row)] == Some(e),
{
    assert(in_rect(w, x, y, size, size, cell_index(w, col, row)));
}

/// Placing a block on a free square and then removing it gives back the
/// grid as it was.
pub proof fn law_place_then_remove_restores(
    before: Seq<Option<EcsEntity>>,
    placed: Seq<Option<EcsEntity>>,
    after: Seq<Option<EcsEntity>>,
    w: int,
    x: int,
    y: int,
    size: int,
    e: EcsEntity,
)
    requires
        square_free(before, w, x, y, size),
        square_set(before, placed, w, x, y, size, Some(e)),
        square_set(placed, after, w, x, y, size, None),
    ensures
        after == before,
{
    assert forall|i: int| 0 <= i < after.len() implies after[i] == before[i] by {
        if in_rect(w, x, y, size, size, i) {
            let (c, r) = choose|c: int, r: int|
                x <= c < x + size && y <= r < y + size && i == #[trigger] cell_index(w, c, r);
            assert(before[cell_index(w, c, r)] is None);
        }
    }
    assert(after =~= before);
}

} // verus!
