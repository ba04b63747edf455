//! Energy networks: blocks joined by light beams of one wavelength.
//!
//! Every energy block casts a beam from each of its cells in the four grid
//! headings. A beam passes over the block's own cells, crosses at most
//! `radius` empty cells, and stops at the first other energy block; when the
//! two blocks share a wavelength they are linked. Networks are the classes of
//! the equivalence generated by these links.

use vstd::prelude::*;
use crate::dsu::{NetworkDsu, union_result, law_union_joins_exactly, law_reps_in_range};

verus! {

/// Column step of heading `hd` (right, down, left, up).
pub open spec fn heading_dx(hd: int) -> int {
    if hd == 0 {
        1
    } else if hd == 2 {
        -1
    } else {
        0
    }
}

/// Row step of heading `hd` (right, down, left, up).
pub open spec fn heading_dy(hd: int) -> int {
    if hd == 1 {
        1
    } else if hd == 3 {
        -1
    } else {
        0
    }
}

/// The energy node standing on cell `c`, if any: a slot that the cell names
/// and that takes part in networks.
pub open spec fn node_at(cells: Seq<Option<u32>>, nodes: Seq<Option<u32>>, c: int) -> Option<int> {
    match cells[c] {
        Some(k) => if nodes[k as int] is Some {
            Some(k as int)
        } else {
            None
        },
        None => None,
    }
}

/// How far a beam at column `x`, row `y` can still travel in heading `hd`.
pub open spec fn room_ahead(w: int, h: int, x: int, y: int, hd: int) -> int {
    if hd == 0 {
        w - x
    } else if hd == 1 {
        h - y
    } else if hd == 2 {
        x + 1
    } else {
        y + 1
    }
}

/// The node that a beam of node `e`, now at (`x`, `y`) after `steps` empty
/// cells, stops at.
pub open spec fn beam_target(
    w: int,
    h: int,
    cells: Seq<Option<u32>>,
    nodes: Seq<Option<u32>>,
    radius: int,
    e: int,
    x: int,
    y: int,
    hd: int,
    steps: int,
) -> Option<int>
    decreases room_ahead(w, h, x, y, hd),
{
    if !(0 <= hd < 4 && steps < radius && 0 <= x < w && 0 <= y < h) {
        None
    } else {
        match node_at(cells, nodes, y * w + x) {
            Some(o) => if o == e {
                beam_target(
                    w,
                    h,
                    cells,
                    nodes,
                    radius,
                    e,
                    x + heading_dx(hd),
                    y + heading_dy(hd),
                    hd,
                    steps,
                )
            } else {
                Some(o)
            },
            None => beam_target(
                w,
                h,
                cells,
                nodes,
                radius,
                e,
                x + heading_dx(hd),
                y + heading_dy(hd),
                hd,
                steps + 1,
            ),
        }
    }
}

/// The node linked to the node on cell `c` by the beam leaving that cell in
/// heading `hd`: the beam starts on the neighbouring cell (a neighbour that
/// belongs to the same node sends no beam), and the node it stops at must
/// have the same wavelength.
pub open spec fn beam_link(
    w: int,
    h: int,
    cells: Seq<Option<u32>>,
    nodes: Seq<Option<u32>>,
    radius: int,
    c: int,
    hd: int,
) -> Option<int> {
    match node_at(cells, nodes, c) {
        None => None,
        Some(e) => {
            let nx = c % w + heading_dx(hd);
            let ny = c / w + heading_dy(hd);
            if !(0 <= nx < w && 0 <= ny < h) {
                None
            } else if node_at(cells, nodes, ny * w + nx) == Some(e) {
                None
            } else {
                match beam_target(w, h, cells, nodes, radius, e, nx, ny, hd, 0) {
                    Some(o) => if nodes[o] == nodes[e] {
                        Some(o)
                    } else {
                        None
                    },
                    None => None,
                }
            }
        },
    }
}

/// `g` gives every pair of linked nodes the same label.
pub open spec fn respects(
    w: int,
    h: int,
    cells: Seq<Option<u32>>,
    nodes: Seq<Option<u32>>,
    radius: int,
    g: Seq<int>,
) -> bool {
    &&& g.len() == nodes.len()
    &&& forall|c: int, hd: int|
        0 <= c < cells.len() && 0 <= hd < 4 && (#[trigger] beam_link(
            w,
            h,
            cells,
            nodes,
            radius,
            c,
            hd,
        )) is Some ==> g[node_at(cells, nodes, c)->0] == g[beam_link(
            w,
            h,
            cells,
            nodes,
            radius,
            c,
            hd,
        )->0]
}

/// Slot `k` takes part in networks: it carries a wavelength and stands on
/// at least one cell.
pub open spec fn takes_part(cells: Seq<Option<u32>>, nodes: Seq<Option<u32>>, k: int) -> bool {
    &&& nodes[k] is Some
    &&& exists|c: int| 0 <= c < cells.len() && #[trigger] cells[c] == Some(k as u32)
}

/// Entry `k` is the first to carry its network id.
pub open spec fn is_first(nets: Seq<Option<u32>>, k: int) -> bool {
    &&& nets[k] is Some
    &&& forall|j: int| 0 <= j < k ==> nets[j] != nets[k]
}

/// The number of entries before `k` that are the first to carry their id.
pub open spec fn firsts_before(nets: Seq<Option<u32>>, k: int) -> nat
    decreases k,
{
    if k <= 0 {
        0
    } else {
        firsts_before(nets, k - 1) + if is_first(nets, k - 1) {
            1nat
        } else {
            0nat
        }
    }
}

/// The grid and the slots are consistent: `cells` holds `width * height`
/// cells in row order, each naming a slot of `nodes` or nothing.
pub open spec fn grid_ok(width: u16, height: u16, cells: Seq<Option<u32>>, nodes: Seq<Option<u32>>) -> bool {
    &&& cells.len() == width * height
    &&& width * height <= 65536
    &&& nodes.len() <= u32::MAX
    &&& forall|c: int| 0 <= c < cells.len() && #[trigger] cells[c] is Some ==> cells[c]->0 < nodes.len()
}

/// The labelling `g` is constant on every class of `reps`.
pub open spec fn coarser(reps: Seq<int>, g: Seq<int>) -> bool {
    forall|i: int, j: int|
        0 <= i < reps.len() && 0 <= j < reps.len() && #[trigger] reps[i] == #[trigger] reps[j]
            ==> g[i] == g[j]
}

proof fn lemma_cell_in_grid(w: int, h: int, x: int, y: int)
    requires
        0 <= x < w,
        0 <= y < h,
    ensures
        0 <= y * w + x < w * h,
{
    assert(y * w <= (h - 1) * w) by (nonlinear_arith)
        requires
            0 <= y <= h - 1,
            w >= 0,
    ;
    assert((h - 1) * w + w == h * w) by (nonlinear_arith);
    assert(w * h == h * w) by (nonlinear_arith);
}

proof fn lemma_cell_coords(w: int, h: int, c: int)
    requires
        0 <= c < w * h,
        w > 0,
    ensures
        0 <= c % w < w,
        0 <= c / w < h,
        (c / w) * w + c % w == c,
{
    assert(0 <= c / w < h) by (nonlinear_arith)
        requires
            0 <= c < w * h,
            w > 0,
    ;
    assert((c / w) * w + c % w == c) by (nonlinear_arith)
        requires
            w > 0,
    ;
}

proof fn lemma_firsts_prefix(nets: Seq<Option<u32>>, v: Option<u32>, k: int)
    requires
        0 <= k <= nets.len(),
    ensures
        firsts_before(nets.push(v), k) == firsts_before(nets, k),
    decreases k,
{
    if k > 0 {
        lemma_firsts_prefix(nets, v, k - 1);
        assert(is_first(nets.push(v), k - 1) == is_first(nets, k - 1)) by {
            assert forall|j: int| 0 <= j < k - 1 implies nets.push(v)[j] == nets[j] by {}
        }
    }
}

/// The slot on cell `c` if it takes part in networks.
fn node_on(cells: &Vec<Option<u32>>, nodes: &Vec<Option<u32>>, c: usize) -> (r: Option<u32>)
    requires
        c < cells.len(),
        forall|i: int| 0 <= i < cells.len() && #[trigger] cells@[i] is Some ==> cells@[i]->0 < nodes.len(),
    ensures
        match r {
            Some(k) => node_at(cells@, nodes@, c as int) == Some(k as int),
            None => node_at(cells@, nodes@, c as int) is None,
        },
{
    match cells[c] {
        Some(k) => {
            assert(cells@[c as int] is Some);
            match nodes[k as usize] {
                Some(_) => Some(k),
                None => None,
            }
        },
        None => None,
    }
}

fn heading_step(hd: usize) -> (d: (i32, i32))
    requires
        hd < 4,
    ensures
        d.0 == heading_dx(hd as int),
        d.1 == heading_dy(hd as int),
{
    if hd == 0 {
        (1, 0)
    } else if hd == 1 {
        (0, 1)
    } else if hd == 2 {
        (-1, 0)
    } else {
        (0, -1)
    }
}

/// Follows the beam of node `e` from (`x0`, `y0`).
fn scan_beam(
    width: u16,
    height: u16,
    cells: &Vec<Option<u32>>,
    nodes: &Vec<Option<u32>>,
    radius: u32,
    e: u32,
    x0: i32,
    y0: i32,
    hd: usize,
) -> (r: Option<u32>)
    requires
        grid_ok(width, height, cells@, nodes@),
        hd < 4,
        -1 <= x0 <= width,
        -1 <= y0 <= height,
    ensures
        match r {
            Some(o) => beam_target(
                width as int,
                height as int,
                cells@,
                nodes@,
                radius as int,
                e as int,
                x0 as int,
                y0 as int,
                hd as int,
                0,
            ) == Some(o as int),
            None => beam_target(
                width as int,
                height as int,
                cells@,
                nodes@,
                radius as int,
                e as int,
                x0 as int,
                y0 as int,
                hd as int,
                0,
            ) is None,
        },
{
    let ghost w = width as int;
    let ghost h = height as int;
    let ghost target = beam_target(
        w,
        h,
        cells@,
        nodes@,
        radius as int,
        e as int,
        x0 as int,
        y0 as int,
        hd as int,
        0,
    );
    let (dx, dy) = heading_step(hd);
    let mut cx: i32 = x0;
    let mut cy: i32 = y0;
    let mut steps: u32 = 0;
    while steps < radius && cx >= 0 && cy >= 0 && cx < width as i32 && cy < height as i32
        invariant
            grid_ok(width, height, cells@, nodes@),
            hd < 4,
            dx == heading_dx(hd as int),
            dy == heading_dy(hd as int),
            -1 <= cx <= width,
            -1 <= cy <= height,
            target == beam_target(
                w,
                h,
                cells@,
                nodes@,
                radius as int,
                e as int,
                cx as int,
                cy as int,
                hd as int,
                steps as int,
            ),
            w == width,
            h == height,
            target == beam_target(
                w,
                h,
                cells@,
                nodes@,
                radius as int,
                e as int,
                x0 as int,
                y0 as int,
                hd as int,
                0,
            ),
        decreases room_ahead(w, h, cx as int, cy as int, hd as int),
    {
        proof {
            lemma_cell_in_grid(w, h, cx as int, cy as int);
        }
        let c = (cy as usize) * (width as usize) + (cx as usize);
        match node_on(cells, nodes, c) {
            Some(o) => {
                if o == e {
                    cx = cx + dx;
                    cy = cy + dy;
                } else {
                    proof {
                        assert(c as int == (cy as int) * w + (cx as int));
                        assert(node_at(cells@, nodes@, (cy as int) * w + (cx as int)) == Some(o as int));
                        assert(beam_target(w, h, cells@, nodes@, radius as int, e as int, cx as int,
                            cy as int, hd as int, steps as int) == Some(o as int));
                    }
                    return Some(o);
                }
            },
            None => {
                cx = cx + dx;
                cy = cy + dy;
                steps = steps + 1;
            },
        }
    }
    None
}

/// The node linked to the node on cell `c` by its beam in heading `hd`.
fn link_from(
    width: u16,
    height: u16,
    cells: &Vec<Option<u32>>,
    nodes: &Vec<Option<u32>>,
    radius: u32,
    c: usize,
    hd: usize,
) -> (r: Option<u32>)
    requires
        grid_ok(width, height, cells@, nodes@),
        c < cells.len(),
        hd < 4,
    ensures
        match r {
            Some(o) => beam_link(
                width as int,
                height as int,
                cells@,
                nodes@,
                radius as int,
                c as int,
                hd as int,
            ) == Some(o as int),
            None => beam_link(
                width as int,
                height as int,
                cells@,
                nodes@,
                radius as int,
                c as int,
                hd as int,
            ) is None,
        },
{
    let e = match node_on(cells, nodes, c) {
        Some(e) => e,
        None => {
            return None;
        },
    };
    proof {
        assert(width > 0) by (nonlinear_arith)
            requires
                c < width * height,
        ;
        lemma_cell_coords(width as int, height as int, c as int);
    }
    let x = (c % (width as usize)) as i32;
    let y = (c / (width as usize)) as i32;
    let (dx, dy) = heading_step(hd);
    let nx = x + dx;
    let ny = y + dy;
    if nx < 0 || ny < 0 || nx >= width as i32 || ny >= height as i32 {
        return None;
    }
    proof {
        lemma_cell_in_grid(width as int, height as int, nx as int, ny as int);
    }
    let nc = (ny as usize) * (width as usize) + (nx as usize);
    match node_on(cells, nodes, nc) {
        Some(k) => {
            if k == e {
                return None;
            }
        },
        None => {},
    }
    match scan_beam(width, height, cells, nodes, radius, e, nx, ny, hd) {
        Some(o) => {
            assert(node_at(cells@, nodes@, (ny as int) * (width as int) + (nx as int)) != Some(
                e as int,
            ));
            let ghost gt = beam_target(
                width as int,
                height as int,
                cells@,
                nodes@,
                radius as int,
                e as int,
                nx as int,
                ny as int,
                hd as int,
                0,
            );
            assert(gt == Some(o as int));
            proof { lemma_target_is_node(
                width as int,
                height as int,
                cells@,
                nodes@,
                radius as int,
                e as int,
                nx as int,
                ny as int,
                hd as int,
                0,
            ); }
            let same = match (nodes[o as usize], nodes[e as usize]) {
                (Some(a), Some(b)) => a == b,
                _ => false,
            };
            if same {
                Some(o)
            } else {
                None
            }
        },
        None => None,
    }
}

/// A beam stops only at a slot that takes part in networks.
proof fn lemma_target_is_node(
    w: int,
    h: int,
    cells: Seq<Option<u32>>,
    nodes: Seq<Option<u32>>,
    radius: int,
    e: int,
    x: int,
    y: int,
    hd: int,
    steps: int,
)
    requires
        cells.len() == w * h,
        forall|c: int| 0 <= c < cells.len() && #[trigger] cells[c] is Some ==> cells[c]->0 < nodes.len(),
    ensures
        beam_target(w, h, cells, nodes, radius, e, x, y, hd, steps) matches Some(o) ==> 0 <= o
            < nodes.len() && nodes[o] is Some,
    decreases room_ahead(w, h, x, y, hd),
{
    if 0 <= hd < 4 && steps < radius && 0 <= x < w && 0 <= y < h {
        lemma_cell_in_grid(w, h, x, y);
        let c = y * w + x;
        match node_at(cells, nodes, c) {
            Some(o) => {
                assert(cells[c] is Some);
                if o == e {
                    lemma_target_is_node(
                        w,
                        h,
                        cells,
                        nodes,
                        radius,
                        e,
                        x + heading_dx(hd),
                        y + heading_dy(hd),
                        hd,
                        steps,
                    );
                }
            },
            None => {
                lemma_target_is_node(
                    w,
                    h,
                    cells,
                    nodes,
                    radius,
                    e,
                    x + heading_dx(hd),
                    y + heading_dy(hd),
                    hd,
                    steps + 1,
                );
            },
        }
    }
}

} // verus!

verus! {

/// Merging the classes of `e` and `o` keeps every class together, joins `e`
/// with `o`, and keeps any labelling constant on classes if it already was
/// and it labels `e` and `o` alike.
proof fn lemma_union_refines(reps: Seq<int>, ranks: Seq<u8>, e: int, o: int)
    requires
        0 <= e < reps.len(),
        0 <= o < reps.len(),
    ensures
        union_result(reps, ranks, e, o).0.len() == reps.len(),
        forall|a: int, b: int|
            0 <= a < reps.len() && 0 <= b < reps.len() && #[trigger] reps[a] == #[trigger] reps[b]
                ==> union_result(reps, ranks, e, o).0[a] == union_result(reps, ranks, e, o).0[b],
        union_result(reps, ranks, e, o).0[e] == union_result(reps, ranks, e, o).0[o],
        forall|g: Seq<int>|
            coarser(reps, g) && g[e] == g[o] ==> #[trigger] coarser(
                union_result(reps, ranks, e, o).0,
                g,
            ),
{
    let r2 = union_result(reps, ranks, e, o).0;
    assert forall|a: int, b: int|
        0 <= a < reps.len() && 0 <= b < reps.len() && #[trigger] reps[a] == #[trigger] reps[b]
            implies r2[a] == r2[b] by {
        law_union_joins_exactly(reps, ranks, e, o, a, b);
    }
    law_union_joins_exactly(reps, ranks, e, o, e, o);
    assert forall|g: Seq<int>| coarser(reps, g) && g[e] == g[o] implies #[trigger] coarser(r2, g) by {
        assert forall|i: int, j: int|
            0 <= i < r2.len() && 0 <= j < r2.len() && #[trigger] r2[i] == #[trigger] r2[j]
                implies g[i] == g[j] by {
            law_union_joins_exactly(reps, ranks, e, o, i, j);
            if reps[i] == reps[j] {
            } else if reps[i] == reps[e] && reps[j] == reps[o] {
                assert(g[i] == g[e]);
                assert(g[j] == g[o]);
            } else {
                assert(g[i] == g[o]);
                assert(g[j] == g[e]);
            }
        }
    }
}

/// Joins every pair of beam-linked nodes.
fn join_links(
    width: u16,
    height: u16,
    cells: &Vec<Option<u32>>,
    nodes: &Vec<Option<u32>>,
    radius: u32,
) -> (d: NetworkDsu)
    requires
        grid_ok(width, height, cells@, nodes@),
    ensures
        d.wf(),
        d@.len() == nodes.len(),
        respects(width as int, height as int, cells@, nodes@, radius as int, d@),
        forall|g: Seq<int>|
            #[trigger] respects(width as int, height as int, cells@, nodes@, radius as int, g)
                ==> coarser(d@, g),
{
    let ghost w = width as int;
    let ghost h = height as int;
    let ghost r = radius as int;
    let mut d = NetworkDsu::new(nodes.len());
    let mut c: usize = 0;
    while c < cells.len()
        invariant
            grid_ok(width, height, cells@, nodes@),
            w == width,
            h == height,
            r == radius,
            c <= cells.len(),
            d.wf(),
            d@.len() == nodes.len(),
            forall|g: Seq<int>| #[trigger] respects(w, h, cells@, nodes@, r, g) ==> coarser(d@, g),
            forall|c2: int, hd2: int|
                0 <= c2 < c && 0 <= hd2 < 4 && (#[trigger] beam_link(
                    w,
                    h,
                    cells@,
                    nodes@,
                    r,
                    c2,
                    hd2,
                )) is Some ==> d@[node_at(cells@, nodes@, c2)->0] == d@[beam_link(
                    w,
                    h,
                    cells@,
                    nodes@,
                    r,
                    c2,
                    hd2,
                )->0],
        decreases cells.len() - c,
    {
        let mut hd: usize = 0;
        while hd < 4
            invariant
                grid_ok(width, height, cells@, nodes@),
                w == width,
                h == height,
                r == radius,
                c < cells.len(),
                hd <= 4,
                d.wf(),
                d@.len() == nodes.len(),
                forall|g: Seq<int>| #[trigger] respects(w, h, cells@, nodes@, r, g) ==> coarser(d@, g),
                forall|c2: int, hd2: int|
                    0 <= c2 <= c && 0 <= hd2 < 4 && (c2 < c || hd2 < hd) && (#[trigger] beam_link(
                        w,
                        h,
                        cells@,
                        nodes@,
                        r,
                        c2,
                        hd2,
                    )) is Some ==> d@[node_at(cells@, nodes@, c2)->0] == d@[beam_link(
                        w,
                        h,
                        cells@,
                        nodes@,
                        r,
                        c2,
                        hd2,
                    )->0],
            decreases 4 - hd,
        {
            match link_from(width, height, cells, nodes, radius, c, hd) {
                Some(o) => {
                    let e = match node_on(cells, nodes, c) {
                        Some(e) => e,
                        None => {
                            proof {
                                assert(false);
                            }
                            0
                        },
                    };
                    proof {
                        lemma_target_is_node(
                            w,
                            h,
                            cells@,
                            nodes@,
                            r,
                            e as int,
                            c as int % w + heading_dx(hd as int),
                            c as int / w + heading_dy(hd as int),
                            hd as int,
                            0,
                        );
                        assert(cells@[c as int] is Some);
                    }
                    let ghost before = d@;
                    let ghost ranks = d.ranks();
                    d.union(e, o);
                    proof {
                        lemma_union_refines(before, ranks, e as int, o as int);
                        assert forall|g: Seq<int>| #[trigger]
                            respects(w, h, cells@, nodes@, r, g) implies coarser(d@, g) by {
                            assert(beam_link(w, h, cells@, nodes@, r, c as int, hd as int) is Some);
                            assert(coarser(before, g));
                        }
                        assert forall|c2: int, hd2: int|
                            0 <= c2 <= c && 0 <= hd2 < 4 && (c2 < c || hd2 < hd + 1) && (
                            #[trigger] beam_link(w, h, cells@, nodes@, r, c2, hd2)) is Some
                                implies d@[node_at(cells@, nodes@, c2)->0] == d@[beam_link(
                            w,
                            h,
                            cells@,
                            nodes@,
                            r,
                            c2,
                            hd2,
                        )->0] by {
                            if c2 < c || hd2 < hd {
                                let a = node_at(cells@, nodes@, c2)->0;
                                let b = beam_link(w, h, cells@, nodes@, r, c2, hd2)->0;
                                assert(before[a] == before[b]);
                                lemma_node_in_range(w, h, cells@, nodes@, r, c2, hd2);
                            }
                        }
                    }
                },
                None => {},
            }
            hd = hd + 1;
        }
        c = c + 1;
    }
    d
}

/// Both ends of a link are slots of `nodes`.
proof fn lemma_node_in_range(
    w: int,
    h: int,
    cells: Seq<Option<u32>>,
    nodes: Seq<Option<u32>>,
    r: int,
    c: int,
    hd: int,
)
    requires
        cells.len() == w * h,
        0 <= c < cells.len(),
        forall|i: int| 0 <= i < cells.len() && #[trigger] cells[i] is Some ==> cells[i]->0 < nodes.len(),
    ensures
        beam_link(w, h, cells, nodes, r, c, hd) matches Some(o) ==> {
            &&& 0 <= o < nodes.len()
            &&& 0 <= node_at(cells, nodes, c)->0 < nodes.len()
        },
{
    if beam_link(w, h, cells, nodes, r, c, hd) is Some {
        assert(cells[c] is Some);
        let e = node_at(cells, nodes, c)->0;
        lemma_target_is_node(w, h, cells, nodes, r, e, c % w + heading_dx(hd), c / w + heading_dy(hd), hd, 0);
    }
}

} // verus!

verus! {

/// Marks the slots that take part in networks.
fn mark_participants(cells: &Vec<Option<u32>>, nodes: &Vec<Option<u32>>) -> (present: Vec<bool>)
    requires
        nodes.len() <= u32::MAX,
        forall|c: int| 0 <= c < cells.len() && #[trigger] cells@[c] is Some ==> cells@[c]->0 < nodes.len(),
    ensures
        present.len() == nodes.len(),
        forall|k: int| 0 <= k < nodes.len() ==> (#[trigger] present@[k] <==> takes_part(cells@, nodes@, k)),
{
    let mut present: Vec<bool> = Vec::new();
    let mut k: usize = 0;
    while k < nodes.len()
        invariant
            k <= nodes.len(),
            present@ == Seq::new(k as nat, |i: int| false),
        decreases nodes.len() - k,
    {
        present.push(false);
        k = k + 1;
    }
    let mut c: usize = 0;
    while c < cells.len()
        invariant
            c <= cells.len(),
            nodes.len() <= u32::MAX,
            forall|c2: int| 0 <= c2 < cells.len() && #[trigger] cells@[c2] is Some ==> cells@[c2]->0 < nodes.len(),
            present.len() == nodes.len(),
            forall|k2: int|
                0 <= k2 < nodes.len() ==> (#[trigger] present@[k2] <==> (nodes@[k2] is Some && exists|c2: int|
                    0 <= c2 < c && #[trigger] cells@[c2] == Some(k2 as u32))),
        decreases cells.len() - c,
    {
        match cells[c] {
            Some(k) => {
                assert(cells@[c as int] is Some);
                if nodes[k as usize].is_some() {
                    present.set(k as usize, true);
                }
            },
            None => {},
        }
        proof {
            assert forall|k2: int| 0 <= k2 < nodes.len() implies (#[trigger] present@[k2] <==> (
            nodes@[k2] is Some && exists|c2: int|
                0 <= c2 < c + 1 && #[trigger] cells@[c2] == Some(k2 as u32))) by {
                if nodes@[k2] is Some && cells@[c as int] == Some(k2 as u32) {
                    assert(cells@[c as int] == Some(k2 as u32));
                }
                if exists|c2: int| 0 <= c2 < c + 1 && #[trigger] cells@[c2] == Some(k2 as u32) {
                    let c2 = choose|c2: int| 0 <= c2 < c + 1 && #[trigger] cells@[c2] == Some(k2 as u32);
                    if c2 < c {
                    } else {
                        assert(k2 as u32 as int == k2);
                    }
                }
            }
        }
        c = c + 1;
    }
    present
}

/// Gives every energy node its network id.
///
/// `cells` lists the grid's `width * height` cells in row order; each names
/// the slot of the block standing there, if any. `nodes[k]` is the
/// wavelength of slot `k` when that block has an energy component and light
/// properties, and `None` otherwise. A beam crosses at most `radius` empty
/// cells.
///
/// The result holds a network id for every slot that takes part in networks
/// and `None` for every other slot. Two nodes share an id exactly when every
/// labelling that agrees on linked nodes labels them alike, that is, when a
/// chain of links joins them. Ids are handed out from 0 in the order of the
/// slots.
pub fn rebuild_networks(
    width: u16,
    height: u16,
    cells: &Vec<Option<u32>>,
    nodes: &Vec<Option<u32>>,
    radius: u32,
) -> (nets: Vec<Option<u32>>)
    requires
        grid_ok(width, height, cells@, nodes@),
    ensures
        nets.len() == nodes.len(),
        forall|k: int| 0 <= k < nodes.len() ==> ((#[trigger] nets@[k] is Some) <==> takes_part(cells@, nodes@, k)),
        forall|a: int, b: int|
            0 <= a < nodes.len() && 0 <= b < nodes.len() && #[trigger] nets@[a] is Some
                && #[trigger] nets@[b] is Some ==> (nets@[a] == nets@[b] <==> forall|g: Seq<int>|
                #[trigger] respects(width as int, height as int, cells@, nodes@, radius as int, g)
                    ==> g[a] == g[b]),
        forall|k: int| 0 <= k < nodes.len() && #[trigger] is_first(nets@, k) ==> nets@[k]->0 == firsts_before(nets@, k),
{
    let ghost w = width as int;
    let ghost h = height as int;
    let ghost r = radius as int;
    let present = mark_participants(cells, nodes);
    let mut d = join_links(width, height, cells, nodes, radius);
    let ghost reps = d@;
    let n = nodes.len();
    let mut root_id: Vec<Option<u32>> = Vec::new();
    let mut i: usize = 0;
    while i < n
        invariant
            i <= n,
            root_id@ == Seq::new(i as nat, |j: int| None::<u32>),
        decreases n - i,
    {
        root_id.push(None);
        i = i + 1;
    }
    let mut counter: u32 = 0;
    let mut nets: Vec<Option<u32>> = Vec::new();
    let mut k: usize = 0;
    while k < n
        invariant
            n == nodes.len(),
            n <= u32::MAX,
            k <= n,
            d.wf(),
            d@ == reps,
            reps.len() == n,
            present.len() == n,
            root_id.len() == n,
            nets.len() == k,
            counter <= k,
            counter == firsts_before(nets@, k as int),
            forall|j: int| 0 <= j < k ==> (#[trigger] nets@[j] is Some <==> present@[j]),
            forall|j: int| 0 <= j < k && present@[j] ==> root_id@[#[trigger] reps[j]] == nets@[j],
            forall|q: int| 0 <= q < n && (#[trigger] root_id@[q]) is Some ==> root_id@[q]->0 < counter,
            forall|q: int|
                0 <= q < n && (#[trigger] root_id@[q]) is Some ==> exists|j: int|
                    0 <= j < k && present@[j] && #[trigger] reps[j] == q,
            forall|q1: int, q2: int|
                0 <= q1 < n && 0 <= q2 < n && (#[trigger] root_id@[q1]) is Some
                    && root_id@[q1] == #[trigger] root_id@[q2] ==> q1 == q2,
            forall|j: int| 0 <= j < k && #[trigger] is_first(nets@, j) ==> nets@[j]->0 == firsts_before(nets@, j),
        decreases n - k,
    {
        let ghost before = nets@;
        if present[k] {
            let root = d.find(k as u32);
            proof {
                assert(0 <= reps[k as int] < n) by {
                    law_reps_in_range(d, k as int);
                }
            }
            match root_id[root as usize] {
                Some(id) => {
                    nets.push(Some(id));
                    proof {
                        let q = root as int;
                        let j = choose|j: int| 0 <= j < k && present@[j] && #[trigger] reps[j] == q;
                        assert(nets@[j] == Some(id));
                        assert(!is_first(nets@, k as int));
                    }
                },
                None => {
                    let ghost old_ids = root_id@;
                    root_id.set(root as usize, Some(counter));
                    nets.push(Some(counter));
                    proof {
                        assert forall|j: int| 0 <= j < k implies nets@[j] != nets@[k as int] by {
                            if present@[j] {
                                law_reps_in_range(d, j);
                                assert(old_ids[reps[j]] == before[j]);
                                assert(before[j] is Some);
                                assert(old_ids[reps[j]]->0 < counter);
                            }
                        }
                        assert(is_first(nets@, k as int));
                        assert forall|j: int| 0 <= j < k + 1 && present@[j] implies root_id@[
                            #[trigger] reps[j]] == nets@[j] by {
                            law_reps_in_range(d, j);
                            if j < k {
                                assert(old_ids[reps[j]] == before[j]);
                                assert(before[j] is Some);
                            }
                        }
                    }
                    counter = counter + 1;
                },
            }
        } else {
            nets.push(None);
        }
        proof {
            lemma_firsts_prefix(before, nets@[k as int], k as int);
            assert(nets@ == before.push(nets@[k as int]));
            assert forall|j: int| 0 <= j < k implies #[trigger] is_first(nets@, j) == is_first(before, j) by {
                assert forall|i2: int| 0 <= i2 <= j implies nets@[i2] == before[i2] by {}
            }
            assert forall|j: int| 0 <= j < k && #[trigger] is_first(nets@, j) implies nets@[j]->0
                == firsts_before(nets@, j) by {
                lemma_firsts_prefix(before, nets@[k as int], j);
            }
        }
        k = k + 1;
    }
    proof {
        assert forall|a: int, b: int|
            0 <= a < n && 0 <= b < n && #[trigger] nets@[a] is Some && #[trigger] nets@[b] is Some
                implies (nets@[a] == nets@[b] <==> forall|g: Seq<int>|
                #[trigger] respects(w, h, cells@, nodes@, r, g) ==> g[a] == g[b]) by {
            law_reps_in_range(d, a);
            law_reps_in_range(d, b);
            assert(root_id@[reps[a]] == nets@[a]);
            assert(root_id@[reps[b]] == nets@[b]);
            if nets@[a] == nets@[b] {
                assert(reps[a] == reps[b]);
                assert forall|g: Seq<int>| #[trigger] respects(w, h, cells@, nodes@, r, g) implies g[a]
                    == g[b] by {
                    assert(coarser(reps, g));
                }
            } else {
                assert(respects(w, h, cells@, nodes@, r, reps));
                assert(reps[a] != reps[b]);
            }
        }
    }
    nets
}

/// The blocks of one network share one wavelength: nodes that every
/// link-respecting labelling labels alike have equal wavelengths.
pub proof fn law_network_has_one_wavelength(
    width: u16,
    height: u16,
    cells: Seq<Option<u32>>,
    nodes: Seq<Option<u32>>,
    radius: int,
    a: int,
    b: int,
)
    requires
        grid_ok(width, height, cells, nodes),
        0 <= a < nodes.len(),
        0 <= b < nodes.len(),
        forall|g: Seq<int>| #[trigger] respects(width as int, height as int, cells, nodes, radius, g) ==> g[a] == g[b],
    ensures
        nodes[a] == nodes[b],
{
    let w = width as int;
    let h = height as int;
    let g = Seq::new(
        nodes.len(),
        |k: int|
            match nodes[k] {
                Some(v) => v as int,
                None => -1,
            },
    );
    assert forall|c: int, hd: int|
        0 <= c < cells.len() && 0 <= hd < 4 && (#[trigger] beam_link(w, h, cells, nodes, radius, c, hd)) is Some
            implies g[node_at(cells, nodes, c)->0] == g[beam_link(w, h, cells, nodes, radius, c, hd)->0] by {
        lemma_node_in_range(w, h, cells, nodes, radius, c, hd);
        let e = node_at(cells, nodes, c)->0;
        let o = beam_link(w, h, cells, nodes, radius, c, hd)->0;
        assert(cells[c] is Some);
        assert(nodes[e] is Some);
        assert(nodes[o] == nodes[e]);
    }
    assert(respects(w, h, cells, nodes, radius, g));
    assert(g[a] == g[b]);
}

/// Column reached from column `x` after `j` steps in heading `hd`.
pub open spec fn ahead_x(x: int, hd: int, j: int) -> int {
    if hd == 0 {
        x + j
    } else if hd == 2 {
        x - j
    } else {
        x
    }
}

/// Row reached from row `y` after `j` steps in heading `hd`.
pub open spec fn ahead_y(y: int, hd: int, j: int) -> int {
    if hd == 1 {
        y + j
    } else if hd == 3 {
        y - j
    } else {
        y
    }
}

/// The `j`-th cell from (`x`, `y`) in heading `hd` lies in the grid and holds
/// no energy node.
pub open spec fn empty_ahead(
    w: int,
    h: int,
    cells: Seq<Option<u32>>,
    nodes: Seq<Option<u32>>,
    x: int,
    y: int,
    hd: int,
    j: int,
) -> bool {
    &&& 0 <= ahead_x(x, hd, j) < w
    &&& 0 <= ahead_y(y, hd, j) < h
    &&& node_at(cells, nodes, ahead_y(y, hd, j) * w + ahead_x(x, hd, j)) is None
}

proof fn lemma_beam_gives_out(
    w: int,
    h: int,
    cells: Seq<Option<u32>>,
    nodes: Seq<Option<u32>>,
    radius: int,
    e: int,
    x: int,
    y: int,
    hd: int,
    steps: int,
)
    requires
        0 <= hd < 4,
        0 <= steps,
        forall|j: int| 0 <= j < radius - steps ==> #[trigger] empty_ahead(w, h, cells, nodes, x, y, hd, j),
    ensures
        beam_target(w, h, cells, nodes, radius, e, x, y, hd, steps) is None,
    decreases radius - steps,
{
    if steps < radius {
        assert(empty_ahead(w, h, cells, nodes, x, y, hd, 0));
        let nx = x + heading_dx(hd);
        let ny = y + heading_dy(hd);
        assert forall|j: int| 0 <= j < radius - (steps + 1) implies #[trigger] empty_ahead(
            w,
            h,
            cells,
            nodes,
            nx,
            ny,
            hd,
            j,
        ) by {
            assert(empty_ahead(w, h, cells, nodes, x, y, hd, j + 1));
            assert(ahead_x(nx, hd, j) == ahead_x(x, hd, j + 1));
            assert(ahead_y(ny, hd, j) == ahead_y(y, hd, j + 1));
        }
        lemma_beam_gives_out(w, h, cells, nodes, radius, e, nx, ny, hd, steps + 1);
    }
}

proof fn lemma_beam_reaches(
    w: int,
    h: int,
    cells: Seq<Option<u32>>,
    nodes: Seq<Option<u32>>,
    radius: int,
    e: int,
    x: int,
    y: int,
    hd: int,
    steps: int,
    t: int,
    o: int,
)
    requires
        0 <= hd < 4,
        0 <= t,
        steps + t < radius,
        forall|j: int| 0 <= j < t ==> #[trigger] empty_ahead(w, h, cells, nodes, x, y, hd, j),
        0 <= ahead_x(x, hd, t) < w,
        0 <= ahead_y(y, hd, t) < h,
        node_at(cells, nodes, ahead_y(y, hd, t) * w + ahead_x(x, hd, t)) == Some(o),
        o != e,
    ensures
        beam_target(w, h, cells, nodes, radius, e, x, y, hd, steps) == Some(o),
    decreases t,
{
    if t > 0 {
        assert(empty_ahead(w, h, cells, nodes, x, y, hd, 0));
        let nx = x + heading_dx(hd);
        let ny = y + heading_dy(hd);
        assert forall|j: int| 0 <= j < t - 1 implies #[trigger] empty_ahead(w, h, cells, nodes, nx, ny, hd, j) by {
            assert(empty_ahead(w, h, cells, nodes, x, y, hd, j + 1));
            assert(ahead_x(nx, hd, j) == ahead_x(x, hd, j + 1));
            assert(ahead_y(ny, hd, j) == ahead_y(y, hd, j + 1));
        }
        assert(ahead_x(nx, hd, t - 1) == ahead_x(x, hd, t));
        assert(ahead_y(ny, hd, t - 1) == ahead_y(y, hd, t));
        lemma_beam_reaches(w, h, cells, nodes, radius, e, nx, ny, hd, steps + 1, t - 1, o);
    }
}

/// A beam crosses at most `radius` empty cells, in every heading alike: when
/// the `radius` cells from its start on are inside the grid and empty, it
/// reaches no block.
pub proof fn law_beam_crosses_at_most_radius_empty_cells(
    w: int,
    h: int,
    cells: Seq<Option<u32>>,
    nodes: Seq<Option<u32>>,
    radius: int,
    e: int,
    x: int,
    y: int,
    hd: int,
)
    requires
        0 <= hd < 4,
        forall|j: int| 0 <= j < radius ==> #[trigger] empty_ahead(w, h, cells, nodes, x, y, hd, j),
    ensures
        beam_target(w, h, cells, nodes, radius, e, x, y, hd, 0) is None,
{
    lemma_beam_gives_out(w, h, cells, nodes, radius, e, x, y, hd, 0);
}

/// A beam stops at the first other block it meets, in every heading alike,
/// provided fewer than `radius` empty cells lie before it.
pub proof fn law_beam_stops_at_first_block_within_radius(
    w: int,
    h: int,
    cells: Seq<Option<u32>>,
    nodes: Seq<Option<u32>>,
    radius: int,
    e: int,
    x: int,
    y: int,
    hd: int,
    t: int,
    o: int,
)
    requires
        0 <= hd < 4,
        0 <= t < radius,
        forall|j: int| 0 <= j < t ==> #[trigger] empty_ahead(w, h, cells, nodes, x, y, hd, j),
        0 <= ahead_x(x, hd, t) < w,
        0 <= ahead_y(y, hd, t) < h,
        node_at(cells, nodes, ahead_y(y, hd, t) * w + ahead_x(x, hd, t)) == Some(o),
        o != e,
    ensures
        beam_target(w, h, cells, nodes, radius, e, x, y, hd, 0) == Some(o),
{
    lemma_beam_reaches(w, h, cells, nodes, radius, e, x, y, hd, 0, t, o);
}

} // verus!
