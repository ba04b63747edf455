//! Layout of the texture atlas: every texture gets a place in one square
//! image whose side starts at 1024 pixels and doubles, up to 8192, until
//! the textures fit.

use vstd::prelude::*;
use vstd::arithmetic::div_mod::{lemma_fundamental_div_mod, lemma_fundamental_div_mod_converse, lemma_mod_bound};

verus! {

#[verifier::external_type_specification]
#[verifier::external_body]
pub struct ExDensePacker(rect_packer::DensePacker);

/// The width and height of the area a packer fills.
pub uninterp spec fn packer_extent(p: rect_packer::DensePacker) -> (int, int);

/// The pixels `(x, y)` of a packer's area that are taken: those below its
/// skyline, covered by the rectangles packed so far or by the gaps under
/// them.
pub uninterp spec fn packer_taken(p: rect_packer::DensePacker) -> Set<(int, int)>;

/// Where `rect_packer::DensePacker::pack`, without rotation, puts a
/// `width` by `height` rectangle into packer `p`: the top-left corner it
/// picks, or `None` when the packer refuses the rectangle.
pub uninterp spec fn packer_place(p: rect_packer::DensePacker, width: int, height: int) -> Option<(int, int)>;

/// Every taken pixel in `t` lies in a row above `top`.
pub open spec fn taken_below(t: Set<(int, int)>, top: int) -> bool {
    forall|q: (int, int)| #[trigger] t.contains(q) ==> q.1 < top
}

/// The pixels of columns `x .. x + w` from the top row down to row
/// `bottom`: what a rectangle resting there leaves taken.
pub open spec fn under_rect(x: int, w: int, bottom: int) -> Set<(int, int)> {
    Set::new(|q: (int, int)| x <= q.0 < x + w && 0 <= q.1 < bottom)
}

/// Every taken pixel of `t` in columns `a .. a + w` lies in a row above
/// `top`.
pub open spec fn window_below(t: Set<(int, int)>, a: int, w: int, top: int) -> bool {
    forall|q: (int, int)| #[trigger] t.contains(q) && a <= q.0 < a + w ==> q.1 < top
}

/// Pixel `q` lies in the rectangle `(x, y, w, h)`.
pub open spec fn in_rect(q: (int, int), x: int, y: int, w: int, h: int) -> bool {
    x <= q.0 < x + w && y <= q.1 < y + h
}

/// `rect_packer::DensePacker::new`: an empty packer over
/// `max(0, width)` by `max(0, height)` pixels; nothing is taken.
#[verifier::external_body]
fn new_packer(width: i32, height: i32) -> (p: rect_packer::DensePacker)
    ensures
        packer_extent(p) == (if width < 0 { 0 } else { width as int }, if height < 0 { 0 } else { height as int }),
        packer_taken(p) == Set::<(int, int)>::empty(),
{
    rect_packer::DensePacker::new(width, height)
}

/// `rect_packer::DensePacker::pack` without rotation: the position
/// `(x, y, width, height)` of a new `width` by `height` rectangle inside the
/// packer's area, or `None` when it does not fit; the area keeps its size.
/// The new rectangle covers no taken pixel and is taken afterwards, and
/// taken pixels stay taken; a failed call changes nothing. The packer tries
/// the leftmost place first and keeps the place whose bottom is lowest, so
/// when every taken pixel lies above row `top` and a rectangle reaching down
/// to row `top + height` fits the area, the call succeeds; and after a
/// success every taken pixel lies above row `top + height`. More generally,
/// when some run of `width` columns inside the area has all its taken
/// pixels above row `top`, and `top + height` fits the area, the call
/// succeeds and the rectangle's top row is at most `top`: the run lies
/// within the skyline segments that start at the segment holding its first
/// column, and the packer keeps the lowest place among them. The columns
/// under the new rectangle are then taken down to its bottom, and no other
/// pixel changes. Sizes up to 8192 keep the packer's arithmetic within
/// `i32`.
#[verifier::external_body]
fn pack_rect(p: &mut rect_packer::DensePacker, width: i32, height: i32) -> (r: Option<(i32, i32, i32, i32)>)
    requires
        width <= 8192,
        height <= 8192,
        packer_extent(*old(p)).0 <= 8192,
        packer_extent(*old(p)).1 <= 8192,
    ensures
        packer_extent(*final(p)) == packer_extent(*old(p)),
        width <= 0 || height <= 0 ==> r is None,
        r matches Some((x, y, w, h)) ==> {
            &&& w == width
            &&& h == height
            &&& 0 <= x
            &&& x + w <= packer_extent(*final(p)).0
            &&& 0 <= y
            &&& y + h <= packer_extent(*final(p)).1
            &&& forall|q: (int, int)| #[trigger] in_rect(q, x as int, y as int, w as int, h as int)
                ==> !packer_taken(*old(p)).contains(q) && packer_taken(*final(p)).contains(q)
        },
        forall|q: (int, int)| #[trigger] packer_taken(*old(p)).contains(q) ==> packer_taken(*final(p)).contains(q),
        r is None ==> *final(p) == *old(p),
        r is Some <==> packer_place(*old(p), width as int, height as int) is Some,
        r matches Some((x, y, _, _)) ==> packer_place(*old(p), width as int, height as int) == Some((x as int, y as int)),
        forall|top: int|
            #[trigger] taken_below(packer_taken(*old(p)), top) && 0 <= top && top + height <= packer_extent(*old(p)).1
                && 0 < width <= packer_extent(*old(p)).0 && 0 < height ==> r is Some,
        forall|top: int|
            #[trigger] taken_below(packer_taken(*old(p)), top) && 0 <= top && r is Some ==> taken_below(
                packer_taken(*final(p)),
                top + height,
            ),
        forall|a: int, top: int|
            #[trigger] window_below(packer_taken(*old(p)), a, width as int, top) && 0 <= a && a + width
                <= packer_extent(*old(p)).0 && 0 <= top && top + height <= packer_extent(*old(p)).1 && 0 < width
                && 0 < height ==> (r matches Some((x, y, w, h)) && y <= top),
        r matches Some((x, y, w, h)) ==> packer_taken(*final(p)) == packer_taken(*old(p)).union(
            under_rect(x as int, w as int, y + h),
        ),
{
    match p.pack(width, height, false) {
        Some(r) => Some((r.x, r.y, r.width, r.height)),
        None => None,
    }
}

/// `rect_packer::DensePacker::resize`: grows the packer's area to `width`
/// by `height`, with the new part free; the area may not shrink.
#[verifier::external_body]
fn resize_packer(p: &mut rect_packer::DensePacker, width: i32, height: i32)
    requires
        width >= packer_extent(*old(p)).0,
        height >= packer_extent(*old(p)).1,
    ensures
        packer_extent(*final(p)) == (width as int, height as int),
        packer_taken(*final(p)) == packer_taken(*old(p)),
{
    p.resize(width, height)
}

/// Side lengths the atlas can take.
pub open spec fn atlas_side(s: int) -> bool {
    s == 1024 || s == 2048 || s == 4096 || s == 8192
}

/// Where each texture lies in the atlas.
pub struct AtlasLayout {
    /// Width of the atlas in pixels.
    pub width: u32,
    /// Height of the atlas in pixels.
    pub height: u32,
    /// `(x, y, width, height)` of each texture, in the order given.
    pub rects: Vec<(u32, u32, u32, u32)>,
}

/// The textures do not fit into an atlas of 8192 by 8192 pixels.
#[derive(Debug, Clone, Copy, PartialEq, Eq, Structural)]
pub enum AtlasError {
    AtlasFull,
}

/// `rect` has the size `size` and lies inside a `side` by `side` area.
pub open spec fn rect_inside(rect: (u32, u32, u32, u32), size: (u32, u32), side: int) -> bool {
    &&& rect.2 == size.0
    &&& rect.3 == size.1
    &&& rect.0 + rect.2 <= side
    &&& rect.1 + rect.3 <= side
}

/// Rectangles `a` and `b`, given as `(x, y, width, height)`, share no pixel.
pub open spec fn rects_apart(a: (u32, u32, u32, u32), b: (u32, u32, u32, u32)) -> bool {
    ||| a.0 + a.2 <= b.0
    ||| b.0 + b.2 <= a.0
    ||| a.1 + a.3 <= b.1
    ||| b.1 + b.3 <= a.1
}

/// The next atlas side after `side`: double it, or `None` past 8192.
pub fn grow_side(side: u32) -> (r: Option<u32>)
    requires
        atlas_side(side as int),
    ensures
        r == (if side >= 8192 {
            None
        } else {
            Some((side * 2) as u32)
        }),
        r matches Some(s) ==> atlas_side(s as int),
{
    if side >= 8192 {
        None
    } else {
        Some(side * 2)
    }
}

/// Places one `w` by `h` texture, doubling the atlas side while it does not
/// fit; `None` once the side would pass 8192.
fn place_texture(packer: &mut rect_packer::DensePacker, side: &mut u32, w: u32, h: u32) -> (r: Option<(u32, u32)>)
    requires
        atlas_side(*old(side) as int),
        packer_extent(*old(packer)) == (*old(side) as int, *old(side) as int),
        0 < w <= 8192,
        0 < h <= 8192,
    ensures
        atlas_side(*final(side) as int),
        *old(side) <= *final(side),
        packer_extent(*final(packer)) == (*final(side) as int, *final(side) as int),
        r matches Some((x, y)) ==> rect_inside((x, y, w, h), (w, h), *final(side) as int),
        r matches Some((x, y)) ==> forall|q: (int, int)| #[trigger] in_rect(q, x as int, y as int, w as int, h as int)
            ==> !packer_taken(*old(packer)).contains(q) && packer_taken(*final(packer)).contains(q),
        forall|q: (int, int)| #[trigger] packer_taken(*old(packer)).contains(q) ==> packer_taken(*final(packer)).contains(q),
        r is None ==> *final(side) == 8192 && packer_taken(*final(packer)) == packer_taken(*old(packer))
            && packer_place(*final(packer), w as int, h as int) is None,
        forall|top: int|
            #[trigger] taken_below(packer_taken(*old(packer)), top) && 0 <= top && r is Some ==> taken_below(
                packer_taken(*final(packer)),
                top + h,
            ),
        forall|top: int, s: int|
            #[trigger] taken_below(packer_taken(*old(packer)), top) && 0 <= top && #[trigger] atlas_side(s)
                && *old(side) <= s && w <= s && top + h <= s ==> r is Some && *final(side) <= s,
        r matches Some((x, y)) ==> packer_taken(*final(packer)) == packer_taken(*old(packer)).union(
            under_rect(x as int, w as int, y + h),
        ),
        r matches Some((x, y)) ==> forall|a: int, top: int|
            #[trigger] window_below(packer_taken(*old(packer)), a, w as int, top) && 0 <= a && a + w <= *final(side)
                && 0 <= top && top + h <= *final(side) ==> y <= top,
        forall|a: int, top: int, s: int|
            #[trigger] window_below(packer_taken(*old(packer)), a, w as int, top) && 0 <= a && a + w <= s && 0
                <= top && top + h <= s && #[trigger] atlas_side(s) && *old(side) <= s ==> r is Some && *final(side)
                <= s,
{
    loop
        invariant
            atlas_side(*side as int),
            *old(side) <= *side,
            packer_extent(*packer) == (*side as int, *side as int),
            packer_taken(*packer) == packer_taken(*old(packer)),
            0 < w <= 8192,
            0 < h <= 8192,
            forall|top: int, s: int|
                #[trigger] taken_below(packer_taken(*old(packer)), top) && 0 <= top && #[trigger] atlas_side(s)
                    && *old(side) <= s && w <= s && top + h <= s ==> *side <= s,
            forall|a: int, top: int, s: int|
                #[trigger] window_below(packer_taken(*old(packer)), a, w as int, top) && 0 <= a && a + w <= s && 0
                    <= top && top + h <= s && #[trigger] atlas_side(s) && *old(side) <= s ==> *side <= s,
        decreases 16384 - *side,
    {
        let ghost before = *packer;
        match pack_rect(packer, w as i32, h as i32) {
            Some((x, y, _, _)) => {
                proof {
                    assert forall|a: int, top: int|
                        #[trigger] window_below(packer_taken(*old(packer)), a, w as int, top) && 0 <= a && a + w
                            <= *side && 0 <= top && top + h <= *side implies y <= top by {
                        assert(window_below(packer_taken(before), a, w as int, top));
                    }
                }
                return Some((x as u32, y as u32));
            },
            None => {
                proof {
                    assert forall|top: int, s: int|
                        #[trigger] taken_below(packer_taken(*old(packer)), top) && 0 <= top && #[trigger] atlas_side(s)
                            && *old(side) <= s && w <= s && top + h <= s implies *side < s by {
                        assert(taken_below(packer_taken(before), top));
                    }
                    assert forall|a: int, top: int, s: int|
                        #[trigger] window_below(packer_taken(*old(packer)), a, w as int, top) && 0 <= a && a + w
                            <= s && 0 <= top && top + h <= s && #[trigger] atlas_side(s) && *old(side) <= s implies *side
                            < s by {
                        assert(window_below(packer_taken(before), a, w as int, top));
                    }
                }
                match grow_side(*side) {
                    None => {
                        return None;
                    },
                    Some(s) => {
                        *side = s;
                    },
                }
                resize_packer(packer, *side as i32, *side as i32);
            },
        }
    }
}

/// The summed heights of the first `k` textures.
pub open spec fn heights_sum(sizes: Seq<(u32, u32)>, k: int) -> int
    decreases k,
{
    if k <= 0 {
        0
    } else {
        heights_sum(sizes, k - 1) + sizes[k - 1].1
    }
}

/// The textures fit in a column of an `s` by `s` atlas: none is empty,
/// none is wider than `s`, and stacked on top of each other they are at
/// most `s` pixels tall.
pub open spec fn stack_fits(sizes: Seq<(u32, u32)>, s: int) -> bool {
    &&& forall|k: int| 0 <= k < sizes.len() ==> 0 < #[trigger] sizes[k].0 <= s && 0 < sizes[k].1
    &&& heights_sum(sizes, sizes.len() as int) <= s
}

/// Summed heights grow with the number of textures summed.
proof fn lemma_heights_grow(sizes: Seq<(u32, u32)>, j: int, k: int)
    requires
        0 <= j <= k <= sizes.len(),
    ensures
        0 <= heights_sum(sizes, j) <= heights_sum(sizes, k),
    decreases k,
{
    if j < k {
        lemma_heights_grow(sizes, j, k - 1);
    } else if k > 0 {
        lemma_heights_grow(sizes, 0, k - 1);
    }
}

/// The sum of a sequence of integers.
pub open spec fn seq_sum(v: Seq<int>) -> int
    decreases v.len(),
{
    if v.len() == 0 {
        0
    } else {
        seq_sum(v.drop_last()) + v.last()
    }
}

proof fn lemma_sum_update(v: Seq<int>, i: int, x: int)
    requires
        0 <= i < v.len(),
    ensures
        seq_sum(v.update(i, x)) == seq_sum(v) - v[i] + x,
    decreases v.len(),
{
    if i == v.len() - 1 {
        assert(v.update(i, x).drop_last() =~= v.drop_last());
    } else {
        lemma_sum_update(v.drop_last(), i, x);
        assert(v.update(i, x).drop_last() =~= v.drop_last().update(i, x));
    }
}

proof fn lemma_sum_bounds(v: Seq<int>, lo: int, hi: int)
    requires
        forall|j: int| 0 <= j < v.len() ==> lo <= #[trigger] v[j] <= hi,
    ensures
        v.len() * lo <= seq_sum(v) <= v.len() * hi,
    decreases v.len(),
{
    if v.len() > 0 {
        lemma_sum_bounds(v.drop_last(), lo, hi);
        let n = v.len() as int;
        assert((n - 1) * lo + lo == n * lo) by (nonlinear_arith);
        assert((n - 1) * hi + hi == n * hi) by (nonlinear_arith);
    }
}

/// `lv[j]` bounds the taken pixels of the `j`-th run of `g` columns: each
/// of them lies in a row above `lv[j]`.
pub open spec fn slot_levels(t: Set<(int, int)>, g: int, lv: Seq<int>) -> bool {
    forall|q: (int, int), j: int|
        #[trigger] t.contains(q) && 0 <= j < lv.len() && j * g <= q.0 < j * g + g ==> q.1 < #[trigger] lv[j]
}

/// The textures, none wider than `g` and none taller than `hm`, fit a
/// side-`s` atlas cut into runs of `g` columns, where `g` divides 1024: with
/// each texture raising at most two runs by at most `hm`, the lowest run
/// still leaves room for one more texture.
pub open spec fn slot_fits(sizes: Seq<(u32, u32)>, s: int, g: int, hm: int) -> bool {
    &&& 0 < g
    &&& 1024int % g == 0
    &&& forall|k: int| 0 <= k < sizes.len() ==> 0 < #[trigger] sizes[k].0 <= g && 0 < sizes[k].1 <= hm
    &&& 2 * hm * (sizes.len() - 1) < (s / g) * (s - hm + 1)
}

/// Every atlas side is a whole number of runs of `g` columns when `g`
/// divides 1024.
proof fn lemma_side_in_runs(c: int, g: int)
    requires
        atlas_side(c),
        0 < g,
        1024int % g == 0,
    ensures
        (c / g) * g == c,
        c / g >= 1,
        g <= 1024,
{
    lemma_fundamental_div_mod(1024, g);
    let q: int = 1024int / g;
    assert(1024 == g * q);
    let k: int = c / 1024;
    assert(c == 1024 * k);
    assert(c == (q * k) * g + 0) by (nonlinear_arith)
        requires
            c == 1024 * k,
            1024 == g * q,
    ;
    lemma_fundamental_div_mod_converse(c, g, q * k, 0);
    assert(q >= 1) by (nonlinear_arith)
        requires
            1024 == g * q,
            g > 0,
    ;
    assert(g <= 1024) by (nonlinear_arith)
        requires
            1024 == g * q,
            q >= 1,
            g > 0,
    ;
    assert(q * k >= 1) by (nonlinear_arith)
        requires
            q >= 1,
            k >= 1,
    ;
}

/// After a `w` by `h` rectangle comes to rest at (`x`, `y`) inside the first
/// `mc` runs, no lower than any of them, the run levels can be raised so that
/// they still bound the taken pixels, adding at most `2 * hm` to their sum.
proof fn lemma_levels_after_place(
    t: Set<(int, int)>,
    lv: Seq<int>,
    g: int,
    mc: int,
    x: int,
    y: int,
    w: int,
    h: int,
    hm: int,
) -> (lv2: Seq<int>)
    requires
        g > 0,
        0 <= mc <= lv.len(),
        slot_levels(t, g, lv),
        forall|j: int| 0 <= j < lv.len() ==> #[trigger] lv[j] >= 0,
        0 <= x,
        x + w <= mc * g,
        0 < w <= g,
        0 < h <= hm,
        0 <= y,
        forall|j: int| 0 <= j < mc ==> y <= #[trigger] lv[j],
    ensures
        lv2.len() == lv.len(),
        forall|j: int| 0 <= j < lv2.len() ==> #[trigger] lv2[j] >= 0,
        slot_levels(t.union(under_rect(x, w, y + h)), g, lv2),
        seq_sum(lv2) <= seq_sum(lv) + 2 * hm,
{
    lemma_fundamental_div_mod(x, g);
    lemma_mod_bound(x, g);
    let j0 = x / g;
    assert(j0 * g <= x < j0 * g + g) by (nonlinear_arith)
        requires
            x == g * j0 + x % g,
            0 <= x % g < g,
    ;
    assert(0 <= j0) by (nonlinear_arith)
        requires
            j0 * g <= x,
            x < j0 * g + g,
            x >= 0,
            g > 0,
    ;
    assert(j0 < mc) by (nonlinear_arith)
        requires
            j0 * g <= x,
            x + w <= mc * g,
            w > 0,
            g > 0,
    ;
    let top = y + h;
    let v0 = if lv[j0] < top { top } else { lv[j0] };
    let lv1 = lv.update(j0, v0);
    lemma_sum_update(lv, j0, v0);
    let lv2 = if j0 + 1 < mc {
        let v1 = if lv[j0 + 1] < top { top } else { lv[j0 + 1] };
        lemma_sum_update(lv1, j0 + 1, v1);
        lv1.update(j0 + 1, v1)
    } else {
        lv1
    };
    assert forall|q: (int, int), j: int|
        #[trigger] t.union(under_rect(x, w, y + h)).contains(q) && 0 <= j < lv2.len() && j * g <= q.0 < j * g
            + g implies q.1 < #[trigger] lv2[j] by {
        if t.contains(q) {
            assert(q.1 < lv[j]);
        } else {
            assert(x <= q.0 < x + w && 0 <= q.1 < y + h);
            assert(j0 <= j) by (nonlinear_arith)
                requires
                    j0 * g <= x,
                    x <= q.0,
                    q.0 < j * g + g,
                    g > 0,
            ;
            assert(j <= j0 + 1) by (nonlinear_arith)
                requires
                    j * g <= q.0,
                    q.0 < x + w,
                    w <= g,
                    x < j0 * g + g,
                    g > 0,
            ;
            if j == j0 + 1 {
                assert(j < mc) by (nonlinear_arith)
                    requires
                        j * g <= q.0,
                        q.0 < x + w,
                        x + w <= mc * g,
                        g > 0,
                ;
            }
        }
    }
    lv2
}

/// `lv` gives one level per run of `g` columns of a side-`s` atlas, none
/// negative, each above every taken pixel of its run.
pub open spec fn run_levels(t: Set<(int, int)>, s: int, g: int, lv: Seq<int>) -> bool {
    &&& lv.len() == s / g
    &&& forall|j: int| 0 <= j < lv.len() ==> #[trigger] lv[j] >= 0
    &&& slot_levels(t, g, lv)
}

proof fn lemma_sum_at_least(v: Seq<int>, lo: int)
    requires
        forall|j: int| 0 <= j < v.len() ==> lo <= #[trigger] v[j],
    ensures
        v.len() * lo <= seq_sum(v),
    decreases v.len(),
{
    if v.len() > 0 {
        lemma_sum_at_least(v.drop_last(), lo);
        let n = v.len() as int;
        assert((n - 1) * lo + lo == n * lo) by (nonlinear_arith);
    }
}

/// While fewer textures than the bound have been placed, some run is low
/// enough to take one more texture.
proof fn lemma_room_left(t: Set<(int, int)>, lv: Seq<int>, s: int, g: int, hm: int, i: int, n: int) -> (j: int)
    requires
        run_levels(t, s, g, lv),
        0 <= i < n,
        0 < hm,
        seq_sum(lv) <= 2 * hm * i,
        2 * hm * (n - 1) < (s / g) * (s - hm + 1),
    ensures
        0 <= j < lv.len(),
        lv[j] + hm <= s,
{
    if forall|k: int| 0 <= k < lv.len() ==> #[trigger] lv[k] >= s - hm + 1 {
        lemma_sum_at_least(lv, s - hm + 1);
        assert(2 * hm * i <= 2 * hm * (n - 1)) by (nonlinear_arith)
            requires
                0 <= i <= n - 1,
                0 < hm,
        ;
        assert(false);
        0
    } else {
        choose|k: int| 0 <= k < lv.len() && !(lv[k] >= s - hm + 1)
    }
}

/// One texture placed no lower than the lowest run it could use keeps the
/// run levels within `2 * hm` per texture.
proof fn lemma_levels_step(
    t: Set<(int, int)>,
    lv: Seq<int>,
    s: int,
    g: int,
    hm: int,
    i: int,
    c: int,
    x: int,
    y: int,
    w: int,
    h: int,
)
    requires
        run_levels(t, s, g, lv),
        seq_sum(lv) <= 2 * hm * i,
        g > 0,
        (c / g) * g == c,
        c <= s,
        (s / g) * g == s,
        0 <= x,
        x + w <= c,
        0 <= y,
        y + h <= c,
        0 < w <= g,
        0 < h <= hm,
        forall|a: int, top: int|
            #[trigger] window_below(t, a, w, top) && 0 <= a && a + w <= c && 0 <= top && top + h <= c ==> y <= top,
    ensures
        exists|lv2: Seq<int>| #[trigger] run_levels(t.union(under_rect(x, w, y + h)), s, g, lv2) && seq_sum(lv2) <= 2 * hm * (i + 1),
{
    let mc = c / g;
    assert(mc <= s / g) by (nonlinear_arith)
        requires
            mc * g == c,
            (s / g) * g == s,
            c <= s,
            g > 0,
    ;
    assert forall|j: int| 0 <= j < mc implies y <= #[trigger] lv[j] by {
        assert(window_below(t, j * g, w, lv[j])) by {
            assert forall|q: (int, int)| #[trigger] t.contains(q) && j * g <= q.0 < j * g + w implies q.1 < lv[j] by {
            }
        }
        assert(j * g + w <= c) by (nonlinear_arith)
            requires
                0 <= j < mc,
                mc * g == c,
                w <= g,
                g > 0,
        ;
        assert(0 <= j * g) by (nonlinear_arith)
            requires
                0 <= j,
                g > 0,
        ;
        if lv[j] + h <= c {
        } else {
        }
    }
    let lv2 = lemma_levels_after_place(t, lv, g, mc, x, y, w, h, hm);
    assert(2 * hm * i + 2 * hm == 2 * hm * (i + 1)) by (nonlinear_arith);
    assert(run_levels(t.union(under_rect(x, w, y + h)), s, g, lv2));
}

/// Lays out textures of the given `(width, height)` sizes in one square
/// atlas: textures are placed in order, no two of them overlapping, and
/// whenever one does not fit the side doubles. Fails when a texture does not fit at a side of 8192, in
/// particular when a texture is empty or larger than 8192 pixels. The
/// packer never does worse than stacking the textures in one column: when
/// they fit that way into an atlas side, the layout succeeds with at most
/// that side. Nor does it do worse than filling runs of `g` columns side by
/// side, `g` dividing 1024: it always uses the lowest run that can take a
/// texture, so textures no wider than `g` and no taller than `hm` succeed
/// with at most side `s` whenever `slot_fits` holds.
pub fn pack_atlas(sizes: &Vec<(u32, u32)>) -> (r: Result<AtlasLayout, AtlasError>)
    ensures
        r matches Ok(a) ==> {
            &&& a.width == a.height
            &&& atlas_side(a.width as int)
            &&& a.rects.len() == sizes.len()
            &&& forall|i: int| 0 <= i < sizes.len() ==> rect_inside(#[trigger] a.rects@[i], sizes@[i], a.width as int)
            &&& forall|i: int, j: int| 0 <= i < j < sizes.len() ==> rects_apart(#[trigger] a.rects@[i], #[trigger] a.rects@[j])
        },
        sizes.len() == 0 ==> (r matches Ok(a) && a.width == 1024 && a.rects.len() == 0),
        (exists|i: int|
            0 <= i < sizes.len() && (#[trigger] sizes@[i].0 == 0 || sizes@[i].1 == 0 || sizes@[i].0 > 8192
                || sizes@[i].1 > 8192)) ==> r == Err::<AtlasLayout, AtlasError>(AtlasError::AtlasFull),
        forall|s: int| #[trigger] atlas_side(s) && stack_fits(sizes@, s) ==> (r matches Ok(a) && a.width <= s),
        forall|s: int, g: int, hm: int| #[trigger] atlas_side(s) && #[trigger] slot_fits(sizes@, s, g, hm) ==> (r matches Ok(
            a,
        ) && a.width <= s),
{
    let mut side: u32 = 1024;
    let mut packer = new_packer(1024, 1024);
    let mut rects: Vec<(u32, u32, u32, u32)> = Vec::new();
    let mut i: usize = 0;
    proof {
        assert forall|s: int, g: int, hm: int| #[trigger] atlas_side(s) && #[trigger] slot_fits(sizes@, s, g, hm) implies
            exists|lv: Seq<int>| #[trigger] run_levels(packer_taken(packer), s, g, lv) && seq_sum(lv) <= 2 * hm * 0 by {
            let lv = Seq::new((s / g) as nat, |j: int| 0int);
            lemma_side_in_runs(s, g);
            lemma_sum_bounds(lv, 0, 0);
            assert(run_levels(packer_taken(packer), s, g, lv));
        }
    }
    while i < sizes.len()
        invariant
            i <= sizes.len(),
            atlas_side(side as int),
            i == 0 ==> side == 1024,
            packer_extent(packer) == (side as int, side as int),
            rects.len() == i,
            forall|j: int| 0 <= j < i ==> rect_inside(#[trigger] rects@[j], sizes@[j], side as int),
            forall|j1: int, j2: int| 0 <= j1 < j2 < i ==> rects_apart(#[trigger] rects@[j1], #[trigger] rects@[j2]),
            forall|j: int, q: (int, int)|
                0 <= j < i && #[trigger] in_rect(q, rects@[j].0 as int, rects@[j].1 as int, rects@[j].2 as int, rects@[j].3 as int)
                    ==> #[trigger] packer_taken(packer).contains(q),
            forall|j: int|
                0 <= j < i ==> !(#[trigger] sizes@[j].0 == 0 || sizes@[j].1 == 0 || sizes@[j].0 > 8192
                    || sizes@[j].1 > 8192),
            forall|s: int|
                #[trigger] atlas_side(s) && stack_fits(sizes@, s) ==> side <= s && taken_below(
                    packer_taken(packer),
                    heights_sum(sizes@, i as int),
                ),
            forall|s: int, g: int, hm: int| #[trigger] atlas_side(s) && #[trigger] slot_fits(sizes@, s, g, hm) ==> {
                &&& side <= s
                &&& exists|lv: Seq<int>| #[trigger] run_levels(packer_taken(packer), s, g, lv) && seq_sum(lv) <= 2 * hm * i
            },
        decreases sizes.len() - i,
    {
        let (w, h) = sizes[i];
        // Such a texture can never be packed into the largest atlas.
        if w == 0 || h == 0 || w > 8192 || h > 8192 {
            proof {
                lemma_heights_grow(sizes@, i as int, i as int + 1);
                lemma_heights_grow(sizes@, i as int + 1, sizes.len() as int);
                assert forall|s: int| #[trigger] atlas_side(s) implies !stack_fits(sizes@, s) by {
                    if stack_fits(sizes@, s) {
                        assert(0 < sizes@[i as int].0 <= s);
                    }
                }
                assert forall|s: int, g: int, hm: int| #[trigger] atlas_side(s) implies !#[trigger] slot_fits(sizes@, s, g, hm) by {
                    if slot_fits(sizes@, s, g, hm) {
                        lemma_side_in_runs(s, g);
                        assert(0 < sizes@[i as int].0 <= g && 0 < sizes@[i as int].1 <= hm);
                        let n = sizes.len() as int;
                        assert(hm <= s) by (nonlinear_arith)
                            requires
                                2 * hm * (n - 1) < (s / g) * (s - hm + 1),
                                n >= 1,
                                hm > 0,
                                s / g >= 1,
                        ;
                    }
                }
            }
            return Err(AtlasError::AtlasFull);
        }
        let ghost before = side;
        let ghost old_packer = packer;
        proof {
            lemma_heights_grow(sizes@, i as int, i as int + 1);
            lemma_heights_grow(sizes@, i as int + 1, sizes.len() as int);
            let top = heights_sum(sizes@, i as int);
            assert forall|s: int| #[trigger] atlas_side(s) && stack_fits(sizes@, s) implies taken_below(
                packer_taken(old_packer),
                top,
            ) && 0 <= top && before <= s && w <= s && top + h <= s by {
                assert(0 < sizes@[i as int].0 <= s);
            }
            assert forall|s: int, g: int, hm: int| #[trigger] atlas_side(s) && #[trigger] slot_fits(sizes@, s, g, hm) implies
                exists|a: int, lvl: int|
                    #[trigger] window_below(packer_taken(old_packer), a, w as int, lvl) && 0 <= a && a + w <= s && 0 <= lvl
                        && lvl + h <= s by {
                let lv = choose|lv: Seq<int>| #[trigger] run_levels(packer_taken(packer), s, g, lv) && seq_sum(lv) <= 2 * hm * i;
                lemma_side_in_runs(s, g);
                assert(0 < sizes@[i as int].0 <= g && 0 < sizes@[i as int].1 <= hm);
                let j = lemma_room_left(packer_taken(packer), lv, s, g, hm, i as int, sizes.len() as int);
                assert(window_below(packer_taken(old_packer), j * g, w as int, lv[j])) by {
                    assert forall|q: (int, int)| #[trigger] packer_taken(old_packer).contains(q) && j * g <= q.0 < j * g + w
                        implies q.1 < lv[j] by {
                    }
                }
                assert(0 <= j * g && j * g + w <= s) by (nonlinear_arith)
                    requires
                        0 <= j < s / g,
                        (s / g) * g == s,
                        w <= g,
                        g > 0,
                ;
            }
        }
        match place_texture(&mut packer, &mut side, w, h) {
            Some((x, y)) => {
                rects.push((x, y, w, h));
            },
            None => {
                proof {
                    assert forall|s: int, g: int, hm: int| #[trigger] atlas_side(s) implies !#[trigger] slot_fits(
                        sizes@,
                        s,
                        g,
                        hm,
                    ) by {
                        if slot_fits(sizes@, s, g, hm) {
                            let (a, lvl) = choose|a: int, lvl: int|
                                #[trigger] window_below(packer_taken(old_packer), a, w as int, lvl) && 0 <= a && a + w <= s
                                    && 0 <= lvl && lvl + h <= s;
                            assert(window_below(packer_taken(old_packer), a, w as int, lvl));
                        }
                    }
                }
                return Err(AtlasError::AtlasFull);
            },
        }
        proof {
            assert forall|s: int, g: int, hm: int| #[trigger] atlas_side(s) && #[trigger] slot_fits(sizes@, s, g, hm) implies {
                &&& side <= s
                &&& exists|lv: Seq<int>| #[trigger] run_levels(packer_taken(packer), s, g, lv) && seq_sum(lv) <= 2 * hm * (i + 1)
            } by {
                let (a, lvl) = choose|a: int, lvl: int|
                    #[trigger] window_below(packer_taken(old_packer), a, w as int, lvl) && 0 <= a && a + w <= s && 0 <= lvl
                        && lvl + h <= s;
                assert(window_below(packer_taken(old_packer), a, w as int, lvl));
                let lv = choose|lv: Seq<int>| #[trigger] run_levels(packer_taken(old_packer), s, g, lv) && seq_sum(lv) <= 2 * hm * i;
                lemma_side_in_runs(s, g);
                lemma_side_in_runs(side as int, g);
                assert(0 < sizes@[i as int].0 <= g && 0 < sizes@[i as int].1 <= hm);
                let nr = rects@[i as int];
                lemma_levels_step(packer_taken(old_packer), lv, s, g, hm, i as int, side as int, nr.0 as int, nr.1 as int, w as int, h as int);
            }
            let top = heights_sum(sizes@, i as int);
            assert forall|s: int| #[trigger] atlas_side(s) && stack_fits(sizes@, s) implies side <= s && taken_below(
                packer_taken(packer),
                heights_sum(sizes@, i + 1),
            ) by {
                assert(taken_below(packer_taken(old_packer), top));
            }
            assert forall|j: int| 0 <= j < i + 1 implies rect_inside(#[trigger] rects@[j], sizes@[j], side as int) by {
                if j < i {
                    assert(rect_inside(rects@[j], sizes@[j], before as int));
                }
            }
            let nr = rects@[i as int];
            assert forall|j: int, q: (int, int)|
                0 <= j < i + 1 && #[trigger] in_rect(q, rects@[j].0 as int, rects@[j].1 as int, rects@[j].2 as int, rects@[j].3 as int)
                    implies #[trigger] packer_taken(packer).contains(q) by {
                if j < i {
                    assert(packer_taken(old_packer).contains(q));
                }
            }
            assert forall|j1: int, j2: int| 0 <= j1 < j2 < i + 1 implies rects_apart(#[trigger] rects@[j1], #[trigger] rects@[j2]) by {
                if j2 == i {
                    let a = rects@[j1];
                    if !rects_apart(a, nr) {
                        let q = (
                            if a.0 < nr.0 { nr.0 as int } else { a.0 as int },
                            if a.1 < nr.1 { nr.1 as int } else { a.1 as int },
                        );
                        assert(in_rect(q, a.0 as int, a.1 as int, a.2 as int, a.3 as int));
                        assert(packer_taken(old_packer).contains(q));
                        assert(in_rect(q, nr.0 as int, nr.1 as int, nr.2 as int, nr.3 as int));
                    }
                }
            }
        }
        i = i + 1;
    }
    Ok(AtlasLayout { width: side, height: side, rects })
}

} // verus!
