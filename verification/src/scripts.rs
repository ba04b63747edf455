//! Batching of scripted blocks: the update handler of a block type is
//! called once with all blocks of that type.

use vstd::prelude::*;

verus! {

/// Handler a block script runs when its block is placed.
pub const INIT: &'static str = "init";

/// Handler a block script runs once per frame for all blocks of its type.
pub const UPDATE: &'static str = "update";

/// Handler a block script runs when a mouse button is pressed on its block.
pub const MOUSE_BUTTON_DOWN: &'static str = "on_mouse_button_down";

/// Handler a block script runs when a mouse button is released on its block.
pub const MOUSE_BUTTON_UP: &'static str = "on_mouse_button_up";

/// Some block among the first `n` belongs to group `g`.
pub open spec fn group_used(group_of: Seq<usize>, n: int, g: int) -> bool {
    exists|k: int| 0 <= k < n && group_of[k] == g
}

/// Groups scripted blocks by block type. `types[e]` is the block type of
/// block `e`; the result lists the distinct types in the order in which they
/// first occur and, for each block, the position of its type in that list.
pub fn group_by_type(types: &Vec<u32>) -> (r: (Vec<u32>, Vec<usize>))
    ensures
        r.1.len() == types.len(),
        forall|g1: int, g2: int| 0 <= g1 < g2 < r.0.len() ==> #[trigger] r.0@[g1] != #[trigger] r.0@[g2],
        forall|e: int| 0 <= e < types.len() ==> #[trigger] r.1@[e] < r.0.len() && r.0@[r.1@[e] as int] == types@[e],
        forall|g: int| 0 <= g < r.0.len() ==> #[trigger] group_used(r.1@, types.len() as int, g),
        forall|e: int| 0 <= e < types.len() && #[trigger] r.1@[e] > 0 ==> group_used(r.1@, e, r.1@[e] - 1),
{
    let mut kinds: Vec<u32> = Vec::new();
    let mut group_of: Vec<usize> = Vec::new();
    let mut e: usize = 0;
    while e < types.len()
        invariant
            e <= types.len(),
            group_of.len() == e,
            kinds.len() <= e,
            forall|g1: int, g2: int| 0 <= g1 < g2 < kinds.len() ==> #[trigger] kinds@[g1] != #[trigger] kinds@[g2],
            forall|k: int| 0 <= k < e ==> #[trigger] group_of@[k] < kinds.len() && kinds@[group_of@[k] as int] == types@[k],
            forall|g: int| 0 <= g < kinds.len() ==> #[trigger] group_used(group_of@, e as int, g),
            forall|k: int| 0 <= k < e && #[trigger] group_of@[k] > 0 ==> group_used(group_of@, k, group_of@[k] - 1),
        decreases types.len() - e,
    {
        let t = types[e];
        let mut g: usize = 0;
        while g < kinds.len() && kinds[g] != t
            invariant
                g <= kinds.len(),
                forall|h: int| 0 <= h < g ==> kinds@[h] != t,
                e < types.len(),
                t == types@[e as int],
                group_of.len() == e,
                kinds.len() <= e,
                forall|g1: int, g2: int| 0 <= g1 < g2 < kinds.len() ==> #[trigger] kinds@[g1] != #[trigger] kinds@[g2],
                forall|k: int| 0 <= k < e ==> #[trigger] group_of@[k] < kinds.len() && kinds@[group_of@[k] as int] == types@[k],
                forall|g3: int| 0 <= g3 < kinds.len() ==> #[trigger] group_used(group_of@, e as int, g3),
                forall|k: int| 0 <= k < e && #[trigger] group_of@[k] > 0 ==> group_used(group_of@, k, group_of@[k] - 1),
            decreases kinds.len() - g,
        {
            g = g + 1;
        }
        let ghost before = group_of@;
        let ghost old_kinds = kinds@;
        if g == kinds.len() {
            kinds.push(t);
        }
        group_of.push(g);
        proof {
            assert forall|g2: int| 0 <= g2 < kinds.len() implies #[trigger] group_used(group_of@, e + 1, g2) by {
                if g2 == g {
                    assert(group_of@[e as int] == g2);
                } else {
                    assert(group_used(before, e as int, g2));
                    let k = choose|k: int| 0 <= k < e && before[k] == g2;
                    assert(group_of@[k] == g2);
                }
            }
            if g > 0 {
                assert(group_used(before, e as int, g - 1));
                let k = choose|k: int| 0 <= k < e && before[k] == g - 1;
                assert(group_of@[k] == g - 1);
                assert(group_used(group_of@, e as int, group_of@[e as int] - 1));
            }
            assert forall|k: int| 0 <= k < e && #[trigger] group_of@[k] > 0 implies group_used(
                group_of@,
                k,
                group_of@[k] - 1,
            ) by {
                assert(group_used(before, k, before[k] - 1));
                let j = choose|j: int| 0 <= j < k && before[j] == before[k] - 1;
                assert(group_of@[j] == before[j]);
            }
        }
        e = e + 1;
    }
    (kinds, group_of)
}

} // verus!
