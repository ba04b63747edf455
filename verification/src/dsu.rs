//! Disjoint-set forest (union by rank, path compression) over the energy
//! blocks of a world.

use vstd::prelude::*;
use vstd::arithmetic::power2::{pow2, lemma_pow2_unfold, lemma_pow2_strictly_increases, lemma2_to64};
use vstd::set_lib::{set_int_range, lemma_int_range, lemma_len_subset, lemma_set_disjoint_lens};

verus! {

/// The elements whose representative is `r`.
pub open spec fn class_of(reps: Seq<int>, r: int) -> Set<int> {
    Set::new(|i: int| 0 <= i < reps.len() && reps[i] == r)
}

/// The representatives after every element represented by `l` moves to `w`.
pub open spec fn merge_classes(reps: Seq<int>, l: int, w: int) -> Seq<int> {
    reps.map_values(|v: int| if v == l { w } else { v })
}

/// Whether `i` and `j` lie in the same class.
pub open spec fn same_class(reps: Seq<int>, i: int, j: int) -> bool {
    reps[i] == reps[j]
}

/// Representatives and ranks after `union(x, y)`: the root of lower rank is
/// attached below the other; on equal ranks the root of `y` goes below the
/// root of `x`, whose rank grows by one.
pub open spec fn union_result(reps: Seq<int>, ranks: Seq<u8>, x: int, y: int) -> (Seq<int>, Seq<u8>) {
    let rx = reps[x];
    let ry = reps[y];
    if rx == ry {
        (reps, ranks)
    } else if ranks[rx] < ranks[ry] {
        (merge_classes(reps, rx, ry), ranks)
    } else if ranks[rx] > ranks[ry] {
        (merge_classes(reps, ry, rx), ranks)
    } else {
        (merge_classes(reps, ry, rx), ranks.update(rx, (ranks[rx] + 1) as u8))
    }
}

/// `i` lies on the path that leads from `x` up to its root, both ends
/// included.
pub open spec fn on_path(parent: Seq<u32>, rank: Seq<u8>, x: int, i: int) -> bool
    decreases 256 - rank[x],
{
    if i == x {
        true
    } else if !(0 <= x < parent.len()) || parent[x] == x || !(0 <= parent[x] < parent.len()) || !(rank[x]
        < rank[parent[x] as int]) {
        false
    } else {
        on_path(parent, rank, parent[x] as int, i)
    }
}

/// The parent links after `find(x)`: every element on the path from `x`
/// points at the root `reps[x]`, all others keep their parent.
pub open spec fn after_find(parent: Seq<u32>, rank: Seq<u8>, reps: Seq<int>, x: int) -> Seq<u32> {
    Seq::new(
        parent.len(),
        |i: int|
            if on_path(parent, rank, x, i) {
                reps[x] as u32
            } else {
                parent[i]
            },
    )
}

/// The parent links after the roots `rx` and `ry` are joined as
/// `union_result` describes.
pub open spec fn linked_parents(parent: Seq<u32>, ranks: Seq<u8>, rx: int, ry: int) -> Seq<u32> {
    if rx == ry {
        parent
    } else if ranks[rx] < ranks[ry] {
        parent.update(rx, ry as u32)
    } else {
        parent.update(ry, rx as u32)
    }
}

/// The forest invariant over the raw arrays and the representative of each
/// element.
pub open spec fn forest_inv(parent: Seq<u32>, rank: Seq<u8>, reps: Seq<int>) -> bool {
    let n = parent.len();
    &&& n <= u32::MAX
    &&& rank.len() == n
    &&& reps.len() == n
    &&& forall|i: int| 0 <= i < n ==> #[trigger] parent[i] < n
    &&& forall|i: int| 0 <= i < n ==> 0 <= #[trigger] reps[i] < n
    &&& forall|i: int| 0 <= i < n ==> parent[#[trigger] reps[i]] == reps[i]
    &&& forall|i: int| 0 <= i < n && #[trigger] parent[i] == i ==> reps[i] == i
    &&& forall|i: int| 0 <= i < n ==> reps[#[trigger] parent[i] as int] == reps[i]
    &&& forall|i: int| 0 <= i < n && #[trigger] parent[i] != i ==> rank[i] < rank[parent[i] as int]
    &&& forall|i: int| 0 <= i < n ==> rank[i] <= rank[#[trigger] reps[i]]
    &&& forall|i: int| 0 <= i < n && #[trigger] reps[i] != i ==> rank[i] < rank[reps[i]]
    &&& forall|r: int|
        0 <= r < n && #[trigger] reps[r] == r ==> pow2(rank[r] as nat) <= class_of(reps, r).len()
}

/// Union-find over the indices `0..n`.
pub struct NetworkDsu {
    parent: Vec<u32>,
    rank: Vec<u8>,
    reps: Ghost<Seq<int>>,
}

impl View for NetworkDsu {
    type V = Seq<int>;

    /// The representative (root) of each element.
    closed spec fn view(&self) -> Seq<int> {
        self.reps@
    }
}

proof fn lemma_class_finite(reps: Seq<int>, r: int)
    ensures
        class_of(reps, r).finite(),
        class_of(reps, r).len() <= reps.len(),
{
    lemma_int_range(0, reps.len() as int);
    assert(class_of(reps, r).subset_of(set_int_range(0, reps.len() as int)));
    lemma_len_subset(class_of(reps, r), set_int_range(0, reps.len() as int));
}

/// A root's rank stays below 32: its class holds at least `2^rank` elements
/// and there are fewer than `2^32` elements.
proof fn lemma_rank_small(parent: Seq<u32>, rank: Seq<u8>, reps: Seq<int>, i: int)
    requires
        forest_inv(parent, rank, reps),
        0 <= i < parent.len(),
    ensures
        rank[i] < 32,
{
    let r = reps[i];
    assert(reps[r] == r) by {
        assert(parent[reps[i]] == reps[i]);
    }
    lemma_class_finite(reps, r);
    lemma2_to64();
    if rank[r] >= 32 {
        if rank[r] > 32 {
            lemma_pow2_strictly_increases(32, rank[r] as nat);
        }
        assert(false);
    }
}

/// Attaching root `l` below root `w` keeps the forest invariant; `bump`
/// raises the rank of `w` by one when both ranks were equal.
proof fn lemma_link(parent: Seq<u32>, rank: Seq<u8>, reps: Seq<int>, l: int, w: int, bump: bool)
    requires
        forest_inv(parent, rank, reps),
        0 <= l < parent.len(),
        0 <= w < parent.len(),
        l != w,
        reps[l] == l,
        reps[w] == w,
        bump ==> rank[l] == rank[w],
        !bump ==> rank[l] < rank[w],
    ensures
        forest_inv(
            parent.update(l, w as u32),
            if bump { rank.update(w, (rank[w] + 1) as u8) } else { rank },
            merge_classes(reps, l, w),
        ),
{
    let n = parent.len() as int;
    let p2 = parent.update(l, w as u32);
    let r2 = if bump { rank.update(w, (rank[w] + 1) as u8) } else { rank };
    let m = merge_classes(reps, l, w);
    lemma_rank_small(parent, rank, reps, w);
    assert forall|i: int| 0 <= i < n implies 0 <= #[trigger] m[i] < n && p2[m[i]] == m[i] by {
        assert(parent[reps[i]] == reps[i]);
    }
    assert forall|i: int| 0 <= i < n && #[trigger] p2[i] == i implies m[i] == i by {
        if i != l {
            assert(parent[i] == i);
        }
    }
    assert forall|i: int| 0 <= i < n implies m[#[trigger] p2[i] as int] == m[i] by {
        if i != l {
            assert(reps[parent[i] as int] == reps[i]);
        }
    }
    assert forall|i: int| 0 <= i < n && #[trigger] p2[i] != i implies r2[i] < r2[p2[i] as int] by {
        if i != l {
            assert(parent[i] != i);
            assert(rank[i] < rank[parent[i] as int]);
        }
    }
    assert forall|i: int| 0 <= i < n implies r2[i] <= r2[#[trigger] m[i]] by {
        assert(rank[i] <= rank[reps[i]]);
    }
    assert forall|i: int| 0 <= i < n && #[trigger] m[i] != i implies r2[i] < r2[m[i]] by {
        assert(rank[i] <= rank[reps[i]]);
        if reps[i] != i {
            assert(rank[i] < rank[reps[i]]);
        }
    }
    assert forall|r: int| 0 <= r < n && #[trigger] m[r] == r implies pow2(
        r2[r] as nat,
    ) <= class_of(m, r).len() by {
        lemma_class_finite(reps, r);
        lemma_class_finite(m, r);
        if r == w {
            lemma_class_finite(reps, l);
            assert(class_of(m, w) =~= class_of(reps, w) + class_of(reps, l));
            assert(class_of(reps, w).disjoint(class_of(reps, l)));
            lemma_set_disjoint_lens(class_of(reps, w), class_of(reps, l));
            assert(pow2(rank[l] as nat) <= class_of(reps, l).len());
            assert(pow2(rank[w] as nat) <= class_of(reps, w).len());
            if bump {
                lemma_pow2_unfold((rank[w] + 1) as nat);
            }
        } else {
            assert(r != l);
            assert(reps[r] == r);
            assert(class_of(m, r) =~= class_of(reps, r));
        }
    }
}

impl NetworkDsu {
    /// The forest invariant.
    pub closed spec fn wf(&self) -> bool {
        forest_inv(self.parent@, self.rank@, self.reps@)
    }

    /// The rank of each element.
    pub closed spec fn ranks(&self) -> Seq<u8> {
        self.rank@
    }

    /// The parent link of each element.
    pub closed spec fn parents(&self) -> Seq<u32> {
        self.parent@
    }

    /// A forest of `size` singleton sets, each of rank 0.
    pub fn new(size: usize) -> (d: Self)
        requires
            size <= u32::MAX,
        ensures
            d.wf(),
            d@ == Seq::new(size as nat, |i: int| i),
            d.ranks() == Seq::new(size as nat, |i: int| 0u8),
            d.parents() == Seq::new(size as nat, |i: int| i as u32),
    {
        let mut parent: Vec<u32> = Vec::new();
        let mut rank: Vec<u8> = Vec::new();
        let mut i: usize = 0;
        while i < size
            invariant
                i <= size <= u32::MAX,
                parent@ == Seq::new(i as nat, |k: int| k as u32),
                rank@ == Seq::new(i as nat, |k: int| 0u8),
            decreases size - i,
        {
            parent.push(i as u32);
            rank.push(0);
            i = i + 1;
        }
        let ghost reps = Seq::new(size as nat, |k: int| k);
        proof {
            lemma2_to64();
            assert forall|r: int| 0 <= r < size && #[trigger] reps[r] == r implies pow2(
                rank@[r] as nat,
            ) <= class_of(reps, r).len() by {
                assert(class_of(reps, r) =~= set![r]);
            }
        }
        NetworkDsu { parent, rank, reps: Ghost(reps) }
    }

    /// Returns the representative of `x`, pointing `x` and every element on
    /// its path straight at it.
    pub fn find(&mut self, x: u32) -> (r: u32)
        requires
            old(self).wf(),
            x < old(self)@.len(),
        ensures
            final(self).wf(),
            final(self)@ == old(self)@,
            final(self).ranks() == old(self).ranks(),
            final(self).parents() == after_find(old(self).parents(), old(self).ranks(), old(self)@, x as int),
            r as int == old(self)@[x as int],
            final(self).parents().len() == old(self)@.len(),
            final(self).parents()[x as int] == r,
            final(self).parents()[r as int] == r,
        decreases 256 - old(self).ranks()[x as int],
    {
        let p = self.parent[x as usize];
        if p != x {
            proof {
                assert(self.parent@[x as int] != x);
            }
            let root = self.find(p);
            let ghost parent0 = self.parent@;
            proof {
                assert(self.reps@[x as int] != x) by {
                    if self.reps@[x as int] == x {
                        assert(old(self).parent@[old(self).reps@[x as int]] == x);
                    }
                }
                assert(self.reps@[p as int] == self.reps@[x as int]);
            }
            self.parent.set(x as usize, root);
            proof {
                let n = parent0.len() as int;
                let p2 = self.parent@;
                let reps = self.reps@;
                let rank = self.rank@;
                assert(p2 == parent0.update(x as int, root));
                assert forall|i: int| 0 <= i < n implies p2[#[trigger] reps[i]] == reps[i] by {
                    assert(parent0[reps[i]] == reps[i]);
                    if reps[i] == x {
                        assert(reps[reps[i]] == reps[i]) by {
                            assert(parent0[reps[i]] == reps[i]);
                        }
                    }
                }
                assert forall|i: int| 0 <= i < n && #[trigger] p2[i] == i implies reps[i] == i by {
                    if i != x {
                        assert(parent0[i] == i);
                    }
                }
                assert forall|i: int| 0 <= i < n implies reps[#[trigger] p2[i] as int] == reps[i] by {
                    if i != x {
                        assert(reps[parent0[i] as int] == reps[i]);
                    } else {
                        assert(parent0[reps[x as int]] == reps[x as int]);
                        assert(parent0[reps[x as int]] == reps[x as int] ==> reps[reps[x as int]]
                            == reps[x as int]);
                    }
                }
                assert forall|i: int| 0 <= i < n && #[trigger] p2[i] != i implies rank[i]
                    < rank[p2[i] as int] by {
                    if i != x {
                        assert(parent0[i] != i);
                    } else {
                        assert(reps[x as int] != x);
                    }
                }
                assert forall|i: int| 0 <= i < n implies 0 <= #[trigger] reps[i] < n by {}
                assert forall|i: int| 0 <= i < n implies #[trigger] p2[i] < n by {
                    if i != x {
                        assert(parent0[i] < n);
                    }
                }
            }
        }
        self.parent[x as usize]
    }

    /// Joins the sets of `x` and `y`: the root of lower rank goes below the
    /// other, and on equal ranks the root of `y` goes below that of `x`.
    pub fn union(&mut self, x: u32, y: u32)
        requires
            old(self).wf(),
            x < old(self)@.len(),
            y < old(self)@.len(),
        ensures
            final(self).wf(),
            (final(self)@, final(self).ranks()) == union_result(
                old(self)@,
                old(self).ranks(),
                x as int,
                y as int,
            ),
            final(self).parents() == linked_parents(
                after_find(
                    after_find(old(self).parents(), old(self).ranks(), old(self)@, x as int),
                    old(self).ranks(),
                    old(self)@,
                    y as int,
                ),
                old(self).ranks(),
                old(self)@[x as int],
                old(self)@[y as int],
            ),
    {
        let rx = self.find(x);
        let ry = self.find(y);
        if rx == ry {
            return;
        }
        proof {
            assert(self.parent@[self.reps@[x as int]] == self.reps@[x as int]);
            assert(self.parent@[self.reps@[y as int]] == self.reps@[y as int]);
            assert(self.parent@[rx as int] == rx ==> self.reps@[rx as int] == rx);
            assert(self.parent@[ry as int] == ry ==> self.reps@[ry as int] == ry);
        }
        let kx = self.rank[rx as usize];
        let ky = self.rank[ry as usize];
        if kx < ky {
            proof {
                lemma_link(self.parent@, self.rank@, self.reps@, rx as int, ry as int, false);
            }
            self.parent.set(rx as usize, ry);
            self.reps = Ghost(merge_classes(self.reps@, rx as int, ry as int));
        } else if kx > ky {
            proof {
                lemma_link(self.parent@, self.rank@, self.reps@, ry as int, rx as int, false);
            }
            self.parent.set(ry as usize, rx);
            self.reps = Ghost(merge_classes(self.reps@, ry as int, rx as int));
        } else {
            proof {
                lemma_link(self.parent@, self.rank@, self.reps@, ry as int, rx as int, true);
                lemma_rank_small(self.parent@, self.rank@, self.reps@, rx as int);
            }
            self.parent.set(ry as usize, rx);
            self.rank.set(rx as usize, kx + 1);
            self.reps = Ghost(merge_classes(self.reps@, ry as int, rx as int));
        }
    }
}

/// After `union(x, y)` two elements share a set exactly when they did
/// before, or one was with `x` and the other with `y`.
pub proof fn law_union_joins_exactly(reps: Seq<int>, ranks: Seq<u8>, x: int, y: int, i: int, j: int)
    requires
        0 <= x < reps.len(),
        0 <= y < reps.len(),
        0 <= i < reps.len(),
        0 <= j < reps.len(),
    ensures
        same_class(union_result(reps, ranks, x, y).0, i, j) <==> (same_class(reps, i, j) || (
        same_class(reps, i, x) && same_class(reps, j, y)) || (same_class(reps, i, y)
            && same_class(reps, j, x))),
{
}

/// After `union(x, y)`, `x` and `y` are in one set.
pub proof fn law_union_connects(reps: Seq<int>, ranks: Seq<u8>, x: int, y: int)
    requires
        0 <= x < reps.len(),
        0 <= y < reps.len(),
    ensures
        same_class(union_result(reps, ranks, x, y).0, x, y),
{
}

/// In a well-formed forest every rank is below 32, so ranks never
/// overflow.
pub proof fn law_rank_bounded(d: NetworkDsu, i: int)
    requires
        d.wf(),
        0 <= i < d@.len(),
    ensures
        d.ranks()[i] < 32,
{
    lemma_rank_small(d.parent@, d.rank@, d.reps@, i);
}

} // verus!

verus! {

/// Every representative names an element.
pub proof fn law_reps_in_range(d: NetworkDsu, i: int)
    requires
        d.wf(),
        0 <= i < d@.len(),
    ensures
        0 <= d@[i] < d@.len(),
        d@[d@[i]] == d@[i],
{
    assert(d.parent@[d.reps@[i]] == d.reps@[i]);
}

/// In a well-formed forest there is one link per element and every root
/// links to itself.
pub proof fn law_roots_link_to_themselves(d: NetworkDsu, i: int)
    requires
        d.wf(),
        0 <= i < d@.len(),
    ensures
        d.parents().len() == d@.len(),
        0 <= d@[i] < d@.len(),
        d.parents()[d@[i]] == d@[i],
        d.parents()[i] == i ==> d@[i] == i,
{
}

/// Once `find(x)` has compressed the path of `x`, a second `find(x)` and a
/// `find` of the root change no link.
pub proof fn law_find_twice_changes_nothing(d: NetworkDsu, x: int)
    requires
        d.wf(),
        0 <= x < d@.len(),
    ensures
        ({
            let q = after_find(d.parents(), d.ranks(), d@, x);
            &&& after_find(q, d.ranks(), d@, x) == q
            &&& after_find(q, d.ranks(), d@, d@[x]) == q
        }),
{
    let p = d.parent@;
    let rank = d.rank@;
    let reps = d.reps@;
    let q = after_find(p, rank, reps, x);
    let root = reps[x];
    assert(p[root] == root);
    assert(q[x] == root as u32);
    assert(q[root] == root as u32);
    assert forall|i: int| #[trigger] on_path(q, rank, root, i) implies i == root by {
        if i != root {
            assert(q[root] == root);
        }
    }
    assert forall|i: int| #[trigger] on_path(q, rank, x, i) implies i == x || i == root by {
        if i != x && x != root {
            assert(q.len() == p.len());
            assert(reps[x] != x) by {
                assert(p[reps[x]] == reps[x]);
            }
            assert(rank[x] < rank[reps[x]]);
            assert(q[x] as int == root);
            assert(q[x] != x);
            assert(rank[x] < rank[q[x] as int]);
            assert(on_path(q, rank, x, i) == on_path(q, rank, q[x] as int, i));
            assert(on_path(q, rank, root, i));
        }
    }
    assert(after_find(q, rank, reps, x) =~= q);
    assert(after_find(q, rank, reps, root) =~= q);
}

} // verus!
