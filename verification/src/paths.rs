//! The texture paths the atlas must hold.

use vstd::prelude::*;
use vstd::string::StringExecFns;
use crate::defs::Registry;

verus! {

/// Texture shown where a texture is missing.
pub const MISSING_TEX: &'static str = "./resources/assets/textures/missing.png";

/// Lexicographic order of character sequences by code point, the order of
/// `String`.
pub open spec fn text_lt(a: Seq<char>, b: Seq<char>) -> bool
    decreases a.len(),
{
    if a.len() == 0 {
        b.len() > 0
    } else if b.len() == 0 {
        false
    } else if a[0] != b[0] {
        (a[0] as int) < (b[0] as int)
    } else {
        text_lt(a.drop_first(), b.drop_first())
    }
}

/// The texts of a sequence of strings.
pub open spec fn texts(v: Seq<String>) -> Seq<Seq<char>> {
    v.map_values(|s: String| s@)
}

/// Each text comes strictly before the next.
pub open spec fn strictly_sorted(s: Seq<Seq<char>>) -> bool {
    forall|i: int, j: int| 0 <= i < j < s.len() ==> text_lt(#[trigger] s[i], #[trigger] s[j])
}

/// `<` of `String`: lexicographic comparison, which for the UTF-8 bytes
/// that `String` compares is the code point order of its characters.
#[verifier::external_body]
fn string_lt(a: &String, b: &String) -> (r: bool)
    ensures
        r == text_lt(a@, b@),
{
    a < b
}

proof fn lemma_lt_irreflexive(a: Seq<char>)
    ensures
        !text_lt(a, a),
    decreases a.len(),
{
    if a.len() > 0 {
        lemma_lt_irreflexive(a.drop_first());
    }
}

proof fn lemma_lt_transitive(a: Seq<char>, b: Seq<char>, c: Seq<char>)
    requires
        text_lt(a, b),
        text_lt(b, c),
    ensures
        text_lt(a, c),
    decreases a.len(),
{
    if a.len() > 0 && b.len() > 0 && c.len() > 0 && a[0] == b[0] && b[0] == c[0] {
        lemma_lt_transitive(a.drop_first(), b.drop_first(), c.drop_first());
    }
}

proof fn lemma_lt_total(a: Seq<char>, b: Seq<char>)
    requires
        a != b,
    ensures
        text_lt(a, b) || text_lt(b, a),
    decreases a.len(),
{
    if a.len() > 0 && b.len() > 0 {
        if a[0] == b[0] {
            if a.drop_first() == b.drop_first() {
                assert(a =~= seq![a[0]] + a.drop_first());
                assert(b =~= seq![b[0]] + b.drop_first());
            }
            lemma_lt_total(a.drop_first(), b.drop_first());
        } else {
            assert(a[0] as int != b[0] as int);
        }
    } else if a.len() == 0 && b.len() == 0 {
        assert(a =~= b);
    }
}

/// Adds `s` to a strictly sorted list unless it is there already.
fn insert_sorted(v: &mut Vec<String>, s: String)
    requires
        strictly_sorted(texts(old(v)@)),
    ensures
        strictly_sorted(texts(final(v)@)),
        forall|t: Seq<char>| texts(final(v)@).contains(t) <==> (texts(old(v)@).contains(t) || t == s@),
{
    let ghost old_t = texts(v@);
    let mut p: usize = 0;
    loop
        invariant
            p <= v.len(),
            v@ == old(v)@,
            forall|i: int| 0 <= i < p ==> text_lt(#[trigger] v@[i]@, s@),
        ensures
            p <= v.len(),
            v@ == old(v)@,
            forall|i: int| 0 <= i < p ==> text_lt(#[trigger] v@[i]@, s@),
            p == v.len() || !text_lt(v@[p as int]@, s@),
        decreases v.len() - p,
    {
        if p >= v.len() {
            break;
        }
        if string_lt(&v[p], &s) {
            p = p + 1;
        } else {
            break;
        }
    }
    if p < v.len() && v[p] == s {
        proof {
            assert forall|t: Seq<char>| texts(v@).contains(t) <==> (old_t.contains(t) || t == s@) by {
                if t == s@ {
                    assert(texts(v@)[p as int] == t);
                }
            }
        }
        return;
    }
    let ghost s_t = s@;
    v.insert(p, s);
    proof {
        let nt = texts(v@);
        assert(nt =~= old_t.insert(p as int, s_t));
        assert forall|i: int, j: int| 0 <= i < j < nt.len() implies text_lt(#[trigger] nt[i], #[trigger] nt[j]) by {
            if p < old_t.len() {
                assert(old_t[p as int] != s_t);
                lemma_lt_total(old_t[p as int], s_t);
            }
            if j == p {
                assert(text_lt(old_t[i], s_t));
            } else if i == p {
                if j - 1 > p {
                    assert(text_lt(old_t[p as int], old_t[j - 1]));
                    lemma_lt_transitive(s_t, old_t[p as int], old_t[j - 1]);
                }
            } else if i < p && j > p {
                assert(text_lt(old_t[i], old_t[j - 1]));
            } else if i > p {
                assert(text_lt(old_t[i - 1], old_t[j - 1]));
            }
        }
        assert forall|t: Seq<char>| nt.contains(t) <==> (old_t.contains(t) || t == s_t) by {
            if nt.contains(t) {
                let k = choose|k: int| 0 <= k < nt.len() && nt[k] == t;
                if k < p {
                    assert(old_t[k] == t);
                } else if k > p {
                    assert(old_t[k - 1] == t);
                }
            }
            if old_t.contains(t) {
                let k = choose|k: int| 0 <= k < old_t.len() && old_t[k] == t;
                if k < p {
                    assert(nt[k] == t);
                } else {
                    assert(nt[k + 1] == t);
                }
            }
            if t == s_t {
                assert(nt[p as int] == t);
            }
        }
    }
}

/// A texture path that the registry names: the missing-texture image, or
/// the texture of a block or of an item.
pub open spec fn needed_texture(registry: Registry, t: Seq<char>) -> bool {
    ||| t == MISSING_TEX@
    ||| exists|i: int| 0 <= i < registry.blocks().len() && #[trigger] registry.blocks()[i].texture@ == t
    ||| exists|i: int| 0 <= i < registry.item_list().len() && #[trigger] registry.item_list()[i].texture@ == t
}

/// Every texture path the registry needs, each once, in ascending order.
pub fn get_paths(registry: &Registry) -> (r: Vec<String>)
    ensures
        strictly_sorted(texts(r@)),
        forall|t: Seq<char>| texts(r@).contains(t) <==> needed_texture(*registry, t),
{
    let mut paths: Vec<String> = Vec::new();
    insert_sorted(&mut paths, String::from_str(MISSING_TEX));
    let blocks = registry.get_all_blocks();
    let mut i: usize = 0;
    while i < blocks.len()
        invariant
            i <= blocks.len(),
            blocks@ == registry.blocks(),
            strictly_sorted(texts(paths@)),
            forall|t: Seq<char>| texts(paths@).contains(t) <==> (t == MISSING_TEX@ || exists|k: int|
                0 <= k < i && #[trigger] blocks@[k].texture@ == t),
        decreases blocks.len() - i,
    {
        let ghost before = texts(paths@);
        insert_sorted(&mut paths, blocks[i].texture.clone());
        proof {
            assert forall|t: Seq<char>| texts(paths@).contains(t) <==> (t == MISSING_TEX@ || exists|k: int|
                0 <= k < i + 1 && #[trigger] blocks@[k].texture@ == t) by {
                if exists|k: int| 0 <= k < i + 1 && #[trigger] blocks@[k].texture@ == t {
                    let k = choose|k: int| 0 <= k < i + 1 && #[trigger] blocks@[k].texture@ == t;
                    if k < i {
                        assert(before.contains(t));
                    }
                }
            }
        }
        i = i + 1;
    }
    let items = registry.get_all_items();
    let mut j: usize = 0;
    while j < items.len()
        invariant
            j <= items.len(),
            blocks@ == registry.blocks(),
            items@ == registry.item_list(),
            strictly_sorted(texts(paths@)),
            forall|t: Seq<char>| texts(paths@).contains(t) <==> (t == MISSING_TEX@ || (exists|k: int|
                0 <= k < blocks.len() && #[trigger] blocks@[k].texture@ == t) || exists|k: int|
                0 <= k < j && #[trigger] items@[k].texture@ == t),
        decreases items.len() - j,
    {
        let ghost before = texts(paths@);
        insert_sorted(&mut paths, items[j].texture.clone());
        proof {
            assert forall|t: Seq<char>| texts(paths@).contains(t) <==> (t == MISSING_TEX@ || (exists|k: int|
                0 <= k < blocks.len() && #[trigger] blocks@[k].texture@ == t) || exists|k: int|
                0 <= k < j + 1 && #[trigger] items@[k].texture@ == t) by {
                if exists|k: int| 0 <= k < j + 1 && #[trigger] items@[k].texture@ == t {
                    let k = choose|k: int| 0 <= k < j + 1 && #[trigger] items@[k].texture@ == t;
                    if k < j {
                        assert(before.contains(t));
                    }
                }
            }
        }
        j = j + 1;
    }
    paths
}

} // verus!
