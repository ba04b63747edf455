//! Definitions of blocks, items and recipes, and the registry that holds
//! them.

use vstd::prelude::*;
use vstd::hash_map::StringHashMap;
use vstd::string::StringExecFns;

verus! {

/// The definition of a kind of block.
#[derive(Debug, Clone)]
pub struct BlockDef {
    pub id: String,
    pub name: String,
    /// Path of the block's texture.
    pub texture: String,
    /// Path of the block's script, if it has one.
    pub script: Option<String>,
    /// Side length of the block in cells.
    pub size: u16,
    /// Whether the block is offered only in editor mode.
    pub editor_only: bool,
    /// Parameters handed to the block's script.
    pub fields: serde_json::Map<String, serde_json::Value>,
    /// Energy network parameters.
    pub net: serde_json::Map<String, serde_json::Value>,
}

} // verus!

verus! {

/// The definition of an item.
#[derive(Debug, Clone)]
pub struct ItemDef {
    pub id: String,
    pub name: String,
    /// Path of the item's texture.
    pub texture: String,
}

/// The definition of a crafting recipe.
#[derive(Debug, Clone)]
pub struct RecipeDef {
    pub id: String,
    /// Bit pattern of the recipe's duration in seconds, an IEEE-754 single;
    /// the registry carries it and never reads it.
    pub time_bits: u32,
    /// Consumed items and their amounts.
    pub inputs: Vec<(String, u32)>,
    /// Produced items and their amounts.
    pub outputs: Vec<(String, u32)>,
}

/// `i` as a `u32`, saturating at `u32::MAX`.
pub open spec fn sat_u32(i: int) -> u32 {
    if i <= u32::MAX {
        i as u32
    } else {
        u32::MAX
    }
}

/// A path inside the folder `rel`.
pub open spec fn rooted(rel: Seq<char>, path: Seq<char>) -> Seq<char> {
    rel + seq!['/'] + path
}

/// `stored` is `def` with its texture and script paths placed inside the
/// folder `rel`.
pub open spec fn block_placed(stored: BlockDef, def: BlockDef, rel: Seq<char>) -> bool {
    &&& stored.id@ == def.id@
    &&& stored.name@ == def.name@
    &&& stored.texture@ == rooted(rel, def.texture@)
    &&& match (stored.script, def.script) {
        (Some(s), Some(d)) => s@ == rooted(rel, d@),
        (None, None) => true,
        _ => false,
    }
    &&& stored.size == def.size
    &&& stored.editor_only == def.editor_only
    &&& stored.fields == def.fields
    &&& stored.net == def.net
}

/// `stored` is `def` with its texture path placed inside the folder `rel`.
pub open spec fn item_placed(stored: ItemDef, def: ItemDef, rel: Seq<char>) -> bool {
    &&& stored.id@ == def.id@
    &&& stored.name@ == def.name@
    &&& stored.texture@ == rooted(rel, def.texture@)
}

/// Joins `rel`, a slash and `path`.
fn join_path(rel: &str, path: &str) -> (r: String)
    ensures
        r@ == rooted(rel@, path@),
{
    let mut r = String::from_str(rel);
    r.append("/");
    r.append(path);
    proof {
        reveal_strlit("/");
    }
    r
}

/// All known blocks, items and recipes.
pub struct Registry {
    /// Position of each block id in `blocks`.
    blocks_idx: StringHashMap<u32>,
    blocks: Vec<BlockDef>,
    /// Position of each item id in `items`.
    items_idx: StringHashMap<usize>,
    items: Vec<ItemDef>,
    recipes: StringHashMap<RecipeDef>,
}

impl Registry {
    /// Blocks in registration order.
    pub closed spec fn blocks(&self) -> Seq<BlockDef> {
        self.blocks@
    }

    /// The index registered for each block id.
    pub closed spec fn block_ids(&self) -> Map<Seq<char>, u32> {
        self.blocks_idx@
    }

    /// Items in registration order.
    pub closed spec fn item_list(&self) -> Seq<ItemDef> {
        self.items@
    }

    /// The position of each item id in `item_list`.
    pub closed spec fn item_ids(&self) -> Map<Seq<char>, usize> {
        self.items_idx@
    }

    /// Recipes by id.
    pub closed spec fn recipes(&self) -> Map<Seq<char>, RecipeDef> {
        self.recipes@
    }

    /// The block registered under `id`.
    pub open spec fn lookup_block(&self, id: Seq<char>) -> Option<BlockDef> {
        if self.block_ids().contains_key(id) && self.block_ids()[id] < self.blocks().len() {
            Some(self.blocks()[self.block_ids()[id] as int])
        } else {
            None
        }
    }

    /// The item registered under `id`.
    pub open spec fn lookup_item(&self, id: Seq<char>) -> Option<ItemDef> {
        if self.item_ids().contains_key(id) && self.item_ids()[id] < self.item_list().len() {
            Some(self.item_list()[self.item_ids()[id] as int])
        } else {
            None
        }
    }

    /// Ids are unique, the index maps each id to its block's position
    /// (saturated to `u32`) and each item id to its item's position, and
    /// each recipe is filed under its own id.
    pub closed spec fn wf(&self) -> bool {
        &&& forall|i: int, j: int|
            0 <= i < self.blocks@.len() && 0 <= j < self.blocks@.len() && i != j
                ==> #[trigger] self.blocks@[i].id@ != #[trigger] self.blocks@[j].id@
        &&& forall|k: Seq<char>| #[trigger]
            self.blocks_idx@.contains_key(k) ==> exists|i: int|
                0 <= i < self.blocks@.len() && #[trigger] self.blocks@[i].id@ == k
        &&& forall|i: int|
            0 <= i < self.blocks@.len() ==> self.blocks_idx@.contains_key(#[trigger] self.blocks@[i].id@)
                && self.blocks_idx@[self.blocks@[i].id@] == sat_u32(i)
        &&& forall|i: int, j: int|
            0 <= i < self.items@.len() && 0 <= j < self.items@.len() && i != j
                ==> #[trigger] self.items@[i].id@ != #[trigger] self.items@[j].id@
        &&& forall|k: Seq<char>| #[trigger]
            self.items_idx@.contains_key(k) ==> exists|i: int|
                0 <= i < self.items@.len() && #[trigger] self.items@[i].id@ == k
        &&& forall|i: int|
            0 <= i < self.items@.len() ==> self.items_idx@.contains_key(#[trigger] self.items@[i].id@)
                && self.items_idx@[self.items@[i].id@] == i
        &&& forall|k: Seq<char>| #[trigger]
            self.recipes@.contains_key(k) ==> self.recipes@[k].id@ == k
    }

    /// An empty registry.
    pub fn new() -> (r: Self)
        ensures
            r.wf(),
            r.blocks().len() == 0,
            r.block_ids().is_empty(),
            r.item_list().len() == 0,
            r.item_ids().is_empty(),
            r.recipes().is_empty(),
    {
        Registry {
            blocks_idx: StringHashMap::new(),
            blocks: Vec::new(),
            items_idx: StringHashMap::new(),
            items: Vec::new(),
            recipes: StringHashMap::new(),
        }
    }
}


/// The message refusing a second definition under an id already taken.
fn taken_message(prefix: &str, id: &str) -> (m: String)
    ensures
        m@ == prefix@ + id@ + "' already registered"@,
{
    let mut m = String::from_str(prefix);
    m.append(id);
    m.append("' already registered");
    m
}

impl Registry {
    /// Registers a block, placing its texture and script paths inside the
    /// folder `rel_path`. Refused, leaving the registry unchanged, when a
    /// block with this id is already registered.
    pub fn register_block(&mut self, def: BlockDef, rel_path: &str) -> (r: Result<(), String>)
        requires
            old(self).wf(),
        ensures
            final(self).wf(),
            final(self).item_list() == old(self).item_list(),
            final(self).item_ids() == old(self).item_ids(),
            final(self).recipes() == old(self).recipes(),
            old(self).block_ids().contains_key(def.id@) ==> {
                &&& r matches Err(m) && m@ == "Block id '"@ + def.id@ + "' already registered"@
                &&& final(self).blocks() == old(self).blocks()
                &&& final(self).block_ids() == old(self).block_ids()
            },
            !old(self).block_ids().contains_key(def.id@) ==> {
                &&& r is Ok
                &&& final(self).blocks().len() == old(self).blocks().len() + 1
                &&& final(self).blocks().drop_last() == old(self).blocks()
                &&& block_placed(final(self).blocks().last(), def, rel_path@)
                &&& final(self).block_ids() == old(self).block_ids().insert(
                    def.id@,
                    sat_u32(old(self).blocks().len() as int),
                )
                &&& forall|k: Seq<char>| k != def.id@ ==> #[trigger] final(self).lookup_block(k) == old(self).lookup_block(k)
            },
    {
        if self.blocks_idx.contains_key(def.id.as_str()) {
            return Err(taken_message("Block id '", def.id.as_str()));
        }
        let texture = join_path(rel_path, def.texture.as_str());
        let script = match &def.script {
            Some(s) => Some(join_path(rel_path, s.as_str())),
            None => None,
        };
        let l = self.blocks.len();
        let index: u32 = if l <= u32::MAX as usize {
            l as u32
        } else {
            u32::MAX
        };
        let key = def.id.clone();
        let stored = BlockDef {
            id: def.id,
            name: def.name,
            texture,
            script,
            size: def.size,
            editor_only: def.editor_only,
            fields: def.fields,
            net: def.net,
        };
        let ghost old_blocks = self.blocks@;
        self.blocks_idx.insert(key, index);
        self.blocks.push(stored);
        proof {
            assert(self.blocks@.drop_last() =~= old_blocks);
            assert forall|i: int| 0 <= i < old_blocks.len() implies #[trigger] old_blocks[i].id@ != def.id@ by {
                assert(old(self).blocks_idx@.contains_key(old_blocks[i].id@));
            }
            assert forall|k: Seq<char>| #[trigger] self.blocks_idx@.contains_key(k) implies exists|i: int|
                0 <= i < self.blocks@.len() && #[trigger] self.blocks@[i].id@ == k by {
                if k == def.id@ {
                    assert(self.blocks@[l as int].id@ == k);
                } else {
                    let i = choose|i: int| 0 <= i < old_blocks.len() && #[trigger] old_blocks[i].id@ == k;
                    assert(self.blocks@[i].id@ == k);
                }
            }
        }
        Ok(())
    }

    /// Registers an item, placing its texture path inside the folder
    /// `rel_path`. Refused, leaving the registry unchanged, when an item with
    /// this id is already registered.
    pub fn register_item(&mut self, def: ItemDef, rel_path: &str) -> (r: Result<(), String>)
        requires
            old(self).wf(),
        ensures
            final(self).wf(),
            final(self).blocks() == old(self).blocks(),
            final(self).block_ids() == old(self).block_ids(),
            final(self).recipes() == old(self).recipes(),
            old(self).item_ids().contains_key(def.id@) ==> {
                &&& r matches Err(m) && m@ == "Item id '"@ + def.id@ + "' already registered"@
                &&& final(self).item_list() == old(self).item_list()
                &&& final(self).item_ids() == old(self).item_ids()
            },
            !old(self).item_ids().contains_key(def.id@) ==> {
                &&& r is Ok
                &&& final(self).item_list().len() == old(self).item_list().len() + 1
                &&& final(self).item_list().drop_last() == old(self).item_list()
                &&& item_placed(final(self).item_list().last(), def, rel_path@)
                &&& final(self).item_ids() == old(self).item_ids().insert(
                    def.id@,
                    old(self).item_list().len() as usize,
                )
                &&& forall|k: Seq<char>| k != def.id@ ==> #[trigger] final(self).lookup_item(k) == old(self).lookup_item(k)
            },
    {
        if self.items_idx.contains_key(def.id.as_str()) {
            return Err(taken_message("Item id '", def.id.as_str()));
        }
        let texture = join_path(rel_path, def.texture.as_str());
        let l = self.items.len();
        let key = def.id.clone();
        let stored = ItemDef { id: def.id, name: def.name, texture };
        let ghost old_items = self.items@;
        self.items_idx.insert(key, l);
        self.items.push(stored);
        proof {
            assert(self.items@.drop_last() =~= old_items);
            assert forall|i: int| 0 <= i < old_items.len() implies #[trigger] old_items[i].id@ != def.id@ by {
                assert(old(self).items_idx@.contains_key(old_items[i].id@));
            }
            assert forall|k: Seq<char>| #[trigger] self.items_idx@.contains_key(k) implies exists|i: int|
                0 <= i < self.items@.len() && #[trigger] self.items@[i].id@ == k by {
                if k == def.id@ {
                    assert(self.items@[l as int].id@ == k);
                } else {
                    let i = choose|i: int| 0 <= i < old_items.len() && #[trigger] old_items[i].id@ == k;
                    assert(self.items@[i].id@ == k);
                }
            }
        }
        Ok(())
    }

    /// Registers a recipe. Refused, leaving the registry unchanged, when a
    /// recipe with this id is already registered.
    pub fn register_recipe(&mut self, def: RecipeDef) -> (r: Result<(), String>)
        requires
            old(self).wf(),
        ensures
            final(self).wf(),
            final(self).blocks() == old(self).blocks(),
            final(self).block_ids() == old(self).block_ids(),
            final(self).item_list() == old(self).item_list(),
            final(self).item_ids() == old(self).item_ids(),
            old(self).recipes().contains_key(def.id@) ==> {
                &&& r matches Err(m) && m@ == "Reciped id '"@ + def.id@ + "' already registered"@
                &&& final(self).recipes() == old(self).recipes()
            },
            !old(self).recipes().contains_key(def.id@) ==> {
                &&& r is Ok
                &&& final(self).recipes() == old(self).recipes().insert(def.id@, def)
            },
    {
        if self.recipes.contains_key(def.id.as_str()) {
            return Err(taken_message("Reciped id '", def.id.as_str()));
        }
        let key = def.id.clone();
        self.recipes.insert(key, def);
        Ok(())
    }

    /// The block registered under `id`.
    pub fn get_block(&self, id: &str) -> (r: Option<&BlockDef>)
        requires
            self.wf(),
        ensures
            match r {
                Some(b) => self.lookup_block(id@) == Some(*b),
                None => self.lookup_block(id@) is None,
            },
    {
        match self.blocks_idx.get(id) {
            Some(index) => {
                if (*index as usize) < self.blocks.len() {
                    Some(&self.blocks[*index as usize])
                } else {
                    None
                }
            },
            None => None,
        }
    }

    /// The block at position `index` of the registration order.
    pub fn get_block_directly(&self, index: u32) -> (r: Option<&BlockDef>)
        ensures
            match r {
                Some(b) => index < self.blocks().len() && *b == self.blocks()[index as int],
                None => index >= self.blocks().len(),
            },
    {
        if (index as usize) < self.blocks.len() {
            Some(&self.blocks[index as usize])
        } else {
            None
        }
    }

    /// The index registered for the block id `id`.
    pub fn get_block_index(&self, id: &str) -> (r: Option<u32>)
        ensures
            r == (if self.block_ids().contains_key(id@) {
                Some(self.block_ids()[id@])
            } else {
                None
            }),
    {
        match self.blocks_idx.get(id) {
            Some(index) => Some(*index),
            None => None,
        }
    }

    /// The item registered under `id`.
    pub fn get_item(&self, id: &str) -> (r: Option<&ItemDef>)
        requires
            self.wf(),
        ensures
            match r {
                Some(b) => self.lookup_item(id@) == Some(*b),
                None => self.lookup_item(id@) is None,
            },
    {
        match self.items_idx.get(id) {
            Some(index) => {
                if *index < self.items.len() {
                    Some(&self.items[*index])
                } else {
                    None
                }
            },
            None => None,
        }
    }

    /// The recipe registered under `id`.
    pub fn get_recipe(&self, id: &str) -> (r: Option<&RecipeDef>)
        ensures
            match r {
                Some(d) => self.recipes().contains_key(id@) && *d == self.recipes()[id@],
                None => !self.recipes().contains_key(id@),
            },
    {
        self.recipes.get(id)
    }

    /// All blocks in registration order.
    pub fn get_all_blocks(&self) -> (r: &Vec<BlockDef>)
        ensures
            r@ == self.blocks(),
    {
        &self.blocks
    }

    /// All items in registration order.
    pub fn get_all_items(&self) -> (r: &Vec<ItemDef>)
        ensures
            r@ == self.item_list(),
    {
        &self.items
    }
}

/// While positions fit in `u32`, the block found under an id carries that
/// id, and it sits at the position its index names.
pub proof fn law_block_found_under_its_id(r: Registry, id: Seq<char>)
    requires
        r.wf(),
        r.blocks().len() <= u32::MAX + 1,
        r.block_ids().contains_key(id),
    ensures
        r.block_ids()[id] < r.blocks().len(),
        r.lookup_block(id) == Some(r.blocks()[r.block_ids()[id] as int]),
        r.blocks()[r.block_ids()[id] as int].id@ == id,
{
    let i = choose|i: int| 0 <= i < r.blocks@.len() && #[trigger] r.blocks@[i].id@ == id;
    assert(r.blocks_idx@[r.blocks@[i].id@] == sat_u32(i));
}

/// The item found under an id carries that id, and it sits at the
/// position its index names.
pub proof fn law_item_found_under_its_id(r: Registry, id: Seq<char>)
    requires
        r.wf(),
        r.item_ids().contains_key(id),
    ensures
        r.item_ids()[id] < r.item_list().len(),
        r.lookup_item(id) == Some(r.item_list()[r.item_ids()[id] as int]),
        r.item_list()[r.item_ids()[id] as int].id@ == id,
{
    let i = choose|i: int| 0 <= i < r.items@.len() && #[trigger] r.items@[i].id@ == id;
    assert(r.items_idx@[r.items@[i].id@] == i);
}

/// The block index holds exactly the ids of the registered blocks, one key
/// per block.
pub proof fn law_block_index_matches_blocks(r: Registry)
    requires
        r.wf(),
    ensures
        r.block_ids().dom() == r.blocks().map_values(|b: BlockDef| b.id@).to_set(),
        r.block_ids().dom().len() == r.blocks().len(),
{
    let ids = r.blocks@.map_values(|b: BlockDef| b.id@);
    assert forall|k: Seq<char>| r.blocks_idx@.dom().contains(k) <==> #[trigger] ids.to_set().contains(k) by {
        if r.blocks_idx@.contains_key(k) {
            let i = choose|i: int| 0 <= i < r.blocks@.len() && #[trigger] r.blocks@[i].id@ == k;
            assert(ids[i] == k);
        }
        if ids.to_set().contains(k) {
            let i = choose|i: int| 0 <= i < ids.len() && ids[i] == k;
            assert(r.blocks@[i].id@ == k);
        }
    }
    assert(r.blocks_idx@.dom() =~= ids.to_set());
    assert(ids.no_duplicates()) by {
        assert forall|i: int, j: int| 0 <= i < ids.len() && 0 <= j < ids.len() && i != j implies ids[i] != ids[j] by {
            assert(r.blocks@[i].id@ != r.blocks@[j].id@);
        }
    }
    ids.unique_seq_to_set();
}

/// The item index holds exactly the ids of the registered items, one key
/// per item.
pub proof fn law_item_index_matches_items(r: Registry)
    requires
        r.wf(),
    ensures
        r.item_ids().dom() == r.item_list().map_values(|t: ItemDef| t.id@).to_set(),
        r.item_ids().dom().len() == r.item_list().len(),
{
    let ids = r.items@.map_values(|t: ItemDef| t.id@);
    assert forall|k: Seq<char>| r.items_idx@.dom().contains(k) <==> #[trigger] ids.to_set().contains(k) by {
        if r.items_idx@.contains_key(k) {
            let i = choose|i: int| 0 <= i < r.items@.len() && #[trigger] r.items@[i].id@ == k;
            assert(ids[i] == k);
        }
        if ids.to_set().contains(k) {
            let i = choose|i: int| 0 <= i < ids.len() && ids[i] == k;
            assert(r.items@[i].id@ == k);
        }
    }
    assert(r.items_idx@.dom() =~= ids.to_set());
    assert(ids.no_duplicates()) by {
        assert forall|i: int, j: int| 0 <= i < ids.len() && 0 <= j < ids.len() && i != j implies ids[i] != ids[j] by {
            assert(r.items@[i].id@ != r.items@[j].id@);
        }
    }
    ids.unique_seq_to_set();
}

/// A block registered under a fresh id is found under that id afterwards,
/// with its paths placed in the folder it came from.
pub proof fn law_registered_block_found(before: Registry, after: Registry, def: BlockDef, rel: Seq<char>)
    requires
        after.wf(),
        before.blocks().len() < u32::MAX,
        after.blocks().len() == before.blocks().len() + 1,
        after.blocks().drop_last() == before.blocks(),
        block_placed(after.blocks().last(), def, rel),
        after.block_ids() == before.block_ids().insert(def.id@, sat_u32(before.blocks().len() as int)),
    ensures
        after.lookup_block(def.id@) == Some(after.blocks().last()),
        block_placed(after.lookup_block(def.id@)->0, def, rel),
{
}

/// An item registered under a fresh id is found under that id afterwards.
pub proof fn law_registered_item_found(before: Registry, after: Registry, def: ItemDef, rel: Seq<char>)
    requires
        after.wf(),
        after.item_list().len() == before.item_list().len() + 1,
        item_placed(after.item_list().last(), def, rel),
        after.item_ids() == before.item_ids().insert(def.id@, before.item_list().len() as usize),
    ensures
        after.lookup_item(def.id@) == Some(after.item_list().last()),
{
}

} // verus!
