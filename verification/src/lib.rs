//! An overlay engine for file trees: independent prioritized sources
//! ("mods") are merged into one provenanced logical tree, the merged tree
//! is diffed against the previously deployed one into an ordered list of
//! filesystem operations, and each operation is turned into the primitive
//! hard-link steps that place files without copying and preserve any
//! pre-existing file in a backup until no source claims its path.

pub mod deploy;
pub mod node;

use crate::node::{
    diff_ops, find_child, lemma_priority, node_view, ops_view, overwritten, sourced_view,
    top_level_file, Node, Operation, SourcedNode, SourcedNodeView,
};
use vstd::prelude::*;

verus! {

/// Stable identifier for a registered overlay source: an opaque integer
/// handle validated against the manager's registry, never reused.
#[derive(Clone, Copy, PartialEq, Eq, Structural, Debug, Hash)]
pub struct ModKey {
    pub id: u64,
}

/// The failures the overlay manager reports.
#[derive(Debug, Clone, PartialEq, Eq)]
pub enum ModError {
    DirNotFound(String),
    InvalidModUuid(u128),
    InvalidModOrder(Vec<usize>),
    ModMetadataMissing(String),
    InvalidModMetadata(String),
    BakDirCreationFailed(String),
}

/// The parts of a semantic version the manager records.
#[derive(Debug, Clone, Copy, PartialEq, Eq, Structural)]
pub struct Version {
    pub major: u64,
    pub minor: u64,
    pub patch: u64,
}

/// Descriptive metadata of one mod; a mod is addressed by the 128-bit
/// value of its uuid.
#[derive(Debug, Clone)]
pub struct ModMetadata {
    pub name: String,
    pub version: Version,
    pub uuid: u128,
}

/// One registered mod: its metadata, the root directory it was scanned
/// from, and the scanned raw tree.
#[derive(Debug)]
pub struct Mod {
    pub metadata: ModMetadata,
    pub dir: String,
    pub node: Node,
}

/// One registry slot: a mod stored under its stable key.
#[derive(Debug)]
pub struct ModSlot {
    pub key: ModKey,
    pub entry: Mod,
}

/// Index of the first slot holding the given key, or `mods.len()` if absent.
pub open spec fn slot_index(mods: Seq<ModSlot>, key: ModKey) -> int
    decreases mods.len(),
{
    if mods.len() == 0 {
        0
    } else if mods[0].key == key {
        0
    } else {
        1 + slot_index(mods.skip(1), key)
    }
}

/// Whether some slot holds the given key.
pub open spec fn has_slot(mods: Seq<ModSlot>, key: ModKey) -> bool {
    exists|i: int| 0 <= i < mods.len() && (#[trigger] mods[i]).key == key
}

pub proof fn lemma_slot_index(mods: Seq<ModSlot>, key: ModKey)
    ensures
        0 <= slot_index(mods, key) <= mods.len(),
        slot_index(mods, key) < mods.len() ==> mods[slot_index(mods, key)].key == key,
        forall|i: int| 0 <= i < slot_index(mods, key) ==> mods[i].key != key,
        (slot_index(mods, key) < mods.len()) == has_slot(mods, key),
    decreases mods.len(),
{
    if mods.len() != 0 && mods[0].key != key {
        lemma_slot_index(mods.skip(1), key);
        assert forall|i: int| 0 <= i < slot_index(mods, key) implies mods[i].key != key by {
            if i > 0 {
                assert(mods.skip(1)[i - 1] == mods[i]);
            }
        }
    }
}

/// Index of the first occurrence of a key in a key list, or `list.len()`.
pub open spec fn key_index(list: Seq<ModKey>, key: ModKey) -> int
    decreases list.len(),
{
    if list.len() == 0 {
        0
    } else if list[0] == key {
        0
    } else {
        1 + key_index(list.skip(1), key)
    }
}

pub proof fn lemma_key_index(list: Seq<ModKey>, key: ModKey)
    ensures
        0 <= key_index(list, key) <= list.len(),
        key_index(list, key) < list.len() ==> list[key_index(list, key)] == key,
        forall|i: int| 0 <= i < key_index(list, key) ==> list[i] != key,
        (key_index(list, key) < list.len()) == list.contains(key),
    decreases list.len(),
{
    if list.len() != 0 && list[0] != key {
        lemma_key_index(list.skip(1), key);
        assert forall|i: int| 0 <= i < key_index(list, key) implies list[i] != key by {
            if i > 0 {
                assert(list.skip(1)[i - 1] == list[i]);
            }
        }
        if list.skip(1).contains(key) {
            let w = choose|w: int| 0 <= w < list.skip(1).len() && list.skip(1)[w] == key;
            assert(list[w + 1] == key);
        } else if list.contains(key) {
            let w = choose|w: int| 0 <= w < list.len() && list[w] == key;
            assert(list.skip(1)[w - 1] == key);
        }
    }
}

/// Index of the last slot whose mod carries the given uuid, or `-1`:
/// when one uuid was registered twice, the later registration wins.
pub open spec fn uuid_index(mods: Seq<ModSlot>, uuid: u128) -> int
    decreases mods.len(),
{
    if mods.len() == 0 {
        -1
    } else if mods[mods.len() - 1].entry.metadata.uuid == uuid {
        mods.len() - 1
    } else {
        uuid_index(mods.drop_last(), uuid)
    }
}

pub proof fn lemma_uuid_index(mods: Seq<ModSlot>, uuid: u128)
    ensures
        -1 <= uuid_index(mods, uuid) < mods.len(),
        uuid_index(mods, uuid) >= 0 ==> mods[uuid_index(mods, uuid)].entry.metadata.uuid == uuid,
        forall|i: int| uuid_index(mods, uuid) < i < mods.len() ==> mods[i].entry.metadata.uuid != uuid,
    decreases mods.len(),
{
    if mods.len() != 0 && mods[mods.len() - 1].entry.metadata.uuid != uuid {
        lemma_uuid_index(mods.drop_last(), uuid);
        assert forall|i: int|
            uuid_index(mods, uuid) < i < mods.len() implies mods[i].entry.metadata.uuid != uuid by {
            if i < mods.len() - 1 {
                assert(mods.drop_last()[i] == mods[i]);
            }
        }
    }
}

/// The synthetic, never-materialized root directory of a merged tree.
pub open spec fn empty_root() -> SourcedNodeView {
    SourcedNodeView::Dir { name: "root"@, children: Seq::empty() }
}

/// The merged tree of the given active keys folded over an accumulator,
/// in ascending priority order: later sources overwrite earlier ones.
pub open spec fn merged_tree_from(
    acc: SourcedNodeView,
    mods: Seq<ModSlot>,
    active: Seq<ModKey>,
) -> SourcedNodeView
    decreases active.len(),
{
    if active.len() == 0 {
        acc
    } else {
        let k = active[0];
        let i = slot_index(mods, k);
        let acc2 = if i < mods.len() {
            overwritten(acc, node_view(mods[i].entry.node), k)
        } else {
            acc
        };
        merged_tree_from(acc2, mods, active.skip(1))
    }
}

/// The merged logical tree of the currently active sources.
pub open spec fn spec_make_tree(mods: Seq<ModSlot>, active: Seq<ModKey>) -> SourcedNodeView {
    merged_tree_from(empty_root(), mods, active)
}

/// Merge idempotence: the merged tree is a function of the registry
/// contents and the active order alone, so merging the same ordered
/// source list twice yields structurally identical trees.
pub proof fn lemma_merge_deterministic(m1: ModManager, m2: ModManager)
    requires
        m1.mods@ == m2.mods@,
        m1.active_mods@ == m2.active_mods@,
    ensures
        spec_make_tree(m1.mods@, m1.active_mods@) == spec_make_tree(m2.mods@, m2.active_mods@),
{
}

/// A merged tree is well-formed whenever the registered source trees
/// are: the fold never duplicates a child name, so every deployed tree
/// meets the diff engine's well-formedness hypotheses.
pub proof fn lemma_merged_tree_wf(acc: SourcedNodeView, mods: Seq<ModSlot>, active: Seq<ModKey>)
    requires
        acc.wf(),
        forall|i: int| 0 <= i < mods.len() ==> node_view((#[trigger] mods[i]).entry.node).wf(),
    ensures
        merged_tree_from(acc, mods, active).wf(),
    decreases active.len(),
{
    if active.len() != 0 {
        let k = active[0];
        let i = slot_index(mods, k);
        lemma_slot_index(mods, k);
        let acc2 = if i < mods.len() {
            overwritten(acc, node_view(mods[i].entry.node), k)
        } else {
            acc
        };
        if i < mods.len() {
            crate::node::lemma_overwritten_wf(acc, node_view(mods[i].entry.node), k);
        }
        lemma_merged_tree_wf(acc2, mods, active.skip(1));
    }
}

/// The merged tree of any registry of well-formed source trees is
/// well-formed.
pub proof fn lemma_make_tree_wf(mods: Seq<ModSlot>, active: Seq<ModKey>)
    requires
        forall|i: int| 0 <= i < mods.len() ==> node_view((#[trigger] mods[i]).entry.node).wf(),
    ensures
        spec_make_tree(mods, active).wf(),
{
    lemma_merged_tree_wf(empty_root(), mods, active);
}

/// Priority correctness at the manager level: when the two active sources
/// both provide a file of one name at the top level, the one standing
/// later in the active order — the higher priority — owns that file in
/// the merged tree.
pub proof fn lemma_make_tree_priority(m: ModManager, ka: ModKey, kb: ModKey, x: Seq<char>)
    requires
        m.active_mods@ == seq![ka, kb],
        slot_index(m.mods@, ka) < m.mods@.len(),
        slot_index(m.mods@, kb) < m.mods@.len(),
        top_level_file(node_view(m.mods@[slot_index(m.mods@, ka)].entry.node), x),
        top_level_file(node_view(m.mods@[slot_index(m.mods@, kb)].entry.node), x),
    ensures
        spec_make_tree(m.mods@, m.active_mods@) is Dir,
        find_child(spec_make_tree(m.mods@, m.active_mods@)->Dir_children, x) == Some(
            SourcedNodeView::File { name: x, source: kb },
        ),
{
    let ta = node_view(m.mods@[slot_index(m.mods@, ka)].entry.node);
    let tb = node_view(m.mods@[slot_index(m.mods@, kb)].entry.node);
    let active = m.active_mods@;
    assert(active[0] == ka && active[1] == kb);
    let acc1 = overwritten(empty_root(), ta, ka);
    let acc2 = overwritten(acc1, tb, kb);
    reveal_with_fuel(merged_tree_from, 4);
    assert(active.skip(1)[0] == kb);
    assert(active.skip(1).len() == 1);
    assert(active.skip(1).skip(1) =~= Seq::<ModKey>::empty());
    assert(merged_tree_from(empty_root(), m.mods@, active) == merged_tree_from(
        acc1,
        m.mods@,
        active.skip(1),
    ));
    assert(merged_tree_from(acc1, m.mods@, active.skip(1)) == merged_tree_from(
        acc2,
        m.mods@,
        active.skip(1).skip(1),
    ));
    assert(spec_make_tree(m.mods@, active) == acc2);
    lemma_priority(empty_root(), ta, tb, ka, kb, x);
}

/// The overlay manager: the registry of mods, the activation state, and
/// the deployed tree it believes is materialized in the working directory.
#[derive(Debug)]
pub struct ModManager {
    pub mods: Vec<ModSlot>,
    pub next_key: u64,
    pub active_mods: Vec<ModKey>,
    pub inactive_mods: Vec<ModKey>,
    pub current_active_tree: SourcedNode,
}

impl ModManager {
    /// Registry consistency: keys are distinct and below the allocation
    /// counter, every registered mod is listed as exactly one of active or
    /// inactive, and the two lists hold no stale or duplicated keys.
    pub open spec fn wf(self) -> bool {
        &&& forall|i: int, j: int|
            0 <= i < j < self.mods@.len() ==> self.mods@[i].key != self.mods@[j].key
        &&& forall|i: int| 0 <= i < self.mods@.len() ==> (#[trigger] self.mods@[i]).key.id < self.next_key
        &&& self.active_mods@.no_duplicates()
        &&& self.inactive_mods@.no_duplicates()
        &&& forall|k: ModKey| #[trigger]
            self.active_mods@.contains(k) ==> has_slot(self.mods@, k)
        &&& forall|k: ModKey| #[trigger]
            self.inactive_mods@.contains(k) ==> has_slot(self.mods@, k)
        &&& forall|k: ModKey|
            !(self.active_mods@.contains(k) && self.inactive_mods@.contains(k))
        &&& forall|i: int|
            0 <= i < self.mods@.len() ==> self.active_mods@.contains(
                (#[trigger] self.mods@[i]).key,
            ) || self.inactive_mods@.contains(self.mods@[i].key)
    }

    /// A fresh manager: nothing registered, nothing deployed.
    pub fn new() -> (r: ModManager)
        ensures
            r.wf(),
            r.mods@ == Seq::<ModSlot>::empty(),
            r.next_key == 0,
            r.active_mods@ == Seq::<ModKey>::empty(),
            r.inactive_mods@ == Seq::<ModKey>::empty(),
            sourced_view(r.current_active_tree) == empty_root(),
    {
        ModManager {
            mods: Vec::new(),
            next_key: 0,
            active_mods: Vec::new(),
            inactive_mods: Vec::new(),
            current_active_tree: SourcedNode::Dir { name: "root".to_owned(), children: Vec::new() },
        }
    }

    /// The first slot holding the given key.
    fn find_slot(mods: &Vec<ModSlot>, key: ModKey) -> (r: Option<usize>)
        ensures
            match r {
                Some(i) => i < mods@.len() && i as int == slot_index(mods@, key),
                None => slot_index(mods@, key) == mods@.len(),
            },
    {
        let mut j: usize = 0;
        while j < mods.len()
            invariant
                j <= mods.len(),
                forall|i: int| 0 <= i < j ==> mods@[i].key != key,
            decreases mods.len() - j,
        {
            if mods[j].key == key {
                proof {
                    lemma_slot_index_is(mods@, key, j as int);
                }
                return Some(j);
            }
            j += 1;
        }
        proof {
            lemma_slot_index_is(mods@, key, mods@.len() as int);
        }
        None
    }

    /// The index of a key in a key list, if present.
    fn find_key(list: &Vec<ModKey>, key: ModKey) -> (r: Option<usize>)
        ensures
            match r {
                Some(i) => i < list@.len() && i as int == key_index(list@, key) && list@.contains(
                    key,
                ),
                None => !list@.contains(key),
            },
    {
        let mut j: usize = 0;
        while j < list.len()
            invariant
                j <= list.len(),
                forall|i: int| 0 <= i < j ==> list@[i] != key,
            decreases list.len() - j,
        {
            if list[j] == key {
                proof {
                    lemma_key_index_is(list@, key, j as int);
                }
                return Some(j);
            }
            j += 1;
        }
        proof {
            lemma_key_index(list@, key);
        }
        None
    }

    /// The last registered mod carrying the given uuid.
    fn find_uuid(mods: &Vec<ModSlot>, uuid: u128) -> (r: Option<usize>)
        ensures
            match r {
                Some(i) => i < mods@.len() && i as int == uuid_index(mods@, uuid),
                None => uuid_index(mods@, uuid) == -1,
            },
    {
        let mut j: usize = mods.len();
        while j > 0
            invariant
                j <= mods.len(),
                forall|i: int| j <= i < mods@.len() ==> mods@[i].entry.metadata.uuid != uuid,
            decreases j,
        {
            j -= 1;
            if mods[j].metadata_uuid() == uuid {
                proof {
                    lemma_uuid_index_is(mods@, uuid, j as int);
                }
                return Some(j);
            }
        }
        proof {
            lemma_uuid_index_is(mods@, uuid, -1);
        }
        None
    }
}

/// A known first match pins down `slot_index`.
pub proof fn lemma_slot_index_is(mods: Seq<ModSlot>, key: ModKey, j: int)
    requires
        0 <= j <= mods.len(),
        forall|i: int| 0 <= i < j ==> mods[i].key != key,
        j < mods.len() ==> mods[j].key == key,
    ensures
        slot_index(mods, key) == j,
    decreases mods.len(),
{
    if mods.len() == 0 {
    } else if mods[0].key == key {
        assert(j == 0);
    } else {
        assert forall|i: int| 0 <= i < j - 1 implies mods.skip(1)[i].key != key by {
            assert(mods.skip(1)[i] == mods[i + 1]);
        }
        if j - 1 < mods.len() - 1 {
            assert(mods.skip(1)[j - 1] == mods[j]);
        }
        lemma_slot_index_is(mods.skip(1), key, j - 1);
    }
}

/// A known first match pins down `key_index`.
pub proof fn lemma_key_index_is(list: Seq<ModKey>, key: ModKey, j: int)
    requires
        0 <= j <= list.len(),
        forall|i: int| 0 <= i < j ==> list[i] != key,
        j < list.len() ==> list[j] == key,
    ensures
        key_index(list, key) == j,
    decreases list.len(),
{
    if list.len() == 0 {
    } else if list[0] == key {
        assert(j == 0);
    } else {
        assert forall|i: int| 0 <= i < j - 1 implies list.skip(1)[i] != key by {
            assert(list.skip(1)[i] == list[i + 1]);
        }
        if j - 1 < list.len() - 1 {
            assert(list.skip(1)[j - 1] == list[j]);
        }
        lemma_key_index_is(list.skip(1), key, j - 1);
    }
}

/// A known last match pins down `uuid_index`.
pub proof fn lemma_uuid_index_is(mods: Seq<ModSlot>, uuid: u128, j: int)
    requires
        -1 <= j < mods.len(),
        forall|i: int| j < i < mods.len() ==> mods[i].entry.metadata.uuid != uuid,
        j >= 0 ==> mods[j].entry.metadata.uuid == uuid,
    ensures
        uuid_index(mods, uuid) == j,
    decreases mods.len(),
{
    if mods.len() == 0 {
    } else if mods[mods.len() - 1].entry.metadata.uuid == uuid {
        assert(j == mods.len() - 1);
    } else {
        assert(j < mods.len() - 1);
        assert forall|i: int| j < i < mods.drop_last().len() implies mods.drop_last()[i].entry.metadata.uuid
            != uuid by {
            assert(mods.drop_last()[i] == mods[i]);
        }
        if j >= 0 {
            assert(mods.drop_last()[j] == mods[j]);
        }
        lemma_uuid_index_is(mods.drop_last(), uuid, j);
    }
}

/// Removing the only occurrence of a key from a duplicate-free key list
/// removes exactly that key from its contents.
proof fn lemma_remove_key(list: Seq<ModKey>, j: int)
    requires
        0 <= j < list.len(),
        list.no_duplicates(),
    ensures
        !list.remove(j).contains(list[j]),
        forall|k: ModKey| #[trigger] list.remove(j).contains(k) ==> list.contains(k),
        forall|k: ModKey| list.contains(k) && k != list[j] ==> list.remove(j).contains(k),
        list.remove(j).no_duplicates(),
{
    let l2 = list.remove(j);
    assert forall|k: ModKey| #[trigger] l2.contains(k) implies list.contains(k) by {
        let a = choose|a: int| 0 <= a < l2.len() && l2[a] == k;
        if a < j {
            assert(list[a] == k);
        } else {
            assert(list[a + 1] == k);
        }
    }
    assert(!l2.contains(list[j])) by {
        if l2.contains(list[j]) {
            let a = choose|a: int| 0 <= a < l2.len() && l2[a] == list[j];
            if a < j {
                assert(list[a] == list[j]);
            } else {
                assert(list[a + 1] == list[j]);
            }
        }
    }
    assert forall|k: ModKey| list.contains(k) && k != list[j] implies l2.contains(k) by {
        let a = choose|a: int| 0 <= a < list.len() && list[a] == k;
        if a < j {
            assert(l2[a] == k);
        } else {
            assert(l2[a - 1] == k);
        }
    }
}

/// Removing one slot removes exactly its key from the registry's contents,
/// provided the keys are distinct.
proof fn lemma_remove_slot(mods: Seq<ModSlot>, j: int)
    requires
        0 <= j < mods.len(),
        forall|a: int, b: int| 0 <= a < b < mods.len() ==> mods[a].key != mods[b].key,
    ensures
        !has_slot(mods.remove(j), mods[j].key),
        forall|k: ModKey| has_slot(mods.remove(j), k) ==> has_slot(mods, k),
        forall|k: ModKey| has_slot(mods, k) && k != mods[j].key ==> has_slot(mods.remove(j), k),
        forall|a: int, b: int|
            0 <= a < b < mods.remove(j).len() ==> mods.remove(j)[a].key != mods.remove(j)[b].key,
{
    let m2 = mods.remove(j);
    assert forall|k: ModKey| has_slot(m2, k) implies has_slot(mods, k) by {
        let a = choose|a: int| 0 <= a < m2.len() && m2[a].key == k;
        if a < j {
            assert(mods[a].key == k);
        } else {
            assert(mods[a + 1].key == k);
        }
    }
    assert(!has_slot(m2, mods[j].key)) by {
        if has_slot(m2, mods[j].key) {
            let a = choose|a: int| 0 <= a < m2.len() && m2[a].key == mods[j].key;
            if a < j {
                assert(mods[a].key == mods[j].key);
            } else {
                assert(mods[a + 1].key == mods[j].key);
            }
        }
    }
    assert forall|k: ModKey| has_slot(mods, k) && k != mods[j].key implies has_slot(m2, k) by {
        let a = choose|a: int| 0 <= a < mods.len() && mods[a].key == k;
        if a < j {
            assert(m2[a].key == k);
        } else {
            assert(m2[a - 1].key == k);
        }
    }
}

impl ModManager {
    /// Registers a mod under a fresh key; it starts inactive. Returns the
    /// uuid under which the mod is addressed from now on.
    pub fn add_mod(&mut self, entry: Mod) -> (r: u128)
        requires
            old(self).wf(),
            old(self).next_key < u64::MAX,
        ensures
            final(self).wf(),
            r == entry.metadata.uuid,
            final(self).mods@ == old(self).mods@.push(
                ModSlot { key: ModKey { id: old(self).next_key }, entry },
            ),
            final(self).next_key == old(self).next_key + 1,
            final(self).active_mods@ == old(self).active_mods@,
            final(self).inactive_mods@ == old(self).inactive_mods@.push(
                ModKey { id: old(self).next_key },
            ),
            final(self).current_active_tree == old(self).current_active_tree,
    {
        let key = ModKey { id: self.next_key };
        let uuid = entry.metadata.uuid;
        self.next_key = self.next_key + 1;
        self.mods.push(ModSlot { key, entry });
        self.inactive_mods.push(key);
        proof {
            let m = *self;
            let om = *old(self);
            assert(!om.active_mods@.contains(key) && !om.inactive_mods@.contains(key)) by {
                if om.active_mods@.contains(key) || om.inactive_mods@.contains(key) {
                    let a = choose|a: int| 0 <= a < om.mods@.len() && om.mods@[a].key == key;
                    assert(om.mods@[a].key.id < om.next_key);
                }
            }
            assert forall|k: ModKey| #[trigger] m.active_mods@.contains(k) implies has_slot(
                m.mods@,
                k,
            ) by {
                let a = choose|a: int| 0 <= a < om.mods@.len() && om.mods@[a].key == k;
                assert(m.mods@[a].key == k);
            }
            assert forall|k: ModKey| #[trigger] m.inactive_mods@.contains(k) implies has_slot(
                m.mods@,
                k,
            ) by {
                let b = choose|b: int| 0 <= b < m.inactive_mods@.len() && m.inactive_mods@[b] == k;
                if b < om.inactive_mods@.len() {
                    assert(om.inactive_mods@.contains(k));
                    let a = choose|a: int| 0 <= a < om.mods@.len() && om.mods@[a].key == k;
                    assert(m.mods@[a].key == k);
                } else {
                    assert(k == key);
                    assert(m.mods@[m.mods@.len() - 1].key == key);
                }
            }
            assert forall|k: ModKey| !(m.active_mods@.contains(k)
                && m.inactive_mods@.contains(k)) by {
                if m.inactive_mods@.contains(k) && m.active_mods@.contains(k) {
                    let b = choose|b: int|
                        0 <= b < m.inactive_mods@.len() && m.inactive_mods@[b] == k;
                    if b < om.inactive_mods@.len() {
                        assert(om.inactive_mods@.contains(k));
                    } else {
                        assert(k == key);
                    }
                }
            }
            assert forall|i: int|
                0 <= i < m.mods@.len() implies m.active_mods@.contains((#[trigger] m.mods@[i]).key)
                || m.inactive_mods@.contains(m.mods@[i].key) by {
                if i < om.mods@.len() {
                    assert(om.active_mods@.contains(om.mods@[i].key) || om.inactive_mods@.contains(
                        om.mods@[i].key,
                    ));
                    if om.inactive_mods@.contains(om.mods@[i].key) {
                        let b = choose|b: int|
                            0 <= b < om.inactive_mods@.len() && om.inactive_mods@[b] == om.mods@[i].key;
                        assert(m.inactive_mods@[b] == om.mods@[i].key);
                    }
                } else {
                    assert(m.inactive_mods@[m.inactive_mods@.len() - 1] == key);
                }
            }
        }
        uuid
    }

    /// Removes the mod addressed by `uuid` from the registry; the mod must
    /// currently be inactive, and an unknown uuid is rejected.
    pub fn remove_mod(&mut self, uuid: u128) -> (r: Result<(), ModError>)
        requires
            old(self).wf(),
        ensures
            final(self).wf(),
            final(self).next_key == old(self).next_key,
            final(self).current_active_tree == old(self).current_active_tree,
            final(self).active_mods@ == old(self).active_mods@,
            ({
                let i = uuid_index(old(self).mods@, uuid);
                if i >= 0 && !old(self).active_mods@.contains(old(self).mods@[i].key) {
                    &&& r is Ok
                    &&& final(self).mods@ == old(self).mods@.remove(i)
                    &&& final(self).inactive_mods@ == old(self).inactive_mods@.remove(
                        key_index(old(self).inactive_mods@, old(self).mods@[i].key),
                    )
                } else {
                    &&& r == Result::<(), ModError>::Err(ModError::InvalidModUuid(uuid))
                    &&& *final(self) == *old(self)
                }
            }),
    {
        match Self::find_uuid(&self.mods, uuid) {
            None => Err(ModError::InvalidModUuid(uuid)),
            Some(i) => {
                let key = self.mods[i].key;
                if Self::find_key(&self.active_mods, key).is_some() {
                    Err(ModError::InvalidModUuid(uuid))
                } else {
                    proof {
                        assert(self.mods@[i as int].key == key);
                        assert(self.active_mods@.contains(key) || self.inactive_mods@.contains(key));
                        lemma_remove_slot(self.mods@, i as int);
                        lemma_key_index(self.inactive_mods@, key);
                        lemma_remove_key(
                            self.inactive_mods@,
                            key_index(self.inactive_mods@, key),
                        );
                    }
                    self.mods.remove(i);
                    match Self::find_key(&self.inactive_mods, key) {
                        Some(j) => {
                            self.inactive_mods.remove(j);
                        },
                        None => {
                            proof {
                                assert(false);
                            }
                        },
                    }
                    proof {
                        let m = *self;
                        let om = *old(self);
                        assert forall|k: ModKey| #[trigger] m.active_mods@.contains(k) implies has_slot(
                            m.mods@,
                            k,
                        ) by {
                            assert(k != key);
                        }
                        assert forall|k: ModKey| #[trigger] m.inactive_mods@.contains(k) implies has_slot(
                            m.mods@,
                            k,
                        ) by {
                            assert(om.inactive_mods@.contains(k));
                            assert(k != key);
                        }
                        assert forall|a: int|
                            0 <= a < m.mods@.len() implies m.active_mods@.contains(
                            (#[trigger] m.mods@[a]).key,
                        ) || m.inactive_mods@.contains(m.mods@[a].key) by {
                            let ka = m.mods@[a].key;
                            if a < i {
                                assert(om.mods@[a].key == ka);
                            } else {
                                assert(om.mods@[a + 1].key == ka);
                            }
                            assert(om.active_mods@.contains(ka) || om.inactive_mods@.contains(ka));
                            assert(ka != key) by {
                                if a < i {
                                    assert(om.mods@[a].key != om.mods@[i as int].key);
                                } else {
                                    assert(om.mods@[i as int].key != om.mods@[a + 1].key);
                                }
                            }
                        }
                    }
                    Ok(())
                }
            },
        }
    }
}

impl ModManager {
    /// Activates the mod addressed by `uuid` at the highest priority
    /// position; the mod must currently be inactive.
    pub fn activate_mod(&mut self, uuid: u128) -> (r: Result<(), ModError>)
        requires
            old(self).wf(),
        ensures
            final(self).wf(),
            final(self).next_key == old(self).next_key,
            final(self).current_active_tree == old(self).current_active_tree,
            final(self).mods@ == old(self).mods@,
            ({
                let i = uuid_index(old(self).mods@, uuid);
                if i >= 0 && !old(self).active_mods@.contains(old(self).mods@[i].key) {
                    &&& r is Ok
                    &&& final(self).active_mods@ == old(self).active_mods@.push(
                        old(self).mods@[i].key,
                    )
                    &&& final(self).inactive_mods@ == old(self).inactive_mods@.remove(
                        key_index(old(self).inactive_mods@, old(self).mods@[i].key),
                    )
                } else {
                    &&& r == Result::<(), ModError>::Err(ModError::InvalidModUuid(uuid))
                    &&& *final(self) == *old(self)
                }
            }),
    {
        match Self::find_uuid(&self.mods, uuid) {
            None => Err(ModError::InvalidModUuid(uuid)),
            Some(i) => {
                let key = self.mods[i].key;
                if Self::find_key(&self.active_mods, key).is_some() {
                    Err(ModError::InvalidModUuid(uuid))
                } else {
                    proof {
                        assert(self.mods@[i as int].key == key);
                        assert(self.active_mods@.contains(key) || self.inactive_mods@.contains(key));
                        lemma_key_index(self.inactive_mods@, key);
                        lemma_remove_key(
                            self.inactive_mods@,
                            key_index(self.inactive_mods@, key),
                        );
                    }
                    match Self::find_key(&self.inactive_mods, key) {
                        Some(j) => {
                            self.inactive_mods.remove(j);
                        },
                        None => {
                            proof {
                                assert(false);
                            }
                        },
                    }
                    self.active_mods.push(key);
                    proof {
                        let m = *self;
                        let om = *old(self);
                        assert forall|k: ModKey| #[trigger] m.active_mods@.contains(k) implies has_slot(
                            m.mods@,
                            k,
                        ) by {
                            let b = choose|b: int|
                                0 <= b < m.active_mods@.len() && m.active_mods@[b] == k;
                            if b < om.active_mods@.len() {
                                assert(om.active_mods@.contains(k));
                            } else {
                                assert(k == key);
                                assert(om.inactive_mods@.contains(key));
                            }
                        }
                        assert(m.active_mods@.no_duplicates()) by {
                            assert forall|a: int, b: int|
                                0 <= a < b < m.active_mods@.len() implies m.active_mods@[a]
                                != m.active_mods@[b] by {
                                if b == m.active_mods@.len() - 1 {
                                    assert(om.active_mods@.contains(m.active_mods@[a]));
                                }
                            }
                        }
                        assert forall|k: ModKey| !(m.active_mods@.contains(k)
                            && m.inactive_mods@.contains(k)) by {
                            if m.active_mods@.contains(k) && m.inactive_mods@.contains(k) {
                                let b = choose|b: int|
                                    0 <= b < m.active_mods@.len() && m.active_mods@[b] == k;
                                if b < om.active_mods@.len() {
                                    assert(om.active_mods@.contains(k));
                                    assert(om.inactive_mods@.contains(k));
                                } else {
                                    assert(k == key);
                                }
                            }
                        }
                        assert forall|a: int|
                            0 <= a < m.mods@.len() implies m.active_mods@.contains(
                            (#[trigger] m.mods@[a]).key,
                        ) || m.inactive_mods@.contains(m.mods@[a].key) by {
                            let ka = m.mods@[a].key;
                            assert(om.active_mods@.contains(ka) || om.inactive_mods@.contains(ka));
                            if om.active_mods@.contains(ka) {
                                let b = choose|b: int|
                                    0 <= b < om.active_mods@.len() && om.active_mods@[b] == ka;
                                assert(m.active_mods@[b] == ka);
                            } else if ka == key {
                                assert(m.active_mods@[m.active_mods@.len() - 1] == key);
                            }
                        }
                    }
                    Ok(())
                }
            },
        }
    }

    /// Deactivates the mod addressed by `uuid`; the mod must currently be
    /// active. Nothing changes on disk until the next deployment.
    pub fn deactivate_mod(&mut self, uuid: u128) -> (r: Result<(), ModError>)
        requires
            old(self).wf(),
        ensures
            final(self).wf(),
            final(self).next_key == old(self).next_key,
            final(self).current_active_tree == old(self).current_active_tree,
            final(self).mods@ == old(self).mods@,
            ({
                let i = uuid_index(old(self).mods@, uuid);
                if i >= 0 && !old(self).inactive_mods@.contains(old(self).mods@[i].key) {
                    &&& r is Ok
                    &&& final(self).inactive_mods@ == old(self).inactive_mods@.push(
                        old(self).mods@[i].key,
                    )
                    &&& final(self).active_mods@ == old(self).active_mods@.remove(
                        key_index(old(self).active_mods@, old(self).mods@[i].key),
                    )
                } else {
                    &&& r == Result::<(), ModError>::Err(ModError::InvalidModUuid(uuid))
                    &&& *final(self) == *old(self)
                }
            }),
    {
        match Self::find_uuid(&self.mods, uuid) {
            None => Err(ModError::InvalidModUuid(uuid)),
            Some(i) => {
                let key = self.mods[i].key;
                if Self::find_key(&self.inactive_mods, key).is_some() {
                    Err(ModError::InvalidModUuid(uuid))
                } else {
                    proof {
                        assert(self.mods@[i as int].key == key);
                        assert(self.active_mods@.contains(key) || self.inactive_mods@.contains(key));
                        lemma_key_index(self.active_mods@, key);
                        lemma_remove_key(self.active_mods@, key_index(self.active_mods@, key));
                    }
                    match Self::find_key(&self.active_mods, key) {
                        Some(j) => {
                            self.active_mods.remove(j);
                        },
                        None => {
                            proof {
                                assert(false);
                            }
                        },
                    }
                    self.inactive_mods.push(key);
                    proof {
                        let m = *self;
                        let om = *old(self);
                        assert forall|k: ModKey| #[trigger] m.inactive_mods@.contains(k) implies has_slot(
                            m.mods@,
                            k,
                        ) by {
                            let b = choose|b: int|
                                0 <= b < m.inactive_mods@.len() && m.inactive_mods@[b] == k;
                            if b < om.inactive_mods@.len() {
                                assert(om.inactive_mods@.contains(k));
                            } else {
                                assert(k == key);
                                assert(om.active_mods@.contains(key));
                            }
                        }
                        assert(m.inactive_mods@.no_duplicates()) by {
                            assert forall|a: int, b: int|
                                0 <= a < b < m.inactive_mods@.len() implies m.inactive_mods@[a]
                                != m.inactive_mods@[b] by {
                                if b == m.inactive_mods@.len() - 1 {
                                    assert(om.inactive_mods@.contains(m.inactive_mods@[a]));
                                }
                            }
                        }
                        assert forall|k: ModKey| !(m.active_mods@.contains(k)
                            && m.inactive_mods@.contains(k)) by {
                            if m.active_mods@.contains(k) && m.inactive_mods@.contains(k) {
                                let b = choose|b: int|
                                    0 <= b < m.inactive_mods@.len() && m.inactive_mods@[b] == k;
                                if b < om.inactive_mods@.len() {
                                    assert(om.inactive_mods@.contains(k));
                                    assert(om.active_mods@.contains(k));
                                } else {
                                    assert(k == key);
                                }
                            }
                        }
                        assert forall|a: int|
                            0 <= a < m.mods@.len() implies m.active_mods@.contains(
                            (#[trigger] m.mods@[a]).key,
                        ) || m.inactive_mods@.contains(m.mods@[a].key) by {
                            let ka = m.mods@[a].key;
                            assert(om.active_mods@.contains(ka) || om.inactive_mods@.contains(ka));
                            if om.inactive_mods@.contains(ka) {
                                let b = choose|b: int|
                                    0 <= b < om.inactive_mods@.len() && om.inactive_mods@[b] == ka;
                                assert(m.inactive_mods@[b] == ka);
                            } else if ka == key {
                                assert(m.inactive_mods@[m.inactive_mods@.len() - 1] == key);
                            }
                        }
                    }
                    Ok(())
                }
            },
        }
    }
}

/// Whether `order` lists each active position exactly once.
pub open spec fn valid_order(order: Seq<usize>, n: int) -> bool {
    &&& order.len() == n
    &&& order.no_duplicates()
    &&& forall|j: int| 0 <= j < order.len() ==> (#[trigger] order[j]) < n
    &&& forall|v: int| 0 <= v < n ==> order.contains(#[trigger] (v as usize))
}

impl ModManager {
    /// Reorders the active mods: position `j` of the new priority order is
    /// the mod previously at position `order[j]`. `order` must list every
    /// current position exactly once.
    pub fn reorder_mods(&mut self, order: &[usize]) -> (r: Result<(), ModError>)
        requires
            old(self).wf(),
        ensures
            final(self).wf(),
            final(self).mods@ == old(self).mods@,
            final(self).next_key == old(self).next_key,
            final(self).inactive_mods@ == old(self).inactive_mods@,
            final(self).current_active_tree == old(self).current_active_tree,
            ({
                if valid_order(order@, old(self).active_mods@.len() as int) {
                    &&& r is Ok
                    &&& final(self).active_mods@.len() == order@.len()
                    &&& forall|j: int|
                        0 <= j < order@.len() ==> final(self).active_mods@[j] == old(
                            self,
                        ).active_mods@[order@[j] as int]
                } else {
                    &&& r matches Result::Err(ModError::InvalidModOrder(v)) && v@ == order@
                    &&& final(self).active_mods@ == old(self).active_mods@
                }
            }),
    {
        let n = self.active_mods.len();
        let mut ok: bool = order.len() == n;
        let mut j: usize = 0;
        while j < order.len() && ok
            invariant
                j <= order@.len(),
                ok ==> order@.len() == n,
                ok ==> forall|a: int, b: int| 0 <= a < b < j ==> order@[a] != order@[b],
                ok ==> forall|a: int| 0 <= a < j ==> (#[trigger] order@[a]) < n,
                !ok ==> !valid_order(order@, n as int),
            decreases order@.len() - j,
        {
            if order[j] >= n {
                ok = false;
            } else {
                let mut a: usize = 0;
                while a < j && ok
                    invariant
                        a <= j,
                        j < order@.len(),
                        ok ==> order@.len() == n,
                        ok ==> forall|x: int, y: int| 0 <= x < y < j ==> order@[x] != order@[y],
                        ok ==> forall|x: int| 0 <= x < j ==> (#[trigger] order@[x]) < n,
                        ok ==> (#[trigger] order@[j as int]) < n,
                        ok ==> forall|x: int| 0 <= x < a ==> order@[x] != order@[j as int],
                        !ok ==> !valid_order(order@, n as int),
                    decreases j - a,
                {
                    if order[a] == order[j] {
                        proof {
                            assert(!order@.no_duplicates());
                        }
                        ok = false;
                    }
                    a += 1;
                }
            }
            j += 1;
        }
        let mut v: usize = 0;
        while v < n && ok
            invariant
                v <= n,
                ok ==> order@.len() == n,
                ok ==> order@.no_duplicates(),
                ok ==> forall|a: int| 0 <= a < order@.len() ==> (#[trigger] order@[a]) < n,
                ok ==> forall|w: int| 0 <= w < v ==> order@.contains(#[trigger] (w as usize)),
                !ok ==> !valid_order(order@, n as int),
            decreases n - v,
        {
            let mut found: bool = false;
            let mut a: usize = 0;
            while a < order.len()
                invariant
                    a <= order@.len(),
                    found ==> order@.contains(v as usize),
                    !found ==> forall|x: int| 0 <= x < a ==> order@[x] != v as usize,
                decreases order@.len() - a,
            {
                if order[a] == v {
                    found = true;
                    proof {
                        assert(order@[a as int] == v as usize);
                    }
                }
                a += 1;
            }
            if !found {
                proof {
                    assert(!order@.contains(v as usize));
                    assert(((v as int) as usize) == v);
                    assert(!valid_order(order@, n as int));
                }
                ok = false;
            }
            v += 1;
        }
        if !ok {
            let mut copy: Vec<usize> = Vec::new();
            let mut a: usize = 0;
            while a < order.len()
                invariant
                    a <= order@.len(),
                    copy@ == order@.take(a as int),
                decreases order@.len() - a,
            {
                copy.push(order[a]);
                proof {
                    assert(copy@ =~= order@.take(a as int + 1));
                }
                a += 1;
            }
            proof {
                assert(copy@ =~= order@);
            }
            return Err(ModError::InvalidModOrder(copy));
        }
        let mut new_active: Vec<ModKey> = Vec::new();
        let mut a: usize = 0;
        while a < order.len()
            invariant
                a <= order@.len(),
                order@.len() == n,
                n == self.active_mods@.len(),
                forall|x: int| 0 <= x < order@.len() ==> (#[trigger] order@[x]) < n,
                new_active@.len() == a,
                forall|x: int|
                    0 <= x < a ==> new_active@[x] == self.active_mods@[order@[x] as int],
            decreases order@.len() - a,
        {
            new_active.push(self.active_mods[order[a]]);
            a += 1;
        }
        proof {
            let m = *self;
            assert forall|k: ModKey| #[trigger] new_active@.contains(k) implies m.active_mods@.contains(
                k,
            ) by {
                let b = choose|b: int| 0 <= b < new_active@.len() && new_active@[b] == k;
                assert(m.active_mods@[order@[b] as int] == k);
            }
            assert(new_active@.no_duplicates()) by {
                assert forall|x: int, y: int|
                    0 <= x < y < new_active@.len() implies new_active@[x] != new_active@[y] by {
                    assert(order@[x] != order@[y]);
                }
            }
        }
        self.active_mods = new_active;
        proof {
            let m = *self;
            let om = *old(self);
            assert forall|i: int|
                0 <= i < m.mods@.len() implies m.active_mods@.contains(
                (#[trigger] m.mods@[i]).key,
            ) || m.inactive_mods@.contains(m.mods@[i].key) by {
                let ka = m.mods@[i].key;
                if om.active_mods@.contains(ka) {
                    let b = choose|b: int|
                        0 <= b < om.active_mods@.len() && om.active_mods@[b] == ka;
                    assert(order@.contains(b as usize));
                    let c = choose|c: int| 0 <= c < order@.len() && order@[c] == b as usize;
                    assert(m.active_mods@[c] == ka);
                }
            }
        }
        Ok(())
    }

    /// The metadata of the active mods, lowest priority first.
    #[verifier::loop_isolation(false)]
    pub fn active_mods(&self) -> (r: Vec<&ModMetadata>)
        requires
            self.wf(),
        ensures
            r@.len() == self.active_mods@.len(),
            forall|i: int|
                0 <= i < r@.len() ==> *r@[i] == self.mods@[slot_index(
                    self.mods@,
                    self.active_mods@[i],
                )].entry.metadata,
    {
        let mut out: Vec<&ModMetadata> = Vec::new();
        let mut i: usize = 0;
        while i < self.active_mods.len()
            invariant
                i <= self.active_mods@.len(),
                out@.len() == i,
                forall|a: int|
                    0 <= a < i ==> *out@[a] == self.mods@[slot_index(
                        self.mods@,
                        self.active_mods@[a],
                    )].entry.metadata,
            decreases self.active_mods@.len() - i,
        {
            let key = self.active_mods[i];
            proof {
                assert(self.active_mods@.contains(key));
                lemma_slot_index(self.mods@, key);
            }
            match Self::find_slot(&self.mods, key) {
                Some(si) => {
                    out.push(&self.mods[si].entry.metadata);
                },
                None => {
                    proof {
                        assert(false);
                    }
                },
            }
            i += 1;
        }
        out
    }

    /// The metadata of the inactive mods, in registration order.
    #[verifier::loop_isolation(false)]
    pub fn inactive_mods(&self) -> (r: Vec<&ModMetadata>)
        requires
            self.wf(),
        ensures
            r@.len() == self.inactive_mods@.len(),
            forall|i: int|
                0 <= i < r@.len() ==> *r@[i] == self.mods@[slot_index(
                    self.mods@,
                    self.inactive_mods@[i],
                )].entry.metadata,
    {
        let mut out: Vec<&ModMetadata> = Vec::new();
        let mut i: usize = 0;
        while i < self.inactive_mods.len()
            invariant
                i <= self.inactive_mods@.len(),
                out@.len() == i,
                forall|a: int|
                    0 <= a < i ==> *out@[a] == self.mods@[slot_index(
                        self.mods@,
                        self.inactive_mods@[a],
                    )].entry.metadata,
            decreases self.inactive_mods@.len() - i,
        {
            let key = self.inactive_mods[i];
            proof {
                assert(self.inactive_mods@.contains(key));
                lemma_slot_index(self.mods@, key);
            }
            match Self::find_slot(&self.mods, key) {
                Some(si) => {
                    out.push(&self.mods[si].entry.metadata);
                },
                None => {
                    proof {
                        assert(false);
                    }
                },
            }
            i += 1;
        }
        out
    }

    /// The merged logical tree of the active sources: an empty synthetic
    /// root folded with each source in ascending priority order, so that
    /// later sources overwrite earlier ones.
    #[verifier::loop_isolation(false)]
    pub fn make_tree(&self) -> (r: SourcedNode)
        requires
            self.wf(),
        ensures
            sourced_view(r) == spec_make_tree(self.mods@, self.active_mods@),
    {
        let mut tree = SourcedNode::Dir { name: "root".to_owned(), children: Vec::new() };
        proof {
            assert(sourced_view(tree) == empty_root());
            assert(self.active_mods@.skip(0) =~= self.active_mods@);
        }
        let mut i: usize = 0;
        while i < self.active_mods.len()
            invariant
                i <= self.active_mods@.len(),
                spec_make_tree(self.mods@, self.active_mods@) == merged_tree_from(
                    sourced_view(tree),
                    self.mods@,
                    self.active_mods@.skip(i as int),
                ),
            decreases self.active_mods@.len() - i,
        {
            let key = self.active_mods[i];
            proof {
                assert(self.active_mods@.skip(i as int)[0] == key);
                assert(self.active_mods@.skip(i as int).skip(1) =~= self.active_mods@.skip(
                    i as int + 1,
                ));
                assert(self.active_mods@.contains(key));
                lemma_slot_index(self.mods@, key);
            }
            match Self::find_slot(&self.mods, key) {
                Some(si) => {
                    tree.overwrite_with(&self.mods[si].entry.node, key);
                },
                None => {
                    proof {
                        assert(false);
                    }
                },
            }
            i += 1;
        }
        proof {
            assert(self.active_mods@.skip(self.active_mods@.len() as int) =~= Seq::<
                ModKey,
            >::empty());
        }
        tree
    }

    /// The root directory path of the source registered under `key`,
    /// needed when a planned operation links one of its files.
    pub fn source_dir(&self, key: ModKey) -> (r: Option<&String>)
        ensures
            match r {
                Some(d) => slot_index(self.mods@, key) < self.mods@.len() && *d == self.mods@[slot_index(
                    self.mods@,
                    key,
                )].entry.dir,
                None => slot_index(self.mods@, key) == self.mods@.len(),
            },
    {
        match Self::find_slot(&self.mods, key) {
            Some(i) => Some(&self.mods[i].entry.dir),
            None => None,
        }
    }

    /// The tree the manager believes is currently deployed.
    pub fn current_tree(&self) -> (r: &SourcedNode)
        ensures
            *r == self.current_active_tree,
    {
        &self.current_active_tree
    }

    /// The merged tree of the active sources together with the ordered
    /// operations that transform the deployed tree into it.
    pub fn deploy_plan(&self) -> (r: (Vec<Operation>, SourcedNode))
        requires
            self.wf(),
        ensures
            sourced_view(r.1) == spec_make_tree(self.mods@, self.active_mods@),
            ops_view(r.0@) == diff_ops(
                sourced_view(self.current_active_tree),
                sourced_view(r.1),
                ""@,
            ),
    {
        let new_tree = self.make_tree();
        let mut ops: Vec<Operation> = Vec::new();
        proof {
            assert(ops_view(ops@) =~= Seq::<crate::node::OpView>::empty());
        }
        self.current_active_tree.tree_edit_distance(&new_tree, &mut ops, "");
        proof {
            assert(Seq::<crate::node::OpView>::empty() + diff_ops(
                sourced_view(self.current_active_tree),
                sourced_view(new_tree),
                ""@,
            ) =~= diff_ops(sourced_view(self.current_active_tree), sourced_view(new_tree), ""@));
        }
        (ops, new_tree)
    }

    /// Adopts a freshly merged tree as the deployed state. To be called
    /// only once every planned operation has been applied successfully.
    pub fn complete_deploy(&mut self, new_tree: SourcedNode)
        requires
            old(self).wf(),
        ensures
            final(self).wf(),
            final(self).current_active_tree == new_tree,
            final(self).mods@ == old(self).mods@,
            final(self).next_key == old(self).next_key,
            final(self).active_mods@ == old(self).active_mods@,
            final(self).inactive_mods@ == old(self).inactive_mods@,
    {
        self.current_active_tree = new_tree;
    }
}

impl ModSlot {
    /// The uuid of the stored mod.
    fn metadata_uuid(&self) -> (r: u128)
        ensures
            r == self.entry.metadata.uuid,
    {
        self.entry.metadata.uuid
    }
}

} // verus!
