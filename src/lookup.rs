use std::collections::HashMap;

use vstd::prelude::*;

use crate::chunk_map::ChunkMap;
use crate::indexer::{chunk_views, dir_map_view, extent_views, IndexedFilesystem, ROOT_TREE_ID};
use crate::items::{
    dir_entry_views, DirEntryView, DirItemEntry, ExtentData, ExtentDataView, InodeItem, RootItem,
    ROOT_ITEM_TYPE,
};
use crate::node::InternalItem;

verus! {

broadcast use vstd::std_specs::hash::group_hash_axioms;

/// The entry named `name` in directory `dir` of tree `tree` among
/// `entries`: the one with the highest transaction id, the later one where
/// two tie.
pub open spec fn latest_named(entries: Seq<DirEntryView>, tree: u64, dir: u64, name: Seq<u8>) -> Option<DirEntryView>
    decreases entries.len(),
{
    if entries.len() == 0 {
        None
    } else {
        let rest = latest_named(entries.drop_last(), tree, dir, name);
        let x = entries.last();
        if x.tree_id == tree && x.key.object_id == dir && x.name == name && (rest is None
            || rest->0.transaction_id <= x.transaction_id) {
            Some(x)
        } else {
            rest
        }
    }
}

/// The inode item of object `o` in tree `tree` among `items`: the one with
/// the highest transaction id, the later one where two tie.
pub open spec fn latest_inode(items: Seq<InodeItem>, tree: u64, o: u64) -> Option<InodeItem>
    decreases items.len(),
{
    if items.len() == 0 {
        None
    } else {
        let rest = latest_inode(items.drop_last(), tree, o);
        let x = items.last();
        if x.tree_id == tree && x.key.object_id == o && (rest is None || rest->0.transaction_id
            <= x.transaction_id) {
            Some(x)
        } else {
            rest
        }
    }
}

/// The root item of tree `id` among `items`: the one with the highest
/// generation, the later one where two tie.
pub open spec fn latest_root_item(items: Seq<RootItem>, id: u64) -> Option<RootItem>
    decreases items.len(),
{
    if items.len() == 0 {
        None
    } else {
        let rest = latest_root_item(items.drop_last(), id);
        let x = items.last();
        if x.key.object_id == id && x.key.item_type == ROOT_ITEM_TYPE && (rest is None || rest->0.generation <= x.generation) {
            Some(x)
        } else {
            rest
        }
    }
}


/// `s` with directory index entry `x` put in its place by index number
/// (`key.offset`): where `s` holds an entry with that number, `x`
/// replaces it unless the one held has a higher transaction id.
pub open spec fn upsert_by_index(s: Seq<DirEntryView>, x: DirEntryView) -> Seq<DirEntryView>
    decreases s.len(),
{
    if s.len() == 0 {
        seq![x]
    } else if s.last().key.offset < x.key.offset {
        s.push(x)
    } else if s.last().key.offset == x.key.offset {
        if s.last().transaction_id > x.transaction_id {
            s
        } else {
            s.drop_last().push(x)
        }
    } else {
        upsert_by_index(s.drop_last(), x).push(s.last())
    }
}

/// The children of directory `dir` of tree `tree` by its directory index
/// entries among `entries`: for each index number the most recent entry, in ascending
/// order of index number.
pub open spec fn dir_index_children(entries: Seq<DirEntryView>, tree: u64, dir: u64) -> Seq<DirEntryView>
    decreases entries.len(),
{
    if entries.len() == 0 {
        seq![]
    } else {
        let rest = dir_index_children(entries.drop_last(), tree, dir);
        if entries.last().tree_id == tree && entries.last().key.object_id == dir {
            upsert_by_index(rest, entries.last())
        } else {
            rest
        }
    }
}

/// Puts `x` into `v` as `upsert_by_index` says.
fn upsert_dir_index(v: &mut Vec<DirItemEntry>, x: DirItemEntry)
    ensures
        dir_entry_views(final(v)@) == upsert_by_index(dir_entry_views(old(v)@), x@),
{
    let ghost s = dir_entry_views(v@);
    let mut p: usize = v.len();
    assert(s.take(p as int) =~= s);
    assert(s.take(p as int) + s.skip(p as int) =~= s);
    while p > 0 && v[p - 1].key.offset > x.key.offset
        invariant
            p <= v.len(),
            s == dir_entry_views(v@),
            upsert_by_index(s, x@) == upsert_by_index(s.take(p as int), x@) + s.skip(p as int),
        decreases p,
    {
        let ghost t = s.take(p as int);
        assert(t.drop_last() =~= s.take(p as int - 1));
        assert(t.last() == s[p as int - 1]);
        assert(s.skip(p as int - 1) =~= seq![s[p as int - 1]] + s.skip(p as int));
        assert(upsert_by_index(t, x@) == upsert_by_index(s.take(p as int - 1), x@).push(t.last()));
        assert(upsert_by_index(s.take(p as int - 1), x@).push(t.last()) + s.skip(p as int) =~= upsert_by_index(
            s.take(p as int - 1),
            x@,
        ) + s.skip(p as int - 1));
        p = p - 1;
    }
    let ghost t = s.take(p as int);
    let ghost xv = x@;
    if p > 0 && v[p - 1].key.offset == x.key.offset {
        assert(t.last() == s[p as int - 1]);
        if v[p - 1].transaction_id <= x.transaction_id {
            v.set(p - 1, x);
            assert(dir_entry_views(v@) =~= t.drop_last().push(xv) + s.skip(p as int));
        } else {
            assert(dir_entry_views(v@) =~= t + s.skip(p as int));
        }
    } else {
        assert(upsert_by_index(t, xv) == t.push(xv)) by {
            if p > 0 {
                assert(t.last() == s[p as int - 1]);
            } else {
                assert(t =~= Seq::<DirEntryView>::empty());
            }
        }
        v.insert(p, x);
        assert(dir_entry_views(v@) =~= t.push(xv) + s.skip(p as int));
    }
}

impl IndexedFilesystem {
    /// The most recent inode item of object `object_id` in tree `tree`.
    pub fn inode_item(&self, tree: u64, object_id: u64) -> (r: Option<InodeItem>)
        ensures
            r == latest_inode(self.inode_items@, tree, object_id),
    {
        let mut best: Option<InodeItem> = None;
        let mut i: usize = 0;
        while i < self.inode_items.len()
            invariant
                i <= self.inode_items.len(),
                best == latest_inode(self.inode_items@.take(i as int), tree, object_id),
            decreases self.inode_items.len() - i,
        {
            let x = self.inode_items[i];
            let ghost t = self.inode_items@.take(i as int + 1);
            assert(t.drop_last() =~= self.inode_items@.take(i as int));
            assert(t.last() == x);
            if x.tree_id == tree && x.key.object_id == object_id {
                let newer = match best {
                    None => true,
                    Some(b) => b.transaction_id <= x.transaction_id,
                };
                if newer {
                    best = Some(x);
                }
            }
            i = i + 1;
        }
        assert(self.inode_items@.take(i as int) =~= self.inode_items@);
        best
    }

    /// The extent-data items of object `object_id` in tree `tree`, by
    /// ascending file offset.
    pub fn extent_datas(&self, tree: u64, object_id: u64) -> (r: Vec<ExtentData>)
        ensures
            extent_views(r@) == (if self.extent_datas_index@.contains_key(object_id) {
                extent_views(self.extent_datas_index@[object_id]@)
            } else {
                Seq::<ExtentDataView>::empty()
            }).filter(|e: ExtentDataView| e.tree_id == tree),
    {
        broadcast use vstd::seq_lib::group_filter_ensures;

        let ghost keep = |e: ExtentDataView| e.tree_id == tree;
        let mut r: Vec<ExtentData> = Vec::new();
        match self.extent_datas_index.get(&object_id) {
            None => {
                assert(Seq::<ExtentDataView>::empty().filter(keep) =~= Seq::<ExtentDataView>::empty());
                assert(extent_views(r@) =~= Seq::<ExtentDataView>::empty());
            },
            Some(list) => {
                let ghost views = extent_views(list@);
                let mut i: usize = 0;
                assert(extent_views(r@) =~= views.take(0).filter(keep));
                while i < list.len()
                    invariant
                        i <= list.len(),
                        views == extent_views(list@),
                        keep == (|e: ExtentDataView| e.tree_id == tree),
                        extent_views(r@) == views.take(i as int).filter(keep),
                    decreases list.len() - i,
                {
                    let x = &list[i];
                    let ghost before = r@;
                    proof {
                        views.take(i as int).lemma_filter_push(x@, keep);
                        assert(views.take(i as int + 1) =~= views.take(i as int).push(x@));
                    }
                    if x.tree_id == tree {
                        r.push(x.copy());
                        assert(extent_views(r@) =~= extent_views(before).push(x@));
                    }
                    i = i + 1;
                }
                assert(views.take(i as int) =~= views);
            },
        }
        r
    }

    /// The children of directory `dir`, by their most recent entries.
    pub fn children(&self, dir: u64) -> (r: Vec<DirItemEntry>)
        ensures
            self.dir_item_entries_by_parent@.contains_key(dir) ==> dir_entry_views(r@)
                == self.dir_item_entries_by_parent@[dir]@.filter(
                |c: u64| self.dir_item_entries_recent@.contains_key(c),
            ).map_values(|c: u64| self.dir_item_entries_recent@[c]@),
            !self.dir_item_entries_by_parent@.contains_key(dir) ==> r@.len() == 0,
    {
        broadcast use vstd::seq_lib::group_filter_ensures;

        let mut r: Vec<DirItemEntry> = Vec::new();
        match self.dir_item_entries_by_parent.get(&dir) {
            None => {},
            Some(list) => {
                let ghost keep = |c: u64| self.dir_item_entries_recent@.contains_key(c);
                let ghost view_of = |c: u64| self.dir_item_entries_recent@[c]@;
                let mut i: usize = 0;
                while i < list.len()
                    invariant
                        i <= list.len(),
                        keep == (|c: u64| self.dir_item_entries_recent@.contains_key(c)),
                        view_of == (|c: u64| self.dir_item_entries_recent@[c]@),
                        dir_entry_views(r@) == list@.take(i as int).filter(keep).map_values(view_of),
                    decreases list.len() - i,
                {
                    let c = list[i];
                    let ghost t = list@.take(i as int + 1);
                    assert(t =~= list@.take(i as int).push(c));
                    proof {
                        list@.take(i as int).lemma_filter_push(c, keep);
                    }
                    let ghost before = r@;
                    let ghost prev = list@.take(i as int).filter(keep);
                    match self.dir_item_entries_recent.get(&c) {
                        Some(e) => {
                            r.push(e.copy());
                            assert(keep(c));
                            assert(t.filter(keep) == prev.push(c));
                            assert(view_of(c) == e@);
                            assert(dir_entry_views(r@) =~= dir_entry_views(before).push(e@));
                            assert(t.filter(keep).map_values(view_of) =~= prev.map_values(view_of).push(view_of(c)));
                        },
                        None => {
                            assert(!keep(c));
                            assert(t.filter(keep) == prev);
                        },
                    }
                    i = i + 1;
                }
                assert(list@.take(i as int) =~= list@);
            },
        }
        r
    }

    /// The entry named `name` in directory `dir` of tree `tree`: the most
    /// recent directory item entry with that name there.
    pub fn dir_item_entry(&self, tree: u64, dir: u64, name: &[u8]) -> (r: Option<DirItemEntry>)
        ensures
            match latest_named(dir_entry_views(self.dir_item_entries@), tree, dir, name@) {
                None => r is None,
                Some(e) => r is Some && r->0@ == e,
            },
    {
        let ghost views = dir_entry_views(self.dir_item_entries@);
        let mut best: Option<usize> = None;
        let mut i: usize = 0;
        while i < self.dir_item_entries.len()
            invariant
                i <= self.dir_item_entries.len(),
                views == dir_entry_views(self.dir_item_entries@),
                match latest_named(views.take(i as int), tree, dir, name@) {
                    None => best is None,
                    Some(e) => best is Some && best->0 < i && views[best->0 as int] == e,
                },
            decreases self.dir_item_entries.len() - i,
        {
            let x = &self.dir_item_entries[i];
            let ghost t = views.take(i as int + 1);
            assert(t.drop_last() =~= views.take(i as int));
            assert(t.last() == x@);
            let same = x.name.as_slice().len() == name.len() && crate::layout::bytes_equal_at(x.name.as_slice(), 0, name);
            assert(x.name@.len() == name@.len() ==> x.name@.subrange(0, name@.len() as int) =~= x.name@);
            assert(same == (x.name@ == name@));
            if x.tree_id == tree && x.key.object_id == dir && same {
                let newer = match best {
                    None => true,
                    Some(b) => self.dir_item_entries[b].transaction_id <= x.transaction_id,
                };
                if newer {
                    best = Some(i);
                }
            }
            i = i + 1;
        }
        assert(views.take(i as int) =~= views);
        match best {
            None => None,
            Some(b) => Some(self.dir_item_entries[b].copy()),
        }
    }

    /// The root item of tree `id`: the one with the highest generation.
    pub fn root_item(&self, id: u64) -> (r: Option<RootItem>)
        ensures
            r == latest_root_item(self.root_items@, id),
    {
        let mut best: Option<RootItem> = None;
        let mut i: usize = 0;
        while i < self.root_items.len()
            invariant
                i <= self.root_items.len(),
                best == latest_root_item(self.root_items@.take(i as int), id),
            decreases self.root_items.len() - i,
        {
            let x = self.root_items[i];
            let ghost t = self.root_items@.take(i as int + 1);
            assert(t.drop_last() =~= self.root_items@.take(i as int));
            assert(t.last() == x);
            if x.key.object_id == id && x.key.item_type == ROOT_ITEM_TYPE {
                let better = match best {
                    None => true,
                    Some(b) => b.generation <= x.generation,
                };
                if better {
                    best = Some(x);
                }
            }
            i = i + 1;
        }
        assert(self.root_items@.take(i as int) =~= self.root_items@);
        best
    }

    /// `bootstrap` extended by every chunk item indexed, in scan order.
    pub fn chunk_map(&self, bootstrap: ChunkMap) -> (r: ChunkMap)
        ensures
            r@ == bootstrap@ + chunk_views(self.chunk_items@),
    {
        let mut map = bootstrap;
        let mut i: usize = 0;
        while i < self.chunk_items.len()
            invariant
                i <= self.chunk_items.len(),
                map@ == bootstrap@ + chunk_views(self.chunk_items@).take(i as int),
            decreases self.chunk_items.len() - i,
        {
            map.add(self.chunk_items[i].copy());
            assert(chunk_views(self.chunk_items@).take(i as int + 1) =~= chunk_views(self.chunk_items@).take(i as int).push(self.chunk_items@[i as int]@));
            assert(map@ =~= bootstrap@ + chunk_views(self.chunk_items@).take(i as int + 1));
            i = i + 1;
        }
        assert(chunk_views(self.chunk_items@).take(i as int) =~= chunk_views(self.chunk_items@));
        map
    }

    /// The children of directory `dir` of tree `tree` by its directory index entries, in
    /// ascending order of index number, the most recent entry for each.
    pub fn dir_indexes(&self, tree: u64, dir: u64) -> (r: Vec<DirItemEntry>)
        ensures
            dir_entry_views(r@) == dir_index_children(dir_entry_views(self.dir_index_entries@), tree, dir),
    {
        let ghost views = dir_entry_views(self.dir_index_entries@);
        let mut r: Vec<DirItemEntry> = Vec::new();
        let mut i: usize = 0;
        assert(dir_entry_views(r@) =~= dir_index_children(views.take(0), tree, dir));
        while i < self.dir_index_entries.len()
            invariant
                i <= self.dir_index_entries.len(),
                views == dir_entry_views(self.dir_index_entries@),
                dir_entry_views(r@) == dir_index_children(views.take(i as int), tree, dir),
            decreases self.dir_index_entries.len() - i,
        {
            let e = &self.dir_index_entries[i];
            let ghost t = views.take(i as int + 1);
            assert(t.drop_last() =~= views.take(i as int));
            assert(t.last() == e@);
            if e.tree_id == tree && e.key.object_id == dir {
                upsert_dir_index(&mut r, e.copy());
            }
            i = i + 1;
        }
        assert(views.take(i as int) =~= views);
        r
    }

    /// The directories that hold most recent entries but have no entry of
    /// their own: the roots of the trees that the entries form, each once,
    /// in the order first met.
    pub fn root_object_ids(&self) -> (r: Vec<u64>)
        requires
            self.indexes_built(),
        ensures
            r@.no_duplicates(),
            forall|d: u64| r@.contains(d) <==> !self.dir_item_entries_recent@.contains_key(d) && exists|c: u64|
                self.dir_item_entries_recent@.contains_key(c) && #[trigger] self.dir_item_entries_recent@[c].key.object_id == d,
    {
        let ghost recent = self.dir_item_entries_recent@;
        let mut r: Vec<u64> = Vec::new();
        let mut i: usize = 0;
        while i < self.dir_item_children.len()
            invariant
                i <= self.dir_item_children.len(),
                recent == self.dir_item_entries_recent@,
                forall|c: u64| self.dir_item_children@.contains(c) <==> recent.contains_key(c),
                r@.no_duplicates(),
                forall|d: u64| r@.contains(d) <==> !recent.contains_key(d) && exists|k: int|
                    0 <= k < i && #[trigger] recent[self.dir_item_children@[k]].key.object_id == d,
            decreases self.dir_item_children.len() - i,
        {
            let c = self.dir_item_children[i];
            assert(self.dir_item_children@.contains(c));
            let d = match self.dir_item_entries_recent.get(&c) {
                Some(e) => e.key.object_id,
                None => 0,
            };
            assert(d == recent[c].key.object_id);
            let is_child = match self.dir_item_entries_recent.get(&d) {
                Some(_) => true,
                None => false,
            };
            let mut seen = false;
            let mut j: usize = 0;
            while j < r.len()
                invariant
                    j <= r.len(),
                    seen <==> exists|m: int| 0 <= m < j && r@[m] == d,
                decreases r.len() - j,
            {
                if r[j] == d {
                    seen = true;
                }
                j = j + 1;
            }
            assert(seen == r@.contains(d));
            let ghost before = r@;
            if !is_child && !seen {
                r.push(d);
            }
            assert forall|x: u64| r@.contains(x) <==> !recent.contains_key(x) && exists|k: int|
                0 <= k < i + 1 && #[trigger] recent[self.dir_item_children@[k]].key.object_id == x by {
                if r@.contains(x) && x != d {
                    let m = choose|m: int| 0 <= m < r@.len() && r@[m] == x;
                    assert(before[m] == x);
                }
                if before.contains(x) {
                    let m = choose|m: int| 0 <= m < before.len() && before[m] == x;
                    assert(r@[m] == x);
                }
                if x == d && !recent.contains_key(x) {
                    assert(recent[self.dir_item_children@[i as int]].key.object_id == x);
                    if !seen {
                        assert(r@[r@.len() - 1] == d);
                    }
                }
                if !recent.contains_key(x) && (exists|k: int| 0 <= k < i + 1 && #[trigger] recent[self.dir_item_children@[k]].key.object_id == x) && x != d {
                    let k = choose|k: int| 0 <= k < i + 1 && #[trigger] recent[self.dir_item_children@[k]].key.object_id == x;
                    assert(k < i);
                }
            }
            i = i + 1;
        }
        assert forall|d: u64| #[trigger] r@.contains(d) <==> (!recent.contains_key(d) && exists|c: u64|
            recent.contains_key(c) && #[trigger] recent[c].key.object_id == d) by {
            if exists|c: u64| recent.contains_key(c) && #[trigger] recent[c].key.object_id == d {
                let c = choose|c: u64| recent.contains_key(c) && #[trigger] recent[c].key.object_id == d;
                assert(self.dir_item_children@.contains(c));
                let k = choose|k: int| 0 <= k < self.dir_item_children@.len() && self.dir_item_children@[k] == c;
                assert(recent[self.dir_item_children@[k]].key.object_id == d);
            }
            if exists|k: int| 0 <= k < self.dir_item_children@.len() && #[trigger] recent[self.dir_item_children@[k]].key.object_id == d {
                let k = choose|k: int| 0 <= k < self.dir_item_children@.len() && #[trigger] recent[self.dir_item_children@[k]].key.object_id == d;
                let c = self.dir_item_children@[k];
                assert(self.dir_item_children@.contains(c));
                assert(recent.contains_key(c));
                assert(recent[c].key.object_id == d);
            }
        }
        r
    }

    /// The internal items found for the root tree.
    pub fn root_tree_internal_items(&self) -> (r: Vec<InternalItem>)
        ensures
            r@ == if self.internal_items_by_tree@.contains_key(ROOT_TREE_ID) {
                self.internal_items_by_tree@[ROOT_TREE_ID]@
            } else {
                Seq::<InternalItem>::empty()
            },
    {
        match self.internal_items_by_tree.get(&ROOT_TREE_ID) {
            Some(items) => vstd::slice::slice_to_vec(items.as_slice()),
            None => Vec::new(),
        }
    }

    /// The most recent directory entry of each child object id.
    pub fn dir_item_entries_recent(&self) -> (r: &HashMap<u64, DirItemEntry>)
        ensures
            r@ == self.dir_item_entries_recent@,
    {
        &self.dir_item_entries_recent
    }

    /// The children of each directory, by the most recent entries.
    pub fn dir_item_entries_by_parent(&self) -> (r: &HashMap<u64, Vec<u64>>)
        ensures
            r@ == self.dir_item_entries_by_parent@,
    {
        &self.dir_item_entries_by_parent
    }

    /// The extent-data items of each object id, by ascending file offset.
    pub fn extent_datas_index(&self) -> (r: &HashMap<u64, Vec<ExtentData>>)
        ensures
            r@ == self.extent_datas_index@,
    {
        &self.extent_datas_index
    }

    /// For each object id, the positions in `extent_items` of its extent
    /// items, sorted stably by key.
    pub fn extent_items_index(&self) -> (r: &HashMap<u64, Vec<usize>>)
        ensures
            r@ == self.extent_items_index@,
    {
        &self.extent_items_index
    }

    /// The most recent inode item of each object id.
    pub fn inode_items_recent(&self) -> (r: &HashMap<u64, InodeItem>)
        ensures
            r@ == self.inode_items_recent@,
    {
        &self.inode_items_recent
    }
}

} // verus!
