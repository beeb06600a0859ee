use vstd::prelude::*;

use crate::chunk_map::{bootstrap_chunk_map, system_chunks_from, ChunkMap};
use crate::chunk_tree::{read_chunk_tree, walk_node};
use crate::items::ChunkView;
use crate::indexer::{
    accepted_nodes, backref_views, chunk_views, indexed_inode_items, IndexedFilesystem,
};
use crate::items::{RootBackref, RootBackrefView, ROOT_BACKREF_TYPE};
use crate::scanner::device_contents;
use crate::superblock::{
    backup_superblock_offsets, has_superblock_at, is_backup_superblock_offset, read_superblock_at, superblock_at,
    Superblock, SuperblockError, SUPERBLOCK_OFFSET, SUPERBLOCK_SIZE,
};

verus! {

/// Object id of the top-level tree.
pub const TOP_LEVEL_TREE: u64 = 5;

/// Reads the primary superblock of `device`, or where it is damaged the
/// first whole backup; the offset used comes with it. Fails with the
/// primary's error where none is whole.
pub fn open_superblock(device: &[u8]) -> (r: Result<(Superblock, usize), SuperblockError>)
    ensures
        match r {
            Ok((sb, off)) => superblock_at(device@, off as int, sb) && chosen_superblock(device@, off as int),
            Err(e) => read_superblock_at_spec_fails(device@, e) && forall|b: u64|
                is_backup_superblock_offset(b as int) ==> !#[trigger] has_superblock_at(device@, b as int),
        },
        has_superblock_at(device@, SUPERBLOCK_OFFSET as int) ==> match r {
            Ok((_, off)) => off == SUPERBLOCK_OFFSET,
            Err(_) => false,
        },
{
    let first_error = match read_superblock_at(device, SUPERBLOCK_OFFSET) {
        Ok(sb) => {
            return Ok((sb, SUPERBLOCK_OFFSET));
        },
        Err(e) => e,
    };
    let len: usize = device.len();
    let backups = backup_superblock_offsets(len as u64);
    let mut i: usize = 0;
    while i < backups.len()
        invariant
            read_superblock_at_spec_fails(device@, first_error),
            !has_superblock_at(device@, SUPERBLOCK_OFFSET as int),
            len == device@.len(),
            forall|k: int| 0 <= k < backups.len() ==> is_backup_superblock_offset(#[trigger] backups@[k] as int),
            forall|a: int, c: int| 0 <= a < c < backups.len() ==> backups@[a] < backups@[c],
            forall|p: u64| is_backup_superblock_offset(p as int) && p + SUPERBLOCK_SIZE <= len ==> #[trigger] backups@.contains(p),
            forall|k: int| 0 <= k < i ==> !#[trigger] has_superblock_at(device@, backups@[k] as int),
        decreases backups.len() - i,
    {
        let off = backups[i];
        assert(is_backup_superblock_offset(backups@[i as int] as int));
        if off <= usize::MAX as u64 {
            match read_superblock_at(device, off as usize) {
                Ok(sb) => {
                    assert forall|b: u64| is_backup_superblock_offset(b as int) && b < off implies !#[trigger] has_superblock_at(device@, b as int) by {
                        if has_superblock_at(device@, b as int) {
                            assert(backups@.contains(b));
                            let j = choose|j: int| 0 <= j < backups@.len() && backups@[j] == b;
                            if j >= i {
                                if j > i {
                                    assert(backups@[i as int] < backups@[j]);
                                }
                            }
                            assert(!has_superblock_at(device@, backups@[j] as int));
                        }
                    }
                    return Ok((sb, off as usize));
                },
                Err(_) => {},
            }
        }
        assert(!has_superblock_at(device@, backups@[i as int] as int));
        i = i + 1;
    }
    assert forall|b: u64| is_backup_superblock_offset(b as int) implies !#[trigger] has_superblock_at(device@, b as int) by {
        if has_superblock_at(device@, b as int) {
            assert(backups@.contains(b));
            let j = choose|j: int| 0 <= j < backups@.len() && backups@[j] == b;
            assert(!has_superblock_at(device@, backups@[j] as int));
        }
    }
    Err(first_error)
}

/// Whether the superblock at `off` of `device` is the one to use: the
/// primary where it is whole, else the first whole backup.
pub open spec fn chosen_superblock(device: Seq<u8>, off: int) -> bool {
    &&& has_superblock_at(device, off)
    &&& (off == SUPERBLOCK_OFFSET || (is_backup_superblock_offset(off) && !has_superblock_at(
        device,
        SUPERBLOCK_OFFSET as int,
    ) && forall|b: u64|
        is_backup_superblock_offset(b as int) && b < off ==> !#[trigger] has_superblock_at(device, b as int)))
}

/// Whether `e` is the error that reading the primary superblock of
/// `device` gives.
pub open spec fn read_superblock_at_spec_fails(device: Seq<u8>, e: SuperblockError) -> bool {
    let o = SUPERBLOCK_OFFSET as int;
    if o + crate::superblock::SUPERBLOCK_SIZE > device.len() {
        e == SuperblockError::NoSuperblock
    } else {
        !crate::superblock::has_superblock_at(device, o) && e == SuperblockError::BadMagic
    }
}

/// Whether `fs` holds what indexing the nodes at `positions` gives, with
/// every secondary index built.
pub open spec fn fully_indexed(fs: IndexedFilesystem, devices: Seq<Seq<u8>>, positions: Seq<u64>) -> bool {
    &&& fs.nodes@ == accepted_nodes(devices, fs.fs_uuid@, fs.node_size as nat, fs.verify_checksums, positions)
    &&& fs.inode_items@ == indexed_inode_items(devices, fs.fs_uuid@, fs.node_size as nat, fs.verify_checksums, positions)
    &&& fs.indexes_built()
}

/// The chunk entries that reading the chunk tree of superblock `sb` gives,
/// or the bootstrap chunk array's alone where the tree cannot be read.
pub open spec fn chunk_tree_entries(devices: Seq<Seq<u8>>, sb: Superblock) -> Seq<ChunkView> {
    match walk_node(
        devices,
        sb.fs_uuid@,
        sb.node_size as nat,
        system_chunks_from(sb.system_chunks@, 0),
        sb.chunk_tree_logical_address,
        sb.chunk_root_level as nat,
    ) {
        Ok(e) => e,
        Err(_) => system_chunks_from(sb.system_chunks@, 0),
    }
}

/// Opens the filesystem on `devices`: reads the superblock of the first
/// (falling back to a backup), indexes the nodes at `positions` (with
/// `verify_checksums`, skipping those whose checksum fails), builds
/// the secondary indexes, and makes the chunk map from the chunk tree
/// followed by every chunk item indexed, so that chunks that the damaged
/// tree no longer reaches are still mapped.
pub fn load_filesystem(devices: &Vec<&[u8]>, positions: &Vec<u64>, verify_checksums: bool) -> (r: Result<(IndexedFilesystem, ChunkMap), SuperblockError>)
    requires
        devices.len() > 0,
    ensures
        match r {
            Ok((fs, map)) => {
                &&& fs.verify_checksums == verify_checksums
                &&& fully_indexed(fs, device_contents(devices@), positions@)
                &&& exists|sb: Superblock, off: int| #[trigger] superblock_at(devices@[0]@, off, sb)
                    && chosen_superblock(devices@[0]@, off)
                    && fs.fs_uuid == sb.fs_uuid && fs.node_size == sb.node_size
                    && map@ == chunk_tree_entries(device_contents(devices@), sb) + chunk_views(fs.chunk_items@)
            },
            Err(e) => read_superblock_at_spec_fails(devices@[0]@, e) && forall|b: u64|
                is_backup_superblock_offset(b as int) ==> !#[trigger] has_superblock_at(devices@[0]@, b as int),
        },
{
    let (sb, off) = match open_superblock(devices[0]) {
        Ok(x) => x,
        Err(e) => {
            return Err(e);
        },
    };
    let ghost sbv = sb;
    let tree = match read_chunk_tree(devices, &sb) {
        Ok(m) => m,
        Err(_) => bootstrap_chunk_map(sb.system_chunks.as_slice()),
    };
    let fs = IndexedFilesystem::open(devices, positions, sb.fs_uuid, sb.node_size, verify_checksums);
    let map = fs.chunk_map(tree);
    assert(superblock_at(devices@[0]@, off as int, sbv));
    Ok((fs, map))
}

/// The back reference of subvolume `id` among `backrefs`: the first one.
pub open spec fn backref_of(backrefs: Seq<RootBackrefView>, id: u64) -> Option<RootBackrefView>
    decreases backrefs.len(),
{
    if backrefs.len() == 0 {
        None
    } else if backrefs[0].key.object_id == id && backrefs[0].key.item_type == ROOT_BACKREF_TYPE {
        Some(backrefs[0])
    } else {
        backref_of(backrefs.drop_first(), id)
    }
}

/// The path of subvolume `id`: the names of its back references, from the
/// top-level tree down, joined by `/`; nothing where a link is missing or
/// the chain is longer than `fuel`.
pub open spec fn subvolume_path_from(backrefs: Seq<RootBackrefView>, id: u64, fuel: nat) -> Option<Seq<u8>>
    decreases fuel,
{
    if id == TOP_LEVEL_TREE {
        Some(seq![])
    } else if fuel == 0 {
        None
    } else {
        match backref_of(backrefs, id) {
            None => None,
            Some(b) => match subvolume_path_from(backrefs, b.key.offset, (fuel - 1) as nat) {
                None => None,
                Some(p) => Some(
                    if p.len() == 0 {
                        b.name
                    } else {
                        p + seq![47u8] + b.name
                    },
                ),
            },
        }
    }
}

fn find_backref(backrefs: &Vec<RootBackref>, id: u64) -> (r: Option<usize>)
    ensures
        match r {
            None => backref_of(backref_views(backrefs@), id) is None,
            Some(i) => i < backrefs.len() && backref_of(backref_views(backrefs@), id) == Some(
                backrefs@[i as int]@,
            ),
        },
{
    let ghost views = backref_views(backrefs@);
    let mut i: usize = 0;
    assert(views.skip(0) =~= views);
    while i < backrefs.len()
        invariant
            i <= backrefs.len(),
            views == backref_views(backrefs@),
            backref_of(views, id) == backref_of(views.skip(i as int), id),
        decreases backrefs.len() - i,
    {
        assert(views.skip(i as int)[0] == backrefs@[i as int]@);
        assert(views.skip(i as int).drop_first() =~= views.skip(i as int + 1));
        if backrefs[i].key.object_id == id && backrefs[i].key.item_type == ROOT_BACKREF_TYPE {
            return Some(i);
        }
        i = i + 1;
    }
    None
}

fn path_with_fuel(backrefs: &Vec<RootBackref>, id: u64, fuel: u64) -> (r: Option<Vec<u8>>)
    ensures
        match subvolume_path_from(backref_views(backrefs@), id, fuel as nat) {
            None => r is None,
            Some(p) => r is Some && r->0@ == p,
        },
    decreases fuel,
{
    if id == TOP_LEVEL_TREE {
        return Some(Vec::new());
    }
    if fuel == 0 {
        return None;
    }
    let i = match find_backref(backrefs, id) {
        None => {
            return None;
        },
        Some(i) => i,
    };
    let b = &backrefs[i];
    match path_with_fuel(backrefs, b.key.offset, fuel - 1) {
        None => None,
        Some(mut p) => {
            let ghost pv = p@;
            if p.len() > 0 {
                p.push(47u8);
            }
            let mut name = vstd::slice::slice_to_vec(b.name.as_slice());
            p.append(&mut name);
            assert(pv.len() == 0 ==> p@ =~= b.name@);
            assert(pv.len() > 0 ==> p@ =~= pv + seq![47u8] + b.name@);
            Some(p)
        },
    }
}

impl IndexedFilesystem {
    /// The path of subvolume `id` below the top-level tree, following at
    /// most as many back references as are indexed.
    pub fn subvolume_path(&self, id: u64) -> (r: Option<Vec<u8>>)
        ensures
            match subvolume_path_from(backref_views(self.root_backrefs@), id, self.root_backrefs@.len()) {
                None => r is None,
                Some(p) => r is Some && r->0@ == p,
            },
    {
        path_with_fuel(&self.root_backrefs, id, self.root_backrefs.len() as u64)
    }

    /// The subvolume ids that have a back reference, in the order indexed.
    pub fn subvolume_ids(&self) -> (r: Vec<u64>)
        ensures
            r@ == self.root_backrefs@.filter(|b: RootBackref| b.key.item_type == ROOT_BACKREF_TYPE).map_values(
                |b: RootBackref| b.key.object_id,
            ),
    {
        broadcast use vstd::seq_lib::group_filter_ensures;

        let ghost keep = |b: RootBackref| b.key.item_type == ROOT_BACKREF_TYPE;
        let ghost id_of = |b: RootBackref| b.key.object_id;
        let mut r: Vec<u64> = Vec::new();
        let mut i: usize = 0;
        while i < self.root_backrefs.len()
            invariant
                i <= self.root_backrefs.len(),
                keep == (|b: RootBackref| b.key.item_type == ROOT_BACKREF_TYPE),
                id_of == (|b: RootBackref| b.key.object_id),
                r@ == self.root_backrefs@.take(i as int).filter(keep).map_values(id_of),
            decreases self.root_backrefs.len() - i,
        {
            let b = &self.root_backrefs[i];
            proof {
                self.root_backrefs@.take(i as int).lemma_filter_push(*b, keep);
                assert(self.root_backrefs@.take(i as int + 1) =~= self.root_backrefs@.take(i as int).push(*b));
            }
            if b.key.item_type == ROOT_BACKREF_TYPE {
                r.push(b.key.object_id);
            }
            assert(r@ =~= self.root_backrefs@.take(i as int + 1).filter(keep).map_values(id_of));
            i = i + 1;
        }
        assert(self.root_backrefs@.take(i as int) =~= self.root_backrefs@);
        r
    }
}

} // verus!
