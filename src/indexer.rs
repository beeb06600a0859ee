use std::collections::HashMap;

use vstd::prelude::*;

use crate::layout::read_u64;
use crate::checksum::{node_checksum_ok, verify_node_checksum};
use crate::chunk_tree::internal_items_of;
use crate::object_index::{build_object_index, is_object_index};
use crate::scanner::device_contents;
use crate::items::{
    chunk_item_at, decode_chunk_item, decode_dir_entries, decode_extent_data, decode_extent_item,
    decode_inode_item, decode_root_backref, decode_root_item, dir_entries_from, dir_entry_views,
    extent_data_of, extent_item_of, inode_item_of, root_backref_of, root_item_of, ChunkItem,
    ChunkView, DirEntryView, DirItemEntry, ExtentData, ExtentDataView, ExtentItem, InodeItem,
    RootBackref, RootBackrefView, RootItem, CHUNK_ITEM_TYPE, DIR_INDEX_TYPE, DIR_ITEM_TYPE,
    EXTENT_DATA_TYPE, EXTENT_ITEM_TYPE, INODE_ITEM_TYPE, ROOT_BACKREF_TYPE, ROOT_ITEM_TYPE,
};
use crate::node::{
    Key,
    header_at, is_valid_node, leaf_item_at, item_within_payload, parse_node, InternalItem, LeafItem, NodeError, NodeHeader, NodeItems,
    NODE_HEADER_SIZE,
};

verus! {

broadcast use vstd::std_specs::hash::group_hash_axioms;

/// The payload of leaf item `it` of the node whose bytes are `b`.
pub open spec fn item_payload(b: Seq<u8>, it: LeafItem) -> Seq<u8> {
    b.subrange(
        NODE_HEADER_SIZE + it.data_offset,
        NODE_HEADER_SIZE + it.data_offset + it.data_size,
    )
}

/// The inode items among leaf items `items` of node `b`, in item order;
/// an item too short to decode is left out.
pub open spec fn leaf_inode_items(b: Seq<u8>, items: Seq<LeafItem>) -> Seq<InodeItem>
    decreases items.len(),
{
    if items.len() == 0 {
        seq![]
    } else {
        let rest = leaf_inode_items(b, items.drop_last());
        let it = items.last();
        if it.key.item_type == INODE_ITEM_TYPE && inode_item_of(header_at(b).tree_id, it.key, item_payload(b, it)) is Some {
            rest.push(inode_item_of(header_at(b).tree_id, it.key, item_payload(b, it))->0)
        } else {
            rest
        }
    }
}

/// The directory entries of the items of type `item_type` (directory items
/// or directory index items) among leaf items `items` of node `b`.
pub open spec fn leaf_dir_entries(b: Seq<u8>, items: Seq<LeafItem>, item_type: u8) -> Seq<DirEntryView>
    decreases items.len(),
{
    if items.len() == 0 {
        seq![]
    } else {
        let rest = leaf_dir_entries(b, items.drop_last(), item_type);
        let it = items.last();
        if it.key.item_type == item_type {
            rest + dir_entries_from(header_at(b).tree_id, it.key, item_payload(b, it), 0)
        } else {
            rest
        }
    }
}

pub open spec fn leaf_extent_datas(b: Seq<u8>, items: Seq<LeafItem>) -> Seq<ExtentDataView>
    decreases items.len(),
{
    if items.len() == 0 {
        seq![]
    } else {
        let rest = leaf_extent_datas(b, items.drop_last());
        let it = items.last();
        if it.key.item_type == EXTENT_DATA_TYPE && extent_data_of(header_at(b).tree_id, it.key, item_payload(b, it)) is Some {
            rest.push(extent_data_of(header_at(b).tree_id, it.key, item_payload(b, it))->0)
        } else {
            rest
        }
    }
}

pub open spec fn leaf_chunk_items(b: Seq<u8>, items: Seq<LeafItem>) -> Seq<ChunkView>
    decreases items.len(),
{
    if items.len() == 0 {
        seq![]
    } else {
        let rest = leaf_chunk_items(b, items.drop_last());
        let it = items.last();
        if it.key.item_type == CHUNK_ITEM_TYPE && chunk_item_at(it.key, item_payload(b, it), 0) is Some {
            rest.push(chunk_item_at(it.key, item_payload(b, it), 0)->0)
        } else {
            rest
        }
    }
}

pub open spec fn leaf_root_items(b: Seq<u8>, items: Seq<LeafItem>) -> Seq<RootItem>
    decreases items.len(),
{
    if items.len() == 0 {
        seq![]
    } else {
        let rest = leaf_root_items(b, items.drop_last());
        let it = items.last();
        if it.key.item_type == ROOT_ITEM_TYPE && root_item_of(it.key, item_payload(b, it)) is Some {
            rest.push(root_item_of(it.key, item_payload(b, it))->0)
        } else {
            rest
        }
    }
}

pub open spec fn leaf_root_backrefs(b: Seq<u8>, items: Seq<LeafItem>) -> Seq<RootBackrefView>
    decreases items.len(),
{
    if items.len() == 0 {
        seq![]
    } else {
        let rest = leaf_root_backrefs(b, items.drop_last());
        let it = items.last();
        if it.key.item_type == ROOT_BACKREF_TYPE && root_backref_of(it.key, item_payload(b, it)) is Some {
            rest.push(root_backref_of(it.key, item_payload(b, it))->0)
        } else {
            rest
        }
    }
}

pub open spec fn leaf_extent_items(b: Seq<u8>, items: Seq<LeafItem>) -> Seq<ExtentItem>
    decreases items.len(),
{
    if items.len() == 0 {
        seq![]
    } else {
        let rest = leaf_extent_items(b, items.drop_last());
        let it = items.last();
        if it.key.item_type == EXTENT_ITEM_TYPE && extent_item_of(it.key, item_payload(b, it)) is Some {
            rest.push(extent_item_of(it.key, item_payload(b, it))->0)
        } else {
            rest
        }
    }
}

pub open spec fn extent_views(v: Seq<ExtentData>) -> Seq<ExtentDataView> {
    v.map_values(|e: ExtentData| e@)
}

pub open spec fn chunk_views(v: Seq<ChunkItem>) -> Seq<ChunkView> {
    v.map_values(|e: ChunkItem| e@)
}

pub open spec fn backref_views(v: Seq<RootBackref>) -> Seq<RootBackrefView> {
    v.map_values(|e: RootBackref| e@)
}


/// Where global position `p` lies, searching from device `i`: the device
/// and the offset within it.
pub open spec fn locate(devices: Seq<Seq<u8>>, i: int, p: int) -> Option<(int, int)>
    decreases devices.len() - i,
{
    if i < 0 || i >= devices.len() || p < 0 {
        None
    } else if p < devices[i].len() {
        Some((i, p))
    } else {
        locate(devices, i + 1, p - devices[i].len())
    }
}

/// The `node_size` bytes at global position `p`, where they lie within one device.
pub open spec fn node_bytes_at(devices: Seq<Seq<u8>>, node_size: nat, p: int) -> Option<Seq<u8>> {
    match locate(devices, 0, p) {
        None => None,
        Some((i, l)) => if l + node_size <= devices[i].len() {
            Some(devices[i].subrange(l, l + node_size))
        } else {
            None
        },
    }
}

/// The item headers of leaf node `b`.
pub open spec fn leaf_items_of(b: Seq<u8>) -> Seq<LeafItem> {
    Seq::new(header_at(b).num_items as nat, |i: int| leaf_item_at(b, i))
}

/// Whether the indexer accepts node `b`: it is valid, and, where
/// checksums are verified, it stores the checksum of its contents.
pub open spec fn node_accepted(b: Seq<u8>, uuid: Seq<u8>, verify: bool) -> bool {
    is_valid_node(b, uuid) && (!verify || node_checksum_ok(b))
}

/// Whether a leaf node that the indexer accepts lies at `p`.
pub open spec fn leaf_at(devices: Seq<Seq<u8>>, uuid: Seq<u8>, node_size: nat, verify: bool, p: int) -> bool {
    node_bytes_at(devices, node_size, p) is Some && node_accepted(
        node_bytes_at(devices, node_size, p)->0,
        uuid,
        verify,
    ) && header_at(node_bytes_at(devices, node_size, p)->0).level == 0
}

/// The nodes accepted among `positions`, with their headers.
pub open spec fn accepted_nodes(devices: Seq<Seq<u8>>, uuid: Seq<u8>, node_size: nat, verify: bool, positions: Seq<u64>) -> Seq<(u64, NodeHeader)>
    decreases positions.len(),
{
    if positions.len() == 0 {
        seq![]
    } else {
        let rest = accepted_nodes(devices, uuid, node_size, verify, positions.drop_last());
        let p = positions.last();
        match node_bytes_at(devices, node_size, p as int) {
            Some(b) => if node_accepted(b, uuid, verify) {
                rest.push((p, header_at(b)))
            } else {
                rest
            },
            None => rest,
        }
    }
}

/// The inode items of the leaf nodes at `positions`, in scan order.
pub open spec fn indexed_inode_items(devices: Seq<Seq<u8>>, uuid: Seq<u8>, node_size: nat, verify: bool, positions: Seq<u64>) -> Seq<InodeItem>
    decreases positions.len(),
{
    if positions.len() == 0 {
        seq![]
    } else {
        let rest = indexed_inode_items(devices, uuid, node_size, verify, positions.drop_last());
        let p = positions.last() as int;
        if leaf_at(devices, uuid, node_size, verify, p) {
            let b = node_bytes_at(devices, node_size, p)->0;
            rest + leaf_inode_items(b, leaf_items_of(b))
        } else {
            rest
        }
    }
}

/// The directory entries of the leaf nodes at `positions`, in scan order.
pub open spec fn indexed_dir_entries(devices: Seq<Seq<u8>>, uuid: Seq<u8>, node_size: nat, verify: bool, positions: Seq<u64>) -> Seq<DirEntryView>
    decreases positions.len(),
{
    if positions.len() == 0 {
        seq![]
    } else {
        let rest = indexed_dir_entries(devices, uuid, node_size, verify, positions.drop_last());
        let p = positions.last() as int;
        if leaf_at(devices, uuid, node_size, verify, p) {
            let b = node_bytes_at(devices, node_size, p)->0;
            rest + leaf_dir_entries(b, leaf_items_of(b), DIR_ITEM_TYPE)
        } else {
            rest
        }
    }
}

/// The extent-data items of the leaf nodes at `positions`, in scan order.
pub open spec fn indexed_extent_datas(devices: Seq<Seq<u8>>, uuid: Seq<u8>, node_size: nat, verify: bool, positions: Seq<u64>) -> Seq<ExtentDataView>
    decreases positions.len(),
{
    if positions.len() == 0 {
        seq![]
    } else {
        let rest = indexed_extent_datas(devices, uuid, node_size, verify, positions.drop_last());
        let p = positions.last() as int;
        if leaf_at(devices, uuid, node_size, verify, p) {
            let b = node_bytes_at(devices, node_size, p)->0;
            rest + leaf_extent_datas(b, leaf_items_of(b))
        } else {
            rest
        }
    }
}

/// Every node that the indexer accepts is a valid node where it lies: its
/// items fit in the payload, and each leaf item's payload lies within it.
pub proof fn lemma_accepted_nodes_valid(
    devices: Seq<Seq<u8>>,
    uuid: Seq<u8>,
    node_size: nat,
    verify: bool,
    positions: Seq<u64>,
)
    ensures
        forall|k: int|
            0 <= k < accepted_nodes(devices, uuid, node_size, verify, positions).len() ==> {
                let (p, h) = #[trigger] accepted_nodes(devices, uuid, node_size, verify, positions)[k];
                &&& node_bytes_at(devices, node_size, p as int) is Some
                &&& is_valid_node(node_bytes_at(devices, node_size, p as int)->0, uuid)
                &&& (verify ==> node_checksum_ok(node_bytes_at(devices, node_size, p as int)->0))
                &&& h == header_at(node_bytes_at(devices, node_size, p as int)->0)
            },
    decreases positions.len(),
{
    if positions.len() > 0 {
        lemma_accepted_nodes_valid(devices, uuid, node_size, verify, positions.drop_last());
        let rest = accepted_nodes(devices, uuid, node_size, verify, positions.drop_last());
        let all = accepted_nodes(devices, uuid, node_size, verify, positions);
        assert forall|k: int| 0 <= k < all.len() implies {
            let (p, h) = #[trigger] all[k];
            &&& node_bytes_at(devices, node_size, p as int) is Some
            &&& is_valid_node(node_bytes_at(devices, node_size, p as int)->0, uuid)
            &&& (verify ==> node_checksum_ok(node_bytes_at(devices, node_size, p as int)->0))
            &&& h == header_at(node_bytes_at(devices, node_size, p as int)->0)
        } by {
            if k < rest.len() {
                assert(all[k] == rest[k]);
            }
        }
    }
}

/// The chunk items of the leaf nodes at `positions`, in scan order.
pub open spec fn indexed_chunk_items(devices: Seq<Seq<u8>>, uuid: Seq<u8>, node_size: nat, verify: bool, positions: Seq<u64>) -> Seq<ChunkView>
    decreases positions.len(),
{
    if positions.len() == 0 {
        seq![]
    } else {
        let rest = indexed_chunk_items(devices, uuid, node_size, verify, positions.drop_last());
        let p = positions.last() as int;
        if leaf_at(devices, uuid, node_size, verify, p) {
            let b = node_bytes_at(devices, node_size, p)->0;
            rest + leaf_chunk_items(b, leaf_items_of(b))
        } else {
            rest
        }
    }
}

/// The root items of the leaf nodes at `positions`, in scan order.
pub open spec fn indexed_root_items(devices: Seq<Seq<u8>>, uuid: Seq<u8>, node_size: nat, verify: bool, positions: Seq<u64>) -> Seq<RootItem>
    decreases positions.len(),
{
    if positions.len() == 0 {
        seq![]
    } else {
        let rest = indexed_root_items(devices, uuid, node_size, verify, positions.drop_last());
        let p = positions.last() as int;
        if leaf_at(devices, uuid, node_size, verify, p) {
            let b = node_bytes_at(devices, node_size, p)->0;
            rest + leaf_root_items(b, leaf_items_of(b))
        } else {
            rest
        }
    }
}

/// The root back references of the leaf nodes at `positions`, in scan order.
pub open spec fn indexed_root_backrefs(devices: Seq<Seq<u8>>, uuid: Seq<u8>, node_size: nat, verify: bool, positions: Seq<u64>) -> Seq<RootBackrefView>
    decreases positions.len(),
{
    if positions.len() == 0 {
        seq![]
    } else {
        let rest = indexed_root_backrefs(devices, uuid, node_size, verify, positions.drop_last());
        let p = positions.last() as int;
        if leaf_at(devices, uuid, node_size, verify, p) {
            let b = node_bytes_at(devices, node_size, p)->0;
            rest + leaf_root_backrefs(b, leaf_items_of(b))
        } else {
            rest
        }
    }
}

/// The directory index entries of the leaf nodes at `positions`, in scan order.
pub open spec fn indexed_dir_index_entries(devices: Seq<Seq<u8>>, uuid: Seq<u8>, node_size: nat, verify: bool, positions: Seq<u64>) -> Seq<DirEntryView>
    decreases positions.len(),
{
    if positions.len() == 0 {
        seq![]
    } else {
        let rest = indexed_dir_index_entries(devices, uuid, node_size, verify, positions.drop_last());
        let p = positions.last() as int;
        if leaf_at(devices, uuid, node_size, verify, p) {
            let b = node_bytes_at(devices, node_size, p)->0;
            rest + leaf_dir_entries(b, leaf_items_of(b), DIR_INDEX_TYPE)
        } else {
            rest
        }
    }
}

/// The extent items of the leaf nodes at `positions`, in scan order.
pub open spec fn indexed_extent_items(devices: Seq<Seq<u8>>, uuid: Seq<u8>, node_size: nat, verify: bool, positions: Seq<u64>) -> Seq<ExtentItem>
    decreases positions.len(),
{
    if positions.len() == 0 {
        seq![]
    } else {
        let rest = indexed_extent_items(devices, uuid, node_size, verify, positions.drop_last());
        let p = positions.last() as int;
        if leaf_at(devices, uuid, node_size, verify, p) {
            let b = node_bytes_at(devices, node_size, p)->0;
            rest + leaf_extent_items(b, leaf_items_of(b))
        } else {
            rest
        }
    }
}

/// The positions among `positions` of the nodes accepted that are leaves
/// (where `leaf`) or internal nodes (where not), in scan order.
pub open spec fn accepted_positions(
    devices: Seq<Seq<u8>>,
    uuid: Seq<u8>,
    node_size: nat,
    verify: bool,
    positions: Seq<u64>,
    leaf: bool,
) -> Seq<u64>
    decreases positions.len(),
{
    if positions.len() == 0 {
        seq![]
    } else {
        let rest = accepted_positions(devices, uuid, node_size, verify, positions.drop_last(), leaf);
        let p = positions.last();
        match node_bytes_at(devices, node_size, p as int) {
            Some(b) => if node_accepted(b, uuid, verify) && (header_at(b).level == 0) == leaf {
                rest.push(p)
            } else {
                rest
            },
            None => rest,
        }
    }
}

/// The positions among `positions` where no node is accepted, in scan order.
pub open spec fn rejected_positions(
    devices: Seq<Seq<u8>>,
    uuid: Seq<u8>,
    node_size: nat,
    verify: bool,
    positions: Seq<u64>,
) -> Seq<u64>
    decreases positions.len(),
{
    if positions.len() == 0 {
        seq![]
    } else {
        let rest = rejected_positions(devices, uuid, node_size, verify, positions.drop_last());
        let p = positions.last();
        match node_bytes_at(devices, node_size, p as int) {
            Some(b) => if node_accepted(b, uuid, verify) {
                rest
            } else {
                rest.push(p)
            },
            None => rest.push(p),
        }
    }
}

/// The position of a skipped entry.
pub open spec fn skip_position(e: (u64, SkipReason)) -> u64 {
    let (p, _) = e;
    p
}

/// The positions of skipped entries.
pub open spec fn skipped_positions(s: Seq<(u64, SkipReason)>) -> Seq<u64> {
    s.map_values(|e: (u64, SkipReason)| skip_position(e))
}

/// Whether the reason of a skipped entry is the one its position gives.
pub open spec fn skip_reason_fits(
    devices: Seq<Seq<u8>>,
    uuid: Seq<u8>,
    node_size: nat,
    verify: bool,
    e: (u64, SkipReason),
) -> bool {
    let (p, reason) = e;
    let bytes = node_bytes_at(devices, node_size, p as int);
    match reason {
        SkipReason::OutOfRange => bytes is None,
        SkipReason::BadNode(_) => bytes is Some && !is_valid_node(bytes->0, uuid),
        SkipReason::BadChecksum => bytes is Some && is_valid_node(bytes->0, uuid) && verify && !node_checksum_ok(
            bytes->0,
        ),
    }
}

/// Whether an accepted internal node of tree `t` lies at `p`.
pub open spec fn internal_of_tree(devices: Seq<Seq<u8>>, uuid: Seq<u8>, node_size: nat, verify: bool, p: int, t: u64) -> bool {
    node_bytes_at(devices, node_size, p) is Some && node_accepted(node_bytes_at(devices, node_size, p)->0, uuid, verify)
        && header_at(node_bytes_at(devices, node_size, p)->0).level != 0
        && header_at(node_bytes_at(devices, node_size, p)->0).tree_id == t
}

/// The items of the accepted internal nodes of tree `t` at `positions`,
/// in scan order, then item order.
pub open spec fn indexed_internal_items(
    devices: Seq<Seq<u8>>,
    uuid: Seq<u8>,
    node_size: nat,
    verify: bool,
    positions: Seq<u64>,
    t: u64,
) -> Seq<InternalItem>
    decreases positions.len(),
{
    if positions.len() == 0 {
        seq![]
    } else {
        let rest = indexed_internal_items(devices, uuid, node_size, verify, positions.drop_last(), t);
        let p = positions.last() as int;
        if internal_of_tree(devices, uuid, node_size, verify, p, t) {
            rest + internal_items_of(node_bytes_at(devices, node_size, p)->0)
        } else {
            rest
        }
    }
}

/// Whether an accepted internal node of tree `t` lies at one of `positions`.
pub open spec fn internal_tree_seen(
    devices: Seq<Seq<u8>>,
    uuid: Seq<u8>,
    node_size: nat,
    verify: bool,
    positions: Seq<u64>,
    t: u64,
) -> bool
    decreases positions.len(),
{
    positions.len() > 0 && (internal_tree_seen(devices, uuid, node_size, verify, positions.drop_last(), t)
        || internal_of_tree(devices, uuid, node_size, verify, positions.last() as int, t))
}

/// The internal items listed for tree `t`.
pub open spec fn tree_items(m: Map<u64, Vec<InternalItem>>, t: u64) -> Seq<InternalItem> {
    if m.contains_key(t) {
        m[t]@
    } else {
        Seq::<InternalItem>::empty()
    }
}

pub open spec fn inode_keys(v: Seq<InodeItem>) -> Seq<Key> {
    v.map_values(|x: InodeItem| x.key)
}

pub open spec fn dir_entry_keys(v: Seq<DirItemEntry>) -> Seq<Key> {
    v.map_values(|x: DirItemEntry| x.key)
}

pub open spec fn chunk_keys(v: Seq<ChunkItem>) -> Seq<Key> {
    v.map_values(|x: ChunkItem| x.key)
}

pub open spec fn extent_item_keys(v: Seq<ExtentItem>) -> Seq<Key> {
    v.map_values(|x: ExtentItem| x.key)
}

pub open spec fn root_item_keys(v: Seq<RootItem>) -> Seq<Key> {
    v.map_values(|x: RootItem| x.key)
}

fn inode_keys_of(v: &Vec<InodeItem>) -> (r: Vec<Key>)
    ensures
        r@ == inode_keys(v@),
{
    let mut r: Vec<Key> = Vec::new();
    let mut i: usize = 0;
    while i < v.len()
        invariant
            i <= v.len(),
            r@ == inode_keys(v@).take(i as int),
        decreases v.len() - i,
    {
        r.push(v[i].key);
        assert(r@ =~= inode_keys(v@).take(i as int + 1));
        i = i + 1;
    }
    assert(inode_keys(v@).take(i as int) =~= inode_keys(v@));
    r
}

fn dir_entry_keys_of(v: &Vec<DirItemEntry>) -> (r: Vec<Key>)
    ensures
        r@ == dir_entry_keys(v@),
{
    let mut r: Vec<Key> = Vec::new();
    let mut i: usize = 0;
    while i < v.len()
        invariant
            i <= v.len(),
            r@ == dir_entry_keys(v@).take(i as int),
        decreases v.len() - i,
    {
        r.push(v[i].key);
        assert(r@ =~= dir_entry_keys(v@).take(i as int + 1));
        i = i + 1;
    }
    assert(dir_entry_keys(v@).take(i as int) =~= dir_entry_keys(v@));
    r
}

fn chunk_keys_of(v: &Vec<ChunkItem>) -> (r: Vec<Key>)
    ensures
        r@ == chunk_keys(v@),
{
    let mut r: Vec<Key> = Vec::new();
    let mut i: usize = 0;
    while i < v.len()
        invariant
            i <= v.len(),
            r@ == chunk_keys(v@).take(i as int),
        decreases v.len() - i,
    {
        r.push(v[i].key);
        assert(r@ =~= chunk_keys(v@).take(i as int + 1));
        i = i + 1;
    }
    assert(chunk_keys(v@).take(i as int) =~= chunk_keys(v@));
    r
}

fn extent_item_keys_of(v: &Vec<ExtentItem>) -> (r: Vec<Key>)
    ensures
        r@ == extent_item_keys(v@),
{
    let mut r: Vec<Key> = Vec::new();
    let mut i: usize = 0;
    while i < v.len()
        invariant
            i <= v.len(),
            r@ == extent_item_keys(v@).take(i as int),
        decreases v.len() - i,
    {
        r.push(v[i].key);
        assert(r@ =~= extent_item_keys(v@).take(i as int + 1));
        i = i + 1;
    }
    assert(extent_item_keys(v@).take(i as int) =~= extent_item_keys(v@));
    r
}

fn root_item_keys_of(v: &Vec<RootItem>) -> (r: Vec<Key>)
    ensures
        r@ == root_item_keys(v@),
{
    let mut r: Vec<Key> = Vec::new();
    let mut i: usize = 0;
    while i < v.len()
        invariant
            i <= v.len(),
            r@ == root_item_keys(v@).take(i as int),
        decreases v.len() - i,
    {
        r.push(v[i].key);
        assert(r@ =~= root_item_keys(v@).take(i as int + 1));
        i = i + 1;
    }
    assert(root_item_keys(v@).take(i as int) =~= root_item_keys(v@));
    r
}

/// Finds the device that global position `p` lies on, and the offset there.
pub fn locate_position(devices: &Vec<&[u8]>, p: u64) -> (r: Option<(usize, usize)>)
    ensures
        match r {
            Some((i, l)) => locate(device_contents(devices@), 0, p as int) == Some((i as int, l as int))
                && i < devices.len() && l < devices@[i as int]@.len(),
            None => locate(device_contents(devices@), 0, p as int) is None,
        },
{
    let ghost contents = device_contents(devices@);
    let mut rest: u64 = p;
    let mut i: usize = 0;
    while i < devices.len()
        invariant
            i <= devices.len(),
            contents == device_contents(devices@),
            locate(contents, 0, p as int) == locate(contents, i as int, rest as int),
        decreases devices.len() - i,
    {
        let len: usize = devices[i].len();
        assert(contents[i as int] == devices@[i as int]@);
        if (rest as u128) < (len as u128) {
            return Some((i, rest as usize));
        }
        rest = rest - len as u64;
        i = i + 1;
    }
    None
}


/// The most recent inode item of each object id among `items`: the one
/// with the highest transaction id, the later one where two tie.
pub open spec fn recent_inodes(items: Seq<InodeItem>) -> Map<u64, InodeItem>
    decreases items.len(),
{
    if items.len() == 0 {
        Map::empty()
    } else {
        let m = recent_inodes(items.drop_last());
        let x = items.last();
        let o = x.key.object_id;
        if m.contains_key(o) && m[o].transaction_id > x.transaction_id {
            m
        } else {
            m.insert(o, x)
        }
    }
}

/// The most recent directory entry of each child object id among
/// `entries`: the one with the highest transaction id, the later one where
/// two tie.
pub open spec fn recent_dir_entries(entries: Seq<DirEntryView>) -> Map<u64, DirEntryView>
    decreases entries.len(),
{
    if entries.len() == 0 {
        Map::empty()
    } else {
        let m = recent_dir_entries(entries.drop_last());
        let x = entries.last();
        let c = x.child_key.object_id;
        if m.contains_key(c) && m[c].transaction_id > x.transaction_id {
            m
        } else {
            m.insert(c, x)
        }
    }
}

pub open spec fn dir_map_view(m: Map<u64, DirItemEntry>) -> Map<u64, DirEntryView> {
    m.map_values(|e: DirItemEntry| e@)
}

/// For every object id, the most recent inode item is one of the object's
/// items, and none of them has a higher transaction id; an object has a
/// most recent inode item exactly when it has an item.
pub proof fn lemma_recent_inode_is_latest(items: Seq<InodeItem>, o: u64)
    ensures
        recent_inodes(items).contains_key(o) <==> exists|i: int|
            0 <= i < items.len() && (#[trigger] items[i]).key.object_id == o,
        recent_inodes(items).contains_key(o) ==> {
            let r = recent_inodes(items)[o];
            &&& items.contains(r)
            &&& r.key.object_id == o
            &&& forall|i: int|
                0 <= i < items.len() && (#[trigger] items[i]).key.object_id == o ==> items[i].transaction_id
                    <= r.transaction_id
        },
    decreases items.len(),
{
    if items.len() > 0 {
        let front = items.drop_last();
        lemma_recent_inode_is_latest(front, o);
        let x = items.last();
        assert(forall|i: int| 0 <= i < front.len() ==> front[i] == items[i]);
        if recent_inodes(front).contains_key(o) {
            let i = choose|i: int| 0 <= i < front.len() && front[i] == recent_inodes(front)[o];
            assert(items[i] == recent_inodes(front)[o]);
        }
        assert(items[items.len() - 1] == x);
    }
}

/// For every child object id, the most recent directory entry is one of
/// the child's entries, and none of them has a higher transaction id.
pub proof fn lemma_recent_dir_entry_is_latest(entries: Seq<DirEntryView>, c: u64)
    ensures
        recent_dir_entries(entries).contains_key(c) <==> exists|i: int|
            0 <= i < entries.len() && (#[trigger] entries[i]).child_key.object_id == c,
        recent_dir_entries(entries).contains_key(c) ==> {
            let r = recent_dir_entries(entries)[c];
            &&& entries.contains(r)
            &&& r.child_key.object_id == c
            &&& forall|i: int|
                0 <= i < entries.len() && (#[trigger] entries[i]).child_key.object_id == c
                    ==> entries[i].transaction_id <= r.transaction_id
        },
    decreases entries.len(),
{
    if entries.len() > 0 {
        let front = entries.drop_last();
        lemma_recent_dir_entry_is_latest(front, c);
        let x = entries.last();
        assert(forall|i: int| 0 <= i < front.len() ==> front[i] == entries[i]);
        if recent_dir_entries(front).contains_key(c) {
            let i = choose|i: int| 0 <= i < front.len() && front[i] == recent_dir_entries(front)[c];
            assert(entries[i] == recent_dir_entries(front)[c]);
        }
        assert(entries[entries.len() - 1] == x);
    }
}

/// The most recent inode item of each object id among `items`.
pub fn most_recent_inodes(items: &Vec<InodeItem>) -> (r: HashMap<u64, InodeItem>)
    ensures
        r@ == recent_inodes(items@),
{
    let mut m: HashMap<u64, InodeItem> = HashMap::new();
    let mut i: usize = 0;
    while i < items.len()
        invariant
            i <= items.len(),
            m@ == recent_inodes(items@.take(i as int)),
        decreases items.len() - i,
    {
        let x = items[i];
        let o = x.key.object_id;
        let ghost t = items@.take(i as int + 1);
        assert(t.drop_last() =~= items@.take(i as int));
        assert(t.last() == x);
        let replace = match m.get(&o) {
            None => true,
            Some(y) => y.transaction_id <= x.transaction_id,
        };
        if replace {
            m.insert(o, x);
        }
        assert(m@ == recent_inodes(t));
        i = i + 1;
    }
    assert(items@.take(i as int) =~= items@);
    m
}

/// The most recent directory entry of each child object id among
/// `entries`, and those child ids in the order first seen.
pub fn most_recent_dir_entries(entries: &Vec<DirItemEntry>) -> (r: (HashMap<u64, DirItemEntry>, Vec<u64>))
    ensures
        dir_map_view(r.0@) == recent_dir_entries(dir_entry_views(entries@)),
        r.1@.no_duplicates(),
        forall|c: u64| r.1@.contains(c) <==> r.0@.contains_key(c),
{
    let ghost views = dir_entry_views(entries@);
    let mut m: HashMap<u64, DirItemEntry> = HashMap::new();
    let mut order: Vec<u64> = Vec::new();
    let mut i: usize = 0;
    while i < entries.len()
        invariant
            i <= entries.len(),
            views == dir_entry_views(entries@),
            dir_map_view(m@) == recent_dir_entries(views.take(i as int)),
            order@.no_duplicates(),
            forall|c: u64| order@.contains(c) <==> m@.contains_key(c),
        decreases entries.len() - i,
    {
        let x = &entries[i];
        let c = x.child_key.object_id;
        let ghost t = views.take(i as int + 1);
        assert(t.drop_last() =~= views.take(i as int));
        assert(t.last() == x@);
        let ghost before = m@;
        let (known, replace) = match m.get(&c) {
            None => (false, true),
            Some(y) => (true, y.transaction_id <= x.transaction_id),
        };
        if replace {
            m.insert(c, x.copy());
        }
        let ghost old_order = order@;
        assert(!known ==> !old_order.contains(c));
        if !known {
            order.push(c);
            assert(order@[order@.len() - 1] == c);
        }
        assert forall|k: u64| order@.contains(k) <==> m@.contains_key(k) by {
            if k != c {
                if order@.contains(k) {
                    let j = choose|j: int| 0 <= j < order@.len() && order@[j] == k;
                    assert(old_order[j] == k);
                }
                if old_order.contains(k) {
                    let j = choose|j: int| 0 <= j < old_order.len() && old_order[j] == k;
                    assert(order@[j] == k);
                }
            }
        }
        assert(dir_map_view(m@) =~= recent_dir_entries(t));
        i = i + 1;
    }
    assert(views.take(i as int) =~= views);
    (m, order)
}

/// Groups child ids by the parent directory of their most recent entry,
/// taking the children in the order of `order`.
pub fn group_by_parent(recent: &HashMap<u64, DirItemEntry>, order: &Vec<u64>) -> (r: HashMap<u64, Vec<u64>>)
    requires
        order@.no_duplicates(),
        forall|c: u64| order@.contains(c) ==> recent@.contains_key(c),
    ensures
        forall|d: u64| #[trigger] r@.contains_key(d) ==> r@[d]@.no_duplicates() && r@[d]@.len() > 0,
        forall|d: u64, c: u64|
            #![trigger r@[d]@.contains(c)]
            r@.contains_key(d) && r@[d]@.contains(c) ==> order@.contains(c) && recent@[c].key.object_id == d,
        forall|c: u64|
            #![trigger order@.contains(c)]
            order@.contains(c) ==> r@.contains_key(recent@[c].key.object_id) && r@[recent@[c].key.object_id]@.contains(c),
{
    let mut m: HashMap<u64, Vec<u64>> = HashMap::new();
    let mut i: usize = 0;
    while i < order.len()
        invariant
            i <= order.len(),
            order@.no_duplicates(),
            forall|c: u64| order@.contains(c) ==> recent@.contains_key(c),
            forall|d: u64| #[trigger] m@.contains_key(d) ==> m@[d]@.no_duplicates() && m@[d]@.len() > 0,
            forall|d: u64, c: u64|
                #![trigger m@[d]@.contains(c)]
                m@.contains_key(d) && m@[d]@.contains(c) ==> order@.take(i as int).contains(c) && recent@[c].key.object_id == d,
            forall|c: u64|
                #![trigger order@.take(i as int).contains(c)]
                order@.take(i as int).contains(c) ==> m@.contains_key(recent@[c].key.object_id)
                    && m@[recent@[c].key.object_id]@.contains(c),
        decreases order.len() - i,
    {
        let c = order[i];
        assert(order@.contains(c));
        let d = match recent.get(&c) {
            Some(e) => e.key.object_id,
            None => 0,
        };
        assert(d == recent@[c].key.object_id);
        let ghost before = m@;
        let ghost prefix = order@.take(i as int);
        let mut list: Vec<u64> = match m.remove(&d) {
            Some(v) => v,
            None => Vec::new(),
        };
        let ghost old_list = list@;
        assert(before.contains_key(d) ==> old_list == before[d]@);
        assert(!before.contains_key(d) ==> old_list == Seq::<u64>::empty());
        assert(!old_list.contains(c)) by {
            if old_list.contains(c) {
                assert(before.contains_key(d) && before[d]@.contains(c));
                assert(prefix.contains(c));
                let j = choose|j: int| 0 <= j < prefix.len() && prefix[j] == c;
                assert(order@[j] == order@[i as int]);
            }
        }
        list.push(c);
        m.insert(d, list);
        let ghost ti = order@.take(i as int + 1);
        assert(ti =~= prefix.push(c));
        assert(m@[d]@ == old_list.push(c));
        assert forall|dd: u64, cc: u64|
            m@.contains_key(dd) && #[trigger] m@[dd]@.contains(cc) implies ti.contains(cc) && recent@[cc].key.object_id == dd by {
            if dd == d {
                if cc != c {
                    let j = choose|j: int| 0 <= j < m@[dd]@.len() && m@[dd]@[j] == cc;
                    assert(old_list[j] == cc);
                    assert(before[d]@.contains(cc));
                    assert(prefix.contains(cc));
                    let k = choose|k: int| 0 <= k < prefix.len() && prefix[k] == cc;
                    assert(ti[k] == cc);
                } else {
                    assert(ti[ti.len() - 1] == c);
                }
            } else {
                assert(before.contains_key(dd) && m@[dd] == before[dd]);
                assert(before[dd]@.contains(cc));
                assert(prefix.contains(cc));
                let k = choose|k: int| 0 <= k < prefix.len() && prefix[k] == cc;
                assert(ti[k] == cc);
            }
        }
        assert forall|cc: u64| #[trigger] ti.contains(cc) implies m@.contains_key(recent@[cc].key.object_id)
            && m@[recent@[cc].key.object_id]@.contains(cc) by {
            let pd = recent@[cc].key.object_id;
            if cc == c {
                assert(m@[d]@[m@[d]@.len() - 1] == c);
            } else {
                let k = choose|k: int| 0 <= k < ti.len() && ti[k] == cc;
                assert(k < prefix.len());
                assert(prefix[k] == cc);
                assert(prefix.contains(cc));
                assert(before.contains_key(pd) && before[pd]@.contains(cc));
                if pd == d {
                    let j = choose|j: int| 0 <= j < old_list.len() && old_list[j] == cc;
                    assert(m@[d]@[j] == cc);
                } else {
                    assert(m@[pd] == before[pd]);
                }
            }
        }
        assert forall|dd: u64| #[trigger] m@.contains_key(dd) implies m@[dd]@.no_duplicates() && m@[dd]@.len() > 0 by {
            if dd == d {
                assert(old_list.no_duplicates());
            } else {
                assert(m@[dd] == before[dd]);
            }
        }
        i = i + 1;
    }
    assert(order@.take(i as int) =~= order@);
    m
}


/// `s` with `x` inserted after every element whose file offset is not above
/// that of `x`, counted from the end.
pub open spec fn insert_by_offset(s: Seq<ExtentDataView>, x: ExtentDataView) -> Seq<ExtentDataView>
    decreases s.len(),
{
    if s.len() == 0 {
        seq![x]
    } else if s.last().key.offset <= x.key.offset {
        s.push(x)
    } else {
        insert_by_offset(s.drop_last(), x).push(s.last())
    }
}

/// `s` sorted by file offset, stably.
pub open spec fn sort_by_offset(s: Seq<ExtentDataView>) -> Seq<ExtentDataView>
    decreases s.len(),
{
    if s.len() == 0 {
        seq![]
    } else {
        insert_by_offset(sort_by_offset(s.drop_last()), s.last())
    }
}

/// Whether `s` is in ascending order of file offset.
pub open spec fn sorted_by_offset(s: Seq<ExtentDataView>) -> bool {
    forall|i: int, j: int| 0 <= i < j < s.len() ==> s[i].key.offset <= s[j].key.offset
}

/// The extent-data items of object `o` among `s`, in order.
pub open spec fn extents_of(s: Seq<ExtentDataView>, o: u64) -> Seq<ExtentDataView> {
    s.filter(|e: ExtentDataView| e.key.object_id == o)
}

proof fn lemma_insert_by_offset_sorted(s: Seq<ExtentDataView>, x: ExtentDataView)
    requires
        sorted_by_offset(s),
    ensures
        sorted_by_offset(insert_by_offset(s, x)),
        insert_by_offset(s, x).len() == s.len() + 1,
        forall|i: int| 0 <= i < insert_by_offset(s, x).len() ==> #[trigger] insert_by_offset(s, x)[i] == x || s.contains(insert_by_offset(s, x)[i]),
    decreases s.len(),
{
    if s.len() > 0 && s.last().key.offset > x.key.offset {
        let f = s.drop_last();
        assert(sorted_by_offset(f));
        lemma_insert_by_offset_sorted(f, x);
        let r = insert_by_offset(s, x);
        let g = insert_by_offset(f, x);
        assert forall|i: int| 0 <= i < g.len() implies g[i].key.offset <= s.last().key.offset by {
            if g[i] != x {
                let k = choose|k: int| 0 <= k < f.len() && f[k] == g[i];
                assert(s[k] == f[k]);
            }
        }
        assert forall|i: int| 0 <= i < r.len() implies #[trigger] r[i] == x || s.contains(r[i]) by {
            if i < g.len() {
                assert(r[i] == g[i]);
                if g[i] != x {
                    let k = choose|k: int| 0 <= k < f.len() && f[k] == g[i];
                    assert(s[k] == f[k]);
                }
            } else {
                assert(s[s.len() - 1] == s.last());
            }
        }
    } else if s.len() > 0 {
        let r = insert_by_offset(s, x);
        assert forall|i: int| 0 <= i < r.len() implies #[trigger] r[i] == x || s.contains(r[i]) by {
            if i < s.len() {
                assert(r[i] == s[i]);
            }
        }
    }
}

/// Sorting by file offset gives ascending file offsets.
pub proof fn lemma_sort_by_offset_sorted(s: Seq<ExtentDataView>)
    ensures
        sorted_by_offset(sort_by_offset(s)),
        sort_by_offset(s).len() == s.len(),
    decreases s.len(),
{
    if s.len() > 0 {
        lemma_sort_by_offset_sorted(s.drop_last());
        lemma_insert_by_offset_sorted(sort_by_offset(s.drop_last()), s.last());
    }
}

/// Inserts `x` into `v` as `insert_by_offset` says.
fn insert_extent_by_offset(v: &mut Vec<ExtentData>, x: ExtentData)
    ensures
        extent_views(final(v)@) == insert_by_offset(extent_views(old(v)@), x@),
{
    let ghost s = extent_views(v@);
    let mut p: usize = v.len();
    assert(s.take(p as int) =~= s);
    assert(s.take(p as int) + s.skip(p as int) =~= s);
    while p > 0 && v[p - 1].key.offset > x.key.offset
        invariant
            p <= v.len(),
            s == extent_views(v@),
            insert_by_offset(s, x@) == insert_by_offset(s.take(p as int), x@) + s.skip(p as int),
        decreases p,
    {
        let ghost t = s.take(p as int);
        assert(t.drop_last() =~= s.take(p as int - 1));
        assert(t.last() == s[p as int - 1]);
        assert(s.skip(p as int - 1) =~= seq![s[p as int - 1]] + s.skip(p as int));
        assert(insert_by_offset(t, x@) == insert_by_offset(s.take(p as int - 1), x@).push(t.last()));
        assert(insert_by_offset(s.take(p as int - 1), x@).push(t.last()) + s.skip(p as int) =~= insert_by_offset(
            s.take(p as int - 1),
            x@,
        ) + s.skip(p as int - 1));
        p = p - 1;
    }
    let ghost t = s.take(p as int);
    assert(insert_by_offset(t, x@) == t.push(x@)) by {
        if p > 0 {
            assert(t.last() == s[p as int - 1]);
        } else {
            assert(t =~= Seq::<ExtentDataView>::empty());
        }
    }
    let ghost xv = x@;
    v.insert(p, x);
    assert(extent_views(v@) =~= t.push(xv) + s.skip(p as int));
}

/// The extent-data items of each object id, sorted stably by file offset.
pub fn extent_datas_by_object(items: &Vec<ExtentData>) -> (r: HashMap<u64, Vec<ExtentData>>)
    ensures
        forall|o: u64| #[trigger] r@.contains_key(o) <==> extents_of(extent_views(items@), o).len() > 0,
        forall|o: u64|
            #[trigger] r@.contains_key(o) ==> extent_views(r@[o]@) == sort_by_offset(
                extents_of(extent_views(items@), o),
            ),
{
    broadcast use vstd::seq_lib::group_filter_ensures;

    let ghost views = extent_views(items@);
    let mut m: HashMap<u64, Vec<ExtentData>> = HashMap::new();
    let mut i: usize = 0;
    while i < items.len()
        invariant
            i <= items.len(),
            views == extent_views(items@),
            forall|o: u64| #[trigger] m@.contains_key(o) <==> extents_of(views.take(i as int), o).len() > 0,
            forall|o: u64|
                #[trigger] m@.contains_key(o) ==> extent_views(m@[o]@) == sort_by_offset(
                    extents_of(views.take(i as int), o),
                ),
        decreases items.len() - i,
    {
        let x = items[i].copy();
        let o = x.key.object_id;
        let ghost xv = x@;
        let ghost t = views.take(i as int + 1);
        assert(t =~= views.take(i as int).push(xv));
        let ghost before = m@;
        let mut list: Vec<ExtentData> = match m.remove(&o) {
            Some(v) => v,
            None => Vec::new(),
        };
        assert(extent_views(list@) == sort_by_offset(extents_of(views.take(i as int), o))) by {
            if !before.contains_key(o) {
                assert(extents_of(views.take(i as int), o) =~= Seq::<ExtentDataView>::empty());
                assert(extent_views(list@) =~= Seq::<ExtentDataView>::empty());
            }
        }
        insert_extent_by_offset(&mut list, x);
        m.insert(o, list);
        assert forall|q: u64| extents_of(t, q) == (if q == o {
            extents_of(views.take(i as int), q).push(xv)
        } else {
            extents_of(views.take(i as int), q)
        }) by {
            views.take(i as int).lemma_filter_push(xv, |e: ExtentDataView| e.key.object_id == q);
        }
        assert(sort_by_offset(extents_of(t, o)).len() > 0) by {
            lemma_sort_by_offset_sorted(extents_of(t, o));
        }
        assert forall|q: u64| #[trigger] m@.contains_key(q) <==> extents_of(t, q).len() > 0 by {
            if q != o {
                assert(m@.contains_key(q) == before.contains_key(q));
            }
        }
        assert forall|q: u64| #[trigger] m@.contains_key(q) implies extent_views(m@[q]@) == sort_by_offset(extents_of(t, q)) by {
            if q != o {
                assert(m@[q] == before[q]);
            } else {
                assert(extents_of(t, o).drop_last() =~= extents_of(views.take(i as int), o));
            }
        }
        i = i + 1;
    }
    assert(views.take(i as int) =~= views);
    m
}


/// Whether `a` and `b` hold the same nodes and flat item collections.
pub open spec fn same_items(a: IndexedFilesystem, b: IndexedFilesystem) -> bool {
    &&& a.fs_uuid == b.fs_uuid
    &&& a.node_size == b.node_size
    &&& a.verify_checksums == b.verify_checksums
    &&& a.nodes == b.nodes
    &&& a.leaf_nodes == b.leaf_nodes
    &&& a.internal_nodes == b.internal_nodes
    &&& a.internal_items_by_tree == b.internal_items_by_tree
    &&& a.skipped == b.skipped
    &&& a.chunk_items == b.chunk_items
    &&& a.dir_item_entries == b.dir_item_entries
    &&& a.dir_index_entries == b.dir_index_entries
    &&& a.extent_datas == b.extent_datas
    &&& a.extent_items == b.extent_items
    &&& a.inode_items == b.inode_items
    &&& a.root_items == b.root_items
    &&& a.root_backrefs == b.root_backrefs
}

/// Whether `a` and `b` hold the same per-object position indexes.
pub open spec fn same_object_indexes(a: IndexedFilesystem, b: IndexedFilesystem) -> bool {
    &&& a.inode_items_index == b.inode_items_index
    &&& a.dir_item_entries_index == b.dir_item_entries_index
    &&& a.chunk_items_index == b.chunk_items_index
    &&& a.extent_items_index == b.extent_items_index
    &&& a.root_items_index == b.root_items_index
}

/// Object id of the root tree.
pub const ROOT_TREE_ID: u64 = 1;

/// Why a position of the index was skipped.
#[derive(PartialEq, Eq, Structural, Clone, Copy, Debug)]
pub enum SkipReason {
    /// The node would reach past the end of the devices.
    OutOfRange,
    /// The bytes there are no valid node.
    BadNode(NodeError),
    /// The node's checksum does not match its contents.
    BadChecksum,
}

/// The items of every node found by a scan, by kind, with indexes by
/// object id.
pub struct IndexedFilesystem {
    pub fs_uuid: Vec<u8>,
    pub node_size: u32,
    /// Whether nodes whose checksum does not match are skipped.
    pub verify_checksums: bool,
    /// Position and header of every node accepted.
    pub nodes: Vec<(u64, NodeHeader)>,
    pub leaf_nodes: Vec<u64>,
    pub internal_nodes: Vec<u64>,
    /// Positions skipped, and why.
    pub skipped: Vec<(u64, SkipReason)>,
    pub internal_items_by_tree: HashMap<u64, Vec<InternalItem>>,
    pub chunk_items: Vec<ChunkItem>,
    pub dir_item_entries: Vec<DirItemEntry>,
    pub dir_index_entries: Vec<DirItemEntry>,
    pub extent_datas: Vec<ExtentData>,
    pub extent_items: Vec<ExtentItem>,
    pub inode_items: Vec<InodeItem>,
    pub root_items: Vec<RootItem>,
    pub root_backrefs: Vec<RootBackref>,
    /// The most recent inode item of each object id.
    pub inode_items_recent: HashMap<u64, InodeItem>,
    /// The most recent directory entry of each child object id.
    pub dir_item_entries_recent: HashMap<u64, DirItemEntry>,
    /// The keys of `dir_item_entries_recent`, in the order first seen.
    pub dir_item_children: Vec<u64>,
    /// The children of each directory, by the most recent entries.
    pub dir_item_entries_by_parent: HashMap<u64, Vec<u64>>,
    /// The extent-data items of each object id, by ascending file offset.
    pub extent_datas_index: HashMap<u64, Vec<ExtentData>>,
    /// For each object id, the positions in `inode_items` of its items,
    /// sorted stably by key; likewise for the other kinds.
    pub inode_items_index: HashMap<u64, Vec<usize>>,
    pub dir_item_entries_index: HashMap<u64, Vec<usize>>,
    pub chunk_items_index: HashMap<u64, Vec<usize>>,
    pub extent_items_index: HashMap<u64, Vec<usize>>,
    pub root_items_index: HashMap<u64, Vec<usize>>,
}

impl IndexedFilesystem {
    /// Whether every secondary index agrees with the flat collections: the
    /// most recent inode items and directory entries, the children of each
    /// directory (each once), the child ids in first-seen order, and the
    /// extent-data items of each object sorted by file offset, and for each
    /// kind the positions of each object's items sorted stably by key.
    pub open spec fn indexes_built(self) -> bool {
        &&& is_object_index(inode_keys(self.inode_items@), self.inode_items_index@)
        &&& is_object_index(dir_entry_keys(self.dir_item_entries@), self.dir_item_entries_index@)
        &&& is_object_index(chunk_keys(self.chunk_items@), self.chunk_items_index@)
        &&& is_object_index(extent_item_keys(self.extent_items@), self.extent_items_index@)
        &&& is_object_index(root_item_keys(self.root_items@), self.root_items_index@)
        &&& self.inode_items_recent@ == recent_inodes(self.inode_items@)
        &&& dir_map_view(self.dir_item_entries_recent@) == recent_dir_entries(dir_entry_views(self.dir_item_entries@))
        &&& self.dir_item_children@.no_duplicates()
        &&& forall|c: u64| self.dir_item_children@.contains(c) <==> self.dir_item_entries_recent@.contains_key(c)
        &&& forall|d: u64| #[trigger] self.dir_item_entries_by_parent@.contains_key(d)
            ==> self.dir_item_entries_by_parent@[d]@.no_duplicates() && self.dir_item_entries_by_parent@[d]@.len() > 0
        &&& forall|d: u64, c: u64|
            #![trigger self.dir_item_entries_by_parent@[d]@.contains(c)]
            self.dir_item_entries_by_parent@.contains_key(d) && self.dir_item_entries_by_parent@[d]@.contains(c)
                ==> self.dir_item_entries_recent@.contains_key(c)
                && self.dir_item_entries_recent@[c].key.object_id == d
        &&& forall|c: u64|
            #[trigger] self.dir_item_entries_recent@.contains_key(c) ==> {
                let d = self.dir_item_entries_recent@[c].key.object_id;
                self.dir_item_entries_by_parent@.contains_key(d) && self.dir_item_entries_by_parent@[d]@.contains(c)
            }
        &&& forall|o: u64| #[trigger] self.extent_datas_index@.contains_key(o) <==> extents_of(
            extent_views(self.extent_datas@),
            o,
        ).len() > 0
        &&& forall|o: u64|
            #[trigger] self.extent_datas_index@.contains_key(o) ==> extent_views(self.extent_datas_index@[o]@)
                == sort_by_offset(extents_of(extent_views(self.extent_datas@), o))
    }

    /// An empty index of the filesystem with `fs_uuid` and `node_size`;
    /// with `verify_checksums`, nodes whose checksum does not match are
    /// skipped.
    pub fn new(fs_uuid: Vec<u8>, node_size: u32, verify_checksums: bool) -> (r: IndexedFilesystem)
        ensures
            r.fs_uuid == fs_uuid,
            r.node_size == node_size,
            r.verify_checksums == verify_checksums,
            r.nodes@ == Seq::<(u64, NodeHeader)>::empty(),
            r.skipped@ == Seq::<(u64, SkipReason)>::empty(),
            r.inode_items@ == Seq::<InodeItem>::empty(),
            r.dir_item_entries@ == Seq::<DirItemEntry>::empty(),
            r.dir_index_entries@ == Seq::<DirItemEntry>::empty(),
            r.extent_datas@ == Seq::<ExtentData>::empty(),
            r.chunk_items@ == Seq::<ChunkItem>::empty(),
            r.root_items@ == Seq::<RootItem>::empty(),
            r.root_backrefs@ == Seq::<RootBackref>::empty(),
            r.extent_items@ == Seq::<ExtentItem>::empty(),
            r.internal_items_by_tree@ == Map::<u64, Vec<InternalItem>>::empty(),
            r.inode_items_recent@ == Map::<u64, InodeItem>::empty(),
            r.dir_item_entries_recent@ == Map::<u64, DirItemEntry>::empty(),
            r.dir_item_children@ == Seq::<u64>::empty(),
            r.dir_item_entries_by_parent@ == Map::<u64, Vec<u64>>::empty(),
            r.extent_datas_index@ == Map::<u64, Vec<ExtentData>>::empty(),
    {
        IndexedFilesystem {
            fs_uuid,
            node_size,
            verify_checksums,
            nodes: Vec::new(),
            leaf_nodes: Vec::new(),
            internal_nodes: Vec::new(),
            skipped: Vec::new(),
            internal_items_by_tree: HashMap::new(),
            chunk_items: Vec::new(),
            dir_item_entries: Vec::new(),
            dir_index_entries: Vec::new(),
            extent_datas: Vec::new(),
            extent_items: Vec::new(),
            inode_items: Vec::new(),
            root_items: Vec::new(),
            root_backrefs: Vec::new(),
            inode_items_recent: HashMap::new(),
            dir_item_entries_recent: HashMap::new(),
            dir_item_children: Vec::new(),
            dir_item_entries_by_parent: HashMap::new(),
            extent_datas_index: HashMap::new(),
            inode_items_index: HashMap::new(),
            dir_item_entries_index: HashMap::new(),
            chunk_items_index: HashMap::new(),
            extent_items_index: HashMap::new(),
            root_items_index: HashMap::new(),
        }
    }

    /// Appends the items of a leaf node with bytes `b` to the flat
    /// collections, each kind in item order.
    pub fn store_leaf_node(&mut self, b: &[u8], items: &Vec<LeafItem>)
        requires
            forall|i: int| 0 <= i < items.len() ==> item_within_payload(#[trigger] items@[i], b@.len()),
            b@.len() >= NODE_HEADER_SIZE,
        ensures
            final(self).inode_items@ == old(self).inode_items@ + leaf_inode_items(b@, items@),
            dir_entry_views(final(self).dir_item_entries@) == dir_entry_views(old(self).dir_item_entries@)
                + leaf_dir_entries(b@, items@, DIR_ITEM_TYPE),
            dir_entry_views(final(self).dir_index_entries@) == dir_entry_views(old(self).dir_index_entries@)
                + leaf_dir_entries(b@, items@, DIR_INDEX_TYPE),
            extent_views(final(self).extent_datas@) == extent_views(old(self).extent_datas@)
                + leaf_extent_datas(b@, items@),
            chunk_views(final(self).chunk_items@) == chunk_views(old(self).chunk_items@) + leaf_chunk_items(b@, items@),
            final(self).root_items@ == old(self).root_items@ + leaf_root_items(b@, items@),
            backref_views(final(self).root_backrefs@) == backref_views(old(self).root_backrefs@)
                + leaf_root_backrefs(b@, items@),
            final(self).extent_items@ == old(self).extent_items@ + leaf_extent_items(b@, items@),
            final(self).internal_items_by_tree == old(self).internal_items_by_tree,
            final(self).inode_items_recent == old(self).inode_items_recent,
            final(self).dir_item_entries_recent == old(self).dir_item_entries_recent,
            final(self).dir_item_entries_by_parent == old(self).dir_item_entries_by_parent,
            final(self).dir_item_children == old(self).dir_item_children,
            final(self).nodes == old(self).nodes,
            final(self).leaf_nodes == old(self).leaf_nodes,
            final(self).internal_nodes == old(self).internal_nodes,
            final(self).skipped == old(self).skipped,
            final(self).fs_uuid == old(self).fs_uuid,
            final(self).node_size == old(self).node_size,
            final(self).verify_checksums == old(self).verify_checksums,
    {
        let blen: usize = b.len();
        let tree_id = read_u64(b, 88);
        let mut i: usize = 0;
        while i < items.len()
            invariant
                i <= items.len(),
                blen == b@.len(),
                tree_id == header_at(b@).tree_id,
                forall|k: int| 0 <= k < items.len() ==> item_within_payload(#[trigger] items@[k], b@.len()),
                b@.len() >= NODE_HEADER_SIZE,
                self.inode_items@ == old(self).inode_items@ + leaf_inode_items(b@, items@.take(i as int)),
                dir_entry_views(self.dir_item_entries@) == dir_entry_views(old(self).dir_item_entries@)
                    + leaf_dir_entries(b@, items@.take(i as int), DIR_ITEM_TYPE),
                dir_entry_views(self.dir_index_entries@) == dir_entry_views(old(self).dir_index_entries@)
                    + leaf_dir_entries(b@, items@.take(i as int), DIR_INDEX_TYPE),
                extent_views(self.extent_datas@) == extent_views(old(self).extent_datas@)
                    + leaf_extent_datas(b@, items@.take(i as int)),
                chunk_views(self.chunk_items@) == chunk_views(old(self).chunk_items@) + leaf_chunk_items(
                    b@,
                    items@.take(i as int),
                ),
                self.root_items@ == old(self).root_items@ + leaf_root_items(b@, items@.take(i as int)),
                backref_views(self.root_backrefs@) == backref_views(old(self).root_backrefs@)
                    + leaf_root_backrefs(b@, items@.take(i as int)),
                self.extent_items@ == old(self).extent_items@ + leaf_extent_items(b@, items@.take(i as int)),
                self.nodes == old(self).nodes,
                self.leaf_nodes == old(self).leaf_nodes,
                self.internal_nodes == old(self).internal_nodes,
                self.internal_items_by_tree == old(self).internal_items_by_tree,
                self.inode_items_recent == old(self).inode_items_recent,
                self.dir_item_entries_recent == old(self).dir_item_entries_recent,
                self.dir_item_entries_by_parent == old(self).dir_item_entries_by_parent,
                self.dir_item_children == old(self).dir_item_children,
                self.skipped == old(self).skipped,
                self.fs_uuid == old(self).fs_uuid,
                self.node_size == old(self).node_size,
                self.verify_checksums == old(self).verify_checksums,
            decreases items.len() - i,
        {
            let it = items[i];
            let ghost t = items@.take(i as int + 1);
            assert(t.drop_last() =~= items@.take(i as int));
            assert(t.last() == it);
            assert(item_within_payload(items@[i as int], b@.len()));
            let start: usize = NODE_HEADER_SIZE + it.data_offset as usize;
            let end: usize = start + it.data_size as usize;
            let d = &b[start..end];
            assert(d@ == item_payload(b@, it));
            let t_type = it.key.item_type;
            if t_type == INODE_ITEM_TYPE {
                if let Some(x) = decode_inode_item(tree_id, it.key, d) {
                    self.inode_items.push(x);
                }
            } else if t_type == DIR_ITEM_TYPE || t_type == DIR_INDEX_TYPE {
                let mut entries = decode_dir_entries(tree_id, it.key, d);
                let ghost decoded = entries@;
                if t_type == DIR_ITEM_TYPE {
                    let ghost before = self.dir_item_entries@;
                    self.dir_item_entries.append(&mut entries);
                    assert(dir_entry_views(self.dir_item_entries@) =~= dir_entry_views(before)
                        + dir_entry_views(decoded));
                } else {
                    let ghost before = self.dir_index_entries@;
                    self.dir_index_entries.append(&mut entries);
                    assert(dir_entry_views(self.dir_index_entries@) =~= dir_entry_views(before)
                        + dir_entry_views(decoded));
                }
            } else if t_type == EXTENT_DATA_TYPE {
                if let Some(x) = decode_extent_data(tree_id, it.key, d) {
                    let ghost before = self.extent_datas@;
                    self.extent_datas.push(x);
                    assert(extent_views(self.extent_datas@) =~= extent_views(before).push(x@));
                }
            } else if t_type == CHUNK_ITEM_TYPE {
                if let Some(x) = decode_chunk_item(it.key, d, 0) {
                    let ghost before = self.chunk_items@;
                    self.chunk_items.push(x);
                    assert(chunk_views(self.chunk_items@) =~= chunk_views(before).push(x@));
                }
            } else if t_type == ROOT_ITEM_TYPE {
                if let Some(x) = decode_root_item(it.key, d) {
                    self.root_items.push(x);
                }
            } else if t_type == ROOT_BACKREF_TYPE {
                if let Some(x) = decode_root_backref(it.key, d) {
                    let ghost before = self.root_backrefs@;
                    self.root_backrefs.push(x);
                    assert(backref_views(self.root_backrefs@) =~= backref_views(before).push(x@));
                }
            } else if t_type == EXTENT_ITEM_TYPE {
                if let Some(x) = decode_extent_item(it.key, d) {
                    self.extent_items.push(x);
                }
            }
            proof {
                assert(items@.take(i as int + 1) == t);
            }
            assert(self.inode_items@ =~= old(self).inode_items@ + leaf_inode_items(b@, t));
            assert(dir_entry_views(self.dir_item_entries@) =~= dir_entry_views(old(self).dir_item_entries@)
                + leaf_dir_entries(b@, t, DIR_ITEM_TYPE));
            assert(dir_entry_views(self.dir_index_entries@) =~= dir_entry_views(old(self).dir_index_entries@)
                + leaf_dir_entries(b@, t, DIR_INDEX_TYPE));
            assert(extent_views(self.extent_datas@) =~= extent_views(old(self).extent_datas@)
                + leaf_extent_datas(b@, t));
            assert(chunk_views(self.chunk_items@) =~= chunk_views(old(self).chunk_items@) + leaf_chunk_items(b@, t));
            assert(self.root_items@ =~= old(self).root_items@ + leaf_root_items(b@, t));
            assert(backref_views(self.root_backrefs@) =~= backref_views(old(self).root_backrefs@)
                + leaf_root_backrefs(b@, t));
            assert(self.extent_items@ =~= old(self).extent_items@ + leaf_extent_items(b@, t));
            i = i + 1;
        }
        assert(items@.take(i as int) =~= items@);
    }

    /// Appends the items of an internal node of tree `tree_id` to that
    /// tree's list.
    pub fn store_internal_node(&mut self, tree_id: u64, items: &Vec<InternalItem>)
        ensures
            final(self).internal_items_by_tree@.dom() == old(self).internal_items_by_tree@.dom().insert(tree_id),
            final(self).internal_items_by_tree@[tree_id]@ == (if old(self).internal_items_by_tree@.contains_key(tree_id) {
                old(self).internal_items_by_tree@[tree_id]@
            } else {
                Seq::<InternalItem>::empty()
            }) + items@,
            forall|t: u64| t != tree_id ==> #[trigger] final(self).internal_items_by_tree@.get(t)
                == old(self).internal_items_by_tree@.get(t),
            final(self).inode_items == old(self).inode_items,
            final(self).dir_item_entries == old(self).dir_item_entries,
            final(self).dir_index_entries == old(self).dir_index_entries,
            final(self).extent_datas == old(self).extent_datas,
            final(self).chunk_items == old(self).chunk_items,
            final(self).root_items == old(self).root_items,
            final(self).root_backrefs == old(self).root_backrefs,
            final(self).extent_items == old(self).extent_items,
            final(self).inode_items_recent == old(self).inode_items_recent,
            final(self).dir_item_entries_recent == old(self).dir_item_entries_recent,
            final(self).dir_item_entries_by_parent == old(self).dir_item_entries_by_parent,
            final(self).dir_item_children == old(self).dir_item_children,
            final(self).nodes == old(self).nodes,
            final(self).leaf_nodes == old(self).leaf_nodes,
            final(self).internal_nodes == old(self).internal_nodes,
            final(self).skipped == old(self).skipped,
            final(self).fs_uuid == old(self).fs_uuid,
            final(self).node_size == old(self).node_size,
            final(self).verify_checksums == old(self).verify_checksums,
    {
        let mut list: Vec<InternalItem> = match self.internal_items_by_tree.remove(&tree_id) {
            Some(v) => v,
            None => Vec::new(),
        };
        let mut copy = vstd::slice::slice_to_vec(items.as_slice());
        list.append(&mut copy);
        self.internal_items_by_tree.insert(tree_id, list);
        assert forall|t: u64| t != tree_id implies #[trigger] self.internal_items_by_tree@.get(t)
            == old(self).internal_items_by_tree@.get(t) by {
            if old(self).internal_items_by_tree@.contains_key(t) {
                assert(self.internal_items_by_tree@.contains_key(t));
            }
        }
    }

    /// Reads the node at each global position of `positions` (each device
    /// following the one before) and stores what it holds; a position where
    /// no valid node lies is recorded as skipped, with the reason.
    pub fn add_nodes(&mut self, devices: &Vec<&[u8]>, positions: &Vec<u64>)
        ensures
            final(self).nodes@ == old(self).nodes@ + accepted_nodes(
                device_contents(devices@),
                old(self).fs_uuid@,
                old(self).node_size as nat,
                old(self).verify_checksums,
                positions@,
            ),
            final(self).inode_items@ == old(self).inode_items@ + indexed_inode_items(
                device_contents(devices@),
                old(self).fs_uuid@,
                old(self).node_size as nat,
                old(self).verify_checksums,
                positions@,
            ),
            dir_entry_views(final(self).dir_item_entries@) == dir_entry_views(old(self).dir_item_entries@)
                + indexed_dir_entries(
                device_contents(devices@),
                old(self).fs_uuid@,
                old(self).node_size as nat,
                old(self).verify_checksums,
                positions@,
            ),
            extent_views(final(self).extent_datas@) == extent_views(old(self).extent_datas@)
                + indexed_extent_datas(
                device_contents(devices@),
                old(self).fs_uuid@,
                old(self).node_size as nat,
                old(self).verify_checksums,
                positions@,
            ),
            chunk_views(final(self).chunk_items@) == chunk_views(old(self).chunk_items@) + indexed_chunk_items(
                device_contents(devices@),
                old(self).fs_uuid@,
                old(self).node_size as nat,
                old(self).verify_checksums,
                positions@,
            ),
            final(self).root_items@ == old(self).root_items@ + indexed_root_items(
                device_contents(devices@),
                old(self).fs_uuid@,
                old(self).node_size as nat,
                old(self).verify_checksums,
                positions@,
            ),
            backref_views(final(self).root_backrefs@) == backref_views(old(self).root_backrefs@)
                + indexed_root_backrefs(
                device_contents(devices@),
                old(self).fs_uuid@,
                old(self).node_size as nat,
                old(self).verify_checksums,
                positions@,
            ),
            dir_entry_views(final(self).dir_index_entries@) == dir_entry_views(old(self).dir_index_entries@)
                + indexed_dir_index_entries(
                device_contents(devices@),
                old(self).fs_uuid@,
                old(self).node_size as nat,
                old(self).verify_checksums,
                positions@,
            ),
            final(self).extent_items@ == old(self).extent_items@ + indexed_extent_items(
                device_contents(devices@),
                old(self).fs_uuid@,
                old(self).node_size as nat,
                old(self).verify_checksums,
                positions@,
            ),
            final(self).leaf_nodes@ == old(self).leaf_nodes@ + accepted_positions(
                device_contents(devices@),
                old(self).fs_uuid@,
                old(self).node_size as nat,
                old(self).verify_checksums,
                positions@,
                true,
            ),
            final(self).internal_nodes@ == old(self).internal_nodes@ + accepted_positions(
                device_contents(devices@),
                old(self).fs_uuid@,
                old(self).node_size as nat,
                old(self).verify_checksums,
                positions@,
                false,
            ),
            skipped_positions(final(self).skipped@) == skipped_positions(old(self).skipped@) + rejected_positions(
                device_contents(devices@),
                old(self).fs_uuid@,
                old(self).node_size as nat,
                old(self).verify_checksums,
                positions@,
            ),
            forall|k: int|
                old(self).skipped.len() <= k < final(self).skipped.len() ==> skip_reason_fits(
                    device_contents(devices@),
                    old(self).fs_uuid@,
                    old(self).node_size as nat,
                    old(self).verify_checksums,
                    #[trigger] final(self).skipped@[k],
                ),
            forall|t: u64|
                #[trigger] tree_items(final(self).internal_items_by_tree@, t) == tree_items(old(self).internal_items_by_tree@, t)
                    + indexed_internal_items(
                device_contents(devices@),
                old(self).fs_uuid@,
                old(self).node_size as nat,
                old(self).verify_checksums,
                positions@,
                    t,
                ),
            forall|t: u64|
                #[trigger] final(self).internal_items_by_tree@.contains_key(t) <==> old(self).internal_items_by_tree@.contains_key(t)
                    || internal_tree_seen(
                device_contents(devices@),
                old(self).fs_uuid@,
                old(self).node_size as nat,
                old(self).verify_checksums,
                positions@,
                    t,
                ),
            is_object_index(inode_keys(final(self).inode_items@), final(self).inode_items_index@),
            is_object_index(dir_entry_keys(final(self).dir_item_entries@), final(self).dir_item_entries_index@),
            is_object_index(chunk_keys(final(self).chunk_items@), final(self).chunk_items_index@),
            is_object_index(extent_item_keys(final(self).extent_items@), final(self).extent_items_index@),
            is_object_index(root_item_keys(final(self).root_items@), final(self).root_items_index@),
            forall|o: u64| #[trigger] final(self).extent_datas_index@.contains_key(o) <==> extents_of(
                extent_views(final(self).extent_datas@),
                o,
            ).len() > 0,
            forall|o: u64|
                #[trigger] final(self).extent_datas_index@.contains_key(o) ==> extent_views(
                    final(self).extent_datas_index@[o]@,
                ) == sort_by_offset(extents_of(extent_views(final(self).extent_datas@), o)),
            final(self).inode_items_recent == old(self).inode_items_recent,
            final(self).dir_item_entries_recent == old(self).dir_item_entries_recent,
            final(self).dir_item_entries_by_parent == old(self).dir_item_entries_by_parent,
            final(self).dir_item_children == old(self).dir_item_children,
            final(self).fs_uuid == old(self).fs_uuid,
            final(self).node_size == old(self).node_size,
            final(self).verify_checksums == old(self).verify_checksums,
    {
        let ghost contents = device_contents(devices@);
        let ghost uuid = self.fs_uuid@;
        let ghost ns = self.node_size as nat;
        let ghost verify = self.verify_checksums;
        let mut k: usize = 0;
        while k < positions.len()
            invariant
                k <= positions.len(),
                contents == device_contents(devices@),
                uuid == self.fs_uuid@,
                uuid == old(self).fs_uuid@,
                ns == self.node_size as nat,
                verify == self.verify_checksums,
                verify == old(self).verify_checksums,
                self.fs_uuid == old(self).fs_uuid,
                self.node_size == old(self).node_size,
                self.nodes@ == old(self).nodes@ + accepted_nodes(contents, uuid, ns, verify, positions@.take(k as int)),
                self.inode_items@ == old(self).inode_items@ + indexed_inode_items(contents, uuid, ns, verify, positions@.take(k as int)),
                dir_entry_views(self.dir_item_entries@) == dir_entry_views(old(self).dir_item_entries@)
                    + indexed_dir_entries(contents, uuid, ns, verify, positions@.take(k as int)),
                extent_views(self.extent_datas@) == extent_views(old(self).extent_datas@)
                    + indexed_extent_datas(contents, uuid, ns, verify, positions@.take(k as int)),
                chunk_views(self.chunk_items@) == chunk_views(old(self).chunk_items@)
                    + indexed_chunk_items(contents, uuid, ns, verify, positions@.take(k as int)),
                self.root_items@ == old(self).root_items@ + indexed_root_items(contents, uuid, ns, verify, positions@.take(k as int)),
                backref_views(self.root_backrefs@) == backref_views(old(self).root_backrefs@)
                    + indexed_root_backrefs(contents, uuid, ns, verify, positions@.take(k as int)),
                dir_entry_views(self.dir_index_entries@) == dir_entry_views(old(self).dir_index_entries@)
                    + indexed_dir_index_entries(contents, uuid, ns, verify, positions@.take(k as int)),
                self.extent_items@ == old(self).extent_items@ + indexed_extent_items(contents, uuid, ns, verify, positions@.take(k as int)),
                self.leaf_nodes@ == old(self).leaf_nodes@ + accepted_positions(contents, uuid, ns, verify, positions@.take(k as int), true),
                self.internal_nodes@ == old(self).internal_nodes@ + accepted_positions(contents, uuid, ns, verify, positions@.take(k as int), false),
                skipped_positions(self.skipped@) == skipped_positions(old(self).skipped@) + rejected_positions(contents, uuid, ns, verify, positions@.take(k as int)),
                old(self).skipped.len() <= self.skipped.len(),
                forall|j: int|
                    old(self).skipped.len() <= j < self.skipped.len() ==> skip_reason_fits(contents, uuid, ns, verify, #[trigger] self.skipped@[j]),
                forall|q: u64|
                    #[trigger] tree_items(self.internal_items_by_tree@, q) == tree_items(old(self).internal_items_by_tree@, q)
                        + indexed_internal_items(contents, uuid, ns, verify, positions@.take(k as int), q),
                forall|q: u64|
                    #[trigger] self.internal_items_by_tree@.contains_key(q) <==> old(self).internal_items_by_tree@.contains_key(q)
                        || internal_tree_seen(contents, uuid, ns, verify, positions@.take(k as int), q),
                self.inode_items_recent == old(self).inode_items_recent,
                self.dir_item_entries_recent == old(self).dir_item_entries_recent,
                self.dir_item_entries_by_parent == old(self).dir_item_entries_by_parent,
                self.dir_item_children == old(self).dir_item_children,
            decreases positions.len() - k,
        {
            let p = positions[k];
            let ghost old_skipped = self.skipped@;
            let ghost old_trees = self.internal_items_by_tree@;
            let ghost mut added_tree: Option<u64> = None;
            let ghost t = positions@.take(k as int + 1);
            assert(t.drop_last() =~= positions@.take(k as int));
            assert(t.last() == p);
            let ghost old_nodes = self.nodes@;
            let ghost old_inodes = self.inode_items@;
            let ghost old_dirs = dir_entry_views(self.dir_item_entries@);
            let ghost old_extents = extent_views(self.extent_datas@);
            let node_size: usize = self.node_size as usize;
            let located = locate_position(devices, p);
            let mut bytes: Option<&[u8]> = None;
            if let Some((i, l)) = located {
                let device: &[u8] = devices[i];
                assert(contents[i as int] == device@);
                assert(locate(contents, 0, p as int) == Some((i as int, l as int)));
                if node_size <= device.len() - l {
                    bytes = Some(&device[l..l + node_size]);
                } else {
                    assert(node_bytes_at(contents, ns, p as int) is None);
                }
            } else {
                assert(locate(contents, 0, p as int) is None);
            }
            assert(match bytes {
                None => node_bytes_at(contents, ns, p as int) is None,
                Some(b) => node_bytes_at(contents, ns, p as int) == Some(b@),
            });
            match bytes {
                None => {
                    self.skipped.push((p, SkipReason::OutOfRange));
                },
                Some(b) => {
                    let checksum_ok = !self.verify_checksums || verify_node_checksum(b);
                    match parse_node(b, p, self.fs_uuid.as_slice()) {
                        Err(e) => {
                            self.skipped.push((p, SkipReason::BadNode(e)));
                        },
                        Ok(_) if !checksum_ok => {
                            self.skipped.push((p, SkipReason::BadChecksum));
                        },
                        Ok(node) => {
                            self.nodes.push((p, node.header));
                            match node.items {
                                NodeItems::Leaf(items) => {
                                    self.leaf_nodes.push(p);
                                    assert(items@ =~= leaf_items_of(b@));
                                    assert forall|i: int| 0 <= i < items.len() implies item_within_payload(
                                        #[trigger] items@[i],
                                        b@.len(),
                                    ) by {
                                        assert(items@[i] == leaf_item_at(b@, i));
                                    }
                                    self.store_leaf_node(b, &items);
                                },
                                NodeItems::Internal(items) => {
                                    self.internal_nodes.push(p);
                                    assert(items@ =~= internal_items_of(b@));
                                    self.store_internal_node(node.header.tree_id, &items);
                                    proof {
                                        added_tree = Some(node.header.tree_id);
                                    }
                                },
                            }
                        },
                    }
                },
            }
            assert(self.nodes@ =~= old(self).nodes@ + accepted_nodes(contents, uuid, ns, verify, t));
            assert(self.inode_items@ =~= old(self).inode_items@ + indexed_inode_items(contents, uuid, ns, verify, t));
            assert(dir_entry_views(self.dir_item_entries@) =~= dir_entry_views(old(self).dir_item_entries@)
                + indexed_dir_entries(contents, uuid, ns, verify, t));
            assert(extent_views(self.extent_datas@) =~= extent_views(old(self).extent_datas@)
                + indexed_extent_datas(contents, uuid, ns, verify, t));
            assert(chunk_views(self.chunk_items@) =~= chunk_views(old(self).chunk_items@)
                + indexed_chunk_items(contents, uuid, ns, verify, t));
            assert(self.root_items@ =~= old(self).root_items@ + indexed_root_items(contents, uuid, ns, verify, t));
            assert(backref_views(self.root_backrefs@) =~= backref_views(old(self).root_backrefs@)
                + indexed_root_backrefs(contents, uuid, ns, verify, t));
            assert(dir_entry_views(self.dir_index_entries@) =~= dir_entry_views(old(self).dir_index_entries@)
                + indexed_dir_index_entries(contents, uuid, ns, verify, t));
            assert(self.extent_items@ =~= old(self).extent_items@ + indexed_extent_items(contents, uuid, ns, verify, t));
            assert(self.leaf_nodes@ =~= old(self).leaf_nodes@ + accepted_positions(contents, uuid, ns, verify, t, true));
            assert(self.internal_nodes@ =~= old(self).internal_nodes@ + accepted_positions(contents, uuid, ns, verify, t, false));
            assert(skipped_positions(self.skipped@) =~= skipped_positions(old(self).skipped@) + rejected_positions(contents, uuid, ns, verify, t)) by {
                if self.skipped.len() > old_skipped.len() {
                    assert(self.skipped@ == old_skipped.push(self.skipped@.last()));
                    assert(skipped_positions(self.skipped@) =~= skipped_positions(old_skipped).push(p));
                } else {
                    assert(self.skipped@ == old_skipped);
                }
            }
            assert forall|q: u64|
                #[trigger] tree_items(self.internal_items_by_tree@, q) == tree_items(old(self).internal_items_by_tree@, q)
                    + indexed_internal_items(contents, uuid, ns, verify, t, q) by {
                if internal_of_tree(contents, uuid, ns, verify, p as int, q) {
                    assert(tree_items(self.internal_items_by_tree@, q) =~= tree_items(old_trees, q)
                        + internal_items_of(node_bytes_at(contents, ns, p as int)->0));
                    assert(tree_items(old_trees, q) == tree_items(old(self).internal_items_by_tree@, q)
                        + indexed_internal_items(contents, uuid, ns, verify, positions@.take(k as int), q));
                    assert(tree_items(self.internal_items_by_tree@, q) =~= tree_items(old(self).internal_items_by_tree@, q)
                        + indexed_internal_items(contents, uuid, ns, verify, t, q));
                } else {
                    if added_tree is Some {
                        assert(q != added_tree->0);
                        assert(self.internal_items_by_tree@.get(q) == old_trees.get(q));
                        assert(self.internal_items_by_tree@.contains_key(q) == old_trees.contains_key(q));
                    } else {
                        assert(self.internal_items_by_tree@ == old_trees);
                    }
                    assert(tree_items(self.internal_items_by_tree@, q) == tree_items(old_trees, q));
                    assert(tree_items(old_trees, q) == tree_items(old(self).internal_items_by_tree@, q)
                        + indexed_internal_items(contents, uuid, ns, verify, positions@.take(k as int), q));
                    assert(indexed_internal_items(contents, uuid, ns, verify, t, q) == indexed_internal_items(
                        contents, uuid, ns, verify, positions@.take(k as int), q));
                }
            }
            assert forall|q: u64|
                #[trigger] self.internal_items_by_tree@.contains_key(q) <==> old(self).internal_items_by_tree@.contains_key(q)
                    || internal_tree_seen(contents, uuid, ns, verify, t, q) by {
                if !internal_of_tree(contents, uuid, ns, verify, p as int, q) {
                    if added_tree is Some {
                        assert(self.internal_items_by_tree@.get(q) == old_trees.get(q));
                    }
                    assert(self.internal_items_by_tree@.contains_key(q) == old_trees.contains_key(q));
                }
            }
            k = k + 1;
        }
        assert(positions@.take(k as int) =~= positions@);
        self.build_item_indexes();
    }

    /// Builds the per-object indexes: for each kind, the positions of each
    /// object id's items sorted stably by key, and the extent-data items of
    /// each object id sorted by file offset.
    pub fn build_item_indexes(&mut self)
        ensures
            same_items(*final(self), *old(self)),
            final(self).inode_items_recent == old(self).inode_items_recent,
            final(self).dir_item_entries_recent == old(self).dir_item_entries_recent,
            final(self).dir_item_entries_by_parent == old(self).dir_item_entries_by_parent,
            final(self).dir_item_children == old(self).dir_item_children,
            is_object_index(inode_keys(final(self).inode_items@), final(self).inode_items_index@),
            is_object_index(dir_entry_keys(final(self).dir_item_entries@), final(self).dir_item_entries_index@),
            is_object_index(chunk_keys(final(self).chunk_items@), final(self).chunk_items_index@),
            is_object_index(extent_item_keys(final(self).extent_items@), final(self).extent_items_index@),
            is_object_index(root_item_keys(final(self).root_items@), final(self).root_items_index@),
            forall|o: u64| #[trigger] final(self).extent_datas_index@.contains_key(o) <==> extents_of(
                extent_views(final(self).extent_datas@),
                o,
            ).len() > 0,
            forall|o: u64|
                #[trigger] final(self).extent_datas_index@.contains_key(o) ==> extent_views(
                    final(self).extent_datas_index@[o]@,
                ) == sort_by_offset(extents_of(extent_views(final(self).extent_datas@), o)),
    {
        let keys = inode_keys_of(&self.inode_items);
        self.inode_items_index = build_object_index(&keys);
        let keys = dir_entry_keys_of(&self.dir_item_entries);
        self.dir_item_entries_index = build_object_index(&keys);
        let keys = chunk_keys_of(&self.chunk_items);
        self.chunk_items_index = build_object_index(&keys);
        let keys = extent_item_keys_of(&self.extent_items);
        self.extent_items_index = build_object_index(&keys);
        let keys = root_item_keys_of(&self.root_items);
        self.root_items_index = build_object_index(&keys);
        self.extent_datas_index = extent_datas_by_object(&self.extent_datas);
    }

    /// Picks the most recent inode item of each object id.
    pub fn build_inode_items_index(&mut self)
        ensures
            final(self).inode_items_recent@ == recent_inodes(old(self).inode_items@),
            same_items(*final(self), *old(self)),
            same_object_indexes(*final(self), *old(self)),
            final(self).dir_item_entries_recent == old(self).dir_item_entries_recent,
            final(self).dir_item_entries_by_parent == old(self).dir_item_entries_by_parent,
            final(self).dir_item_children == old(self).dir_item_children,
            final(self).extent_datas_index == old(self).extent_datas_index,
    {
        self.inode_items_recent = most_recent_inodes(&self.inode_items);
    }

    /// Picks the most recent directory entry of each child object id and
    /// groups the children by parent directory: the children listed under a
    /// directory are exactly, without repeats, those whose most recent entry
    /// lies in it.
    pub fn build_dir_items_index(&mut self)
        ensures
            same_items(*final(self), *old(self)),
            same_object_indexes(*final(self), *old(self)),
            final(self).inode_items_recent == old(self).inode_items_recent,
            final(self).extent_datas_index == old(self).extent_datas_index,
            forall|d: u64| #[trigger] final(self).dir_item_entries_by_parent@.contains_key(d)
                ==> final(self).dir_item_entries_by_parent@[d]@.len() > 0,
            dir_map_view(final(self).dir_item_entries_recent@) == recent_dir_entries(
                dir_entry_views(old(self).dir_item_entries@),
            ),
            forall|d: u64| #[trigger] final(self).dir_item_entries_by_parent@.contains_key(d)
                ==> final(self).dir_item_entries_by_parent@[d]@.no_duplicates(),
            forall|d: u64, c: u64|
                #![trigger final(self).dir_item_entries_by_parent@[d]@.contains(c)]
                final(self).dir_item_entries_by_parent@.contains_key(d)
                    && final(self).dir_item_entries_by_parent@[d]@.contains(c)
                    ==> final(self).dir_item_entries_recent@.contains_key(c)
                    && final(self).dir_item_entries_recent@[c].key.object_id == d,
            forall|c: u64|
                #[trigger] final(self).dir_item_entries_recent@.contains_key(c) ==> {
                    let d = final(self).dir_item_entries_recent@[c].key.object_id;
                    final(self).dir_item_entries_by_parent@.contains_key(d)
                        && final(self).dir_item_entries_by_parent@[d]@.contains(c)
                },
            final(self).dir_item_children@.no_duplicates(),
            forall|c: u64| final(self).dir_item_children@.contains(c) <==> final(self).dir_item_entries_recent@.contains_key(c),
    {
        let (recent, order) = most_recent_dir_entries(&self.dir_item_entries);
        let by_parent = group_by_parent(&recent, &order);
        assert forall|c: u64| #[trigger] recent@.contains_key(c) implies order@.contains(c) by {}
        self.dir_item_entries_recent = recent;
        self.dir_item_children = order;
        self.dir_item_entries_by_parent = by_parent;
    }

    /// Groups the extent-data items by object id, each group sorted stably
    /// by file offset.
    pub fn build_extent_datas_index(&mut self)
        ensures
            same_items(*final(self), *old(self)),
            same_object_indexes(*final(self), *old(self)),
            final(self).inode_items_recent == old(self).inode_items_recent,
            final(self).dir_item_entries_recent == old(self).dir_item_entries_recent,
            final(self).dir_item_entries_by_parent == old(self).dir_item_entries_by_parent,
            final(self).dir_item_children == old(self).dir_item_children,
            forall|o: u64| #[trigger] final(self).extent_datas_index@.contains_key(o) <==> extents_of(
                extent_views(old(self).extent_datas@),
                o,
            ).len() > 0,
            forall|o: u64|
                #[trigger] final(self).extent_datas_index@.contains_key(o) ==> extent_views(
                    final(self).extent_datas_index@[o]@,
                ) == sort_by_offset(extents_of(extent_views(old(self).extent_datas@), o)),
    {
        self.extent_datas_index = extent_datas_by_object(&self.extent_datas);
    }

    /// Indexes the nodes at `positions` of `devices` for the filesystem with
    /// `fs_uuid` and `node_size`, and builds every secondary index.
    pub fn open(devices: &Vec<&[u8]>, positions: &Vec<u64>, fs_uuid: Vec<u8>, node_size: u32, verify_checksums: bool) -> (r: IndexedFilesystem)
        ensures
            r.fs_uuid == fs_uuid,
            r.node_size == node_size,
            r.verify_checksums == verify_checksums,
            r.nodes@ == accepted_nodes(device_contents(devices@), fs_uuid@, node_size as nat, verify_checksums, positions@),
            r.inode_items@ == indexed_inode_items(device_contents(devices@), fs_uuid@, node_size as nat, verify_checksums, positions@),
            dir_entry_views(r.dir_item_entries@) == indexed_dir_entries(device_contents(devices@), fs_uuid@, node_size as nat, verify_checksums, positions@),
            extent_views(r.extent_datas@) == indexed_extent_datas(device_contents(devices@), fs_uuid@, node_size as nat, verify_checksums, positions@),
            chunk_views(r.chunk_items@) == indexed_chunk_items(device_contents(devices@), fs_uuid@, node_size as nat, verify_checksums, positions@),
            r.root_items@ == indexed_root_items(device_contents(devices@), fs_uuid@, node_size as nat, verify_checksums, positions@),
            r.indexes_built(),
    {
        let ghost uuid = fs_uuid@;
        let mut fs = IndexedFilesystem::new(fs_uuid, node_size, verify_checksums);
        assert(dir_entry_views(fs.dir_item_entries@) =~= Seq::<DirEntryView>::empty());
        assert(extent_views(fs.extent_datas@) =~= Seq::<ExtentDataView>::empty());
        assert(chunk_views(fs.chunk_items@) =~= Seq::<ChunkView>::empty());
        fs.add_nodes(devices, positions);
        assert(fs.nodes@ =~= accepted_nodes(device_contents(devices@), uuid, node_size as nat, verify_checksums, positions@));
        assert(fs.inode_items@ =~= indexed_inode_items(device_contents(devices@), uuid, node_size as nat, verify_checksums, positions@));
        assert(fs.root_items@ =~= indexed_root_items(device_contents(devices@), uuid, node_size as nat, verify_checksums, positions@));
        assert(dir_entry_views(fs.dir_item_entries@) =~= indexed_dir_entries(device_contents(devices@), uuid, node_size as nat, verify_checksums, positions@));
        assert(extent_views(fs.extent_datas@) =~= indexed_extent_datas(device_contents(devices@), uuid, node_size as nat, verify_checksums, positions@));
        assert(chunk_views(fs.chunk_items@) =~= indexed_chunk_items(device_contents(devices@), uuid, node_size as nat, verify_checksums, positions@));
        fs.build_inode_items_index();
        fs.build_dir_items_index();
        fs
    }
}

} // verus!
