use vstd::prelude::*;

use crate::chunk_map::{bootstrap_chunk_map, system_chunks_from, translate, ChunkMap};
use crate::superblock::Superblock;
use crate::indexer::{item_payload, leaf_chunk_items, leaf_items_of};
use crate::items::{decode_chunk_item, ChunkView, CHUNK_ITEM_TYPE};
use crate::node::{
    header_at, internal_item_at, is_valid_node, item_within_payload, leaf_item_at, parse_node, InternalItem,
    LeafItem, NodeItems, NODE_HEADER_SIZE,
};
use crate::scanner::device_contents;

verus! {

#[derive(PartialEq, Eq, Structural, Clone, Copy, Debug)]
pub enum ChunkTreeError {
    /// No chunk known so far maps this node's logical address.
    NotMapped(u64),
    /// The node at this logical address lies outside the devices.
    OutOfRange(u64),
    /// The bytes at this logical address are no valid node.
    BadNode(u64),
    /// The node at this logical address is not at the level its parent says.
    WrongLevel(u64),
}

/// The `node_size` bytes at `physical` on device `device` (numbered from 1).
pub open spec fn physical_node(devices: Seq<Seq<u8>>, device: u64, physical: u64, node_size: nat) -> Option<Seq<u8>> {
    if 1 <= device <= devices.len() && physical + node_size <= devices[device - 1].len() {
        Some(devices[device - 1].subrange(physical as int, physical + node_size))
    } else {
        None
    }
}

/// The internal items of node `b`.
pub open spec fn internal_items_of(b: Seq<u8>) -> Seq<InternalItem> {
    Seq::new(header_at(b).num_items as nat, |i: int| internal_item_at(b, i))
}

/// Walks the chunk-tree node at `logical`, which should be at `level`,
/// with the chunk entries known so far: a leaf adds its chunk items in
/// order; an internal node walks its children in order, each translated
/// with the entries known when it is reached.
pub open spec fn walk_node(
    devices: Seq<Seq<u8>>,
    uuid: Seq<u8>,
    node_size: nat,
    entries: Seq<ChunkView>,
    logical: u64,
    level: nat,
) -> Result<Seq<ChunkView>, ChunkTreeError>
    decreases level, 1nat, 0nat,
{
    match translate(entries, logical) {
        None => Err(ChunkTreeError::NotMapped(logical)),
        Some((device, physical)) => match physical_node(devices, device, physical, node_size) {
            None => Err(ChunkTreeError::OutOfRange(logical)),
            Some(b) => if !is_valid_node(b, uuid) {
                Err(ChunkTreeError::BadNode(logical))
            } else if header_at(b).level != level {
                Err(ChunkTreeError::WrongLevel(logical))
            } else if level == 0 {
                Ok(entries + leaf_chunk_items(b, leaf_items_of(b)))
            } else {
                walk_items(devices, uuid, node_size, entries, internal_items_of(b), 0, level)
            },
        },
    }
}

/// Walks the children `items[k..]` of an internal node at `level`.
pub open spec fn walk_items(
    devices: Seq<Seq<u8>>,
    uuid: Seq<u8>,
    node_size: nat,
    entries: Seq<ChunkView>,
    items: Seq<InternalItem>,
    k: int,
    level: nat,
) -> Result<Seq<ChunkView>, ChunkTreeError>
    decreases level, 0nat, if 0 <= k <= items.len() { (items.len() - k) as nat } else { 0nat },
{
    if level == 0 || k < 0 || k >= items.len() {
        Ok(entries)
    } else {
        match walk_node(devices, uuid, node_size, entries, items[k].block_number, (level - 1) as nat) {
            Err(e) => Err(e),
            Ok(next) => walk_items(devices, uuid, node_size, next, items, k + 1, level),
        }
    }
}

/// The node bytes at `physical` on device `device`.
fn read_physical_node<'a>(devices: &Vec<&'a [u8]>, device: u64, physical: u64, node_size: u32) -> (r: Option<&'a [u8]>)
    ensures
        match physical_node(device_contents(devices@), device, physical, node_size as nat) {
            None => r is None,
            Some(b) => r is Some && r->0@ == b,
        },
{
    if device == 0 || device > devices.len() as u64 {
        return None;
    }
    let d: &[u8] = devices[(device - 1) as usize];
    assert(device_contents(devices@)[device - 1] == d@);
    let len: usize = d.len();
    if physical > len as u64 || node_size as u64 > len as u64 - physical {
        return None;
    }
    let start: usize = physical as usize;
    Some(&d[start..start + node_size as usize])
}

/// Adds the chunk items among leaf items `items` of node `b` to `map`.
fn add_leaf_chunks(map: &mut ChunkMap, b: &[u8], items: &Vec<LeafItem>)
    requires
        forall|i: int| 0 <= i < items.len() ==> item_within_payload(#[trigger] items@[i], b@.len()),
        b@.len() >= NODE_HEADER_SIZE,
    ensures
        final(map)@ == old(map)@ + leaf_chunk_items(b@, items@),
{
    let blen: usize = b.len();
    let mut i: usize = 0;
    while i < items.len()
        invariant
            i <= items.len(),
            blen == b@.len(),
            b@.len() >= NODE_HEADER_SIZE,
            forall|k: int| 0 <= k < items.len() ==> item_within_payload(#[trigger] items@[k], b@.len()),
            map@ == old(map)@ + leaf_chunk_items(b@, items@.take(i as int)),
        decreases items.len() - i,
    {
        let it = items[i];
        let ghost t = items@.take(i as int + 1);
        assert(t.drop_last() =~= items@.take(i as int));
        assert(t.last() == it);
        assert(item_within_payload(items@[i as int], b@.len()));
        if it.key.item_type == CHUNK_ITEM_TYPE {
            let start: usize = NODE_HEADER_SIZE + it.data_offset as usize;
            let end: usize = start + it.data_size as usize;
            let d = &b[start..end];
            assert(d@ == item_payload(b@, it));
            if let Some(c) = decode_chunk_item(it.key, d, 0) {
                map.add(c);
            }
        }
        assert(map@ =~= old(map)@ + leaf_chunk_items(b@, t));
        i = i + 1;
    }
    assert(items@.take(i as int) =~= items@);
}

/// Walks the chunk-tree node at `logical`, which should be at `level`,
/// adding the chunk items found to `map` as `walk_node` says.
fn walk_chunk_node(devices: &Vec<&[u8]>, uuid: &[u8], node_size: u32, map: &mut ChunkMap, logical: u64, level: u8) -> (r: Result<(), ChunkTreeError>)
    ensures
        match walk_node(device_contents(devices@), uuid@, node_size as nat, old(map)@, logical, level as nat) {
            Ok(e) => r is Ok && final(map)@ == e,
            Err(e) => r == Err::<(), ChunkTreeError>(e),
        },
    decreases level,
{
    let ghost contents = device_contents(devices@);
    let (device, physical) = match map.logical_to_physical(logical) {
        Err(_) => {
            return Err(ChunkTreeError::NotMapped(logical));
        },
        Ok(x) => x,
    };
    let b = match read_physical_node(devices, device, physical, node_size) {
        None => {
            return Err(ChunkTreeError::OutOfRange(logical));
        },
        Some(b) => b,
    };
    let node = match parse_node(b, physical, uuid) {
        Err(_) => {
            return Err(ChunkTreeError::BadNode(logical));
        },
        Ok(n) => n,
    };
    if node.header.level != level {
        return Err(ChunkTreeError::WrongLevel(logical));
    }
    match node.items {
        NodeItems::Leaf(items) => {
            assert(items@ =~= leaf_items_of(b@));
            assert forall|i: int| 0 <= i < items.len() implies item_within_payload(#[trigger] items@[i], b@.len()) by {
                assert(items@[i] == leaf_item_at(b@, i));
            }
            add_leaf_chunks(map, b, &items);
            Ok(())
        },
        NodeItems::Internal(items) => {
            assert(items@ =~= internal_items_of(b@));
            let ghost e0 = old(map)@;
            assert(walk_node(contents, uuid@, node_size as nat, e0, logical, level as nat) == walk_items(
                contents,
                uuid@,
                node_size as nat,
                e0,
                items@,
                0,
                level as nat,
            ));
            let mut k: usize = 0;
            while k < items.len()
                invariant
                    k <= items.len(),
                    level > 0,
                    e0 == old(map)@,
                    contents == device_contents(devices@),
                    items@ == internal_items_of(b@),
                    walk_node(contents, uuid@, node_size as nat, e0, logical, level as nat) == walk_items(
                        contents,
                        uuid@,
                        node_size as nat,
                        e0,
                        items@,
                        0,
                        level as nat,
                    ),
                    walk_items(contents, uuid@, node_size as nat, e0, items@, 0, level as nat) == walk_items(
                        contents,
                        uuid@,
                        node_size as nat,
                        map@,
                        items@,
                        k as int,
                        level as nat,
                    ),
                decreases items.len() - k,
            {
                let ghost before = map@;
                match walk_chunk_node(devices, uuid, node_size, map, items[k].block_number, level - 1) {
                    Err(e) => {
                        assert(walk_items(contents, uuid@, node_size as nat, before, items@, k as int, level as nat)
                            == Err::<Seq<ChunkView>, ChunkTreeError>(e));
                        assert(walk_node(contents, uuid@, node_size as nat, e0, logical, level as nat)
                            == Err::<Seq<ChunkView>, ChunkTreeError>(e));
                        assert(e0 == old(map)@);
                        return Err(e);
                    },
                    Ok(()) => {},
                }
                k = k + 1;
            }
            Ok(())
        },
    }
}

/// Reads the chunk tree: starts from the superblock's bootstrap chunk
/// array and walks the tree from its root, adding every chunk item found,
/// as `walk_node` says.
pub fn read_chunk_tree(devices: &Vec<&[u8]>, sb: &Superblock) -> (r: Result<ChunkMap, ChunkTreeError>)
    ensures
        match walk_node(
            device_contents(devices@),
            sb.fs_uuid@,
            sb.node_size as nat,
            system_chunks_from(sb.system_chunks@, 0),
            sb.chunk_tree_logical_address,
            sb.chunk_root_level as nat,
        ) {
            Ok(e) => r is Ok && r->Ok_0@ == e,
            Err(e) => r is Err && r->Err_0 == e,
        },
{
    let mut map = bootstrap_chunk_map(sb.system_chunks.as_slice());
    match walk_chunk_node(devices, sb.fs_uuid.as_slice(), sb.node_size, &mut map, sb.chunk_tree_logical_address, sb.chunk_root_level) {
        Ok(()) => Ok(map),
        Err(e) => Err(e),
    }
}

} // verus!
