use vstd::prelude::*;

use crate::layout::{bytes_equal_at, read_u32, read_u64, u32_at, u64_at};
use crate::scanner::NODE_UUID_OFFSET;

verus! {

/// Size of a node header.
pub const NODE_HEADER_SIZE: usize = 101;

/// Size of a leaf item header: key, data offset, data size.
pub const LEAF_ITEM_SIZE: usize = 25;

/// Size of an internal item: key, block number, generation.
pub const INTERNAL_ITEM_SIZE: usize = 33;

/// Levels are below this bound.
pub const LEVEL_BOUND: u8 = 8;

/// An item key, ordered by object id, then item type, then offset.
#[derive(PartialEq, Eq, Structural, Clone, Copy, Debug)]
pub struct Key {
    pub object_id: u64,
    pub item_type: u8,
    pub offset: u64,
}

/// The key stored at byte `off` of `b`.
pub open spec fn key_at(b: Seq<u8>, off: int) -> Key {
    Key { object_id: u64_at(b, off), item_type: b[off + 8], offset: u64_at(b, off + 9) }
}

/// Whether key `a` sorts before or equal to key `b`.
pub open spec fn key_le(a: Key, b: Key) -> bool {
    a.object_id < b.object_id || (a.object_id == b.object_id && (a.item_type < b.item_type || (
    a.item_type == b.item_type && a.offset <= b.offset)))
}

pub fn read_key(b: &[u8], off: usize) -> (r: Key)
    requires
        off + 17 <= b@.len(),
    ensures
        r == key_at(b@, off as int),
{
    let len: usize = b.len();
    assert(off + 17 <= len);
    Key { object_id: read_u64(b, off), item_type: b[off + 8], offset: read_u64(b, off + 9) }
}

pub fn compare_keys(a: &Key, b: &Key) -> (r: bool)
    ensures
        r == key_le(*a, *b),
{
    a.object_id < b.object_id || (a.object_id == b.object_id && (a.item_type < b.item_type || (
    a.item_type == b.item_type && a.offset <= b.offset)))
}

#[derive(PartialEq, Eq, Structural, Clone, Copy, Debug)]
pub struct NodeHeader {
    pub logical_address: u64,
    pub generation: u64,
    pub tree_id: u64,
    pub num_items: u32,
    pub level: u8,
}

pub open spec fn header_at(b: Seq<u8>) -> NodeHeader {
    NodeHeader {
        logical_address: u64_at(b, 48),
        generation: u64_at(b, 80),
        tree_id: u64_at(b, 88),
        num_items: u32_at(b, 96),
        level: b[100],
    }
}

/// A leaf item header: its payload lies at `data_offset` past the node
/// header, `data_size` bytes long.
#[derive(PartialEq, Eq, Structural, Clone, Copy, Debug)]
pub struct LeafItem {
    pub key: Key,
    pub data_offset: u32,
    pub data_size: u32,
}

pub open spec fn leaf_item_at(b: Seq<u8>, i: int) -> LeafItem {
    let off = NODE_HEADER_SIZE + LEAF_ITEM_SIZE * i;
    LeafItem { key: key_at(b, off), data_offset: u32_at(b, off + 17), data_size: u32_at(b, off + 21) }
}

/// An internal item: the child node at logical `block_number`.
#[derive(PartialEq, Eq, Structural, Clone, Copy, Debug)]
pub struct InternalItem {
    pub key: Key,
    pub block_number: u64,
    pub generation: u64,
}

pub open spec fn internal_item_at(b: Seq<u8>, i: int) -> InternalItem {
    let off = NODE_HEADER_SIZE + INTERNAL_ITEM_SIZE * i;
    InternalItem { key: key_at(b, off), block_number: u64_at(b, off + 17), generation: u64_at(b, off + 25) }
}

/// Whether item header `item` keeps its payload within a node of `len` bytes.
pub open spec fn item_within_payload(item: LeafItem, len: nat) -> bool {
    item.data_offset + item.data_size <= len - NODE_HEADER_SIZE
}

/// Whether `b` is a node of the filesystem with `uuid`: its header's UUID
/// matches, its level is below the bound, its items fit in the payload, and
/// each leaf item's payload lies within the node.
pub open spec fn is_valid_node(b: Seq<u8>, uuid: Seq<u8>) -> bool {
    let h = header_at(b);
    let payload = b.len() - NODE_HEADER_SIZE;
    &&& b.len() >= NODE_HEADER_SIZE
    &&& b.subrange(NODE_UUID_OFFSET as int, NODE_UUID_OFFSET + uuid.len()) == uuid
    &&& uuid.len() == 16
    &&& h.level < LEVEL_BOUND
    &&& if h.level == 0 {
        &&& h.num_items * LEAF_ITEM_SIZE <= payload
        &&& forall|i: int| 0 <= i < h.num_items ==> item_within_payload(#[trigger] leaf_item_at(b, i), b.len())
    } else {
        h.num_items * INTERNAL_ITEM_SIZE <= payload
    }
}

pub enum NodeItems {
    Leaf(Vec<LeafItem>),
    Internal(Vec<InternalItem>),
}

/// A node accepted by the indexer: where it lies, its header and its items.
pub struct Node {
    pub position: u64,
    pub header: NodeHeader,
    pub items: NodeItems,
}

/// Whether `node` is what the bytes `b` at `position` hold.
pub open spec fn node_of(b: Seq<u8>, position: u64, node: Node) -> bool {
    &&& node.position == position
    &&& node.header == header_at(b)
    &&& match node.items {
        NodeItems::Leaf(items) => header_at(b).level == 0 && items@ == Seq::new(
            header_at(b).num_items as nat,
            |i: int| leaf_item_at(b, i),
        ),
        NodeItems::Internal(items) => header_at(b).level != 0 && items@ == Seq::new(
            header_at(b).num_items as nat,
            |i: int| internal_item_at(b, i),
        ),
    }
}

#[derive(PartialEq, Eq, Structural, Clone, Copy, Debug)]
pub enum NodeError {
    TooShort,
    UuidMismatch,
    BadLevel,
    TooManyItems,
    /// The payload of the item with this index lies outside the node.
    ItemOutOfNode(u32),
}

/// Parses the node whose bytes are `b`, found at `position`, checking it
/// against the filesystem UUID.
pub fn parse_node(b: &[u8], position: u64, uuid: &[u8]) -> (r: Result<Node, NodeError>)
    ensures
        r is Ok <==> is_valid_node(b@, uuid@),
        r is Ok ==> node_of(b@, position, r->Ok_0),
{
    let len: usize = b.len();
    if len < NODE_HEADER_SIZE {
        return Err(NodeError::TooShort);
    }
    if uuid.len() != 16 || !bytes_equal_at(b, NODE_UUID_OFFSET, uuid) {
        return Err(NodeError::UuidMismatch);
    }
    let header = NodeHeader {
        logical_address: read_u64(b, 48),
        generation: read_u64(b, 80),
        tree_id: read_u64(b, 88),
        num_items: read_u32(b, 96),
        level: b[100],
    };
    if header.level >= LEVEL_BOUND {
        return Err(NodeError::BadLevel);
    }
    let payload: usize = len - NODE_HEADER_SIZE;
    let n: usize = header.num_items as usize;
    if header.level == 0 {
        if n > payload / LEAF_ITEM_SIZE {
            return Err(NodeError::TooManyItems);
        }
        let mut items: Vec<LeafItem> = Vec::new();
        let mut i: usize = 0;
        while i < n
            invariant
                i <= n,
                n == header.num_items,
                len == b@.len(),
                len >= NODE_HEADER_SIZE,
                payload == len - NODE_HEADER_SIZE,
                n * LEAF_ITEM_SIZE <= payload,
                header == header_at(b@),
                header.level == 0,
                b@.subrange(NODE_UUID_OFFSET as int, NODE_UUID_OFFSET + uuid@.len()) == uuid@,
                uuid@.len() == 16,
                items@ == Seq::new(i as nat, |k: int| leaf_item_at(b@, k)),
                forall|k: int| 0 <= k < i ==> item_within_payload(#[trigger] leaf_item_at(b@, k), len as nat),
            decreases n - i,
        {
            let off: usize = NODE_HEADER_SIZE + LEAF_ITEM_SIZE * i;
            let item = LeafItem {
                key: read_key(b, off),
                data_offset: read_u32(b, off + 17),
                data_size: read_u32(b, off + 21),
            };
            assert(item == leaf_item_at(b@, i as int));
            if item.data_offset as usize > payload || item.data_size as usize > payload
                - item.data_offset as usize {
                assert(!item_within_payload(leaf_item_at(b@, i as int), len as nat));
                proof {
                    if is_valid_node(b@, uuid@) {
                        assert(header_at(b@).level == 0);
                        assert((i as int) < header_at(b@).num_items);
                        assert(forall|k: int| 0 <= k < header_at(b@).num_items ==> item_within_payload(#[trigger] leaf_item_at(b@, k), b@.len()));
                        assert(item_within_payload(leaf_item_at(b@, i as int), b@.len()));
                    }
                }
                return Err(NodeError::ItemOutOfNode(i as u32));
            }
            items.push(item);
            assert(items@ =~= Seq::new((i + 1) as nat, |k: int| leaf_item_at(b@, k)));
            i = i + 1;
        }
        Ok(Node { position, header, items: NodeItems::Leaf(items) })
    } else {
        if n > payload / INTERNAL_ITEM_SIZE {
            return Err(NodeError::TooManyItems);
        }
        let mut items: Vec<InternalItem> = Vec::new();
        let mut i: usize = 0;
        while i < n
            invariant
                i <= n,
                n == header.num_items,
                len == b@.len(),
                len >= NODE_HEADER_SIZE,
                payload == len - NODE_HEADER_SIZE,
                n * INTERNAL_ITEM_SIZE <= payload,
                header == header_at(b@),
                header.level != 0,
                items@ == Seq::new(i as nat, |k: int| internal_item_at(b@, k)),
            decreases n - i,
        {
            let off: usize = NODE_HEADER_SIZE + INTERNAL_ITEM_SIZE * i;
            let item = InternalItem {
                key: read_key(b, off),
                block_number: read_u64(b, off + 17),
                generation: read_u64(b, off + 25),
            };
            items.push(item);
            assert(items@ =~= Seq::new((i + 1) as nat, |k: int| internal_item_at(b@, k)));
            i = i + 1;
        }
        Ok(Node { position, header, items: NodeItems::Internal(items) })
    }
}

} // verus!
