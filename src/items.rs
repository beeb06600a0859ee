use vstd::prelude::*;

use crate::layout::{copy_bytes, read_u16, read_u32, read_u64, u16_at, u32_at, u64_at};
use crate::node::{key_at, read_key, Key};

verus! {

pub const INODE_ITEM_TYPE: u8 = 0x01;
pub const DIR_ITEM_TYPE: u8 = 0x54;
pub const DIR_INDEX_TYPE: u8 = 0x60;
pub const EXTENT_DATA_TYPE: u8 = 0x6c;
pub const ROOT_ITEM_TYPE: u8 = 0x84;
pub const ROOT_BACKREF_TYPE: u8 = 0x90;
pub const EXTENT_ITEM_TYPE: u8 = 0xa8;
pub const CHUNK_ITEM_TYPE: u8 = 0xe4;

/// Size of an inode item.
pub const INODE_ITEM_SIZE: usize = 160;

/// What the tool reads from an inode item.
#[derive(PartialEq, Eq, Structural, Clone, Copy, Debug)]
pub struct InodeItem {
    /// The tree whose leaf holds the item.
    pub tree_id: u64,
    pub key: Key,
    pub generation: u64,
    pub transaction_id: u64,
    pub size: u64,
    pub uid: u32,
    pub gid: u32,
    pub mode: u32,
    pub rdev: u64,
    pub atime: u64,
    pub mtime: u64,
}

pub open spec fn inode_item_at(tree_id: u64, key: Key, d: Seq<u8>, off: int) -> InodeItem {
    InodeItem {
        tree_id,
        key,
        generation: u64_at(d, off),
        transaction_id: u64_at(d, off + 8),
        size: u64_at(d, off + 16),
        uid: u32_at(d, off + 44),
        gid: u32_at(d, off + 48),
        mode: u32_at(d, off + 52),
        rdev: u64_at(d, off + 56),
        atime: u64_at(d, off + 112),
        mtime: u64_at(d, off + 136),
    }
}

/// The inode item with `key`, in a leaf of tree `tree_id`, whose payload is `d`.
pub open spec fn inode_item_of(tree_id: u64, key: Key, d: Seq<u8>) -> Option<InodeItem> {
    if d.len() >= INODE_ITEM_SIZE {
        Some(inode_item_at(tree_id, key, d, 0))
    } else {
        None
    }
}

pub fn decode_inode_item(tree_id: u64, key: Key, d: &[u8]) -> (r: Option<InodeItem>)
    ensures
        r == inode_item_of(tree_id, key, d@),
{
    if d.len() < INODE_ITEM_SIZE {
        return None;
    }
    Some(
        InodeItem {
            tree_id,
            key,
            generation: read_u64(d, 0),
            transaction_id: read_u64(d, 8),
            size: read_u64(d, 16),
            uid: read_u32(d, 44),
            gid: read_u32(d, 48),
            mode: read_u32(d, 52),
            rdev: read_u64(d, 56),
            atime: read_u64(d, 112),
            mtime: read_u64(d, 136),
        },
    )
}

/// Size of the fixed part of a directory entry.
pub const DIR_ENTRY_HEADER_SIZE: usize = 30;

/// A directory entry: `name` in directory `key.object_id` is the object
/// `child_key.object_id` of type `child_type`.
pub struct DirItemEntry {
    /// The tree whose leaf holds the entry.
    pub tree_id: u64,
    pub key: Key,
    pub child_key: Key,
    pub transaction_id: u64,
    pub child_type: u8,
    pub name: Vec<u8>,
}

pub struct DirEntryView {
    pub tree_id: u64,
    pub key: Key,
    pub child_key: Key,
    pub transaction_id: u64,
    pub child_type: u8,
    pub name: Seq<u8>,
}

impl View for DirItemEntry {
    type V = DirEntryView;

    open spec fn view(&self) -> DirEntryView {
        DirEntryView {
            tree_id: self.tree_id,
            key: self.key,
            child_key: self.child_key,
            transaction_id: self.transaction_id,
            child_type: self.child_type,
            name: self.name@,
        }
    }
}

impl DirItemEntry {
    pub fn copy(&self) -> (r: DirItemEntry)
        ensures
            r@ == self@,
    {
        DirItemEntry {
            tree_id: self.tree_id,
            key: self.key,
            child_key: self.child_key,
            transaction_id: self.transaction_id,
            child_type: self.child_type,
            name: vstd::slice::slice_to_vec(self.name.as_slice()),
        }
    }
}

/// Where the directory entry that starts at `off` of `d` ends.
pub open spec fn dir_entry_end(d: Seq<u8>, off: int) -> int {
    off + DIR_ENTRY_HEADER_SIZE + u16_at(d, off + 27) + u16_at(d, off + 25)
}

/// The directory entries of a directory item with `key` and payload `d`,
/// from byte `off` on; an entry cut short by the end of the payload is
/// left out, with all after it.
pub open spec fn dir_entries_from(tree_id: u64, key: Key, d: Seq<u8>, off: int) -> Seq<DirEntryView>
    decreases d.len() - off,
{
    if off < 0 || off + DIR_ENTRY_HEADER_SIZE > d.len() || dir_entry_end(d, off) > d.len() {
        seq![]
    } else {
        let name_start = off + DIR_ENTRY_HEADER_SIZE;
        let e = DirEntryView {
            tree_id,
            key,
            child_key: key_at(d, off),
            transaction_id: u64_at(d, off + 17),
            child_type: d[off + 29],
            name: d.subrange(name_start, name_start + u16_at(d, off + 27)),
        };
        seq![e] + dir_entries_from(tree_id, key, d, dir_entry_end(d, off))
    }
}

/// The views of a sequence of directory entries.
pub open spec fn dir_entry_views(v: Seq<DirItemEntry>) -> Seq<DirEntryView> {
    v.map_values(|e: DirItemEntry| e@)
}

/// Decodes the entries of a directory item (or directory index item).
pub fn decode_dir_entries(tree_id: u64, key: Key, d: &[u8]) -> (r: Vec<DirItemEntry>)
    ensures
        dir_entry_views(r@) == dir_entries_from(tree_id, key, d@, 0),
{
    let len: usize = d.len();
    let mut r: Vec<DirItemEntry> = Vec::new();
    let mut off: usize = 0;
    while len - off >= DIR_ENTRY_HEADER_SIZE
        invariant
            len == d@.len(),
            off <= len,
            dir_entry_views(r@) + dir_entries_from(tree_id, key, d@, off as int) == dir_entries_from(tree_id, key, d@, 0),
        decreases len - off,
    {
        let data_len: u16 = read_u16(d, off + 25);
        let name_len: u16 = read_u16(d, off + 27);
        let name_start: usize = off + DIR_ENTRY_HEADER_SIZE;
        if name_len as usize + data_len as usize > len - name_start {
            assert(dir_entries_from(tree_id, key, d@, off as int) == Seq::<DirEntryView>::empty());
            assert(dir_entry_views(r@) =~= dir_entries_from(tree_id, key, d@, 0));
            return r;
        }
        let e = DirItemEntry {
            tree_id,
            key,
            child_key: read_key(d, off),
            transaction_id: read_u64(d, off + 17),
            child_type: d[off + 29],
            name: copy_bytes(d, name_start, name_start + name_len as usize),
        };
        let ghost before = r@;
        r.push(e);
        let next: usize = name_start + name_len as usize + data_len as usize;
        assert(dir_entry_views(r@) =~= dir_entry_views(before).push(e@));
        assert(dir_entry_views(r@) + dir_entries_from(tree_id, key, d@, next as int) =~= dir_entry_views(before)
            + dir_entries_from(tree_id, key, d@, off as int));
        off = next;
    }
    assert(dir_entries_from(tree_id, key, d@, off as int) == Seq::<DirEntryView>::empty());
    assert(dir_entry_views(r@) =~= dir_entries_from(tree_id, key, d@, 0));
    r
}

pub const EXTENT_INLINE: u8 = 0;
pub const EXTENT_REGULAR: u8 = 1;
pub const EXTENT_PREALLOC: u8 = 2;

/// Size of the fixed part of every extent-data item.
pub const EXTENT_DATA_HEADER_SIZE: usize = 21;

/// Size of a regular or preallocated extent-data item.
pub const EXTENT_DATA_REGULAR_SIZE: usize = 53;

/// A file extent: `key.offset` is its position in the file. An inline
/// extent holds its bytes; a regular one names `extent_size` bytes at
/// `logical_address`, of which (once uncompressed) bytes `data_offset ..
/// data_offset + data_size` belong to the file.
pub struct ExtentData {
    /// The tree whose leaf holds the item.
    pub tree_id: u64,
    pub key: Key,
    pub generation: u64,
    pub compression: u8,
    pub extent_type: u8,
    pub inline_data: Vec<u8>,
    pub logical_address: u64,
    pub extent_size: u64,
    pub data_offset: u64,
    pub data_size: u64,
}

pub struct ExtentDataView {
    pub tree_id: u64,
    pub key: Key,
    pub generation: u64,
    pub compression: u8,
    pub extent_type: u8,
    pub inline_data: Seq<u8>,
    pub logical_address: u64,
    pub extent_size: u64,
    pub data_offset: u64,
    pub data_size: u64,
}

impl View for ExtentData {
    type V = ExtentDataView;

    open spec fn view(&self) -> ExtentDataView {
        ExtentDataView {
            tree_id: self.tree_id,
            key: self.key,
            generation: self.generation,
            compression: self.compression,
            extent_type: self.extent_type,
            inline_data: self.inline_data@,
            logical_address: self.logical_address,
            extent_size: self.extent_size,
            data_offset: self.data_offset,
            data_size: self.data_size,
        }
    }
}

impl ExtentData {
    pub fn copy(&self) -> (r: ExtentData)
        ensures
            r@ == self@,
    {
        ExtentData {
            tree_id: self.tree_id,
            key: self.key,
            generation: self.generation,
            compression: self.compression,
            extent_type: self.extent_type,
            inline_data: vstd::slice::slice_to_vec(self.inline_data.as_slice()),
            logical_address: self.logical_address,
            extent_size: self.extent_size,
            data_offset: self.data_offset,
            data_size: self.data_size,
        }
    }
}

/// The extent-data item with `key` and payload `d`.
pub open spec fn extent_data_of(tree_id: u64, key: Key, d: Seq<u8>) -> Option<ExtentDataView> {
    if d.len() < EXTENT_DATA_HEADER_SIZE {
        None
    } else if d[20] == EXTENT_INLINE {
        Some(
            ExtentDataView {
                tree_id,
                key,
                generation: u64_at(d, 0),
                compression: d[16],
                extent_type: d[20],
                inline_data: d.subrange(EXTENT_DATA_HEADER_SIZE as int, d.len() as int),
                logical_address: 0,
                extent_size: 0,
                data_offset: 0,
                data_size: 0,
            },
        )
    } else if d.len() < EXTENT_DATA_REGULAR_SIZE {
        None
    } else {
        Some(
            ExtentDataView {
                tree_id,
                key,
                generation: u64_at(d, 0),
                compression: d[16],
                extent_type: d[20],
                inline_data: seq![],
                logical_address: u64_at(d, 21),
                extent_size: u64_at(d, 29),
                data_offset: u64_at(d, 37),
                data_size: u64_at(d, 45),
            },
        )
    }
}

pub fn decode_extent_data(tree_id: u64, key: Key, d: &[u8]) -> (r: Option<ExtentData>)
    ensures
        match extent_data_of(tree_id, key, d@) {
            None => r is None,
            Some(v) => r is Some && r->0@ == v,
        },
{
    let len: usize = d.len();
    if len < EXTENT_DATA_HEADER_SIZE {
        return None;
    }
    let extent_type = d[20];
    if extent_type == EXTENT_INLINE {
        return Some(
            ExtentData {
                tree_id,
                key,
                generation: read_u64(d, 0),
                compression: d[16],
                extent_type,
                inline_data: copy_bytes(d, EXTENT_DATA_HEADER_SIZE, len),
                logical_address: 0,
                extent_size: 0,
                data_offset: 0,
                data_size: 0,
            },
        );
    }
    if len < EXTENT_DATA_REGULAR_SIZE {
        return None;
    }
    let r = ExtentData {
        tree_id,
        key,
        generation: read_u64(d, 0),
        compression: d[16],
        extent_type,
        inline_data: Vec::new(),
        logical_address: read_u64(d, 21),
        extent_size: read_u64(d, 29),
        data_offset: read_u64(d, 37),
        data_size: read_u64(d, 45),
    };
    assert(r@.inline_data =~= Seq::<u8>::empty());
    Some(r)
}

/// Size of the fixed part of a chunk item; its stripes follow.
pub const CHUNK_ITEM_HEADER_SIZE: usize = 48;

/// Size of a stripe of a chunk item.
pub const STRIPE_SIZE: usize = 32;

/// A physical copy of a chunk: bytes from `offset` of device `device_id`.
#[derive(PartialEq, Eq, Structural, Clone, Copy, Debug)]
pub struct Stripe {
    pub device_id: u64,
    pub offset: u64,
}

/// A chunk: `length` logical bytes from `logical_start`, stored in each of
/// its stripes.
pub struct ChunkItem {
    pub key: Key,
    pub logical_start: u64,
    pub length: u64,
    pub stripes: Vec<Stripe>,
}

pub struct ChunkView {
    pub key: Key,
    pub logical_start: u64,
    pub length: u64,
    pub stripes: Seq<Stripe>,
}

impl View for ChunkItem {
    type V = ChunkView;

    open spec fn view(&self) -> ChunkView {
        ChunkView { key: self.key, logical_start: self.logical_start, length: self.length, stripes: self.stripes@ }
    }
}

impl ChunkItem {
    pub fn copy(&self) -> (r: ChunkItem)
        ensures
            r@ == self@,
    {
        ChunkItem {
            key: self.key,
            logical_start: self.logical_start,
            length: self.length,
            stripes: vstd::slice::slice_to_vec(self.stripes.as_slice()),
        }
    }
}

pub open spec fn stripe_at(d: Seq<u8>, off: int, i: int) -> Stripe {
    let s = off + CHUNK_ITEM_HEADER_SIZE + STRIPE_SIZE * i;
    Stripe { device_id: u64_at(d, s), offset: u64_at(d, s + 8) }
}

/// Number of bytes that the chunk item at `off` of `d` takes, stripes included.
pub open spec fn chunk_item_size(d: Seq<u8>, off: int) -> int {
    CHUNK_ITEM_HEADER_SIZE + STRIPE_SIZE * u16_at(d, off + 44)
}

/// The chunk item with key `key` (whose offset is the chunk's logical
/// start) whose payload starts at byte `off` of `d`, or nothing where the
/// payload is cut short.
pub open spec fn chunk_item_at(key: Key, d: Seq<u8>, off: int) -> Option<ChunkView> {
    if off < 0 || off + CHUNK_ITEM_HEADER_SIZE > d.len() || off + chunk_item_size(d, off) > d.len() {
        None
    } else {
        Some(
            ChunkView {
                key,
                logical_start: key.offset,
                length: u64_at(d, off),
                stripes: Seq::new(u16_at(d, off + 44) as nat, |i: int| stripe_at(d, off, i)),
            },
        )
    }
}

/// Decodes the chunk item whose payload starts at byte `off` of `d`.
pub fn decode_chunk_item(key: Key, d: &[u8], off: usize) -> (r: Option<ChunkItem>)
    ensures
        match chunk_item_at(key, d@, off as int) {
            None => r is None,
            Some(v) => r is Some && r->0@ == v,
        },
{
    let len: usize = d.len();
    if off > len || len - off < CHUNK_ITEM_HEADER_SIZE {
        return None;
    }
    let n: u16 = read_u16(d, off + 44);
    if (n as usize) * STRIPE_SIZE > len - off - CHUNK_ITEM_HEADER_SIZE {
        return None;
    }
    let mut stripes: Vec<Stripe> = Vec::new();
    let mut i: usize = 0;
    while i < n as usize
        invariant
            i <= n,
            len == d@.len(),
            n == u16_at(d@, off + 44),
            off + CHUNK_ITEM_HEADER_SIZE + STRIPE_SIZE * n <= len,
            stripes@ == Seq::new(i as nat, |k: int| stripe_at(d@, off as int, k)),
        decreases n - i,
    {
        let s: usize = off + CHUNK_ITEM_HEADER_SIZE + STRIPE_SIZE * i;
        stripes.push(Stripe { device_id: read_u64(d, s), offset: read_u64(d, s + 8) });
        assert(stripes@ =~= Seq::new((i + 1) as nat, |k: int| stripe_at(d@, off as int, k)));
        i = i + 1;
    }
    Some(ChunkItem { key, logical_start: key.offset, length: read_u64(d, off), stripes })
}

/// Size of the part of a root item that the tool reads.
pub const ROOT_ITEM_MIN_SIZE: usize = 239;

/// A root item: tree `key.object_id` has its root node at logical
/// `root_node`, and its top directory is `root_dir_id`.
#[derive(PartialEq, Eq, Structural, Clone, Copy, Debug)]
pub struct RootItem {
    pub key: Key,
    pub generation: u64,
    pub root_dir_id: u64,
    pub root_node: u64,
    pub level: u8,
}

pub open spec fn root_item_of(key: Key, d: Seq<u8>) -> Option<RootItem> {
    if d.len() < ROOT_ITEM_MIN_SIZE {
        None
    } else {
        Some(
            RootItem {
                key,
                generation: u64_at(d, 160),
                root_dir_id: u64_at(d, 168),
                root_node: u64_at(d, 176),
                level: d[238],
            },
        )
    }
}

pub fn decode_root_item(key: Key, d: &[u8]) -> (r: Option<RootItem>)
    ensures
        r == root_item_of(key, d@),
{
    if d.len() < ROOT_ITEM_MIN_SIZE {
        return None;
    }
    Some(
        RootItem {
            key,
            generation: read_u64(d, 160),
            root_dir_id: read_u64(d, 168),
            root_node: read_u64(d, 176),
            level: d[238],
        },
    )
}

/// Size of the fixed part of a root back reference.
pub const ROOT_BACKREF_HEADER_SIZE: usize = 18;

/// A root back reference: subvolume `key.object_id` is entry `name` of
/// directory `dir_id` in tree `key.offset`.
pub struct RootBackref {
    pub key: Key,
    pub dir_id: u64,
    pub name: Vec<u8>,
}

pub struct RootBackrefView {
    pub key: Key,
    pub dir_id: u64,
    pub name: Seq<u8>,
}

impl View for RootBackref {
    type V = RootBackrefView;

    open spec fn view(&self) -> RootBackrefView {
        RootBackrefView { key: self.key, dir_id: self.dir_id, name: self.name@ }
    }
}

pub open spec fn root_backref_of(key: Key, d: Seq<u8>) -> Option<RootBackrefView> {
    if d.len() < ROOT_BACKREF_HEADER_SIZE || ROOT_BACKREF_HEADER_SIZE + u16_at(d, 16) > d.len() {
        None
    } else {
        Some(
            RootBackrefView {
                key,
                dir_id: u64_at(d, 0),
                name: d.subrange(
                    ROOT_BACKREF_HEADER_SIZE as int,
                    ROOT_BACKREF_HEADER_SIZE + u16_at(d, 16),
                ),
            },
        )
    }
}

pub fn decode_root_backref(key: Key, d: &[u8]) -> (r: Option<RootBackref>)
    ensures
        match root_backref_of(key, d@) {
            None => r is None,
            Some(v) => r is Some && r->0@ == v,
        },
{
    let len: usize = d.len();
    if len < ROOT_BACKREF_HEADER_SIZE {
        return None;
    }
    let name_len: u16 = read_u16(d, 16);
    if name_len as usize > len - ROOT_BACKREF_HEADER_SIZE {
        return None;
    }
    Some(
        RootBackref {
            key,
            dir_id: read_u64(d, 0),
            name: copy_bytes(d, ROOT_BACKREF_HEADER_SIZE, ROOT_BACKREF_HEADER_SIZE + name_len as usize),
        },
    )
}

/// Size of an extent item's fixed part.
pub const EXTENT_ITEM_SIZE: usize = 24;

/// An extent allocation record of the extent tree: `key.offset` bytes at
/// logical `key.object_id`.
#[derive(PartialEq, Eq, Structural, Clone, Copy, Debug)]
pub struct ExtentItem {
    pub key: Key,
    pub refs: u64,
    pub generation: u64,
    pub flags: u64,
}

pub open spec fn extent_item_of(key: Key, d: Seq<u8>) -> Option<ExtentItem> {
    if d.len() < EXTENT_ITEM_SIZE {
        None
    } else {
        Some(ExtentItem { key, refs: u64_at(d, 0), generation: u64_at(d, 8), flags: u64_at(d, 16) })
    }
}

pub fn decode_extent_item(key: Key, d: &[u8]) -> (r: Option<ExtentItem>)
    ensures
        r == extent_item_of(key, d@),
{
    if d.len() < EXTENT_ITEM_SIZE {
        return None;
    }
    Some(ExtentItem { key, refs: read_u64(d, 0), generation: read_u64(d, 8), flags: read_u64(d, 16) })
}

} // verus!
