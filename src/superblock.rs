use vstd::prelude::*;

use crate::layout::{bytes_equal_at, copy_bytes, read_u32, read_u64, u32_at, u64_at};

verus! {

/// Byte offset of the primary superblock on the first device.
pub const SUPERBLOCK_OFFSET: usize = 0x1_0000;

/// Size of a superblock on disk.
pub const SUPERBLOCK_SIZE: usize = 0x1000;

/// Offset of the magic number within a superblock.
pub const MAGIC_OFFSET: usize = 64;

/// Offset of the bootstrap chunk array within a superblock.
pub const SYSTEM_CHUNKS_OFFSET: usize = 811;

/// Capacity of the bootstrap chunk array.
pub const SYSTEM_CHUNKS_CAPACITY: usize = 0x800;

/// The magic number, `_BHRfS_M`.
pub open spec fn magic() -> Seq<u8> {
    seq![95u8, 66u8, 72u8, 82u8, 102u8, 83u8, 95u8, 77u8]
}

/// Whether `position` is one of the fixed backup-superblock offsets.
pub open spec fn is_backup_superblock_offset(position: int) -> bool {
    position == 0x400_0000 || position == 0x40_0000_0000 || position == 0x4_0000_0000_0000
}

pub fn backup_superblock_offset(position: u64) -> (r: bool)
    ensures
        r == is_backup_superblock_offset(position as int),
{
    position == 0x400_0000 || position == 0x40_0000_0000 || position == 0x4_0000_0000_0000
}

/// The backup-superblock offsets that lie within a device of `len` bytes,
/// in ascending order, so that a caller may retry with one when the
/// primary is damaged.
pub fn backup_superblock_offsets(len: u64) -> (r: Vec<u64>)
    ensures
        r@ == seq![0x400_0000u64, 0x40_0000_0000u64, 0x4_0000_0000_0000u64].filter(
            |p: u64| p + SUPERBLOCK_SIZE <= len,
        ),
        forall|i: int| 0 <= i < r.len() ==> is_backup_superblock_offset(#[trigger] r@[i] as int) && r@[i] + SUPERBLOCK_SIZE <= len,
        forall|p: u64| is_backup_superblock_offset(p as int) && p + SUPERBLOCK_SIZE <= len ==> #[trigger] r@.contains(p),
        forall|i: int, j: int| 0 <= i < j < r.len() ==> r@[i] < r@[j],
{
    let ghost all = seq![0x400_0000u64, 0x40_0000_0000u64, 0x4_0000_0000_0000u64];
    let ghost keep = |p: u64| p + SUPERBLOCK_SIZE <= len;
    reveal_with_fuel(Seq::filter, 4);
    assert(all.drop_last().drop_last().drop_last() =~= Seq::<u64>::empty());
    assert(all.drop_last().drop_last() =~= seq![0x400_0000u64]);
    assert(all.drop_last() =~= seq![0x400_0000u64, 0x40_0000_0000u64]);
    let mut r: Vec<u64> = Vec::new();
    if len >= 0x400_0000 + 0x1000 {
        r.push(0x400_0000);
    }
    if len >= 0x40_0000_0000 + 0x1000 {
        r.push(0x40_0000_0000);
    }
    if len >= 0x4_0000_0000_0000 + 0x1000 {
        r.push(0x4_0000_0000_0000);
    }
    assert(r@ =~= all.filter(keep));
    assert forall|p: u64| is_backup_superblock_offset(p as int) && p + SUPERBLOCK_SIZE <= len implies #[trigger] r@.contains(p) by {
        if p == 0x400_0000 {
            assert(r@[0] == p);
        } else if p == 0x40_0000_0000 {
            assert(r@[1] == p);
        } else {
            assert(r@[2] == p);
        }
    }
    r
}

/// What the tool reads from a superblock.
pub struct Superblock {
    pub fs_uuid: Vec<u8>,
    pub root_tree_logical_address: u64,
    pub chunk_tree_logical_address: u64,
    pub sector_size: u32,
    pub node_size: u32,
    pub leaf_size: u32,
    /// Level of the chunk tree's root node.
    pub chunk_root_level: u8,
    /// The bootstrap chunk array: chunk items that map the chunk tree itself.
    pub system_chunks: Vec<u8>,
}

#[derive(PartialEq, Eq, Structural, Clone, Copy, Debug)]
pub enum SuperblockError {
    /// The device is too short to hold a superblock at the offset.
    NoSuperblock,
    /// The magic number is wrong.
    BadMagic,
}

/// Whether the bytes at `off` of `device` hold a superblock with the right
/// magic number.
pub open spec fn has_superblock_at(device: Seq<u8>, off: int) -> bool {
    &&& off + SUPERBLOCK_SIZE <= device.len()
    &&& device.subrange(off + MAGIC_OFFSET, off + MAGIC_OFFSET + 8) == magic()
}

/// The superblock that the bytes at `off` of `device` hold.
pub open spec fn superblock_at(device: Seq<u8>, off: int, sb: Superblock) -> bool {
    let system_size = u32_at(device, off + 160);
    &&& sb.fs_uuid@ == device.subrange(off + 32, off + 48)
    &&& sb.root_tree_logical_address == u64_at(device, off + 80)
    &&& sb.chunk_tree_logical_address == u64_at(device, off + 88)
    &&& sb.sector_size == u32_at(device, off + 144)
    &&& sb.node_size == u32_at(device, off + 148)
    &&& sb.leaf_size == u32_at(device, off + 152)
    &&& sb.chunk_root_level == device[off + 199]
    &&& sb.system_chunks@ == device.subrange(
        off + SYSTEM_CHUNKS_OFFSET,
        off + SYSTEM_CHUNKS_OFFSET + if system_size <= SYSTEM_CHUNKS_CAPACITY {
            system_size as int
        } else {
            SYSTEM_CHUNKS_CAPACITY as int
        },
    )
}

/// Reads the superblock at byte `off` of `device` (the primary one is at
/// `SUPERBLOCK_OFFSET`, backups at the backup offsets). A bootstrap chunk
/// array that claims more than its capacity is cut to the capacity.
pub fn read_superblock_at(device: &[u8], off: usize) -> (r: Result<Superblock, SuperblockError>)
    ensures
        off + SUPERBLOCK_SIZE > device@.len() ==> r == Err::<Superblock, SuperblockError>(
            SuperblockError::NoSuperblock,
        ),
        off + SUPERBLOCK_SIZE <= device@.len() && !has_superblock_at(device@, off as int) ==> r
            == Err::<Superblock, SuperblockError>(SuperblockError::BadMagic),
        has_superblock_at(device@, off as int) <==> r is Ok,
        r is Ok ==> superblock_at(device@, off as int, r->Ok_0),
{
    if off > device.len() || device.len() - off < SUPERBLOCK_SIZE {
        return Err(SuperblockError::NoSuperblock);
    }
    let m: [u8; 8] = [95u8, 66u8, 72u8, 82u8, 102u8, 83u8, 95u8, 77u8];
    assert(m@ =~= magic());
    if !bytes_equal_at(device, off + MAGIC_OFFSET, &m) {
        return Err(SuperblockError::BadMagic);
    }
    let system_size = read_u32(device, off + 160);
    let system_len: usize = if system_size as usize <= SYSTEM_CHUNKS_CAPACITY {
        system_size as usize
    } else {
        SYSTEM_CHUNKS_CAPACITY
    };
    Ok(
        Superblock {
            fs_uuid: copy_bytes(device, off + 32, off + 48),
            root_tree_logical_address: read_u64(device, off + 80),
            chunk_tree_logical_address: read_u64(device, off + 88),
            sector_size: read_u32(device, off + 144),
            node_size: read_u32(device, off + 148),
            leaf_size: read_u32(device, off + 152),
            chunk_root_level: device[off + 199],
            system_chunks: copy_bytes(
                device,
                off + SYSTEM_CHUNKS_OFFSET,
                off + SYSTEM_CHUNKS_OFFSET + system_len,
            ),
        },
    )
}

} // verus!
