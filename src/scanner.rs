use vstd::prelude::*;

use crate::layout::{bytes_equal_at, u32_at};
use crate::superblock::{
    backup_superblock_offset,
    has_superblock_at,
    is_backup_superblock_offset,
    read_superblock_at,
    SuperblockError,
    SUPERBLOCK_OFFSET,
};

verus! {

/// Where the node scan starts on each device.
pub const SCAN_START: u64 = 0x1_1000;

/// Offset of the filesystem UUID within a node header.
pub const NODE_UUID_OFFSET: usize = 32;

/// Whether a node of the filesystem with `uuid` may start at `p`: it is not
/// a backup-superblock offset, and the header's UUID field holds `uuid`.
pub open spec fn node_matches_at(device: Seq<u8>, p: int, uuid: Seq<u8>) -> bool {
    &&& !is_backup_superblock_offset(p)
    &&& p + NODE_UUID_OFFSET + uuid.len() <= device.len()
    &&& device.subrange(p + NODE_UUID_OFFSET, p + NODE_UUID_OFFSET + uuid.len()) == uuid
}

/// End of the scan: the device length rounded down to a whole node.
pub open spec fn scan_end(len: nat, node_size: nat) -> nat {
    (len - len % node_size) as nat
}

/// The positions `from`, `from + step`, ... below `end` at which a node
/// matches, in ascending order, each plus `offset`.
pub open spec fn node_positions(
    device: Seq<u8>,
    uuid: Seq<u8>,
    step: nat,
    end: nat,
    from: nat,
    offset: nat,
) -> Seq<u64>
    decreases (if from < end {
        end - from
    } else {
        0
    }),
{
    if step == 0 || from >= end {
        seq![]
    } else {
        let rest = node_positions(device, uuid, step, end, from + step, offset);
        if node_matches_at(device, from as int, uuid) {
            seq![(from + offset) as u64] + rest
        } else {
            rest
        }
    }
}

/// Scans one device sector by sector for nodes of the filesystem with
/// `uuid`, from `SCAN_START` up to its length rounded down to a whole node,
/// skipping the backup-superblock offsets. Each position found is recorded
/// plus `offset`, the combined length of the devices before this one.
pub fn scan_device(device: &[u8], uuid: &[u8], sector_size: u32, node_size: u32, offset: u64) -> (r:
    Vec<u64>)
    requires
        sector_size > 0,
        node_size > 0,
        offset + device@.len() <= u64::MAX,
    ensures
        r@ == node_positions(
            device@,
            uuid@,
            sector_size as nat,
            scan_end(device@.len(), node_size as nat),
            SCAN_START as nat,
            offset as nat,
        ),
        forall|i: int|
            0 <= i < r.len() ==> r[i] >= offset && node_matches_at(
                device@,
                r[i] - offset,
                uuid@,
            ),
{
    let len: usize = device.len();
    let rem: usize = len % (node_size as usize);
    assert(rem <= len) by (nonlinear_arith)
        requires
            rem == len % (node_size as usize),
            node_size > 0,
    ;
    let end: u64 = (len - rem) as u64;
    let ghost step = sector_size as nat;
    let ghost total = node_positions(device@, uuid@, step, end as nat, SCAN_START as nat, offset as nat);
    let mut r: Vec<u64> = Vec::new();
    let mut position: u64 = SCAN_START;
    while position < end
        invariant
            sector_size > 0,
            end == scan_end(device@.len(), node_size as nat),
            end <= len,
            len == device@.len(),
            offset + device@.len() <= u64::MAX,
            step == sector_size as nat,
            total == node_positions(device@, uuid@, step, end as nat, SCAN_START as nat, offset as nat),
            r@ + node_positions(device@, uuid@, step, end as nat, position as nat, offset as nat)
                == total,
            forall|i: int|
                0 <= i < r.len() ==> r[i] >= offset && node_matches_at(
                    device@,
                    r[i] - offset,
                    uuid@,
                ),
        decreases end - position,
    {
        let ghost before = r@;
        let matched = !backup_superblock_offset(position) && len >= NODE_UUID_OFFSET
            && position as usize <= len - NODE_UUID_OFFSET && bytes_equal_at(device, position as usize + NODE_UUID_OFFSET, uuid);
        assert(matched == node_matches_at(device@, position as int, uuid@));
        if matched {
            r.push(position + offset);
        }
        let ghost rest = node_positions(device@, uuid@, step, end as nat, (position + step) as nat, offset as nat);
        assert(r@ + rest == total) by {
            if matched {
                assert(r@ + rest =~= before + (seq![(position + offset) as u64] + rest));
            }
        }
        if sector_size as u64 >= end - position {
            assert(node_positions(device@, uuid@, step, end as nat, (position + step) as nat, offset as nat)
                =~= Seq::<u64>::empty());
            assert(r@ =~= total);
            return r;
        }
        position = position + sector_size as u64;
    }
    assert(r@ =~= total);
    r
}

#[derive(PartialEq, Eq, Structural, Clone, Copy, Debug)]
pub enum ScanError {
    /// No image was given.
    NoDevices,
    /// The first image holds no valid superblock.
    Superblock(SuperblockError),
    /// Node size and leaf size differ.
    UnsupportedNodeSize,
    /// The sector size or the node size is zero.
    BadGeometry,
}

/// Whether the running offsets of the devices from `i` on, starting at
/// `offset`, fit in 64 bits.
pub open spec fn offsets_fit(devices: Seq<Seq<u8>>, i: int, offset: nat) -> bool
    decreases devices.len() - i,
{
    if i < 0 || i >= devices.len() {
        true
    } else {
        offset + devices[i].len() <= u64::MAX && offsets_fit(
            devices,
            i + 1,
            offset + devices[i].len(),
        )
    }
}

/// The node positions of devices `i ..`, the first of them at global
/// offset `offset`, each device after the one before.
pub open spec fn all_node_positions(
    devices: Seq<Seq<u8>>,
    uuid: Seq<u8>,
    sector_size: nat,
    node_size: nat,
    i: int,
    offset: nat,
) -> Seq<u64>
    decreases devices.len() - i,
{
    if i < 0 || i >= devices.len() {
        seq![]
    } else {
        node_positions(
            devices[i],
            uuid,
            sector_size,
            scan_end(devices[i].len(), node_size),
            SCAN_START as nat,
            offset,
        ) + all_node_positions(devices, uuid, sector_size, node_size, i + 1, offset + devices[i].len())
    }
}

/// The contents of each device.
pub open spec fn device_contents(devices: Seq<&[u8]>) -> Seq<Seq<u8>> {
    devices.map_values(|d: &[u8]| d@)
}

/// The geometry that the primary superblock of `first` gives: sector
/// size, node size and leaf size.
pub open spec fn primary_geometry(first: Seq<u8>) -> (u32, u32, u32) {
    let o = SUPERBLOCK_OFFSET as int;
    (u32_at(first, o + 144), u32_at(first, o + 148), u32_at(first, o + 152))
}

/// Builds the node index of a set of images: reads the superblock of the
/// first, then scans every image with its UUID and geometry. Positions are
/// global: a position on a device plus the lengths of the devices before it.
pub fn index(devices: &Vec<&[u8]>) -> (r: Result<Vec<u64>, ScanError>)
    requires
        offsets_fit(device_contents(devices@), 0, 0),
    ensures
        devices.len() == 0 ==> r == Err::<Vec<u64>, ScanError>(ScanError::NoDevices),
        devices.len() > 0 ==> ({
            let first = devices@[0]@;
            let o = SUPERBLOCK_OFFSET as int;
            let (sector, node, leaf) = primary_geometry(first);
            if o + crate::superblock::SUPERBLOCK_SIZE > first.len() {
                r == Err::<Vec<u64>, ScanError>(ScanError::Superblock(SuperblockError::NoSuperblock))
            } else if !has_superblock_at(first, o) {
                r == Err::<Vec<u64>, ScanError>(ScanError::Superblock(SuperblockError::BadMagic))
            } else if node != leaf {
                r == Err::<Vec<u64>, ScanError>(ScanError::UnsupportedNodeSize)
            } else if sector == 0 || node == 0 {
                r == Err::<Vec<u64>, ScanError>(ScanError::BadGeometry)
            } else {
                r is Ok && r->Ok_0@ == all_node_positions(
                    device_contents(devices@),
                    first.subrange(o + 32, o + 48),
                    sector as nat,
                    node as nat,
                    0,
                    0,
                )
            }
        }),
{
    if devices.len() == 0 {
        return Err(ScanError::NoDevices);
    }
    let sb = match read_superblock_at(devices[0], SUPERBLOCK_OFFSET) {
        Ok(sb) => sb,
        Err(e) => {
            return Err(ScanError::Superblock(e));
        },
    };
    if sb.node_size != sb.leaf_size {
        return Err(ScanError::UnsupportedNodeSize);
    }
    if sb.sector_size == 0 || sb.node_size == 0 {
        return Err(ScanError::BadGeometry);
    }
    let ghost contents = device_contents(devices@);
    let ghost total = all_node_positions(
        contents,
        sb.fs_uuid@,
        sb.sector_size as nat,
        sb.node_size as nat,
        0,
        0,
    );
    let mut positions: Vec<u64> = Vec::new();
    let mut offset: u64 = 0;
    let mut i: usize = 0;
    while i < devices.len()
        invariant
            i <= devices.len(),
            contents == device_contents(devices@),
            sb.sector_size > 0,
            sb.node_size > 0,
            offsets_fit(contents, i as int, offset as nat),
            total == all_node_positions(contents, sb.fs_uuid@, sb.sector_size as nat, sb.node_size as nat, 0, 0),
            positions@ + all_node_positions(
                contents,
                sb.fs_uuid@,
                sb.sector_size as nat,
                sb.node_size as nat,
                i as int,
                offset as nat,
            ) == total,
        decreases devices.len() - i,
    {
        let device: &[u8] = devices[i];
        assert(contents[i as int] == device@);
        let found = scan_device(device, sb.fs_uuid.as_slice(), sb.sector_size, sb.node_size, offset);
        let ghost before = positions@;
        let mut found = found;
        positions.append(&mut found);
        assert(positions@ + all_node_positions(
            contents,
            sb.fs_uuid@,
            sb.sector_size as nat,
            sb.node_size as nat,
            i + 1,
            (offset + device@.len()) as nat,
        ) =~= total);
        offset = offset + device.len() as u64;
        i = i + 1;
    }
    assert(positions@ =~= total);
    Ok(positions)
}

proof fn lemma_node_positions_match(
    device: Seq<u8>,
    uuid: Seq<u8>,
    step: nat,
    end: nat,
    from: nat,
    offset: nat,
)
    requires
        offset + end <= u64::MAX,
    ensures
        forall|k: int|
            0 <= k < node_positions(device, uuid, step, end, from, offset).len() ==> {
                let q = #[trigger] node_positions(device, uuid, step, end, from, offset)[k];
                &&& offset <= q < offset + end
                &&& node_matches_at(device, q - offset, uuid)
            },
    decreases (if from < end {
        end - from
    } else {
        0
    }),
{
    if step > 0 && from < end {
        lemma_node_positions_match(device, uuid, step, end, from + step, offset);
        let rest = node_positions(device, uuid, step, end, from + step, offset);
        let all = node_positions(device, uuid, step, end, from, offset);
        if node_matches_at(device, from as int, uuid) {
            assert forall|k: int| 0 <= k < all.len() implies {
                let q = #[trigger] all[k];
                &&& offset <= q < offset + end
                &&& node_matches_at(device, q - offset, uuid)
            } by {
                if k > 0 {
                    assert(all[k] == rest[k - 1]);
                }
            }
        }
    }
}

/// Every position that the scan of a set of devices records lies on one
/// of them, where a node header holds the filesystem UUID; `offset` is the
/// global position of device `i`.
pub proof fn lemma_recorded_positions_hold_uuid(
    devices: Seq<Seq<u8>>,
    uuid: Seq<u8>,
    sector_size: nat,
    node_size: nat,
    i: int,
    offset: nat,
)
    requires
        0 <= i,
        node_size > 0,
        offsets_fit(devices, i, offset),
    ensures
        forall|k: int|
            0 <= k < all_node_positions(devices, uuid, sector_size, node_size, i, offset).len() ==> {
                let q = #[trigger] all_node_positions(devices, uuid, sector_size, node_size, i, offset)[k];
                &&& q >= offset
                &&& crate::indexer::locate(devices, i, q - offset) is Some
                &&& {
                    let (j, l) = crate::indexer::locate(devices, i, q - offset)->0;
                    node_matches_at(devices[j], l, uuid)
                }
            },
    decreases devices.len() - i,
{
    if i < devices.len() {
        let d = devices[i];
        let end = scan_end(d.len(), node_size);
        assert(end <= d.len()) by (nonlinear_arith)
            requires
                end == (d.len() - d.len() % node_size) as nat,
                node_size > 0,
        ;
        lemma_node_positions_match(d, uuid, sector_size, end, SCAN_START as nat, offset);
        lemma_recorded_positions_hold_uuid(devices, uuid, sector_size, node_size, i + 1, offset + d.len());
        let first = node_positions(d, uuid, sector_size, end, SCAN_START as nat, offset);
        let rest = all_node_positions(devices, uuid, sector_size, node_size, i + 1, offset + d.len());
        let all = all_node_positions(devices, uuid, sector_size, node_size, i, offset);
        assert(all == first + rest);
        assert forall|k: int| 0 <= k < all.len() implies {
            let q = #[trigger] all[k];
            &&& q >= offset
            &&& crate::indexer::locate(devices, i, q - offset) is Some
            &&& {
                let (j, l) = crate::indexer::locate(devices, i, q - offset)->0;
                node_matches_at(devices[j], l, uuid)
            }
        } by {
            if k < first.len() {
                assert(all[k] == first[k]);
            } else {
                assert(all[k] == rest[k - first.len()]);
            }
        }
    }
}

} // verus!
