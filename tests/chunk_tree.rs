use omega13::chunk_tree::{read_chunk_tree, ChunkTreeError};
use omega13::filesystem::open_superblock;
use omega13::superblock::{Superblock, SuperblockError};

const UUID: [u8; 16] = [0x21; 16];
const NODE: usize = 4096;

fn key_bytes(object_id: u64, item_type: u8, offset: u64) -> Vec<u8> {
    let mut k = object_id.to_le_bytes().to_vec();
    k.push(item_type);
    k.extend_from_slice(&offset.to_le_bytes());
    k
}

fn chunk(length: u64, device: u64, physical: u64) -> Vec<u8> {
    let mut c = vec![0u8; 80];
    c[0..8].copy_from_slice(&length.to_le_bytes());
    c[44..46].copy_from_slice(&1u16.to_le_bytes());
    c[48..56].copy_from_slice(&device.to_le_bytes());
    c[56..64].copy_from_slice(&physical.to_le_bytes());
    c
}

fn header(b: &mut [u8], level: u8, n: u32) {
    b[32..48].copy_from_slice(&UUID);
    b[88..96].copy_from_slice(&3u64.to_le_bytes());
    b[96..100].copy_from_slice(&n.to_le_bytes());
    b[100] = level;
}

/// A device whose first 64 KiB are mapped by the bootstrap chunk, with a
/// two-level chunk tree: an internal root at 0x1000 and a leaf at 0x2000.
fn device() -> Vec<u8> {
    let mut d = vec![0u8; 0x10000];
    let root = &mut d[0x1000..0x1000 + NODE];
    header(root, 1, 1);
    root[101..118].copy_from_slice(&key_bytes(256, 0xe4, 0));
    root[118..126].copy_from_slice(&0x2000u64.to_le_bytes());
    let leaf = &mut d[0x2000..0x2000 + NODE];
    header(leaf, 0, 2);
    let items = [(0x100000u64, chunk(0x1000, 1, 0x8000)), (0x200000u64, chunk(0x1000, 1, 0x9000))];
    let mut data_at = 50usize;
    for (i, (logical, c)) in items.iter().enumerate() {
        let h = 101 + 25 * i;
        leaf[h..h + 17].copy_from_slice(&key_bytes(256, 0xe4, *logical));
        leaf[h + 17..h + 21].copy_from_slice(&(data_at as u32).to_le_bytes());
        leaf[h + 21..h + 25].copy_from_slice(&(c.len() as u32).to_le_bytes());
        leaf[101 + data_at..101 + data_at + c.len()].copy_from_slice(c);
        data_at += c.len();
    }
    d
}

fn superblock(root: u64, level: u8) -> Superblock {
    let mut sys = key_bytes(256, 0xe4, 0);
    sys.extend_from_slice(&chunk(0x10000, 1, 0));
    Superblock {
        fs_uuid: UUID.to_vec(),
        root_tree_logical_address: 0,
        chunk_tree_logical_address: root,
        sector_size: 4096,
        node_size: NODE as u32,
        leaf_size: NODE as u32,
        chunk_root_level: level,
        system_chunks: sys,
    }
}

#[test]
fn chunk_tree_is_walked_from_its_root() {
    let d = device();
    let devices: Vec<&[u8]> = vec![&d];
    let map = read_chunk_tree(&devices, &superblock(0x1000, 1)).unwrap();
    assert_eq!(map.entries.len(), 3);
    assert_eq!(map.logical_to_physical(0x100010), Ok((1, 0x8010)));
    assert_eq!(map.logical_to_physical(0x200020), Ok((1, 0x9020)));
    assert_eq!(map.logical_to_physical(0x1000), Ok((1, 0x1000)));
}

#[test]
fn chunk_tree_errors() {
    let d = device();
    let devices: Vec<&[u8]> = vec![&d];
    assert!(matches!(read_chunk_tree(&devices, &superblock(0x1000, 0)), Err(ChunkTreeError::WrongLevel(0x1000))));
    assert!(matches!(read_chunk_tree(&devices, &superblock(0x20000, 1)), Err(ChunkTreeError::NotMapped(0x20000))));
    assert!(matches!(read_chunk_tree(&devices, &superblock(0x3000, 0)), Err(ChunkTreeError::BadNode(0x3000))));
    assert!(matches!(read_chunk_tree(&devices, &superblock(0xf800, 0)), Err(ChunkTreeError::OutOfRange(0xf800))));
}

#[test]
fn backup_superblock_is_used_when_primary_is_damaged() {
    let mut d = vec![0u8; 0x4000000 + 0x1000];
    d[0x4000000 + 64..0x4000000 + 72].copy_from_slice(b"_BHRfS_M");
    d[0x4000000 + 148..0x4000000 + 152].copy_from_slice(&16384u32.to_le_bytes());
    match open_superblock(&d) {
        Ok((sb, off)) => {
            assert_eq!(off, 0x4000000);
            assert_eq!(sb.node_size, 16384);
        },
        Err(_) => panic!("expected the backup"),
    }
    d[0x10000 + 64..0x10000 + 72].copy_from_slice(b"_BHRfS_M");
    match open_superblock(&d) {
        Ok((_, off)) => assert_eq!(off, 0x10000),
        Err(_) => panic!("expected the primary"),
    }
    let short = vec![0u8; 0x100];
    assert!(matches!(open_superblock(&short), Err(SuperblockError::NoSuperblock)));
}
