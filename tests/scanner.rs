use omega13::index_file::index_write;
use omega13::scanner::{index, scan_device, ScanError};
use omega13::superblock::{backup_superblock_offsets, read_superblock_at, SuperblockError};

const UUID: [u8; 16] = [7, 1, 2, 3, 4, 5, 6, 8, 9, 10, 11, 12, 13, 14, 15, 16];

fn put_u32(b: &mut [u8], off: usize, v: u32) {
    b[off..off + 4].copy_from_slice(&v.to_le_bytes());
}

fn image(len: usize, sector: u32, node: u32, leaf: u32) -> Vec<u8> {
    let mut b = vec![0u8; len];
    let sb = 0x10000;
    b[sb + 32..sb + 48].copy_from_slice(&UUID);
    b[sb + 64..sb + 72].copy_from_slice(b"_BHRfS_M");
    put_u32(&mut b, sb + 144, sector);
    put_u32(&mut b, sb + 148, node);
    put_u32(&mut b, sb + 152, leaf);
    b
}

fn put_node(b: &mut [u8], at: usize) {
    b[at + 32..at + 48].copy_from_slice(&UUID);
}

#[test]
fn index_of_single_image() {
    let mut img = image(64 << 20, 4096, 16384, 16384);
    put_node(&mut img, 0x400000);
    put_node(&mut img, 0x800000);
    put_node(&mut img, 0xC00000);
    let devices: Vec<&[u8]> = vec![&img];
    let positions = match index(&devices) {
        Ok(p) => p,
        Err(_) => panic!("scan failed"),
    };
    assert_eq!(positions, vec![0x400000, 0x800000, 0xc00000]);
    assert_eq!(index_write(&positions), b"400000\n800000\nc00000\n".to_vec());
    for p in positions {
        let p = p as usize;
        assert_eq!(&img[p + 32..p + 48], &UUID[..]);
    }
}

#[test]
fn backup_superblock_offset_is_skipped() {
    let mut img = image(0x4000000 + 0x10000, 4096, 16384, 16384);
    put_node(&mut img, 0x4000000);
    put_node(&mut img, 0x4000000 + 0x4000);
    let devices: Vec<&[u8]> = vec![&img];
    match index(&devices) {
        Ok(p) => assert_eq!(p, vec![0x4004000]),
        Err(_) => panic!("scan failed"),
    }
}

#[test]
fn positions_are_global_across_images() {
    let mut a = image(0x20000, 4096, 4096, 4096);
    put_node(&mut a, 0x11000);
    let mut b = vec![0u8; 0x20000];
    put_node(&mut b, 0x12000);
    let devices: Vec<&[u8]> = vec![&a, &b];
    match index(&devices) {
        Ok(p) => assert_eq!(p, vec![0x11000, 0x20000 + 0x12000]),
        Err(_) => panic!("scan failed"),
    }
}

#[test]
fn scan_stops_at_last_whole_node() {
    let mut img = vec![0u8; 0x15000];
    put_node(&mut img, 0x11000);
    put_node(&mut img, 0x14000);
    assert_eq!(scan_device(&img, &UUID, 0x1000, 0x2000, 5), vec![0x11005]);
}

#[test]
fn scan_errors() {
    let devices: Vec<&[u8]> = vec![];
    assert!(matches!(index(&devices), Err(ScanError::NoDevices)));
    let short = vec![0u8; 0x10000];
    let devices: Vec<&[u8]> = vec![&short];
    assert!(matches!(index(&devices), Err(ScanError::Superblock(SuperblockError::NoSuperblock))));
    let mut bad = image(0x20000, 4096, 4096, 4096);
    bad[0x10000 + 64] = b'X';
    let devices: Vec<&[u8]> = vec![&bad];
    assert!(matches!(index(&devices), Err(ScanError::Superblock(SuperblockError::BadMagic))));
    let mixed = image(0x20000, 4096, 16384, 4096);
    let devices: Vec<&[u8]> = vec![&mixed];
    assert!(matches!(index(&devices), Err(ScanError::UnsupportedNodeSize)));
    let zero = image(0x20000, 0, 4096, 4096);
    let devices: Vec<&[u8]> = vec![&zero];
    assert!(matches!(index(&devices), Err(ScanError::BadGeometry)));
}

#[test]
fn superblock_fields() {
    let mut img = image(0x20000, 4096, 16384, 16384);
    img[0x10000 + 88..0x10000 + 96].copy_from_slice(&0x1234567u64.to_le_bytes());
    img[0x10000 + 80..0x10000 + 88].copy_from_slice(&0x7654321u64.to_le_bytes());
    match read_superblock_at(&img, 0x10000) {
        Ok(sb) => {
            assert_eq!(sb.fs_uuid, UUID.to_vec());
            assert_eq!(sb.sector_size, 4096);
            assert_eq!(sb.node_size, 16384);
            assert_eq!(sb.chunk_tree_logical_address, 0x1234567);
            assert_eq!(sb.root_tree_logical_address, 0x7654321);
            assert!(sb.system_chunks.is_empty());
        },
        Err(_) => panic!("expected a superblock"),
    }
}

#[test]
fn backup_offsets_within_device() {
    assert_eq!(backup_superblock_offsets(0x4000000), Vec::<u64>::new());
    assert_eq!(backup_superblock_offsets(0x4001000), vec![0x4000000]);
    assert_eq!(backup_superblock_offsets(0x4000001000), vec![0x4000000, 0x4000000000]);
}
