use omega13::checksum::{checksum_matches, verify_node_checksum};
use omega13::indexer::{IndexedFilesystem, SkipReason};
use omega13::items::{
    DIR_INDEX_TYPE, decode_dir_entries, decode_inode_item, DIR_ITEM_TYPE, EXTENT_DATA_TYPE, INODE_ITEM_TYPE, ROOT_ITEM_TYPE,
};
use omega13::node::{parse_node, Key, NodeError, NodeItems};

const UUID: [u8; 16] = [3; 16];
const NODE: usize = 4096;

fn key_bytes(object_id: u64, item_type: u8, offset: u64) -> Vec<u8> {
    let mut k = object_id.to_le_bytes().to_vec();
    k.push(item_type);
    k.extend_from_slice(&offset.to_le_bytes());
    k
}

fn leaf(tree_id: u64, items: &[(u64, u8, u64, Vec<u8>)]) -> Vec<u8> {
    let mut b = vec![0u8; NODE];
    b[32..48].copy_from_slice(&UUID);
    b[88..96].copy_from_slice(&tree_id.to_le_bytes());
    b[96..100].copy_from_slice(&(items.len() as u32).to_le_bytes());
    b[100] = 0;
    let mut data_at = 25 * items.len();
    for (i, (o, t, off, data)) in items.iter().enumerate() {
        let h = 101 + 25 * i;
        b[h..h + 17].copy_from_slice(&key_bytes(*o, *t, *off));
        b[h + 17..h + 21].copy_from_slice(&(data_at as u32).to_le_bytes());
        b[h + 21..h + 25].copy_from_slice(&(data.len() as u32).to_le_bytes());
        b[101 + data_at..101 + data_at + data.len()].copy_from_slice(data);
        data_at += data.len();
    }
    b
}

fn inode(transaction_id: u64, size: u64, mode: u32) -> Vec<u8> {
    let mut d = vec![0u8; 160];
    d[8..16].copy_from_slice(&transaction_id.to_le_bytes());
    d[16..24].copy_from_slice(&size.to_le_bytes());
    d[44..48].copy_from_slice(&1000u32.to_le_bytes());
    d[52..56].copy_from_slice(&mode.to_le_bytes());
    d[136..144].copy_from_slice(&1700000000u64.to_le_bytes());
    d
}

fn dir_entry(child: u64, transaction_id: u64, child_type: u8, name: &[u8]) -> Vec<u8> {
    let mut d = key_bytes(child, INODE_ITEM_TYPE, 0);
    d.extend_from_slice(&transaction_id.to_le_bytes());
    d.extend_from_slice(&0u16.to_le_bytes());
    d.extend_from_slice(&(name.len() as u16).to_le_bytes());
    d.push(child_type);
    d.extend_from_slice(name);
    d
}

fn regular_extent(logical: u64, data_size: u64) -> Vec<u8> {
    let mut d = vec![0u8; 53];
    d[20] = 1;
    d[21..29].copy_from_slice(&logical.to_le_bytes());
    d[29..37].copy_from_slice(&data_size.to_le_bytes());
    d[45..53].copy_from_slice(&data_size.to_le_bytes());
    d
}

fn indexed(nodes: &[Vec<u8>]) -> IndexedFilesystem {
    let mut image = Vec::new();
    let mut positions = Vec::new();
    for n in nodes {
        positions.push(image.len() as u64);
        image.extend_from_slice(n);
    }
    let devices: Vec<&[u8]> = vec![&image];
    let mut fs = IndexedFilesystem::new(UUID.to_vec(), NODE as u32, false);
    fs.add_nodes(&devices, &positions);
    fs.build_inode_items_index();
    fs.build_dir_items_index();
    fs.build_extent_datas_index();
    fs
}

#[test]
fn most_recent_inode_wins() {
    let a = leaf(5, &[(1000, INODE_ITEM_TYPE, 0, inode(7, 10, 0o100644))]);
    let b = leaf(5, &[(1000, INODE_ITEM_TYPE, 0, inode(9, 20, 0o100644))]);
    let c = leaf(5, &[(1000, INODE_ITEM_TYPE, 0, inode(8, 30, 0o100644))]);
    let fs = indexed(&[a, b, c]);
    assert_eq!(fs.inode_items.len(), 3);
    let recent = fs.inode_item(5, 1000).unwrap();
    assert_eq!(recent.transaction_id, 9);
    assert_eq!(recent.size, 20);
    assert!(fs.inode_item(5, 1001).is_none());
}

#[test]
fn equal_transaction_ids_prefer_later_node() {
    let a = leaf(5, &[(1000, INODE_ITEM_TYPE, 0, inode(9, 10, 0o100644))]);
    let b = leaf(5, &[(1000, INODE_ITEM_TYPE, 0, inode(9, 20, 0o100644))]);
    let fs = indexed(&[a, b]);
    assert_eq!(fs.inode_item(5, 1000).unwrap().size, 20);
}

#[test]
fn children_grouped_by_parent_of_most_recent_entry() {
    let a = leaf(5, &[
        (256, DIR_ITEM_TYPE, 1, dir_entry(257, 5, 2, b"a")),
        (256, DIR_ITEM_TYPE, 2, dir_entry(258, 5, 1, b"x")),
        (257, DIR_ITEM_TYPE, 3, dir_entry(259, 5, 1, b"b")),
    ]);
    // A later generation moves 258 from directory 256 to 257.
    let b = leaf(5, &[(257, DIR_ITEM_TYPE, 4, dir_entry(258, 6, 1, b"y"))]);
    let fs = indexed(&[a, b]);
    let root: Vec<u64> = fs.children(256).iter().map(|e| e.child_key.object_id).collect();
    assert_eq!(root, vec![257]);
    let mut sub: Vec<u64> = fs.dir_item_entries_by_parent.get(&257).unwrap().clone();
    sub.sort();
    assert_eq!(sub, vec![258, 259]);
    assert_eq!(fs.root_object_ids(), vec![256]);
    let e = fs.dir_item_entry(5, 257, b"y").unwrap();
    assert_eq!(e.child_key.object_id, 258);
    assert!(fs.dir_item_entry(6, 257, b"y").is_none());
    assert!(fs.dir_item_entry(5, 256, b"y").is_none());
}

#[test]
fn extent_datas_sorted_by_offset() {
    let a = leaf(5, &[
        (300, EXTENT_DATA_TYPE, 8192, regular_extent(0x1000, 4096)),
        (300, EXTENT_DATA_TYPE, 0, regular_extent(0x2000, 8192)),
        (301, EXTENT_DATA_TYPE, 0, regular_extent(0x3000, 4096)),
    ]);
    let fs = indexed(&[a]);
    let offsets: Vec<u64> = fs.extent_datas(5, 300).iter().map(|e| e.key.offset).collect();
    assert_eq!(offsets, vec![0, 8192]);
    assert_eq!(fs.extent_datas(5, 301).len(), 1);
    assert_eq!(fs.extent_datas(5, 302).len(), 0);
}

#[test]
fn root_item_with_highest_generation() {
    let mut old_root = vec![0u8; 239];
    old_root[160..168].copy_from_slice(&3u64.to_le_bytes());
    old_root[176..184].copy_from_slice(&0x100u64.to_le_bytes());
    let mut new_root = vec![0u8; 239];
    new_root[160..168].copy_from_slice(&4u64.to_le_bytes());
    new_root[168..176].copy_from_slice(&256u64.to_le_bytes());
    new_root[176..184].copy_from_slice(&0x200u64.to_le_bytes());
    let a = leaf(1, &[(256, ROOT_ITEM_TYPE, 0, new_root), (256, ROOT_ITEM_TYPE, 1, old_root)]);
    let fs = indexed(&[a]);
    let r = fs.root_item(256).unwrap();
    assert_eq!(r.root_node, 0x200);
    assert_eq!(r.root_dir_id, 256);
    assert!(fs.root_item(257).is_none());
}

#[test]
fn invalid_nodes_are_skipped() {
    let good = leaf(5, &[(1000, INODE_ITEM_TYPE, 0, inode(1, 1, 0))]);
    let mut foreign = good.clone();
    foreign[32] ^= 0xff;
    let mut deep = good.clone();
    deep[100] = 8;
    let fs = indexed(&[good.clone(), foreign, deep]);
    assert_eq!(fs.nodes.len(), 1);
    assert_eq!(fs.skipped.len(), 2);
    let image = good.clone();
    let devices: Vec<&[u8]> = vec![&image];
    let mut fs = IndexedFilesystem::new(UUID.to_vec(), NODE as u32, false);
    fs.add_nodes(&devices, &vec![100]);
    assert_eq!(fs.nodes.len(), 0);
    assert_eq!(fs.skipped.len(), 1);
}

#[test]
fn node_validation() {
    let good = leaf(5, &[(1000, INODE_ITEM_TYPE, 0, inode(1, 1, 0))]);
    match parse_node(&good, 0x4000, &UUID) {
        Ok(n) => {
            assert_eq!(n.position, 0x4000);
            assert_eq!(n.header.tree_id, 5);
            match n.items {
                NodeItems::Leaf(items) => {
                    assert_eq!(items.len(), 1);
                    assert_eq!(items[0].key, Key { object_id: 1000, item_type: INODE_ITEM_TYPE, offset: 0 });
                    assert_eq!(items[0].data_size, 160);
                    assert!(items[0].data_offset as usize + 160 <= NODE - 101);
                },
                NodeItems::Internal(_) => panic!("expected a leaf"),
            }
        },
        Err(_) => panic!("expected a node"),
    }
    let mut too_many = good.clone();
    too_many[96..100].copy_from_slice(&((NODE as u32 - 101) / 25 + 1).to_le_bytes());
    assert!(matches!(parse_node(&too_many, 0, &UUID), Err(NodeError::TooManyItems)));
    let mut outside = good.clone();
    outside[101 + 17..101 + 21].copy_from_slice(&((NODE - 101 - 100) as u32).to_le_bytes());
    assert!(matches!(parse_node(&outside, 0, &UUID), Err(NodeError::ItemOutOfNode(0))));
    assert!(matches!(parse_node(&good, 0, &[9u8; 16]), Err(NodeError::UuidMismatch)));
    assert!(matches!(parse_node(&good[..100], 0, &UUID), Err(NodeError::TooShort)));
    let mut internal = vec![0u8; NODE];
    internal[32..48].copy_from_slice(&UUID);
    internal[96..100].copy_from_slice(&1u32.to_le_bytes());
    internal[100] = 1;
    internal[101..118].copy_from_slice(&key_bytes(256, 0x84, 0));
    internal[118..126].copy_from_slice(&0x500000u64.to_le_bytes());
    match parse_node(&internal, 0, &UUID) {
        Ok(n) => match n.items {
            NodeItems::Internal(items) => assert_eq!(items[0].block_number, 0x500000),
            NodeItems::Leaf(_) => panic!("expected an internal node"),
        },
        Err(_) => panic!("expected a node"),
    }
}

#[test]
fn item_decoders() {
    let k = Key { object_id: 1000, item_type: INODE_ITEM_TYPE, offset: 0 };
    let i = decode_inode_item(5, k, &inode(9, 6, 0o100644)).unwrap();
    assert_eq!(i.transaction_id, 9);
    assert_eq!(i.size, 6);
    assert_eq!(i.mode, 0o100644);
    assert_eq!(i.uid, 1000);
    assert_eq!(i.mtime, 1700000000);
    assert!(decode_inode_item(5, k, &[0u8; 159]).is_none());
    let mut two = dir_entry(257, 1, 2, b"a");
    two.extend_from_slice(&dir_entry(258, 1, 1, b"bc"));
    two.extend_from_slice(&[1, 2, 3]);
    let entries = decode_dir_entries(5, Key { object_id: 256, item_type: DIR_ITEM_TYPE, offset: 9 }, &two);
    assert_eq!(entries.len(), 2);
    assert_eq!(entries[1].name, b"bc".to_vec());
    assert_eq!(entries[1].child_key.object_id, 258);
}

#[test]
fn dir_indexes_in_index_order_most_recent_each() {
    let a = leaf(5, &[
        (256, DIR_INDEX_TYPE, 5, dir_entry(260, 3, 1, b"e")),
        (256, DIR_INDEX_TYPE, 2, dir_entry(257, 3, 2, b"b")),
        (256, DIR_INDEX_TYPE, 3, dir_entry(258, 3, 1, b"c")),
        (257, DIR_INDEX_TYPE, 2, dir_entry(259, 3, 1, b"z")),
    ]);
    let b = leaf(5, &[
        (256, DIR_INDEX_TYPE, 3, dir_entry(261, 4, 1, b"c2")),
        (256, DIR_INDEX_TYPE, 2, dir_entry(262, 1, 1, b"old")),
    ]);
    let fs = indexed(&[a, b]);
    let names: Vec<Vec<u8>> = fs.dir_indexes(5, 256).iter().map(|e| e.name.clone()).collect();
    assert_eq!(names, vec![b"b".to_vec(), b"c2".to_vec(), b"e".to_vec()]);
    assert_eq!(fs.dir_indexes(5, 257).len(), 1);
    assert_eq!(fs.dir_indexes(5, 300).len(), 0);
}

fn with_checksum(mut b: Vec<u8>) -> Vec<u8> {
    let crc = crc::crc32::checksum_castagnoli(&b[32..]);
    b[0..4].copy_from_slice(&crc.to_le_bytes());
    b
}

#[test]
fn node_checksums() {
    let good = with_checksum(leaf(5, &[(1000, INODE_ITEM_TYPE, 0, inode(1, 1, 0))]));
    assert!(verify_node_checksum(&good));
    let mut bad = good.clone();
    bad[200] ^= 1;
    assert!(!verify_node_checksum(&bad));
    assert!(!verify_node_checksum(&good[..31]));
    let crc = u32::from_le_bytes([good[0], good[1], good[2], good[3]]);
    assert!(checksum_matches(&good, crc));
    assert!(!checksum_matches(&good, crc ^ 1));
    assert_ne!(crc, 0);

    let mut image = good.clone();
    image.extend_from_slice(&bad);
    let devices: Vec<&[u8]> = vec![&image];
    let mut fs = IndexedFilesystem::new(UUID.to_vec(), NODE as u32, true);
    fs.add_nodes(&devices, &vec![0, NODE as u64]);
    assert_eq!(fs.nodes.len(), 1);
    assert_eq!(fs.skipped, vec![(NODE as u64, SkipReason::BadChecksum)]);
    let mut fs = IndexedFilesystem::new(UUID.to_vec(), NODE as u32, false);
    fs.add_nodes(&devices, &vec![0, NODE as u64]);
    assert_eq!(fs.nodes.len(), 2);
}

#[test]
fn open_indexes_and_groups_internal_items_by_tree() {
    let mut internal = vec![0u8; NODE];
    internal[32..48].copy_from_slice(&UUID);
    internal[88..96].copy_from_slice(&1u64.to_le_bytes());
    internal[96..100].copy_from_slice(&2u32.to_le_bytes());
    internal[100] = 1;
    internal[101..118].copy_from_slice(&key_bytes(2, 0x84, 0));
    internal[118..126].copy_from_slice(&0x500000u64.to_le_bytes());
    internal[134..151].copy_from_slice(&key_bytes(256, 0x84, 0));
    internal[151..159].copy_from_slice(&0x600000u64.to_le_bytes());
    let leaf_node = leaf(5, &[(1000, INODE_ITEM_TYPE, 0, inode(3, 1, 0))]);
    let mut image = internal.clone();
    image.extend_from_slice(&leaf_node);
    let devices: Vec<&[u8]> = vec![&image];
    let fs = IndexedFilesystem::open(&devices, &vec![0, NODE as u64], UUID.to_vec(), NODE as u32, false);
    assert_eq!(fs.leaf_nodes, vec![NODE as u64]);
    assert_eq!(fs.internal_nodes, vec![0]);
    let blocks: Vec<u64> = fs.root_tree_internal_items().iter().map(|i| i.block_number).collect();
    assert_eq!(blocks, vec![0x500000, 0x600000]);
    assert_eq!(fs.inode_items_recent().get(&1000).unwrap().transaction_id, 3);
    assert!(fs.dir_item_entries_recent().is_empty());
    assert!(fs.dir_item_entries_by_parent().is_empty());
    assert!(fs.extent_datas_index().is_empty());
}

#[test]
fn lookups_keep_to_one_tree() {
    let a = leaf(5, &[
        (1000, INODE_ITEM_TYPE, 0, inode(9, 10, 0o100644)),
        (256, DIR_ITEM_TYPE, 1, dir_entry(1000, 9, 1, b"f")),
        (1000, EXTENT_DATA_TYPE, 0, regular_extent(0x1000, 4096)),
    ]);
    let b = leaf(256, &[
        (1000, INODE_ITEM_TYPE, 0, inode(3, 20, 0o100600)),
        (256, DIR_ITEM_TYPE, 1, dir_entry(1000, 3, 1, b"g")),
    ]);
    let fs = indexed(&[a, b]);
    assert_eq!(fs.inode_item(5, 1000).unwrap().size, 10);
    assert_eq!(fs.inode_item(256, 1000).unwrap().size, 20);
    assert_eq!(fs.inode_item(256, 1000).unwrap().tree_id, 256);
    assert!(fs.dir_item_entry(256, 256, b"g").is_some());
    assert!(fs.dir_item_entry(256, 256, b"f").is_none());
    assert!(fs.dir_item_entry(5, 256, b"f").is_some());
    assert_eq!(fs.extent_datas(5, 1000).len(), 1);
    assert_eq!(fs.extent_datas(256, 1000).len(), 0);
}

#[test]
fn per_object_indexes_sorted_by_key() {
    let a = leaf(5, &[
        (1000, INODE_ITEM_TYPE, 0, inode(9, 10, 0)),
        (999, INODE_ITEM_TYPE, 0, inode(9, 10, 0)),
    ]);
    let b = leaf(5, &[(1000, INODE_ITEM_TYPE, 0, inode(7, 10, 0))]);
    let fs = indexed(&[a, b]);
    assert_eq!(fs.inode_items_index.get(&1000).unwrap(), &vec![0usize, 2]);
    assert_eq!(fs.inode_items_index.get(&999).unwrap(), &vec![1usize]);
    let c = leaf(5, &[
        (256, DIR_ITEM_TYPE, 9, dir_entry(257, 1, 1, b"x")),
        (256, DIR_ITEM_TYPE, 3, dir_entry(258, 1, 1, b"y")),
    ]);
    let fs = indexed(&[c]);
    assert_eq!(fs.dir_item_entries_index.get(&256).unwrap(), &vec![1usize, 0]);
    assert_eq!(fs.leaf_nodes.len(), 1);
    assert!(fs.extent_items_index().is_empty());
}
