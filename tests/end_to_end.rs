use omega13::filesystem::load_filesystem;
use omega13::restore::{plan_file_contents, resolve_path, restore_action, ContentEnd, ContentStep, RestoreAction};
use omega13::scanner::index;

const UUID: [u8; 16] = [0x5a; 16];
const NODE: usize = 4096;

fn key_bytes(object_id: u64, item_type: u8, offset: u64) -> Vec<u8> {
    let mut k = object_id.to_le_bytes().to_vec();
    k.push(item_type);
    k.extend_from_slice(&offset.to_le_bytes());
    k
}

fn put_leaf(img: &mut [u8], at: usize, tree_id: u64, items: &[(u64, u8, u64, Vec<u8>)]) {
    let b = &mut img[at..at + NODE];
    b[32..48].copy_from_slice(&UUID);
    b[88..96].copy_from_slice(&tree_id.to_le_bytes());
    b[96..100].copy_from_slice(&(items.len() as u32).to_le_bytes());
    let mut data_at = 25 * items.len();
    for (i, (o, t, off, data)) in items.iter().enumerate() {
        let h = 101 + 25 * i;
        b[h..h + 17].copy_from_slice(&key_bytes(*o, *t, *off));
        b[h + 17..h + 21].copy_from_slice(&(data_at as u32).to_le_bytes());
        b[h + 21..h + 25].copy_from_slice(&(data.len() as u32).to_le_bytes());
        b[101 + data_at..101 + data_at + data.len()].copy_from_slice(data);
        data_at += data.len();
    }
}

fn inode(mode: u32, uid: u32, size: u64, mtime: u64) -> Vec<u8> {
    let mut d = vec![0u8; 160];
    d[8..16].copy_from_slice(&1u64.to_le_bytes());
    d[16..24].copy_from_slice(&size.to_le_bytes());
    d[44..48].copy_from_slice(&uid.to_le_bytes());
    d[52..56].copy_from_slice(&mode.to_le_bytes());
    d[136..144].copy_from_slice(&mtime.to_le_bytes());
    d
}

fn dir_entry(child: u64, child_type: u8, name: &[u8]) -> Vec<u8> {
    let mut d = key_bytes(child, 1, 0);
    d.extend_from_slice(&1u64.to_le_bytes());
    d.extend_from_slice(&0u16.to_le_bytes());
    d.extend_from_slice(&(name.len() as u16).to_le_bytes());
    d.push(child_type);
    d.extend_from_slice(name);
    d
}

fn image() -> Vec<u8> {
    let len = 0x20000;
    let mut img = vec![0u8; len];
    let sb = 0x10000;
    img[sb + 32..sb + 48].copy_from_slice(&UUID);
    img[sb + 64..sb + 72].copy_from_slice(b"_BHRfS_M");
    for off in [144, 148, 152] {
        img[sb + off..sb + off + 4].copy_from_slice(&(NODE as u32).to_le_bytes());
    }
    // One system chunk mapping the whole image onto itself.
    let mut chunk = key_bytes(256, 0xe4, 0);
    let mut item = vec![0u8; 48];
    item[0..8].copy_from_slice(&(len as u64).to_le_bytes());
    item[44..46].copy_from_slice(&1u16.to_le_bytes());
    chunk.extend_from_slice(&item);
    let mut stripe = vec![0u8; 32];
    stripe[0..8].copy_from_slice(&1u64.to_le_bytes());
    chunk.extend_from_slice(&stripe);
    img[sb + 160..sb + 164].copy_from_slice(&(chunk.len() as u32).to_le_bytes());
    img[sb + 811..sb + 811 + chunk.len()].copy_from_slice(&chunk);

    // The chunk tree: one leaf that maps a data chunk.
    img[sb + 88..sb + 96].copy_from_slice(&0x13000u64.to_le_bytes());
    let mut data_chunk = vec![0u8; 80];
    data_chunk[0..8].copy_from_slice(&0x10000u64.to_le_bytes());
    data_chunk[44..46].copy_from_slice(&1u16.to_le_bytes());
    data_chunk[48..56].copy_from_slice(&1u64.to_le_bytes());
    data_chunk[56..64].copy_from_slice(&0x18000u64.to_le_bytes());
    put_leaf(&mut img, 0x13000, 3, &[(256, 0xe4, 0x100000, data_chunk)]);

    let mut root = vec![0u8; 239];
    root[160..168].copy_from_slice(&1u64.to_le_bytes());
    root[168..176].copy_from_slice(&256u64.to_le_bytes());
    root[176..184].copy_from_slice(&0x12000u64.to_le_bytes());
    let mut backref = 256u64.to_le_bytes().to_vec();
    backref.extend_from_slice(&0u64.to_le_bytes());
    backref.extend_from_slice(&4u16.to_le_bytes());
    backref.extend_from_slice(b"subv");
    put_leaf(&mut img, 0x11000, 1, &[(256, 0x84, 0, root), (256, 0x90, 5, backref)]);

    let mut extent = vec![0u8; 21];
    extent[8..16].copy_from_slice(&6u64.to_le_bytes());
    extent.extend_from_slice(b"hello\n");
    put_leaf(&mut img, 0x12000, 256, &[
        (256, 0x01, 0, inode(0o40755, 0, 0, 0)),
        (256, 0x54, 1, dir_entry(257, 2, b"a")),
        (256, 0x60, 2, dir_entry(257, 2, b"a")),
        (257, 0x01, 0, inode(0o40755, 1000, 0, 0)),
        (257, 0x54, 2, dir_entry(258, 1, b"b")),
        (257, 0x60, 2, dir_entry(258, 1, b"b")),
        (258, 0x01, 0, inode(0o100644, 1000, 6, 1700000000)),
        (258, 0x6c, 0, extent),
    ]);
    img
}

#[test]
fn end_to_end_restore_plan() {
    let img = image();
    let devices: Vec<&[u8]> = vec![&img];
    let positions = index(&devices).unwrap();
    assert_eq!(positions, vec![0x11000, 0x12000, 0x13000]);
    let (fs, map) = load_filesystem(&devices, &positions, false).unwrap();
    assert_eq!(map.logical_to_physical(0x12000), Ok((1, 0x12000)));
    assert_eq!(map.logical_to_physical(0x100010), Ok((1, 0x18010)));
    assert_eq!(map.entries.len(), 3);
    assert_eq!(fs.subvolume_ids(), vec![256]);
    assert_eq!(fs.subvolume_path(256), Some(b"subv".to_vec()));

    let root = fs.root_item(256).unwrap();
    let (dir, dir_type) = resolve_path(&fs, 256, root.root_dir_id, b"/a").unwrap();
    assert_eq!((dir, dir_type), (257, 2));
    assert_eq!(restore_action(dir_type), RestoreAction::Directory);
    let dir_inode = fs.inode_item(256, dir).unwrap();
    assert_eq!(dir_inode.mode, 0o40755);
    assert_eq!(dir_inode.uid, 1000);

    let by_parent = fs.children(dir);
    assert_eq!(by_parent.len(), 1);
    let children = fs.dir_indexes(256, dir);
    assert_eq!(children.len(), 1);
    assert_eq!(children[0].name, b"b".to_vec());
    assert_eq!(restore_action(children[0].child_type), RestoreAction::RegularFile);
    let file = fs.inode_item(256, children[0].child_key.object_id).unwrap();
    assert!(fs.inode_item(5, children[0].child_key.object_id).is_none());
    assert_eq!(file.mode & 0o7777, 0o644);
    assert_eq!(file.uid, 1000);
    assert_eq!(file.mtime, 1700000000);

    let (steps, end) = plan_file_contents(file.size, &fs.extent_datas(256, 258));
    assert_eq!(end, ContentEnd::Complete);
    assert_eq!(steps.len(), 1);
    match &steps[0] {
        ContentStep::Inline(b) => assert_eq!(b, &b"hello\n".to_vec()),
        _ => panic!("expected inline contents"),
    }
}
