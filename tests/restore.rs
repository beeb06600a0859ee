use omega13::indexer::IndexedFilesystem;
use omega13::items::{ExtentData, EXTENT_DATA_TYPE};
use omega13::node::Key;
use omega13::restore::{
    decompression, extent_bytes, plan_file_contents, split_lzo_segments, resolve_path, restore_action, Compression, ContentEnd,
    ContentStep, RestoreAction, RestoreError, RestoreLog,
};

fn extent(offset: u64, extent_type: u8, logical: u64, data_size: u64) -> ExtentData {
    ExtentData {
        tree_id: 256,
        key: Key { object_id: 300, item_type: EXTENT_DATA_TYPE, offset },
        generation: 1,
        compression: 0,
        extent_type,
        inline_data: vec![],
        logical_address: logical,
        extent_size: data_size,
        data_offset: 0,
        data_size,
    }
}

#[test]
fn sparse_extent_is_a_hole() {
    let (steps, end) = plan_file_contents(8192, &vec![extent(0, 1, 0, 8192)]);
    assert_eq!(end, ContentEnd::Complete);
    assert_eq!(steps.len(), 1);
    assert!(matches!(steps[0], ContentStep::Hole(8192)));
}

#[test]
fn regular_extent_is_cut_to_file_size() {
    let (steps, end) = plan_file_contents(6, &vec![extent(0, 1, 0x5000, 4096)]);
    assert_eq!(end, ContentEnd::Complete);
    match steps[0] {
        ContentStep::Regular { logical_address, length, data_offset, .. } => {
            assert_eq!(logical_address, 0x5000);
            assert_eq!(length, 6);
            assert_eq!(data_offset, 0);
        },
        _ => panic!("expected a regular step"),
    }
}

#[test]
fn extents_must_follow_each_other() {
    let (steps, end) = plan_file_contents(
        16384,
        &vec![extent(0, 1, 0x5000, 4096), extent(8192, 1, 0x6000, 4096)],
    );
    assert_eq!(steps.len(), 1);
    assert_eq!(end, ContentEnd::Misordered { expected: 4096, got: 8192 });
}

#[test]
fn inline_prealloc_and_unknown_extents() {
    let mut inline = extent(0, 0, 0, 0);
    inline.inline_data = b"hello\n".to_vec();
    let (steps, end) = plan_file_contents(6, &vec![inline]);
    assert_eq!(end, ContentEnd::Complete);
    match &steps[0] {
        ContentStep::Inline(b) => assert_eq!(b, &b"hello\n".to_vec()),
        _ => panic!("expected inline bytes"),
    }
    let (steps, end) = plan_file_contents(4096, &vec![extent(0, 2, 0x7000, 4096), extent(4096, 1, 0, 4096)]);
    assert!(matches!(steps[0], ContentStep::Prealloc));
    assert_eq!(end, ContentEnd::Misordered { expected: 0, got: 4096 });
    let (steps, end) = plan_file_contents(4096, &vec![extent(0, 9, 0, 4096)]);
    assert_eq!(steps.len(), 0);
    assert_eq!(end, ContentEnd::InvalidType(9));
}

#[test]
fn planning_stops_past_file_size() {
    let (steps, end) = plan_file_contents(
        4096,
        &vec![extent(0, 1, 0, 8192), extent(8192, 1, 0x9000, 4096)],
    );
    assert_eq!(steps.len(), 1);
    assert_eq!(end, ContentEnd::Complete);
}

#[test]
fn extent_slices_and_short_data() {
    assert_eq!(extent_bytes(b"abcdef", 2, 3), Ok(b"cde".to_vec()));
    assert_eq!(extent_bytes(b"abcdef", 4, 3), Err(RestoreError::NotEnoughData { have: 6, need: 7 }));
}

#[test]
fn compression_tags() {
    assert_eq!(decompression(0), Ok(Compression::Uncompressed));
    assert_eq!(decompression(1), Ok(Compression::Zlib));
    assert_eq!(decompression(2), Ok(Compression::Lzo));
    assert_eq!(decompression(3), Ok(Compression::Zstd));
    assert_eq!(decompression(4), Err(RestoreError::UnsupportedCompression(4)));
}

#[test]
fn child_types() {
    assert_eq!(restore_action(1), RestoreAction::RegularFile);
    assert_eq!(restore_action(2), RestoreAction::Directory);
    assert_eq!(restore_action(3), RestoreAction::CharDevice);
    assert_eq!(restore_action(4), RestoreAction::BlockDevice);
    assert_eq!(restore_action(6), RestoreAction::Socket);
    assert_eq!(restore_action(7), RestoreAction::Symlink);
    assert_eq!(restore_action(5), RestoreAction::Unknown);
}

#[test]
fn log_counts_each_kind() {
    let mut log = RestoreLog::new();
    log.count(RestoreAction::RegularFile);
    log.count(RestoreAction::RegularFile);
    log.count(RestoreAction::BlockDevice);
    log.count(RestoreAction::CharDevice);
    log.log_error(b"/a".to_vec(), b"out/a".to_vec(), b"failed".to_vec());
    assert_eq!(log.num_files, 2);
    assert_eq!(log.num_block_devices, 1);
    assert_eq!(log.num_char_devices, 1);
    assert_eq!(log.num_devices(), 2);
    assert_eq!(log.errors.len(), 1);
    log.count_bytes(10, 6, 4);
    log.count_bytes(u64::MAX, 1, 0);
    assert_eq!(log.bytes_total, u64::MAX);
    assert_eq!(log.bytes_success, 7);
    assert_eq!(log.bytes_sparse, 4);
}

fn dir_entry(parent: u64, child: u64, child_type: u8, name: &[u8]) -> omega13::items::DirItemEntry {
    omega13::items::DirItemEntry {
        tree_id: 256,
        key: Key { object_id: parent, item_type: 0x54, offset: 0 },
        child_key: Key { object_id: child, item_type: 1, offset: 0 },
        transaction_id: 1,
        child_type,
        name: name.to_vec(),
    }
}

#[test]
fn source_path_resolves_component_by_component() {
    let mut fs = IndexedFilesystem::new(vec![0; 16], 4096, false);
    fs.dir_item_entries.push(dir_entry(256, 257, 2, b"a"));
    fs.dir_item_entries.push(dir_entry(257, 258, 1, b"b"));
    fs.build_dir_items_index();
    assert_eq!(resolve_path(&fs, 256, 256, b"/a/b"), Ok((258, 1)));
    assert_eq!(resolve_path(&fs, 256, 256, b"a//b/"), Ok((258, 1)));
    assert_eq!(resolve_path(&fs, 256, 256, b"/a"), Ok((257, 2)));
    assert_eq!(resolve_path(&fs, 256, 256, b"/"), Ok((256, 2)));
    assert_eq!(resolve_path(&fs, 256, 256, b"/a/c"), Err(RestoreError::PathNotFound));
    assert_eq!(resolve_path(&fs, 5, 256, b"/a"), Err(RestoreError::PathNotFound));
}

#[test]
fn inline_extent_is_cut_to_file_size() {
    let mut inline = extent(0, 0, 0, 0);
    inline.inline_data = b"hello\nworld".to_vec();
    let (steps, end) = plan_file_contents(6, &vec![inline]);
    assert_eq!(end, ContentEnd::Complete);
    assert_eq!(steps.len(), 1);
    match &steps[0] {
        ContentStep::Inline(b) => assert_eq!(b, &b"hello\n".to_vec()),
        _ => panic!("expected inline bytes"),
    }
}

fn lzo_frame(segments: &[&[u8]]) -> Vec<u8> {
    let mut body = Vec::new();
    for s in segments {
        body.extend_from_slice(&(s.len() as u32).to_le_bytes());
        body.extend_from_slice(s);
    }
    let mut out = ((body.len() + 4) as u32).to_le_bytes().to_vec();
    out.extend_from_slice(&body);
    out
}

#[test]
fn lzo_extent_splits_into_segments() {
    let mut d = lzo_frame(&[b"abc", b"", b"de"]);
    d.extend_from_slice(&[0, 0, 0]);
    assert_eq!(split_lzo_segments(&d), Ok(vec![b"abc".to_vec(), vec![], b"de".to_vec()]));
    assert_eq!(split_lzo_segments(&lzo_frame(&[])), Ok(vec![]));
    let mut cut = lzo_frame(&[b"abc"]);
    cut[4] = 9;
    assert_eq!(split_lzo_segments(&cut), Err(RestoreError::BadCompressedData));
    let mut long = lzo_frame(&[b"abc"]);
    long[0] = 200;
    assert_eq!(split_lzo_segments(&long), Err(RestoreError::BadCompressedData));
    assert_eq!(split_lzo_segments(&[1, 0]), Err(RestoreError::BadCompressedData));
    let mut short_header = lzo_frame(&[b"abc"]);
    short_header[0] += 2;
    short_header.extend_from_slice(&[0, 0]);
    assert_eq!(split_lzo_segments(&short_header), Err(RestoreError::BadCompressedData));
}
