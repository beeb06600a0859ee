use omega13::chunk_map::{bootstrap_chunk_map, AddressError, ChunkMap};
use omega13::items::{ChunkItem, Stripe};
use omega13::node::Key;

fn key(logical_start: u64) -> Key {
    Key { object_id: 256, item_type: 0xe4, offset: logical_start }
}

fn single() -> ChunkMap {
    let mut m = ChunkMap::new();
    m.add(ChunkItem {
        key: key(0x100000),
        logical_start: 0x100000,
        length: 0x100000,
        stripes: vec![Stripe { device_id: 1, offset: 0x2000000 }],
    });
    m
}

#[test]
fn logical_to_physical_translation() {
    let m = single();
    assert_eq!(m.logical_to_physical(0x180000), Ok((1, 0x2080000)));
    assert_eq!(m.logical_to_physical(0x100000), Ok((1, 0x2000000)));
    assert_eq!(m.logical_to_physical(0x1fffff), Ok((1, 0x20fffff)));
    assert_eq!(m.logical_to_physical(0x200000), Err(AddressError::NotMapped));
    assert_eq!(m.logical_to_physical(0xfffff), Err(AddressError::NotMapped));
}

#[test]
fn physical_maps_back_to_logical() {
    let m = single();
    for l in [0x100000u64, 0x180000, 0x1fffff] {
        let (d, p) = m.logical_to_physical(l).unwrap();
        assert_eq!(m.entries[0].logical_of(d, p), Some(l));
    }
    assert_eq!(m.entries[0].logical_of(2, 0x2000000), None);
    assert_eq!(m.entries[0].logical_of(1, 0x2100000), None);
}

#[test]
fn first_entry_wins_where_two_overlap() {
    let mut m = single();
    m.add(ChunkItem {
        key: key(0x100000),
        logical_start: 0x100000,
        length: 0x100000,
        stripes: vec![Stripe { device_id: 2, offset: 0 }],
    });
    assert_eq!(m.logical_to_physical(0x100010), Ok((1, 0x2000010)));
}

#[test]
fn reads_from_next_stripe_when_first_is_missing() {
    let mut m = ChunkMap::new();
    m.add(ChunkItem {
        key: key(0x1000),
        logical_start: 0x1000,
        length: 0x1000,
        stripes: vec![Stripe { device_id: 3, offset: 0 }, Stripe { device_id: 1, offset: 0x10 }],
    });
    let dev: Vec<u8> = (0..0x2000u32).map(|i| i as u8).collect();
    let devices: Vec<&[u8]> = vec![&dev];
    assert_eq!(m.slice_at_logical(&devices, 0x1002, 3), Ok(vec![0x12, 0x13, 0x14]));
    assert_eq!(m.slice_at_logical(&devices, 0x1ffe, 4), Err(AddressError::NotMapped));
    assert_eq!(m.slice_at_logical(&devices, 0x3000, 1), Err(AddressError::NotMapped));
    let short: Vec<u8> = vec![0; 0x11];
    let devices: Vec<&[u8]> = vec![&short];
    assert_eq!(m.slice_at_logical(&devices, 0x1002, 3), Err(AddressError::OutOfRange));
}

#[test]
fn bootstrap_array_is_parsed() {
    let mut a = Vec::new();
    a.extend_from_slice(&256u64.to_le_bytes());
    a.push(0xe4);
    a.extend_from_slice(&0x1500000u64.to_le_bytes());
    let mut item = vec![0u8; 48];
    item[0..8].copy_from_slice(&0x400000u64.to_le_bytes());
    item[44..46].copy_from_slice(&1u16.to_le_bytes());
    a.extend_from_slice(&item);
    let mut stripe = vec![0u8; 32];
    stripe[0..8].copy_from_slice(&1u64.to_le_bytes());
    stripe[8..16].copy_from_slice(&0x1500000u64.to_le_bytes());
    a.extend_from_slice(&stripe);
    let m = bootstrap_chunk_map(&a);
    assert_eq!(m.entries.len(), 1);
    assert_eq!(m.entries[0].logical_start, 0x1500000);
    assert_eq!(m.entries[0].length, 0x400000);
    assert_eq!(m.logical_to_physical(0x1504000), Ok((1, 0x1504000)));
    a.truncate(a.len() - 1);
    assert_eq!(bootstrap_chunk_map(&a).entries.len(), 0);
}
