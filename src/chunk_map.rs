use vstd::prelude::*;

use crate::items::{chunk_item_at, chunk_item_size, decode_chunk_item, ChunkItem, ChunkView, Stripe, CHUNK_ITEM_HEADER_SIZE};
use crate::node::{key_at, read_key};
use crate::scanner::device_contents;

verus! {

/// Whether chunk `c` maps logical address `l`: `l` lies in its range and it
/// has a stripe to read from.
pub open spec fn chunk_contains(c: ChunkView, l: int) -> bool {
    c.stripes.len() > 0 && c.logical_start <= l < c.logical_start + c.length
}

/// The first entry, from index `i` on, that maps `l`.
pub open spec fn first_entry_from(entries: Seq<ChunkView>, l: int, i: int) -> Option<int>
    decreases entries.len() - i,
{
    if i < 0 || i >= entries.len() {
        None
    } else if chunk_contains(entries[i], l) {
        Some(i)
    } else {
        first_entry_from(entries, l, i + 1)
    }
}

/// The entry that maps `l`: the first one that does.
pub open spec fn entry_for(entries: Seq<ChunkView>, l: int) -> Option<int> {
    first_entry_from(entries, l, 0)
}

/// Where logical address `l` lies through chunk `c`: on the device of the
/// first stripe, as far past its start as `l` is past the chunk's.
pub open spec fn chunk_physical(c: ChunkView, l: int) -> int {
    c.stripes[0].offset + (l - c.logical_start)
}

/// The device and physical offset of logical address `l`, or nothing where
/// no entry maps it (or the offset would not fit in 64 bits).
pub open spec fn translate(entries: Seq<ChunkView>, l: u64) -> Option<(u64, u64)> {
    match entry_for(entries, l as int) {
        None => None,
        Some(i) => if chunk_physical(entries[i], l as int) <= u64::MAX {
            Some((entries[i].stripes[0].device_id, chunk_physical(entries[i], l as int) as u64))
        } else {
            None
        },
    }
}

/// The logical address that `physical` on `device` holds through chunk
/// `c`'s first stripe, if it lies within that stripe.
pub open spec fn chunk_logical(c: ChunkView, device: u64, physical: u64) -> Option<int> {
    if c.stripes.len() > 0 && c.stripes[0].device_id == device && c.stripes[0].offset <= physical
        < c.stripes[0].offset + c.length {
        Some(c.logical_start + (physical - c.stripes[0].offset))
    } else {
        None
    }
}

/// Two logical addresses that the same entry maps go to different places.
pub proof fn lemma_translate_injective(entries: Seq<ChunkView>, a: u64, b: u64)
    requires
        translate(entries, a) is Some,
        translate(entries, a) == translate(entries, b),
        entry_for(entries, a as int) == entry_for(entries, b as int),
    ensures
        a == b,
{
    lemma_first_entry_bounds(entries, a as int, 0);
    lemma_first_entry_bounds(entries, b as int, 0);
    let i = entry_for(entries, a as int)->0;
    let c = entries[i];
    assert(chunk_physical(c, a as int) <= u64::MAX);
    assert(chunk_physical(c, b as int) <= u64::MAX);
    let (_, pa) = translate(entries, a)->0;
    let (_, pb) = translate(entries, b)->0;
    assert(pa == chunk_physical(c, a as int));
    assert(pb == chunk_physical(c, b as int));
}

/// Translating a logical address and reading the result back through the
/// entry that mapped it gives the address again.
pub proof fn lemma_translate_round_trip(entries: Seq<ChunkView>, l: u64)
    requires
        translate(entries, l) is Some,
    ensures
        ({
            let (device, physical) = translate(entries, l)->0;
            chunk_logical(entries[entry_for(entries, l as int)->0], device, physical) == Some(l as int)
        }),
{
    lemma_first_entry_bounds(entries, l as int, 0);
}

proof fn lemma_first_entry_bounds(entries: Seq<ChunkView>, l: int, i: int)
    ensures
        first_entry_from(entries, l, i) is Some ==> {
            let k = first_entry_from(entries, l, i)->0;
            &&& i <= k < entries.len()
            &&& chunk_contains(entries[k], l)
        },
    decreases entries.len() - i,
{
    if 0 <= i < entries.len() && !chunk_contains(entries[i], l) {
        lemma_first_entry_bounds(entries, l, i + 1);
    }
}


/// Whether stripe `s` holds `len` bytes from `delta` past its start within
/// the devices (numbered from 1 in the order given).
pub open spec fn stripe_readable(devices: Seq<Seq<u8>>, s: Stripe, delta: int, len: int) -> bool {
    1 <= s.device_id <= devices.len() && s.offset + delta + len <= devices[s.device_id - 1].len()
}

/// The first stripe, from index `k` on, that is readable.
pub open spec fn first_readable(devices: Seq<Seq<u8>>, stripes: Seq<Stripe>, delta: int, len: int, k: int) -> Option<int>
    decreases stripes.len() - k,
{
    if k < 0 || k >= stripes.len() {
        None
    } else if stripe_readable(devices, stripes[k], delta, len) {
        Some(k)
    } else {
        first_readable(devices, stripes, delta, len, k + 1)
    }
}

/// The `len` bytes at logical address `l`: from the entry that maps `l`,
/// which must hold all of them, read from its first stripe that lies
/// within the devices.
pub open spec fn read_logical(devices: Seq<Seq<u8>>, entries: Seq<ChunkView>, l: u64, len: u64) -> Result<Seq<u8>, AddressError> {
    match entry_for(entries, l as int) {
        None => Err(AddressError::NotMapped),
        Some(i) => {
            let c = entries[i];
            let delta = l - c.logical_start;
            if l + len > c.logical_start + c.length {
                Err(AddressError::NotMapped)
            } else {
                match first_readable(devices, c.stripes, delta, len as int, 0) {
                    None => Err(AddressError::OutOfRange),
                    Some(k) => {
                        let s = c.stripes[k];
                        Ok(devices[s.device_id - 1].subrange(s.offset + delta, s.offset + delta + len))
                    },
                }
            }
        },
    }
}

#[derive(PartialEq, Eq, Structural, Clone, Copy, Debug)]
pub enum AddressError {
    /// No chunk maps the address.
    NotMapped,
    /// No stripe of the chunk lies within the devices.
    OutOfRange,
}

/// The map from logical addresses to devices, one entry per chunk item, in
/// the order they were added.
pub struct ChunkMap {
    pub entries: Vec<ChunkItem>,
}

pub open spec fn chunk_entry_views(v: Seq<ChunkItem>) -> Seq<ChunkView> {
    v.map_values(|c: ChunkItem| c@)
}

impl View for ChunkMap {
    type V = Seq<ChunkView>;

    open spec fn view(&self) -> Seq<ChunkView> {
        chunk_entry_views(self.entries@)
    }
}

impl ChunkItem {
    /// The logical address that `physical` on `device` holds through this
    /// chunk's first stripe.
    pub fn logical_of(&self, device: u64, physical: u64) -> (r: Option<u64>)
        ensures
            match chunk_logical(self@, device, physical) {
                None => r is None,
                Some(l) => if l <= u64::MAX {
                    r == Some(l as u64)
                } else {
                    r is None
                },
            },
    {
        if self.stripes.len() == 0 {
            return None;
        }
        let s = self.stripes[0];
        if s.device_id != device || physical < s.offset || physical - s.offset >= self.length {
            return None;
        }
        let delta = physical - s.offset;
        if delta > u64::MAX - self.logical_start {
            // The chunk would reach past the end of the logical address space.
            return None;
        }
        Some(self.logical_start + delta)
    }
}

impl ChunkMap {
    pub fn new() -> (r: ChunkMap)
        ensures
            r@ == Seq::<ChunkView>::empty(),
    {
        let r = ChunkMap { entries: Vec::new() };
        assert(r@ =~= Seq::<ChunkView>::empty());
        r
    }

    pub fn add(&mut self, c: ChunkItem)
        ensures
            final(self)@ == old(self)@.push(c@),
    {
        self.entries.push(c);
        assert(self@ =~= old(self)@.push(c@));
    }

    /// The index of the entry that maps `l`.
    pub fn find_entry(&self, l: u64) -> (r: Option<usize>)
        ensures
            match r {
                None => entry_for(self@, l as int) is None,
                Some(i) => entry_for(self@, l as int) == Some(i as int) && i < self@.len(),
            },
    {
        let mut i: usize = 0;
        while i < self.entries.len()
            invariant
                i <= self.entries.len(),
                entry_for(self@, l as int) == first_entry_from(self@, l as int, i as int),
            decreases self.entries.len() - i,
        {
            let c = &self.entries[i];
            assert(self@[i as int] == c@);
            if c.stripes.len() > 0 && c.logical_start <= l && l - c.logical_start < c.length {
                return Some(i);
            }
            i = i + 1;
        }
        None
    }

    /// The device and physical offset that logical address `l` maps to.
    pub fn logical_to_physical(&self, l: u64) -> (r: Result<(u64, u64), AddressError>)
        ensures
            match translate(self@, l) {
                None => r == Err::<(u64, u64), AddressError>(AddressError::NotMapped),
                Some(x) => r == Ok::<(u64, u64), AddressError>(x),
            },
    {
        match self.find_entry(l) {
            None => Err(AddressError::NotMapped),
            Some(i) => {
                proof {
                    lemma_first_entry_bounds(self@, l as int, 0);
                }
                let c = &self.entries[i];
                assert(self@[i as int] == c@);
                let s = c.stripes[0];
                let delta = l - c.logical_start;
                if delta > u64::MAX - s.offset {
                    Err(AddressError::NotMapped)
                } else {
                    Ok((s.device_id, s.offset + delta))
                }
            },
        }
    }

    /// Reads `len` bytes at logical address `l` from the devices, trying
    /// each stripe of the chunk in turn.
    pub fn slice_at_logical(&self, devices: &Vec<&[u8]>, l: u64, len: u64) -> (r: Result<Vec<u8>, AddressError>)
        ensures
            match read_logical(device_contents(devices@), self@, l, len) {
                Ok(b) => r is Ok && r->Ok_0@ == b,
                Err(e) => r == Err::<Vec<u8>, AddressError>(e),
            },
    {
        let ghost contents = device_contents(devices@);
        let i = match self.find_entry(l) {
            None => {
                return Err(AddressError::NotMapped);
            },
            Some(i) => i,
        };
        proof {
            lemma_first_entry_bounds(self@, l as int, 0);
        }
        let c = &self.entries[i];
        assert(self@[i as int] == c@);
        let delta: u64 = l - c.logical_start;
        if len > c.length - delta {
            return Err(AddressError::NotMapped);
        }
        let mut k: usize = 0;
        while k < c.stripes.len()
            invariant
                k <= c.stripes.len(),
                contents == device_contents(devices@),
                i < self@.len(),
                entry_for(self@, l as int) == Some(i as int),
                self@[i as int] == c@,
                c.logical_start <= l,
                delta == l - c.logical_start,
                len <= c.length - delta,
                first_readable(contents, c@.stripes, delta as int, len as int, 0) == first_readable(
                    contents,
                    c@.stripes,
                    delta as int,
                    len as int,
                    k as int,
                ),
            decreases c.stripes.len() - k,
        {
            let s = c.stripes[k];
            if s.device_id >= 1 && s.device_id <= devices.len() as u64 {
                let device: &[u8] = devices[(s.device_id - 1) as usize];
                assert(contents[s.device_id - 1] == device@);
                let dlen: usize = device.len();
                if s.offset <= dlen as u64 && delta <= dlen as u64 - s.offset && len <= dlen as u64 - s.offset - delta {
                    let start: usize = (s.offset + delta) as usize;
                    let end: usize = start + len as usize;
                    assert(stripe_readable(contents, c@.stripes[k as int], delta as int, len as int));
                    return Ok(vstd::slice::slice_to_vec(&device[start..end]));
                }
            }
            k = k + 1;
        }
        Err(AddressError::OutOfRange)
    }
}

/// Size of a key as stored in the bootstrap chunk array.
pub const KEY_SIZE: usize = 17;

/// The chunk items of a bootstrap chunk array from byte `off` on: each a
/// key followed by the item; a cut-short item ends the array.
pub open spec fn system_chunks_from(d: Seq<u8>, off: int) -> Seq<ChunkView>
    decreases d.len() - off,
{
    if off < 0 || off + KEY_SIZE > d.len() {
        seq![]
    } else {
        match chunk_item_at(key_at(d, off), d, off + KEY_SIZE) {
            None => seq![],
            Some(c) => seq![c] + system_chunks_from(
                d,
                off + KEY_SIZE + chunk_item_size(d, off + KEY_SIZE),
            ),
        }
    }
}

/// The chunk map that a superblock's bootstrap chunk array gives.
pub fn bootstrap_chunk_map(system_chunks: &[u8]) -> (r: ChunkMap)
    ensures
        r@ == system_chunks_from(system_chunks@, 0),
{
    let len: usize = system_chunks.len();
    let mut map = ChunkMap::new();
    let mut off: usize = 0;
    while off < len && len - off >= KEY_SIZE
        invariant
            off <= len,
            len == system_chunks@.len(),
            map@ + system_chunks_from(system_chunks@, off as int) == system_chunks_from(system_chunks@, 0),
        decreases len - off,
    {
        let key = read_key(system_chunks, off);
        match decode_chunk_item(key, system_chunks, off + KEY_SIZE) {
            None => {
                assert(map@ =~= system_chunks_from(system_chunks@, 0));
                return map;
            },
            Some(c) => {
                let n: usize = c.stripes.len();
                let ghost before = map@;
                let ghost cv = c@;
                map.add(c);
                let next: usize = off + KEY_SIZE + CHUNK_ITEM_HEADER_SIZE + 32 * n;
                assert(map@ + system_chunks_from(system_chunks@, next as int) =~= before
                    + system_chunks_from(system_chunks@, off as int));
                off = next;
            },
        }
    }
    assert(system_chunks_from(system_chunks@, off as int) == Seq::<ChunkView>::empty());
    assert(map@ =~= system_chunks_from(system_chunks@, 0));
    map
}

} // verus!
