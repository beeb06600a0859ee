use vstd::prelude::*;

use crate::indexer::{extent_views, IndexedFilesystem};
use crate::layout::{copy_bytes, read_u32, u32_at};
use crate::lookup::latest_named;
use crate::items::{dir_entry_views, DirEntryView, ExtentData, ExtentDataView, EXTENT_INLINE, EXTENT_PREALLOC, EXTENT_REGULAR};

verus! {

pub const FT_REG_FILE: u8 = 1;
pub const FT_DIR: u8 = 2;
pub const FT_CHRDEV: u8 = 3;
pub const FT_BLKDEV: u8 = 4;
pub const FT_FIFO: u8 = 5;
pub const FT_SOCK: u8 = 6;
pub const FT_SYMLINK: u8 = 7;

/// What restoring an entry of a given child type takes.
#[derive(PartialEq, Eq, Structural, Clone, Copy, Debug)]
pub enum RestoreAction {
    RegularFile,
    Directory,
    Symlink,
    CharDevice,
    BlockDevice,
    Socket,
    Unknown,
}

pub open spec fn action_for(child_type: u8) -> RestoreAction {
    if child_type == FT_REG_FILE {
        RestoreAction::RegularFile
    } else if child_type == FT_DIR {
        RestoreAction::Directory
    } else if child_type == FT_SYMLINK {
        RestoreAction::Symlink
    } else if child_type == FT_CHRDEV {
        RestoreAction::CharDevice
    } else if child_type == FT_BLKDEV {
        RestoreAction::BlockDevice
    } else if child_type == FT_SOCK {
        RestoreAction::Socket
    } else {
        RestoreAction::Unknown
    }
}

/// The action for a directory entry's child type.
pub fn restore_action(child_type: u8) -> (r: RestoreAction)
    ensures
        r == action_for(child_type),
{
    if child_type == FT_REG_FILE {
        RestoreAction::RegularFile
    } else if child_type == FT_DIR {
        RestoreAction::Directory
    } else if child_type == FT_SYMLINK {
        RestoreAction::Symlink
    } else if child_type == FT_CHRDEV {
        RestoreAction::CharDevice
    } else if child_type == FT_BLKDEV {
        RestoreAction::BlockDevice
    } else if child_type == FT_SOCK {
        RestoreAction::Socket
    } else {
        RestoreAction::Unknown
    }
}

/// One step of writing a file's contents.
pub enum ContentStep {
    /// Write these bytes.
    Inline(Vec<u8>),
    /// Read `extent_size` bytes at `logical_address`, uncompress them by
    /// `compression`, and write bytes `data_offset .. data_offset + length`.
    Regular { logical_address: u64, extent_size: u64, compression: u8, data_offset: u64, length: u64 },
    /// Seek forward this many bytes, leaving a hole.
    Hole(u64),
    /// Nothing to write.
    Prealloc,
}

pub enum ContentStepView {
    Inline(Seq<u8>),
    Regular { logical_address: u64, extent_size: u64, compression: u8, data_offset: u64, length: u64 },
    Hole(u64),
    Prealloc,
}

impl View for ContentStep {
    type V = ContentStepView;

    open spec fn view(&self) -> ContentStepView {
        match self {
            ContentStep::Inline(b) => ContentStepView::Inline(b@),
            ContentStep::Regular { logical_address, extent_size, compression, data_offset, length } =>
                ContentStepView::Regular {
                logical_address: *logical_address,
                extent_size: *extent_size,
                compression: *compression,
                data_offset: *data_offset,
                length: *length,
            },
            ContentStep::Hole(n) => ContentStepView::Hole(*n),
            ContentStep::Prealloc => ContentStepView::Prealloc,
        }
    }
}

/// How the contents of a file end.
#[derive(PartialEq, Eq, Structural, Clone, Copy, Debug)]
pub enum ContentEnd {
    /// Every extent was written, or the file size was passed.
    Complete,
    /// An extent starts at `got` where the file has reached `expected`.
    Misordered { expected: u64, got: u64 },
    /// An extent has an extent type that is not known.
    InvalidType(u8),
    /// The file position would pass the largest file size.
    TooLarge,
}

/// What writing one extent takes, and how far it moves the file position:
/// `remaining` bytes of the file are left to write, and no extent writes
/// more than that.
pub open spec fn extent_step(e: ExtentDataView, remaining: u64) -> Option<(ContentStepView, int)> {
    if e.extent_type == EXTENT_INLINE {
        Some(
            (
                ContentStepView::Inline(
                    e.inline_data.subrange(
                        0,
                        if remaining < e.inline_data.len() {
                            remaining as int
                        } else {
                            e.inline_data.len() as int
                        },
                    ),
                ),
                e.inline_data.len() as int,
            ),
        )
    } else if e.extent_type == EXTENT_REGULAR {
        if e.logical_address != 0 {
            Some(
                (
                    ContentStepView::Regular {
                        logical_address: e.logical_address,
                        extent_size: e.extent_size,
                        compression: e.compression,
                        data_offset: e.data_offset,
                        length: if remaining < e.data_size {
                            remaining
                        } else {
                            e.data_size
                        },
                    },
                    e.data_size as int,
                ),
            )
        } else {
            Some((ContentStepView::Hole(e.data_size), e.data_size as int))
        }
    } else if e.extent_type == EXTENT_PREALLOC {
        Some((ContentStepView::Prealloc, 0))
    } else {
        None
    }
}

/// The steps that write a file of `size` bytes from its extents `es`,
/// in ascending file offset, starting at file position `pos`: each extent
/// must start where the one before ended; once the position passes the
/// size, the rest is left out.
pub open spec fn plan_from(size: u64, es: Seq<ExtentDataView>, pos: int) -> (Seq<ContentStepView>, ContentEnd)
    decreases es.len(),
{
    if es.len() == 0 {
        (seq![], ContentEnd::Complete)
    } else {
        let e = es[0];
        if e.key.offset != pos {
            (seq![], ContentEnd::Misordered { expected: pos as u64, got: e.key.offset })
        } else {
            match extent_step(e, (size - pos) as u64) {
                None => (seq![], ContentEnd::InvalidType(e.extent_type)),
                Some((step, advance)) => {
                    let next = pos + advance;
                    if next > u64::MAX {
                        (seq![step], ContentEnd::TooLarge)
                    } else if next > size {
                        (seq![step], ContentEnd::Complete)
                    } else {
                        let rest = plan_from(size, es.drop_first(), next);
                        (seq![step] + rest.0, rest.1)
                    }
                },
            }
        }
    }
}

pub open spec fn step_views(v: Seq<ContentStep>) -> Seq<ContentStepView> {
    v.map_values(|s: ContentStep| s@)
}

/// Plans the contents of a file of `size` bytes from its extent-data items
/// in ascending file offset.
pub fn plan_file_contents(size: u64, extents: &Vec<ExtentData>) -> (r: (Vec<ContentStep>, ContentEnd))
    ensures
        (step_views(r.0@), r.1) == plan_from(size, extent_views(extents@), 0),
{
    let ghost es = extent_views(extents@);
    let mut steps: Vec<ContentStep> = Vec::new();
    let mut pos: u64 = 0;
    let mut i: usize = 0;
    assert(es.skip(0) =~= es);
    assert(step_views(steps@) + plan_from(size, es, 0).0 =~= plan_from(size, es, 0).0);
    while i < extents.len()
        invariant
            i <= extents.len(),
            es == extent_views(extents@),
            pos <= size,
            ({
                let rest = plan_from(size, es.skip(i as int), pos as int);
                plan_from(size, es, 0) == (step_views(steps@) + rest.0, rest.1)
            }),
        decreases extents.len() - i,
    {
        let e = &extents[i];
        let ghost tail = es.skip(i as int);
        assert(tail[0] == e@);
        assert(tail.drop_first() =~= es.skip(i as int + 1));
        let ghost before = step_views(steps@);
        if e.key.offset != pos {
            assert(step_views(steps@) + Seq::<ContentStepView>::empty() =~= step_views(steps@));
            return (steps, ContentEnd::Misordered { expected: pos, got: e.key.offset });
        }
        let remaining: u64 = size - pos;
        let (step, advance): (ContentStep, u64) = if e.extent_type == EXTENT_INLINE {
            let n: usize = e.inline_data.len();
            let keep: usize = if remaining < n as u64 {
                remaining as usize
            } else {
                n
            };
            (ContentStep::Inline(vstd::slice::slice_to_vec(&e.inline_data.as_slice()[0..keep])), n as u64)
        } else if e.extent_type == EXTENT_REGULAR {
            if e.logical_address != 0 {
                let length: u64 = if remaining < e.data_size {
                    remaining
                } else {
                    e.data_size
                };
                (
                    ContentStep::Regular {
                        logical_address: e.logical_address,
                        extent_size: e.extent_size,
                        compression: e.compression,
                        data_offset: e.data_offset,
                        length,
                    },
                    e.data_size,
                )
            } else {
                (ContentStep::Hole(e.data_size), e.data_size)
            }
        } else if e.extent_type == EXTENT_PREALLOC {
            (ContentStep::Prealloc, 0)
        } else {
            assert(step_views(steps@) + Seq::<ContentStepView>::empty() =~= step_views(steps@));
            return (steps, ContentEnd::InvalidType(e.extent_type));
        };
        assert(extent_step(e@, remaining) == Some((step@, advance as int)));
        steps.push(step);
        assert(step_views(steps@) =~= before.push(step@));
        if advance > u64::MAX - pos {
            assert(step_views(steps@) =~= before + seq![step@]);
            return (steps, ContentEnd::TooLarge);
        }
        if pos + advance > size {
            assert(step_views(steps@) =~= before + seq![step@]);
            return (steps, ContentEnd::Complete);
        }
        proof {
            let rest = plan_from(size, es.skip(i as int + 1), pos + advance);
            assert(before + (seq![step@] + rest.0) =~= step_views(steps@) + rest.0);
        }
        pos = pos + advance;
        i = i + 1;
    }
    assert(es.skip(i as int) =~= Seq::<ExtentDataView>::empty());
    assert(step_views(steps@) + Seq::<ContentStepView>::empty() =~= step_views(steps@));
    (steps, ContentEnd::Complete)
}

#[derive(PartialEq, Eq, Structural, Clone, Copy, Debug)]
pub enum RestoreError {
    /// The subvolume has no root item.
    SubvolumeNotFound,
    /// A component of the source path does not resolve.
    PathNotFound,
    /// An object has no inode item.
    InodeNotFound(u64),
    /// A compression tag that no decompressor handles.
    UnsupportedCompression(u8),
    /// A compressed extent's framing is cut short or inconsistent.
    BadCompressedData,
    /// Uncompressed data is shorter than the extent asks for.
    NotEnoughData { have: u64, need: u64 },
}

/// The decompressor that a compression tag names.
#[derive(PartialEq, Eq, Structural, Clone, Copy, Debug)]
pub enum Compression {
    Uncompressed,
    Zlib,
    Lzo,
    Zstd,
}

pub open spec fn compression_for(tag: u8) -> Option<Compression> {
    if tag == 0 {
        Some(Compression::Uncompressed)
    } else if tag == 1 {
        Some(Compression::Zlib)
    } else if tag == 2 {
        Some(Compression::Lzo)
    } else if tag == 3 {
        Some(Compression::Zstd)
    } else {
        None
    }
}

/// The decompressor for compression tag `tag`.
pub fn decompression(tag: u8) -> (r: Result<Compression, RestoreError>)
    ensures
        match compression_for(tag) {
            Some(c) => r == Ok::<Compression, RestoreError>(c),
            None => r == Err::<Compression, RestoreError>(RestoreError::UnsupportedCompression(tag)),
        },
{
    if tag == 0 {
        Ok(Compression::Uncompressed)
    } else if tag == 1 {
        Ok(Compression::Zlib)
    } else if tag == 2 {
        Ok(Compression::Lzo)
    } else if tag == 3 {
        Ok(Compression::Zstd)
    } else {
        Err(RestoreError::UnsupportedCompression(tag))
    }
}

/// The bytes of an extent that belong to the file: `length` bytes from
/// `data_offset` of the uncompressed extent.
pub fn extent_bytes(uncompressed: &[u8], data_offset: u64, length: u64) -> (r: Result<Vec<u8>, RestoreError>)
    ensures
        data_offset + length <= uncompressed@.len() ==> r is Ok && r->Ok_0@ == uncompressed@.subrange(
            data_offset as int,
            data_offset + length,
        ),
        data_offset + length > uncompressed@.len() ==> r is Err && r->Err_0 is NotEnoughData,
{
    let have: usize = uncompressed.len();
    if data_offset > have as u64 || length > have as u64 - data_offset {
        let need: u64 = if length > u64::MAX - data_offset { u64::MAX } else { data_offset + length };
        return Err(RestoreError::NotEnoughData { have: have as u64, need });
    }
    let start: usize = data_offset as usize;
    let end: usize = start + length as usize;
    Ok(vstd::slice::slice_to_vec(&uncompressed[start..end]))
}

/// Size of each length field in an LZO-compressed extent.
pub const LZO_LENGTH_SIZE: usize = 4;

/// The segments of an LZO-compressed extent `d` from byte `off` up to
/// `end`: each a little-endian `u32` length followed by that many bytes;
/// nothing where a segment reaches past `end`.
pub open spec fn lzo_segments_from(d: Seq<u8>, off: int, end: int) -> Option<Seq<Seq<u8>>>
    decreases (if off < end {
        end - off
    } else {
        0
    }),
{
    if off >= end {
        Some(seq![])
    } else if off + LZO_LENGTH_SIZE > end {
        None
    } else {
        let start = off + LZO_LENGTH_SIZE;
        let n = u32_at(d, off);
        if start + n > end {
            None
        } else {
            match lzo_segments_from(d, start + n, end) {
                None => None,
                Some(rest) => Some(seq![d.subrange(start, start + n)] + rest),
            }
        }
    }
}

/// The segments of an LZO-compressed extent `d`: a little-endian `u32`
/// total length (itself included, at most `d`'s length), then
/// length-prefixed segments filling it exactly.
pub open spec fn lzo_segments(d: Seq<u8>) -> Option<Seq<Seq<u8>>> {
    if d.len() < LZO_LENGTH_SIZE {
        None
    } else {
        let total = u32_at(d, 0);
        if total < LZO_LENGTH_SIZE || total > d.len() {
            None
        } else {
            lzo_segments_from(d, LZO_LENGTH_SIZE as int, total as int)
        }
    }
}

pub open spec fn byte_views(v: Seq<Vec<u8>>) -> Seq<Seq<u8>> {
    v.map_values(|x: Vec<u8>| x@)
}

/// Splits an LZO-compressed extent into its segments, each of which
/// decompresses on its own; fails with `BadCompressedData` where the
/// framing does not hold.
pub fn split_lzo_segments(d: &[u8]) -> (r: Result<Vec<Vec<u8>>, RestoreError>)
    ensures
        match lzo_segments(d@) {
            None => r == Err::<Vec<Vec<u8>>, RestoreError>(RestoreError::BadCompressedData),
            Some(v) => r is Ok && byte_views(r->Ok_0@) == v,
        },
{
    let len: usize = d.len();
    if len < LZO_LENGTH_SIZE {
        return Err(RestoreError::BadCompressedData);
    }
    let total = read_u32(d, 0);
    if (total as usize) < LZO_LENGTH_SIZE || total as usize > len {
        return Err(RestoreError::BadCompressedData);
    }
    let end: usize = total as usize;
    let mut out: Vec<Vec<u8>> = Vec::new();
    let mut off: usize = LZO_LENGTH_SIZE;
    while off < end
        invariant
            LZO_LENGTH_SIZE <= off <= end <= len,
            len == d@.len(),
            end == u32_at(d@, 0),
            lzo_segments(d@) == match lzo_segments_from(d@, off as int, end as int) {
                None => None,
                Some(rest) => Some(byte_views(out@) + rest),
            },
        decreases end - off,
    {
        if end - off < LZO_LENGTH_SIZE {
            return Err(RestoreError::BadCompressedData);
        }
        let n = read_u32(d, off);
        let start: usize = off + LZO_LENGTH_SIZE;
        if n as usize > end - start {
            return Err(RestoreError::BadCompressedData);
        }
        let ghost before = byte_views(out@);
        let seg = copy_bytes(d, start, start + n as usize);
        let ghost sv = seg@;
        out.push(seg);
        proof {
            assert(byte_views(out@) =~= before.push(sv));
            let tail = lzo_segments_from(d@, (start + n) as int, end as int);
            if tail is Some {
                assert(before + (seq![sv] + tail->Some_0) =~= byte_views(out@) + tail->Some_0);
            }
        }
        off = start + n as usize;
    }
    assert(byte_views(out@) + Seq::<Seq<u8>>::empty() =~= byte_views(out@));
    Ok(out)
}

/// Where the path component that starts at `i` ends: the next `/`, or the
/// end of the path.
pub open spec fn component_end(p: Seq<u8>, i: int) -> int
    decreases p.len() - i,
{
    if i < 0 || i >= p.len() {
        p.len() as int
    } else if p[i] == 47 {
        i
    } else {
        component_end(p, i + 1)
    }
}

pub proof fn lemma_component_end_bounds(p: Seq<u8>, i: int)
    requires
        0 <= i <= p.len(),
    ensures
        i <= component_end(p, i) <= p.len(),
        i < p.len() && p[i] != 47 ==> i < component_end(p, i),
    decreases p.len() - i,
{
    if i < p.len() && p[i] != 47 {
        lemma_component_end_bounds(p, i + 1);
    }
}

/// The object that path `p`, from byte `i` on, names in tree `tree` when
/// walked from object `dir` of type `ty`: each component, between slashes,
/// is looked up by name (`latest_named`) in the directory reached so far;
/// empty components are skipped.
pub open spec fn resolve_from(
    entries: Seq<DirEntryView>,
    tree: u64,
    dir: u64,
    ty: u8,
    p: Seq<u8>,
    i: int,
) -> Option<(u64, u8)>
    decreases (if 0 <= i < p.len() {
        p.len() - i
    } else {
        0
    }),
{
    if i < 0 || i >= p.len() {
        Some((dir, ty))
    } else if p[i] == 47 {
        resolve_from(entries, tree, dir, ty, p, i + 1)
    } else {
        let end = component_end(p, i);
        proof {
            lemma_component_end_bounds(p, i);
        }
        match latest_named(entries, tree, dir, p.subrange(i, end)) {
            None => None,
            Some(e) => resolve_from(entries, tree, e.child_key.object_id, e.child_type, p, end),
        }
    }
}

/// Walks `source` in tree `tree` from its directory `root_dir` and gives
/// the object it names with its type; fails with `PathNotFound` where a
/// component is missing.
pub fn resolve_path(fs: &IndexedFilesystem, tree: u64, root_dir: u64, source: &[u8]) -> (r: Result<(u64, u8), RestoreError>)
    ensures
        match resolve_from(dir_entry_views(fs.dir_item_entries@), tree, root_dir, FT_DIR, source@, 0) {
            None => r == Err::<(u64, u8), RestoreError>(RestoreError::PathNotFound),
            Some(x) => r == Ok::<(u64, u8), RestoreError>(x),
        },
{
    let ghost entries = dir_entry_views(fs.dir_item_entries@);
    let len: usize = source.len();
    let mut dir: u64 = root_dir;
    let mut ty: u8 = FT_DIR;
    let mut i: usize = 0;
    while i < len
        invariant
            i <= len,
            len == source@.len(),
            entries == dir_entry_views(fs.dir_item_entries@),
            resolve_from(entries, tree, root_dir, FT_DIR, source@, 0) == resolve_from(
                entries,
                tree,
                dir,
                ty,
                source@,
                i as int,
            ),
        decreases len - i,
    {
        if source[i] == 47 {
            i = i + 1;
        } else {
            let mut end: usize = i;
            while end < len && source[end] != 47
                invariant
                    i <= end <= len,
                    len == source@.len(),
                    component_end(source@, i as int) == component_end(source@, end as int),
                decreases len - end,
            {
                end = end + 1;
            }
            proof {
                lemma_component_end_bounds(source@, i as int);
            }
            let name = &source[i..end];
            match fs.dir_item_entry(tree, dir, name) {
                None => {
                    return Err(RestoreError::PathNotFound);
                },
                Some(e) => {
                    dir = e.child_key.object_id;
                    ty = e.child_type;
                },
            }
            i = end;
        }
    }
    Ok((dir, ty))
}

/// Counts of what a restore did, and the errors it met.
pub struct RestoreLog {
    pub num_files: u64,
    pub num_directories: u64,
    pub num_symlinks: u64,
    pub num_char_devices: u64,
    pub num_block_devices: u64,
    pub num_sockets: u64,
    pub num_unknown: u64,
    pub bytes_total: u64,
    pub bytes_success: u64,
    pub bytes_sparse: u64,
    /// Source path, target path, and message of each error.
    pub errors: Vec<(Vec<u8>, Vec<u8>, Vec<u8>)>,
}

/// `a + b`, or the largest `u64` where that does not fit.
pub open spec fn saturating_sum(a: u64, b: u64) -> u64 {
    if a + b <= u64::MAX {
        (a + b) as u64
    } else {
        u64::MAX
    }
}

/// `n + 1`, or `n` where that does not fit.
pub open spec fn bump(n: u64) -> u64 {
    if n < u64::MAX {
        (n + 1) as u64
    } else {
        n
    }
}

impl RestoreLog {
    pub fn new() -> (r: RestoreLog)
        ensures
            r.num_files == 0 && r.num_directories == 0 && r.num_symlinks == 0,
            r.num_char_devices == 0 && r.num_block_devices == 0,
            r.num_sockets == 0 && r.num_unknown == 0,
            r.bytes_total == 0 && r.bytes_success == 0 && r.bytes_sparse == 0,
            r.errors@.len() == 0,
    {
        RestoreLog {
            num_files: 0,
            num_directories: 0,
            num_symlinks: 0,
            num_char_devices: 0,
            num_block_devices: 0,
            num_sockets: 0,
            num_unknown: 0,
            bytes_total: 0,
            bytes_success: 0,
            bytes_sparse: 0,
            errors: Vec::new(),
        }
    }

    /// Counts one item restored by `action` (counts stop at the largest
    /// `u64`).
    pub fn count(&mut self, action: RestoreAction)
        ensures
            final(self).num_files == if action == RestoreAction::RegularFile { bump(old(self).num_files) } else { old(self).num_files },
            final(self).num_directories == if action == RestoreAction::Directory { bump(old(self).num_directories) } else { old(self).num_directories },
            final(self).num_symlinks == if action == RestoreAction::Symlink { bump(old(self).num_symlinks) } else { old(self).num_symlinks },
            final(self).num_char_devices == if action == RestoreAction::CharDevice { bump(old(self).num_char_devices) } else { old(self).num_char_devices },
            final(self).num_block_devices == if action == RestoreAction::BlockDevice { bump(old(self).num_block_devices) } else { old(self).num_block_devices },
            final(self).num_sockets == if action == RestoreAction::Socket { bump(old(self).num_sockets) } else { old(self).num_sockets },
            final(self).num_unknown == if action == RestoreAction::Unknown { bump(old(self).num_unknown) } else { old(self).num_unknown },
            final(self).bytes_total == old(self).bytes_total,
            final(self).bytes_success == old(self).bytes_success,
            final(self).bytes_sparse == old(self).bytes_sparse,
            final(self).errors == old(self).errors,
    {
        match action {
            RestoreAction::RegularFile => if self.num_files < u64::MAX { self.num_files = self.num_files + 1; },
            RestoreAction::Directory => if self.num_directories < u64::MAX { self.num_directories = self.num_directories + 1; },
            RestoreAction::Symlink => if self.num_symlinks < u64::MAX { self.num_symlinks = self.num_symlinks + 1; },
            RestoreAction::CharDevice => if self.num_char_devices < u64::MAX { self.num_char_devices = self.num_char_devices + 1; },
            RestoreAction::BlockDevice => if self.num_block_devices < u64::MAX { self.num_block_devices = self.num_block_devices + 1; },
            RestoreAction::Socket => if self.num_sockets < u64::MAX { self.num_sockets = self.num_sockets + 1; },
            RestoreAction::Unknown => if self.num_unknown < u64::MAX { self.num_unknown = self.num_unknown + 1; },
        }
    }

    /// Records an error met restoring `source` to `target`.
    pub fn log_error(&mut self, source: Vec<u8>, target: Vec<u8>, message: Vec<u8>)
        ensures
            final(self).errors@ == old(self).errors@.push((source, target, message)),
            final(self).bytes_total == old(self).bytes_total,
            final(self).bytes_success == old(self).bytes_success,
            final(self).bytes_sparse == old(self).bytes_sparse,
            final(self).num_files == old(self).num_files,
            final(self).num_directories == old(self).num_directories,
            final(self).num_symlinks == old(self).num_symlinks,
            final(self).num_char_devices == old(self).num_char_devices,
            final(self).num_block_devices == old(self).num_block_devices,
            final(self).num_sockets == old(self).num_sockets,
            final(self).num_unknown == old(self).num_unknown,
    {
        self.errors.push((source, target, message));
    }

    /// Adds to the byte totals: `total` bytes of file contents met, of
    /// which `success` were written and `sparse` left as holes (totals stop
    /// at the largest `u64`).
    pub fn count_bytes(&mut self, total: u64, success: u64, sparse: u64)
        ensures
            final(self).bytes_total == saturating_sum(old(self).bytes_total, total),
            final(self).bytes_success == saturating_sum(old(self).bytes_success, success),
            final(self).bytes_sparse == saturating_sum(old(self).bytes_sparse, sparse),
            final(self).num_files == old(self).num_files,
            final(self).num_directories == old(self).num_directories,
            final(self).num_symlinks == old(self).num_symlinks,
            final(self).num_char_devices == old(self).num_char_devices,
            final(self).num_block_devices == old(self).num_block_devices,
            final(self).num_sockets == old(self).num_sockets,
            final(self).num_unknown == old(self).num_unknown,
            final(self).errors == old(self).errors,
    {
        self.bytes_total = self.bytes_total.saturating_add(total);
        self.bytes_success = self.bytes_success.saturating_add(success);
        self.bytes_sparse = self.bytes_sparse.saturating_add(sparse);
    }

    /// Number of devices restored, of both kinds.
    pub fn num_devices(&self) -> (r: u64)
        ensures
            r == if self.num_char_devices + self.num_block_devices <= u64::MAX {
                (self.num_char_devices + self.num_block_devices) as u64
            } else {
                u64::MAX
            },
    {
        if self.num_char_devices > u64::MAX - self.num_block_devices {
            u64::MAX
        } else {
            self.num_char_devices + self.num_block_devices
        }
    }
}

} // verus!
