use vstd::prelude::*;

use crate::radix::number_of;
use crate::radix::parse_number;

verus! {

/// Scan images and write the positions of the nodes found to an index file.
pub struct IndexCommand {
    pub paths: Vec<Vec<u8>>,
    pub index: Vec<u8>,
}

/// Open the filesystem and list its subvolumes; the nodes come from the
/// index file where one is given, else from a scan of the images.
pub struct ScanCommand {
    pub paths: Vec<Vec<u8>>,
    pub index: Option<Vec<u8>>,
    pub verify_checksums: bool,
}

/// Restore the subtree at `source` of subvolume `subvolume_id` to `target`;
/// the nodes come from the index file where one is given, else from a
/// scan of the images.
pub struct RestoreCommand {
    pub paths: Vec<Vec<u8>>,
    pub subvolume_id: u64,
    pub source: Vec<u8>,
    pub target: Vec<u8>,
    pub index: Option<Vec<u8>>,
    pub verify_checksums: bool,
}

pub enum Command {
    Index(IndexCommand),
    Scan(ScanCommand),
    Restore(RestoreCommand),
}

/// The subcommand named on a command line.
#[derive(PartialEq, Eq, Structural, Clone, Copy, Debug)]
pub enum Subcommand {
    Index,
    Restore,
    Scan,
}

/// The words of a command line, as the argument reader found them: each
/// option's value as raw bytes, the image paths in the order given.
pub struct CommandLine {
    pub subcommand: Option<Subcommand>,
    pub paths: Vec<Vec<u8>>,
    pub index: Option<Vec<u8>>,
    pub subvolume_id: Option<Vec<u8>>,
    pub source: Option<Vec<u8>>,
    pub target: Option<Vec<u8>>,
    /// Whether nodes whose checksum fails are to be skipped.
    pub verify_checksums: bool,
}

#[derive(PartialEq, Eq, Structural, Clone, Copy, Debug)]
pub enum ArgumentError {
    MissingPath,
    MissingIndex,
    MissingSubvolumeId,
    BadSubvolumeId,
    MissingSource,
    MissingTarget,
}

/// The command that a command line asks for, or nothing where it names no
/// subcommand. A subvolume id is a decimal number.
pub fn parse_arguments(line: CommandLine) -> (r: Result<Option<Command>, ArgumentError>)
    ensures
        line.subcommand is None ==> r == Ok::<Option<Command>, ArgumentError>(None),
        line.subcommand == Some(Subcommand::Index) ==> r == (
            if line.index is None {
                Err(ArgumentError::MissingIndex)
            } else if line.paths.len() == 0 {
                Err(ArgumentError::MissingPath)
            } else {
                Ok(Some(Command::Index(IndexCommand { paths: line.paths, index: line.index->0 })))
            }),
        line.subcommand == Some(Subcommand::Scan) ==> r == (
            if line.paths.len() == 0 {
                Err(ArgumentError::MissingPath)
            } else {
                Ok(Some(Command::Scan(ScanCommand {
                    paths: line.paths,
                    index: line.index,
                    verify_checksums: line.verify_checksums,
                })))
            }),
        line.subcommand == Some(Subcommand::Restore) ==> r == (
            if line.paths.len() == 0 {
                Err(ArgumentError::MissingPath)
            } else if line.subvolume_id is None {
                Err(ArgumentError::MissingSubvolumeId)
            } else if number_of(line.subvolume_id->0@, 10) is None {
                Err(ArgumentError::BadSubvolumeId)
            } else if line.source is None {
                Err(ArgumentError::MissingSource)
            } else if line.target is None {
                Err(ArgumentError::MissingTarget)
            } else {
                Ok(Some(Command::Restore(RestoreCommand {
                    paths: line.paths,
                    subvolume_id: number_of(line.subvolume_id->0@, 10)->0,
                    source: line.source->0,
                    target: line.target->0,
                    index: line.index,
                    verify_checksums: line.verify_checksums,
                })))
            }),
{
    let CommandLine { subcommand, paths, index, subvolume_id, source, target, verify_checksums } = line;
    match subcommand {
        None => Ok(None),
        Some(Subcommand::Index) => {
            match index {
                None => Err(ArgumentError::MissingIndex),
                Some(index) => {
                    if paths.len() == 0 {
                        Err(ArgumentError::MissingPath)
                    } else {
                        Ok(Some(Command::Index(IndexCommand { paths, index })))
                    }
                },
            }
        },
        Some(Subcommand::Scan) => {
            if paths.len() == 0 {
                Err(ArgumentError::MissingPath)
            } else {
                Ok(Some(Command::Scan(ScanCommand { paths, index, verify_checksums })))
            }
        },
        Some(Subcommand::Restore) => {
            if paths.len() == 0 {
                return Err(ArgumentError::MissingPath);
            }
            let id_text = match subvolume_id {
                None => {
                    return Err(ArgumentError::MissingSubvolumeId);
                },
                Some(t) => t,
            };
            let subvolume_id = match parse_number(id_text.as_slice(), 10) {
                None => {
                    return Err(ArgumentError::BadSubvolumeId);
                },
                Some(n) => n,
            };
            match (source, target) {
                (None, _) => Err(ArgumentError::MissingSource),
                (Some(_), None) => Err(ArgumentError::MissingTarget),
                (Some(source), Some(target)) => Ok(
                    Some(
                        Command::Restore(
                            RestoreCommand { paths, subvolume_id, source, target, index, verify_checksums },
                        ),
                    ),
                ),
            }
        },
    }
}

} // verus!
