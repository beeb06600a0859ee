//! Forensic recovery for copy-on-write B-tree filesystem images: locating
//! nodes by brute force, indexing their items by the most recent
//! generation, translating logical addresses through the chunk map, and
//! planning the restoration of files.

pub mod arguments;
pub mod radix;
pub mod layout;
pub mod superblock;
pub mod scanner;
pub mod index_file;
pub mod node;
pub mod checksum;
pub mod items;
pub mod indexer;
pub mod lookup;
pub mod object_index;
pub mod chunk_map;
pub mod chunk_tree;
pub mod filesystem;
pub mod restore;
