//! A low-level implementation of the PMTiles v3 archive container: the
//! 127-byte header, varint delta-coded directories, the Hilbert tile-id
//! mapping, content-hash tile deduplication and the archive
//! assembly/disassembly pipeline, with machine-checked contracts.

mod compression;
mod directory;
mod error;
mod header;
mod io_util;
mod pmtiles;
mod split;
mod tile_id;
mod tile_manager;
mod tile_type;
mod varint;
mod walk;

pub use compression::{compress_all, decompress_all, Compression};
pub use directory::{Directory, Entry};
pub use error::PmtError;
pub use header::{Header, LatLng, HEADER_BYTES};
pub use pmtiles::PMTiles;
pub use split::{split_directories, write_directories, WriteDirsOverflowStrategy, MAX_ROOT_DIR_LENGTH};
pub use tile_id::{tile_id, zxy, MaxZError};
pub use tile_manager::{FinishResult, TileManager, TileRef};
pub use tile_type::TileType;
pub use walk::{
    range_end_inc, read_directories, read_directories_bounded, walk_directories, OffsetLength,
    MAX_WALK_DEPTH,
};
