//! The archive handle: an in-memory archive bound to an optional source
//! reader, with one-shot assembly to and disassembly from a byte stream.
use vstd::prelude::*;

use crate::compression::{compress_all, decompress_all, spec_decompress, Compression};
use crate::directory::{spec_encode_directory, spec_dir_encodable, Entry};
use crate::error::PmtError;
use crate::header::{
    lemma_header_roundtrip, spec_parse_header, Header, LatLng, HEADER_BYTES,
};
use crate::io_util::{read_exact_vec, seek_to, write_all};
use crate::split::{split_directories, MAX_ROOT_DIR_LENGTH};
use crate::tile_id::{spec_tile_id, tile_id};
use crate::tile_manager::{
    spec_add_tile, spec_all_in_memory, spec_contents_fit, spec_remove_tile, strictly_sorted,
    FinishResult, TileManager, TileManagerModel, TileRef,
};
use crate::tile_type::TileType;
use crate::walk::{filter_bounds, spec_in_filter, walk_directories, MAX_WALK_DEPTH};

verus! {

#[verifier::external_type_specification]
#[verifier::external_body]
/// The opaque JSON value type metadata is carried in.
pub struct ExJsonValue(serde_json::Value);

#[verifier::external_type_specification]
#[verifier::external_body]
/// The error type of the JSON codec.
pub struct ExJsonError(serde_json::Error);

/// Relies on `serde_json::from_slice`: parses a JSON document into a
/// value.
#[verifier::external_body]
fn json_from_slice(bytes: &Vec<u8>) -> (r: Result<serde_json::Value, serde_json::Error>) {
    serde_json::from_slice(bytes.as_slice())
}

/// Relies on `serde_json::to_vec`: serializes a JSON value.
#[verifier::external_body]
fn json_to_vec(value: &serde_json::Value) -> (r: Result<Vec<u8>, serde_json::Error>) {
    serde_json::to_vec(value)
}

/// Relies on `serde_json::Value::Object` and `Map::new`: the empty JSON
/// object.
#[verifier::external_body]
fn json_empty_object() -> (r: serde_json::Value) {
    serde_json::Value::Object(serde_json::Map::new())
}

/// Decompress a metadata section and parse it as JSON.
fn parse_meta_data(compression: Compression, bytes: &Vec<u8>) -> (r: Result<
    serde_json::Value,
    PmtError,
>)
    ensures
        compression is Unknown ==> r == Err::<serde_json::Value, PmtError>(
            PmtError::UnsupportedCompression,
        ),
{
    let plain = decompress_all(compression, bytes)?;
    match json_from_slice(&plain) {
        Ok(v) => Ok(v),
        Err(_) => Err(PmtError::Malformed),
    }
}

/// An archive: tile store plus the header metadata that describes it.
/// Positions are stored exactly as on the wire, in 10^-7 degrees.
pub struct PMTiles<R> {
    /// Type of the tiles.
    pub tile_type: TileType,
    /// Compression of the tiles.
    pub tile_compression: Compression,
    /// Compression of the directories and the metadata section.
    pub internal_compression: Compression,
    /// Minimum zoom of the tiles.
    pub min_zoom: u8,
    /// Maximum zoom of the tiles.
    pub max_zoom: u8,
    /// Zoom a viewer may start at.
    pub center_zoom: u8,
    /// Minimum longitude of the bounds, in 10^-7 degrees.
    pub min_longitude_e7: i32,
    /// Minimum latitude of the bounds, in 10^-7 degrees.
    pub min_latitude_e7: i32,
    /// Maximum longitude of the bounds, in 10^-7 degrees.
    pub max_longitude_e7: i32,
    /// Maximum latitude of the bounds, in 10^-7 degrees.
    pub max_latitude_e7: i32,
    /// Center longitude, in 10^-7 degrees.
    pub center_longitude_e7: i32,
    /// Center latitude, in 10^-7 degrees.
    pub center_latitude_e7: i32,
    /// JSON metadata of the archive, passed through opaquely.
    pub meta_data: Option<serde_json::Value>,
    /// The tile store behind the archive.
    pub tile_manager: TileManager<R>,
}

impl<R> PMTiles<R> {
    /// The mathematical state of the tile store.
    pub closed spec fn tiles_model(&self) -> TileManagerModel {
        self.tile_manager@
    }

    /// The internal bookkeeping the methods preserve.
    pub closed spec fn wf(&self) -> bool {
        self.tile_manager.wf()
    }

    /// Whether a source reader is attached.
    pub closed spec fn has_reader(&self) -> bool {
        self.tile_manager.has_reader()
    }
}

impl<R> Default for PMTiles<R> {
    /// An empty archive: no tiles, no reader, no metadata, gzip internal
    /// compression, unknown tile compression and type, every numeric
    /// field zero.
    fn default() -> (r: PMTiles<R>)
        ensures
            r.wf(),
            !r.has_reader(),
            r.tiles_model().tiles == Map::<u64, TileRef>::empty(),
            r.tile_type == TileType::Unknown,
            r.tile_compression == Compression::Unknown,
            r.internal_compression == Compression::GZip,
            r.min_zoom == 0 && r.max_zoom == 0 && r.center_zoom == 0,
            r.min_longitude_e7 == 0 && r.min_latitude_e7 == 0,
            r.max_longitude_e7 == 0 && r.max_latitude_e7 == 0,
            r.center_longitude_e7 == 0 && r.center_latitude_e7 == 0,
            r.meta_data is None,
    {
        PMTiles {
            tile_type: TileType::Unknown,
            tile_compression: Compression::Unknown,
            internal_compression: Compression::GZip,
            min_zoom: 0,
            max_zoom: 0,
            center_zoom: 0,
            min_longitude_e7: 0,
            min_latitude_e7: 0,
            max_longitude_e7: 0,
            max_latitude_e7: 0,
            center_longitude_e7: 0,
            center_latitude_e7: 0,
            meta_data: None,
            tile_manager: TileManager::new(None),
        }
    }
}

impl<R> PMTiles<R> {
    /// An empty archive of the given tile type and tile compression,
    /// with gzip internal compression and everything else zero.
    pub fn new(tile_type: TileType, tile_compression: Compression) -> (r: PMTiles<R>)
        ensures
            r.wf(),
            !r.has_reader(),
            r.tiles_model().tiles == Map::<u64, TileRef>::empty(),
            r.tile_type == tile_type,
            r.tile_compression == tile_compression,
            r.internal_compression == Compression::GZip,
            r.min_zoom == 0 && r.max_zoom == 0 && r.center_zoom == 0,
            r.min_longitude_e7 == 0 && r.min_latitude_e7 == 0,
            r.max_longitude_e7 == 0 && r.max_latitude_e7 == 0,
            r.center_longitude_e7 == 0 && r.center_latitude_e7 == 0,
            r.meta_data is None,
    {
        let mut pm = PMTiles::<R>::default();
        pm.tile_type = tile_type;
        pm.tile_compression = tile_compression;
        pm
    }

    /// All tile ids of the archive, in ascending order.
    pub fn tile_ids(&self) -> (r: Vec<u64>)
        requires
            self.wf(),
        ensures
            strictly_sorted(r@),
            forall|id: u64| #[trigger] r@.contains(id) <==> self.tiles_model().tiles.dom().contains(
                id,
            ),
    {
        self.tile_manager.get_tile_ids()
    }

    /// Add a tile with in-memory content; equal bytes added under
    /// several ids are stored once.
    pub fn add_tile(&mut self, tile_id: u64, data: Vec<u8>)
        requires
            old(self).wf(),
        ensures
            final(self).wf(),
            exists|h: u64|
                final(self).tiles_model() == spec_add_tile(
                    old(self).tiles_model(),
                    tile_id,
                    h,
                    data@,
                ),
            final(self).tiles_model().tiles.dom() =~= old(self).tiles_model().tiles.dom().insert(
                tile_id,
            ),
    {
        let ghost pre = self.tile_manager@;
        self.tile_manager.add_tile(tile_id, data);
        proof {
            let h = choose|h: u64|
                self.tile_manager@ == spec_add_tile(pre, tile_id, h, data@)
                    && self.tile_manager@.tiles[tile_id] == TileRef::Hash(h);
            assert(self.tiles_model() == spec_add_tile(old(self).tiles_model(), tile_id, h, data@));
        }
    }

    /// Remove a tile from the archive.
    pub fn remove_tile(&mut self, tile_id: u64)
        requires
            old(self).wf(),
        ensures
            final(self).wf(),
            final(self).tiles_model() == spec_remove_tile(old(self).tiles_model(), tile_id),
    {
        self.tile_manager.remove_tile(tile_id);
    }

    /// Number of addressable tiles.
    pub fn num_tiles(&self) -> (r: usize)
        ensures
            r == self.tiles_model().tiles.dom().len(),
    {
        self.tile_manager.num_addressed_tiles()
    }
}

impl<R: std::io::Read + std::io::Seek> PMTiles<R> {
    /// The raw data of the tile with the given id, or `None` where the
    /// archive has no such tile.
    pub fn get_tile_by_id(&mut self, tile_id: u64) -> (r: Result<Option<Vec<u8>>, PmtError>)
        requires
            old(self).wf(),
        ensures
            final(self).wf(),
            final(self).tiles_model() == old(self).tiles_model(),
            !old(self).tiles_model().tiles.dom().contains(tile_id) ==> r == Ok::<
                Option<Vec<u8>>,
                PmtError,
            >(None),
            old(self).tiles_model().tiles.dom().contains(tile_id) && old(
                self,
            ).tiles_model().tiles[tile_id] is Hash ==> {
                &&& r is Ok
                &&& r->Ok_0 is Some
                &&& r->Ok_0->Some_0@ == old(self).tiles_model().data[old(
                    self,
                ).tiles_model().tiles[tile_id]->Hash_0]
            },
    {
        self.tile_manager.get_tile(tile_id)
    }

    /// The raw data of the tile with the given coordinates: exactly what
    /// `get_tile_by_id` returns for the id of `(z, x, y)`.
    pub fn get_tile(&mut self, x: u64, y: u64, z: u8) -> (r: Result<Option<Vec<u8>>, PmtError>)
        requires
            old(self).wf(),
            z < 32,
            x < vstd::arithmetic::power2::pow2(z as nat),
            y < vstd::arithmetic::power2::pow2(z as nat),
        ensures
            final(self).wf(),
            final(self).tiles_model() == old(self).tiles_model(),
            ({
                let id = spec_tile_id(z as nat, x, y) as u64;
                let m = old(self).tiles_model();
                &&& !m.tiles.dom().contains(id) ==> r == Ok::<Option<Vec<u8>>, PmtError>(None)
                &&& m.tiles.dom().contains(id) && m.tiles[id] is Hash ==> {
                    &&& r is Ok
                    &&& r->Ok_0 is Some
                    &&& r->Ok_0->Some_0@ == m.data[m.tiles[id]->Hash_0]
                }
            }),
    {
        let id = tile_id(z, x, y);
        self.get_tile_by_id(id)
    }

    /// Open an archive from a reader, keeping the reader for lazy tile
    /// fetches; tile entries outside the inclusive id filter
    /// `(start, end)` (unbounded end when `None`) appear as missing.
    ///
    /// Every tile id of a returned archive lies within the filter.
    pub fn from_reader_bounded(input: R, start: u64, end: Option<u64>) -> (r: Result<
        PMTiles<R>,
        PmtError,
    >)
        ensures
            r is Ok ==> r->Ok_0.wf() && r->Ok_0.has_reader(),
            r is Ok ==> forall|id: u64|
                #[trigger] r->Ok_0.tiles_model().tiles.dom().contains(id) ==> spec_in_filter(
                    start,
                    end,
                    id,
                ),
    {
        let mut input = input;
        let header = Header::from_reader(&mut input)?;
        let meta_data = if header.json_metadata_length == 0 {
            None
        } else {
            if header.json_metadata_length > usize::MAX as u64 {
                return Err(PmtError::Malformed);
            }
            seek_to(&mut input, header.json_metadata_offset)?;
            let raw = read_exact_vec(&mut input, header.json_metadata_length as usize)?;
            Some(parse_meta_data(header.internal_compression, &raw)?)
        };
        let mut pairs: Vec<(u64, crate::walk::OffsetLength)> = Vec::new();
        walk_directories(
            &mut input,
            header.internal_compression,
            header.root_directory_offset,
            header.root_directory_length,
            header.leaf_directories_offset,
            start,
            end,
            MAX_WALK_DEPTH,
            &mut pairs,
        )?;
        let mut tile_manager = TileManager::new(Some(input));
        let n = pairs.len();
        let mut k: usize = 0;
        while k < n
            invariant
                k <= n,
                n == pairs@.len(),
                tile_manager.wf(),
                tile_manager.has_reader(),
                forall|i: int| 0 <= i < n ==> spec_in_filter(start, end, (#[trigger] pairs@[i]).0),
                forall|id: u64|
                    #[trigger] tile_manager@.tiles.dom().contains(id) ==> spec_in_filter(
                        start,
                        end,
                        id,
                    ),
            decreases n - k,
        {
            let (id, loc) = pairs[k];
            let offset = match header.tile_data_offset.checked_add(loc.offset) {
                Some(v) => v,
                None => {
                    return Err(PmtError::Malformed);
                },
            };
            tile_manager.add_offset_tile(id, offset, loc.length);
            k = k + 1;
        }
        Ok(
            PMTiles {
                tile_type: header.tile_type,
                internal_compression: header.internal_compression,
                tile_compression: header.tile_compression,
                min_zoom: header.min_zoom,
                max_zoom: header.max_zoom,
                center_zoom: header.center_zoom,
                min_longitude_e7: header.min_pos.longitude_e7,
                min_latitude_e7: header.min_pos.latitude_e7,
                max_longitude_e7: header.max_pos.longitude_e7,
                max_latitude_e7: header.max_pos.latitude_e7,
                center_longitude_e7: header.center_pos.longitude_e7,
                center_latitude_e7: header.center_pos.latitude_e7,
                meta_data,
                tile_manager,
            },
        )
    }

    /// Open an archive from a reader, keeping the reader for lazy tile
    /// fetches; tile entries outside the filter appear as missing. The
    /// filter guarantees live on `from_reader_bounded`, which this calls
    /// with `spec_filter_of_bounds` of the range's raw bounds; the range
    /// itself is opaque here, so nothing can be stated over it.
    pub fn from_reader_partially<T: std::ops::RangeBounds<u64>>(
        input: R,
        tiles_filter_range: &T,
    ) -> (r: Result<PMTiles<R>, PmtError>)
        ensures
            r is Ok ==> r->Ok_0.wf() && r->Ok_0.has_reader(),
    {
        let (start, end) = filter_bounds(tiles_filter_range);
        PMTiles::from_reader_bounded(input, start, end)
    }

    /// Open an archive from a reader, keeping the reader for lazy tile
    /// fetches.
    pub fn from_reader(input: R) -> (r: Result<PMTiles<R>, PmtError>)
        ensures
            r is Ok ==> r->Ok_0.wf() && r->Ok_0.has_reader(),
    {
        PMTiles::from_reader_bounded(input, 0, None)
    }

    /// Assemble the archive into its complete byte image: header, root
    /// directory, metadata, leaf directories and tile data, in order.
    ///
    /// On success the first 127 bytes parse back to a header whose
    /// section offsets describe the image exactly, whose root directory
    /// starts at 127 and fits the 16384-byte budget together with the
    /// header, and the root bytes decompress to the wire encoding of a
    /// directory.
    #[verifier::rlimit(100)]
    #[verifier::spinoff_prover]
    pub fn to_bytes(self) -> (r: Result<Vec<u8>, PmtError>)
        requires
            self.wf(),
        ensures
            self.internal_compression is Unknown ==> r is Err,
            spec_all_in_memory(self.tiles_model()) && spec_contents_fit(self.tiles_model())
                && self.tiles_model().tiles.dom().len() <= u32::MAX && !(
            self.internal_compression is Unknown) ==> r is Ok || r->Err_0
                == PmtError::RootDirOverflow || r->Err_0 == PmtError::Malformed,
            r is Ok ==> ({
                let bytes = r->Ok_0@;
                let h = spec_parse_header(bytes)->Some_0;
                &&& spec_parse_header(bytes) is Some
                &&& h.spec_version == 3
                &&& h.clustered == true
                &&& h.internal_compression == self.internal_compression
                &&& h.tile_compression == self.tile_compression
                &&& h.tile_type == self.tile_type
                &&& h.root_directory_offset == 127
                &&& h.root_directory_length <= MAX_ROOT_DIR_LENGTH
                &&& h.json_metadata_offset == 127 + h.root_directory_length
                &&& h.leaf_directories_offset == h.json_metadata_offset + h.json_metadata_length
                &&& h.tile_data_offset == h.leaf_directories_offset + h.leaf_directories_length
                &&& bytes.len() == h.tile_data_offset + h.tile_data_length
                &&& exists|es: Seq<Entry>|
                    spec_dir_encodable(es) && spec_decompress(
                        self.internal_compression,
                        bytes.subrange(127, 127 + h.root_directory_length),
                    ) == Some(spec_encode_directory(es))
            }),
    {
        let internal_compression = self.internal_compression;
        let tile_compression = self.tile_compression;
        let tile_type = self.tile_type;
        let min_zoom = self.min_zoom;
        let max_zoom = self.max_zoom;
        let center_zoom = self.center_zoom;
        let min_pos = LatLng {
            longitude_e7: self.min_longitude_e7,
            latitude_e7: self.min_latitude_e7,
        };
        let max_pos = LatLng {
            longitude_e7: self.max_longitude_e7,
            latitude_e7: self.max_latitude_e7,
        };
        let center_pos = LatLng {
            longitude_e7: self.center_longitude_e7,
            latitude_e7: self.center_latitude_e7,
        };
        let meta_data = self.meta_data;
        let result = self.tile_manager.finish()?;
        assemble_archive(
            internal_compression,
            tile_compression,
            tile_type,
            min_zoom,
            max_zoom,
            center_zoom,
            min_pos,
            max_pos,
            center_pos,
            meta_data,
            result,
        )
    }

    /// Assemble the archive and write its bytes to a writer. The
    /// archive is consumed: it is deduplicated, clustered and frozen.
    pub fn to_writer<W: std::io::Write + std::io::Seek>(self, output: &mut W) -> (r: Result<
        (),
        PmtError,
    >)
        requires
            self.wf(),
        ensures
            self.internal_compression is Unknown ==> r is Err,
            spec_all_in_memory(self.tiles_model()) && spec_contents_fit(self.tiles_model())
                && self.tiles_model().tiles.dom().len() <= u32::MAX && !(
            self.internal_compression is Unknown) ==> r is Ok || r->Err_0 == PmtError::Io
                || r->Err_0 == PmtError::RootDirOverflow || r->Err_0 == PmtError::Malformed,
    {
        let bytes = self.to_bytes()?;
        write_all(output, &bytes)
    }
}

/// Lay a finished tile store out as a complete archive image: header,
/// root directory, metadata, leaf directories and tile data, in order,
/// with the header's section offsets exact.
#[verifier::rlimit(100)]
#[verifier::spinoff_prover]
fn assemble_archive(
    internal_compression: Compression,
    tile_compression: Compression,
    tile_type: TileType,
    min_zoom: u8,
    max_zoom: u8,
    center_zoom: u8,
    min_pos: LatLng,
    max_pos: LatLng,
    center_pos: LatLng,
    meta_data: Option<serde_json::Value>,
    result: FinishResult,
) -> (r: Result<Vec<u8>, PmtError>)
    requires
        spec_dir_encodable(result.directory@),
    ensures
        internal_compression is Unknown ==> r is Err,
        !(internal_compression is Unknown) && r is Err ==> r->Err_0 == PmtError::Malformed
            || r->Err_0 == PmtError::RootDirOverflow,
        r is Ok ==> ({
            let bytes = r->Ok_0@;
            let h = spec_parse_header(bytes)->Some_0;
            &&& spec_parse_header(bytes) is Some
            &&& h.spec_version == 3
            &&& h.clustered == true
            &&& h.internal_compression == internal_compression
            &&& h.tile_compression == tile_compression
            &&& h.tile_type == tile_type
            &&& h.root_directory_offset == 127
            &&& h.root_directory_length <= MAX_ROOT_DIR_LENGTH
            &&& h.json_metadata_offset == 127 + h.root_directory_length
            &&& h.leaf_directories_offset == h.json_metadata_offset + h.json_metadata_length
            &&& h.tile_data_offset == h.leaf_directories_offset + h.leaf_directories_length
            &&& bytes.len() == h.tile_data_offset + h.tile_data_length
            &&& exists|es: Seq<Entry>|
                spec_dir_encodable(es) && spec_decompress(
                    internal_compression,
                    bytes.subrange(127, 127 + h.root_directory_length),
                ) == Some(spec_encode_directory(es))
        }),
{
    let entries = result.directory.into_entries();
    let (root, leaves) = match split_directories(&entries, internal_compression, None) {
        Ok(p) => p,
        Err(e) => {
            proof {
                assert(internal_compression is Unknown ==> e == PmtError::UnsupportedCompression);
                if !(internal_compression is Unknown) {
                    assert(e != PmtError::UnsupportedCompression);
                }
            }
            return Err(e);
        },
    };
    let meta_raw = match meta_data {
        Some(v) => match json_to_vec(&v) {
            Ok(b) => b,
            Err(_) => {
                return Err(PmtError::Malformed);
            },
        },
        None => match json_to_vec(&json_empty_object()) {
            Ok(b) => b,
            Err(_) => {
                return Err(PmtError::Malformed);
            },
        },
    };
    let meta = compress_all(internal_compression, &meta_raw)?;
    let root_directory_length = root.len() as u64;
    let json_metadata_offset = HEADER_BYTES as u64 + root_directory_length;
    let json_metadata_length = meta.len() as u64;
    let leaf_directories_offset = match json_metadata_offset.checked_add(json_metadata_length) {
        Some(v) => v,
        None => {
            return Err(PmtError::Malformed);
        },
    };
    let leaf_directories_length = leaves.len() as u64;
    let tile_data_offset = match leaf_directories_offset.checked_add(leaf_directories_length) {
        Some(v) => v,
        None => {
            return Err(PmtError::Malformed);
        },
    };
    let tile_data_length = result.data.len() as u64;
    if u64::MAX - tile_data_length < tile_data_offset {
        return Err(PmtError::Malformed);
    }
    let header = Header {
        spec_version: 3,
        root_directory_offset: HEADER_BYTES as u64,
        root_directory_length,
        json_metadata_offset,
        json_metadata_length,
        leaf_directories_offset,
        leaf_directories_length,
        tile_data_offset,
        tile_data_length,
        num_addressed_tiles: result.num_addressed_tiles,
        num_tile_entries: result.num_tile_entries,
        num_tile_content: result.num_tile_content,
        clustered: true,
        internal_compression,
        tile_compression,
        tile_type,
        min_zoom,
        max_zoom,
        min_pos,
        max_pos,
        center_zoom,
        center_pos,
    };
    let bytes = layout_image(header, root, meta, leaves, result.data);
    Ok(bytes)
}

/// Concatenate the five sections of an archive image in order. The
/// image parses back to the given header, its total length is the end
/// of the tile data section, and the root bytes sit at offset 127.
#[verifier::rlimit(100)]
#[verifier::spinoff_prover]
fn layout_image(header: Header, root: Vec<u8>, meta: Vec<u8>, leaves: Vec<u8>, data: Vec<u8>) -> (r:
    Vec<u8>)
    requires
        header.spec_version == 3,
        header.root_directory_offset == 127,
        header.root_directory_length == root@.len(),
        header.json_metadata_offset == 127 + root@.len(),
        header.json_metadata_length == meta@.len(),
        header.leaf_directories_offset == header.json_metadata_offset + meta@.len(),
        header.leaf_directories_length == leaves@.len(),
        header.tile_data_offset == header.leaf_directories_offset + leaves@.len(),
        header.tile_data_length == data@.len(),
        header.tile_data_offset + header.tile_data_length <= u64::MAX,
    ensures
        spec_parse_header(r@) == Some(header),
        r@.len() == header.tile_data_offset + header.tile_data_length,
        r@.subrange(127, 127 + header.root_directory_length as int) == root@,
{
    let mut bytes = header.to_bytes();
    let ghost header_enc = bytes@;
    let mut root2 = root;
    let ghost root_seq = root2@;
    bytes.append(&mut root2);
    let mut meta2 = meta;
    bytes.append(&mut meta2);
    let mut leaves2 = leaves;
    bytes.append(&mut leaves2);
    let mut data2 = data;
    bytes.append(&mut data2);
    proof {
        lemma_header_roundtrip(header);
        assert(forall|i: int| 0 <= i < 127 ==> bytes@[i] == header_enc[i]);
        assert(bytes@.subrange(0, 7) =~= header_enc.subrange(0, 7));
        assert(spec_parse_header(bytes@) == Some(header)) by {
            assert(spec_parse_header(header_enc) == Some(header));
            crate::header::lemma_parse_header_extend(header_enc, bytes@, header);
        }
        assert(bytes@.subrange(127, 127 + header.root_directory_length as int) =~= root_seq);
    }
    bytes
}

/// Relies on `std::io::Cursor::new`: wraps a byte buffer as a seekable
/// reader positioned at its start.
#[verifier::external_body]
fn cursor_of(bytes: Vec<u8>) -> (r: std::io::Cursor<Vec<u8>>) {
    std::io::Cursor::new(bytes)
}

#[verifier::external_type_specification]
#[verifier::external_body]
#[verifier::reject_recursive_types(T)]
/// The seekable in-memory reader used by the byte-based constructors.
pub struct ExCursor<T>(std::io::Cursor<T>);

impl PMTiles<std::io::Cursor<Vec<u8>>> {
    /// Open an archive held in a byte buffer.
    pub fn from_bytes(bytes: Vec<u8>) -> (r: Result<PMTiles<std::io::Cursor<Vec<u8>>>, PmtError>)
        ensures
            r is Ok ==> r->Ok_0.wf() && r->Ok_0.has_reader(),
    {
        PMTiles::from_reader(cursor_of(bytes))
    }

    /// Open an archive held in a byte buffer, keeping only tile entries
    /// inside the inclusive id filter `(start, end)` (unbounded end when
    /// `None`).
    ///
    /// Every tile id of a returned archive lies within the filter.
    pub fn from_bytes_bounded(bytes: Vec<u8>, start: u64, end: Option<u64>) -> (r: Result<
        PMTiles<std::io::Cursor<Vec<u8>>>,
        PmtError,
    >)
        ensures
            r is Ok ==> r->Ok_0.wf() && r->Ok_0.has_reader(),
            r is Ok ==> forall|id: u64|
                #[trigger] r->Ok_0.tiles_model().tiles.dom().contains(id) ==> spec_in_filter(
                    start,
                    end,
                    id,
                ),
    {
        PMTiles::from_reader_bounded(cursor_of(bytes), start, end)
    }

    /// Open an archive held in a byte buffer, keeping only tile entries
    /// the filter admits. The filter guarantees live on
    /// `from_bytes_bounded`; the range itself is opaque here.
    pub fn from_bytes_partially<T: std::ops::RangeBounds<u64>>(
        bytes: Vec<u8>,
        tiles_filter_range: &T,
    ) -> (r: Result<PMTiles<std::io::Cursor<Vec<u8>>>, PmtError>)
        ensures
            r is Ok ==> r->Ok_0.wf() && r->Ok_0.has_reader(),
    {
        let (start, end) = filter_bounds(tiles_filter_range);
        PMTiles::from_bytes_bounded(bytes, start, end)
    }
}

} // verus!
