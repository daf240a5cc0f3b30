//! The fixed 127-byte little-endian archive header and its codec.
use vstd::prelude::*;

use crate::compression::Compression;
use crate::error::PmtError;
use crate::io_util::{read_exact_vec, write_all};
use crate::tile_type::TileType;

verus! {

/// Size of an encoded header in bytes.
pub const HEADER_BYTES: usize = 127;

/// A position on the globe: longitude and latitude in degrees scaled by
/// 10^7 and truncated to 32 bits, exactly as stored on the wire.
#[derive(Debug, Clone, Copy, PartialEq, Eq, Structural)]
pub struct LatLng {
    /// Longitude in 10^-7 degrees.
    pub longitude_e7: i32,
    /// Latitude in 10^-7 degrees.
    pub latitude_e7: i32,
}

/// A PMTiles v3 header.
///
/// All offsets are absolute byte positions in the archive; all lengths are
/// in bytes.
#[derive(Debug, Clone, Copy, PartialEq, Eq, Structural)]
pub struct Header {
    /// Version of the specification; always 3.
    pub spec_version: u8,
    /// Offset of the root directory section.
    pub root_directory_offset: u64,
    /// Length of the root directory section.
    pub root_directory_length: u64,
    /// Offset of the JSON metadata section.
    pub json_metadata_offset: u64,
    /// Length of the JSON metadata section.
    pub json_metadata_length: u64,
    /// Offset of the leaf directories section.
    pub leaf_directories_offset: u64,
    /// Length of the leaf directories section.
    pub leaf_directories_length: u64,
    /// Offset of the tile data section.
    pub tile_data_offset: u64,
    /// Length of the tile data section.
    pub tile_data_length: u64,
    /// Number of tiles addressable in the archive.
    pub num_addressed_tiles: u64,
    /// Number of directory entries that point at tile data.
    pub num_tile_entries: u64,
    /// Number of distinct tile contents in the tile data section.
    pub num_tile_content: u64,
    /// Whether directory entries are laid out in ascending tile-id order.
    pub clustered: bool,
    /// Compression of the directories and the metadata section.
    pub internal_compression: Compression,
    /// Compression of the tiles.
    pub tile_compression: Compression,
    /// Type of the tiles.
    pub tile_type: TileType,
    /// Minimum zoom of the tiles.
    pub min_zoom: u8,
    /// Maximum zoom of the tiles.
    pub max_zoom: u8,
    /// Minimum position of the bounds.
    pub min_pos: LatLng,
    /// Maximum position of the bounds.
    pub max_pos: LatLng,
    /// Zoom a viewer may start at.
    pub center_zoom: u8,
    /// Position a viewer may start at.
    pub center_pos: LatLng,
}

/// The 8 little-endian bytes of `v`.
pub open spec fn spec_u64_le(v: u64) -> Seq<u8> {
    seq![
        (v & 0xff) as u8,
        ((v >> 8) & 0xff) as u8,
        ((v >> 16) & 0xff) as u8,
        ((v >> 24) & 0xff) as u8,
        ((v >> 32) & 0xff) as u8,
        ((v >> 40) & 0xff) as u8,
        ((v >> 48) & 0xff) as u8,
        ((v >> 56) & 0xff) as u8,
    ]
}

/// The `u64` stored little-endian at `s[i..i+8]`.
pub open spec fn spec_u64_at(s: Seq<u8>, i: int) -> u64 {
    (s[i] as u64) | ((s[i + 1] as u64) << 8) | ((s[i + 2] as u64) << 16) | ((s[i + 3] as u64)
        << 24) | ((s[i + 4] as u64) << 32) | ((s[i + 5] as u64) << 40) | ((s[i + 6] as u64) << 48)
        | ((s[i + 7] as u64) << 56)
}

/// The 4 little-endian bytes of `v` in two's complement.
pub open spec fn spec_i32_le(v: i32) -> Seq<u8> {
    let u = v as u32;
    seq![(u & 0xff) as u8, ((u >> 8) & 0xff) as u8, ((u >> 16) & 0xff) as u8, ((u >> 24) & 0xff) as u8]
}

/// The `i32` stored little-endian at `s[i..i+4]`.
pub open spec fn spec_i32_at(s: Seq<u8>, i: int) -> i32 {
    ((s[i] as u32) | ((s[i + 1] as u32) << 8) | ((s[i + 2] as u32) << 16) | ((s[i + 3] as u32)
        << 24)) as i32
}

pub proof fn lemma_u64_le_roundtrip(v: u64)
    ensures
        spec_u64_at(spec_u64_le(v), 0) == v,
{
    assert(((v & 0xff) as u8 as u64) | ((((v >> 8) & 0xff) as u8 as u64) << 8) | ((((v >> 16)
        & 0xff) as u8 as u64) << 16) | ((((v >> 24) & 0xff) as u8 as u64) << 24) | ((((v >> 32)
        & 0xff) as u8 as u64) << 32) | ((((v >> 40) & 0xff) as u8 as u64) << 40) | ((((v >> 48)
        & 0xff) as u8 as u64) << 48) | ((((v >> 56) & 0xff) as u8 as u64) << 56) == v)
        by (bit_vector);
}

pub proof fn lemma_i32_le_roundtrip(v: i32)
    ensures
        spec_i32_at(spec_i32_le(v), 0) == v,
{
    let u = v as u32;
    assert((((u & 0xff) as u8 as u32) | ((((u >> 8) & 0xff) as u8 as u32) << 8) | ((((u >> 16)
        & 0xff) as u8 as u32) << 16) | ((((u >> 24) & 0xff) as u8 as u32) << 24)) == u)
        by (bit_vector);
    assert((v as u32) as i32 == v) by (bit_vector);
}

/// The wire byte of a compression.
pub open spec fn spec_compression_byte(c: Compression) -> u8 {
    match c {
        Compression::Unknown => 0,
        Compression::Uncompressed => 1,
        Compression::GZip => 2,
        Compression::Brotli => 3,
        Compression::ZStd => 4,
    }
}

/// The compression a wire byte denotes, if any.
pub open spec fn spec_compression_of_byte(b: u8) -> Option<Compression> {
    if b == 0 {
        Some(Compression::Unknown)
    } else if b == 1 {
        Some(Compression::Uncompressed)
    } else if b == 2 {
        Some(Compression::GZip)
    } else if b == 3 {
        Some(Compression::Brotli)
    } else if b == 4 {
        Some(Compression::ZStd)
    } else {
        None
    }
}

/// The wire byte of a tile type.
pub open spec fn spec_tile_type_byte(t: TileType) -> u8 {
    match t {
        TileType::Unknown => 0,
        TileType::Mvt => 1,
        TileType::Png => 2,
        TileType::Jpeg => 3,
        TileType::WebP => 4,
    }
}

/// The tile type a wire byte denotes, if any.
pub open spec fn spec_tile_type_of_byte(b: u8) -> Option<TileType> {
    if b == 0 {
        Some(TileType::Unknown)
    } else if b == 1 {
        Some(TileType::Mvt)
    } else if b == 2 {
        Some(TileType::Png)
    } else if b == 3 {
        Some(TileType::Jpeg)
    } else if b == 4 {
        Some(TileType::WebP)
    } else {
        None
    }
}

/// The 7 magic bytes `"PMTiles"`.
pub open spec fn spec_magic() -> Seq<u8> {
    seq![0x50u8, 0x4du8, 0x54u8, 0x69u8, 0x6cu8, 0x65u8, 0x73u8]
}

/// The exact 127 bytes that encode `h`.
pub open spec fn spec_encode_header(h: Header) -> Seq<u8> {
    spec_magic() + seq![h.spec_version] + spec_u64_le(h.root_directory_offset) + spec_u64_le(
        h.root_directory_length,
    ) + spec_u64_le(h.json_metadata_offset) + spec_u64_le(h.json_metadata_length) + spec_u64_le(
        h.leaf_directories_offset,
    ) + spec_u64_le(h.leaf_directories_length) + spec_u64_le(h.tile_data_offset) + spec_u64_le(
        h.tile_data_length,
    ) + spec_u64_le(h.num_addressed_tiles) + spec_u64_le(h.num_tile_entries) + spec_u64_le(
        h.num_tile_content,
    ) + seq![(if h.clustered { 1u8 } else { 0u8 })] + seq![spec_compression_byte(h.internal_compression)]
        + seq![spec_compression_byte(h.tile_compression)] + seq![spec_tile_type_byte(h.tile_type)]
        + seq![h.min_zoom] + seq![h.max_zoom] + spec_i32_le(h.min_pos.longitude_e7) + spec_i32_le(
        h.min_pos.latitude_e7,
    ) + spec_i32_le(h.max_pos.longitude_e7) + spec_i32_le(h.max_pos.latitude_e7)
        + seq![h.center_zoom] + spec_i32_le(h.center_pos.longitude_e7) + spec_i32_le(
        h.center_pos.latitude_e7,
    )
}

/// Whether the first 127 bytes of `s` carry the magic, version 3, a
/// well-formed `clustered` byte and known enum bytes.
pub open spec fn spec_header_prefix_ok(s: Seq<u8>) -> bool {
    &&& s.len() >= 127
    &&& s.subrange(0, 7) == spec_magic()
    &&& s[7] == 3
    &&& (s[96] == 0 || s[96] == 1)
    &&& spec_compression_of_byte(s[97]) is Some
    &&& spec_compression_of_byte(s[98]) is Some
    &&& spec_tile_type_of_byte(s[99]) is Some
}

/// The header parsed from the first 127 bytes of `s`, or `None` where
/// those bytes do not form a valid header.
pub open spec fn spec_parse_header(s: Seq<u8>) -> Option<Header> {
    if !spec_header_prefix_ok(s) {
        None
    } else {
        Some(
            Header {
                spec_version: s[7],
                root_directory_offset: spec_u64_at(s, 8),
                root_directory_length: spec_u64_at(s, 16),
                json_metadata_offset: spec_u64_at(s, 24),
                json_metadata_length: spec_u64_at(s, 32),
                leaf_directories_offset: spec_u64_at(s, 40),
                leaf_directories_length: spec_u64_at(s, 48),
                tile_data_offset: spec_u64_at(s, 56),
                tile_data_length: spec_u64_at(s, 64),
                num_addressed_tiles: spec_u64_at(s, 72),
                num_tile_entries: spec_u64_at(s, 80),
                num_tile_content: spec_u64_at(s, 88),
                clustered: s[96] == 1,
                internal_compression: spec_compression_of_byte(s[97])->Some_0,
                tile_compression: spec_compression_of_byte(s[98])->Some_0,
                tile_type: spec_tile_type_of_byte(s[99])->Some_0,
                min_zoom: s[100],
                max_zoom: s[101],
                min_pos: LatLng {
                    longitude_e7: spec_i32_at(s, 102),
                    latitude_e7: spec_i32_at(s, 106),
                },
                max_pos: LatLng {
                    longitude_e7: spec_i32_at(s, 110),
                    latitude_e7: spec_i32_at(s, 114),
                },
                center_zoom: s[118],
                center_pos: LatLng {
                    longitude_e7: spec_i32_at(s, 119),
                    latitude_e7: spec_i32_at(s, 123),
                },
            },
        )
    }
}

fn push_byte(out: &mut Vec<u8>, b: u8)
    ensures
        final(out)@ == old(out)@ + seq![b],
{
    out.push(b);
    assert(out@ =~= old(out)@ + seq![b]);
}

fn push_u64_le(out: &mut Vec<u8>, v: u64)
    ensures
        final(out)@ == old(out)@ + spec_u64_le(v),
{
    out.push((v & 0xff) as u8);
    out.push(((v >> 8) & 0xff) as u8);
    out.push(((v >> 16) & 0xff) as u8);
    out.push(((v >> 24) & 0xff) as u8);
    out.push(((v >> 32) & 0xff) as u8);
    out.push(((v >> 40) & 0xff) as u8);
    out.push(((v >> 48) & 0xff) as u8);
    out.push(((v >> 56) & 0xff) as u8);
    assert(out@ =~= old(out)@ + spec_u64_le(v));
}

fn push_i32_le(out: &mut Vec<u8>, v: i32)
    ensures
        final(out)@ == old(out)@ + spec_i32_le(v),
{
    #[verifier::truncate]
    let u = v as u32;
    out.push((u & 0xff) as u8);
    out.push(((u >> 8) & 0xff) as u8);
    out.push(((u >> 16) & 0xff) as u8);
    out.push(((u >> 24) & 0xff) as u8);
    assert(out@ =~= old(out)@ + spec_i32_le(v));
}

fn u64_at(s: &Vec<u8>, i: usize) -> (r: u64)
    requires
        i + 8 <= s.len(),
    ensures
        r == spec_u64_at(s@, i as int),
{
    (s[i] as u64) | ((s[i + 1] as u64) << 8) | ((s[i + 2] as u64) << 16) | ((s[i + 3] as u64)
        << 24) | ((s[i + 4] as u64) << 32) | ((s[i + 5] as u64) << 40) | ((s[i + 6] as u64) << 48)
        | ((s[i + 7] as u64) << 56)
}

fn i32_at(s: &Vec<u8>, i: usize) -> (r: i32)
    requires
        i + 4 <= s.len(),
    ensures
        r == spec_i32_at(s@, i as int),
{
    #[verifier::truncate]
    let r = ((s[i] as u32) | ((s[i + 1] as u32) << 8) | ((s[i + 2] as u32) << 16) | ((s[i + 3]
        as u32) << 24)) as i32;
    r
}

fn compression_byte(c: Compression) -> (r: u8)
    ensures
        r == spec_compression_byte(c),
{
    match c {
        Compression::Unknown => 0,
        Compression::Uncompressed => 1,
        Compression::GZip => 2,
        Compression::Brotli => 3,
        Compression::ZStd => 4,
    }
}

fn compression_of_byte(b: u8) -> (r: Option<Compression>)
    ensures
        r == spec_compression_of_byte(b),
{
    if b == 0 {
        Some(Compression::Unknown)
    } else if b == 1 {
        Some(Compression::Uncompressed)
    } else if b == 2 {
        Some(Compression::GZip)
    } else if b == 3 {
        Some(Compression::Brotli)
    } else if b == 4 {
        Some(Compression::ZStd)
    } else {
        None
    }
}

fn tile_type_byte(t: TileType) -> (r: u8)
    ensures
        r == spec_tile_type_byte(t),
{
    match t {
        TileType::Unknown => 0,
        TileType::Mvt => 1,
        TileType::Png => 2,
        TileType::Jpeg => 3,
        TileType::WebP => 4,
    }
}

fn tile_type_of_byte(b: u8) -> (r: Option<TileType>)
    ensures
        r == spec_tile_type_of_byte(b),
{
    if b == 0 {
        Some(TileType::Unknown)
    } else if b == 1 {
        Some(TileType::Mvt)
    } else if b == 2 {
        Some(TileType::Png)
    } else if b == 3 {
        Some(TileType::Jpeg)
    } else if b == 4 {
        Some(TileType::WebP)
    } else {
        None
    }
}

impl Header {
    /// The `Content-Type` HTTP header value for tiles served from this
    /// archive, or `None` when no concrete value applies.
    pub fn http_content_type(&self) -> (r: Option<&'static str>)
        ensures
            r is Some <==> !(self.tile_type is Unknown),
    {
        self.tile_type.http_content_type()
    }

    /// The `Content-Encoding` HTTP header value for tiles served from
    /// this archive, or `None` when no concrete value applies.
    pub fn http_content_encoding(&self) -> (r: Option<&'static str>)
        ensures
            r is Some <==> self.tile_compression is GZip || self.tile_compression is Brotli
                || self.tile_compression is ZStd,
    {
        self.tile_compression.http_content_encoding()
    }

    /// Serialize the header into its exact 127 bytes.
    #[verifier::rlimit(100)]
    #[verifier::spinoff_prover]
    pub fn to_bytes(&self) -> (r: Vec<u8>)
        ensures
            r@ == spec_encode_header(*self),
            r@.len() == 127,
    {
        let mut out: Vec<u8> = Vec::new();
        out.push(0x50);
        out.push(0x4d);
        out.push(0x54);
        out.push(0x69);
        out.push(0x6c);
        out.push(0x65);
        out.push(0x73);
        assert(out@ =~= spec_magic());
        push_byte(&mut out, self.spec_version);
        push_u64_le(&mut out, self.root_directory_offset);
        push_u64_le(&mut out, self.root_directory_length);
        push_u64_le(&mut out, self.json_metadata_offset);
        push_u64_le(&mut out, self.json_metadata_length);
        push_u64_le(&mut out, self.leaf_directories_offset);
        push_u64_le(&mut out, self.leaf_directories_length);
        push_u64_le(&mut out, self.tile_data_offset);
        push_u64_le(&mut out, self.tile_data_length);
        push_u64_le(&mut out, self.num_addressed_tiles);
        push_u64_le(&mut out, self.num_tile_entries);
        push_u64_le(&mut out, self.num_tile_content);
        push_byte(&mut out, if self.clustered { 1 } else { 0 });
        push_byte(&mut out, compression_byte(self.internal_compression));
        push_byte(&mut out, compression_byte(self.tile_compression));
        push_byte(&mut out, tile_type_byte(self.tile_type));
        push_byte(&mut out, self.min_zoom);
        push_byte(&mut out, self.max_zoom);
        push_i32_le(&mut out, self.min_pos.longitude_e7);
        push_i32_le(&mut out, self.min_pos.latitude_e7);
        push_i32_le(&mut out, self.max_pos.longitude_e7);
        push_i32_le(&mut out, self.max_pos.latitude_e7);
        push_byte(&mut out, self.center_zoom);
        push_i32_le(&mut out, self.center_pos.longitude_e7);
        push_i32_le(&mut out, self.center_pos.latitude_e7);
        assert(out@ == spec_encode_header(*self));
        out
    }

    /// Parse a header from the first 127 bytes of `bytes`.
    ///
    /// Fails with `Malformed` exactly when those bytes do not carry the
    /// magic, version 3, a well-formed `clustered` byte and known enum
    /// bytes, or when fewer than 127 bytes are given.
    pub fn from_bytes(bytes: &Vec<u8>) -> (r: Result<Header, PmtError>)
        ensures
            match spec_parse_header(bytes@) {
                Some(h) => r == Ok::<Header, PmtError>(h),
                None => r == Err::<Header, PmtError>(PmtError::Malformed),
            },
    {
        if bytes.len() < 127 {
            return Err(PmtError::Malformed);
        }
        if !(bytes[0] == 0x50 && bytes[1] == 0x4d && bytes[2] == 0x54 && bytes[3] == 0x69
            && bytes[4] == 0x6c && bytes[5] == 0x65 && bytes[6] == 0x73) {
            proof {
                if bytes@.subrange(0, 7) == spec_magic() {
                    assert(bytes@[0] == 0x50 && bytes@[1] == 0x4d && bytes@[2] == 0x54 && bytes@[3]
                        == 0x69 && bytes@[4] == 0x6c && bytes@[5] == 0x65 && bytes@[6] == 0x73) by {
                        assert(forall|k: int| 0 <= k < 7 ==> bytes@.subrange(0, 7)[k] == bytes@[k]);
                    }
                }
            }
            return Err(PmtError::Malformed);
        }
        proof {
            assert(bytes@.subrange(0, 7) =~= spec_magic());
        }
        if bytes[7] != 3 {
            return Err(PmtError::Malformed);
        }
        let clustered_byte = bytes[96];
        if !(clustered_byte == 0 || clustered_byte == 1) {
            return Err(PmtError::Malformed);
        }
        let internal_compression = match compression_of_byte(bytes[97]) {
            Some(c) => c,
            None => {
                return Err(PmtError::Malformed);
            },
        };
        let tile_compression = match compression_of_byte(bytes[98]) {
            Some(c) => c,
            None => {
                return Err(PmtError::Malformed);
            },
        };
        let tile_type = match tile_type_of_byte(bytes[99]) {
            Some(t) => t,
            None => {
                return Err(PmtError::Malformed);
            },
        };
        Ok(
            Header {
                spec_version: bytes[7],
                root_directory_offset: u64_at(bytes, 8),
                root_directory_length: u64_at(bytes, 16),
                json_metadata_offset: u64_at(bytes, 24),
                json_metadata_length: u64_at(bytes, 32),
                leaf_directories_offset: u64_at(bytes, 40),
                leaf_directories_length: u64_at(bytes, 48),
                tile_data_offset: u64_at(bytes, 56),
                tile_data_length: u64_at(bytes, 64),
                num_addressed_tiles: u64_at(bytes, 72),
                num_tile_entries: u64_at(bytes, 80),
                num_tile_content: u64_at(bytes, 88),
                clustered: clustered_byte == 1,
                internal_compression,
                tile_compression,
                tile_type,
                min_zoom: bytes[100],
                max_zoom: bytes[101],
                min_pos: LatLng { longitude_e7: i32_at(bytes, 102), latitude_e7: i32_at(bytes, 106) },
                max_pos: LatLng { longitude_e7: i32_at(bytes, 110), latitude_e7: i32_at(bytes, 114) },
                center_zoom: bytes[118],
                center_pos: LatLng {
                    longitude_e7: i32_at(bytes, 119),
                    latitude_e7: i32_at(bytes, 123),
                },
            },
        )
    }

    /// Read 127 bytes from a reader and parse them as a header.
    pub fn from_reader<R: std::io::Read>(input: &mut R) -> (r: Result<Header, PmtError>)
        ensures
            r is Ok ==> r->Ok_0.spec_version == 3,
    {
        let buf = read_exact_vec(input, HEADER_BYTES)?;
        Header::from_bytes(&buf)
    }

    /// Serialize the header and write its 127 bytes to a writer.
    pub fn to_writer<W: std::io::Write>(&self, output: &mut W) -> (r: Result<(), PmtError>)
        ensures
            r is Err ==> r->Err_0 == PmtError::Io,
    {
        let bytes = self.to_bytes();
        write_all(output, &bytes)
    }
}

impl Default for Header {
    /// The header of a fresh archive: version 3, gzip internal
    /// compression, uncompressed tiles of unknown type, bounds spanning
    /// (-180, -85) to (180, 85), everything else zero.
    fn default() -> (h: Header)
        ensures
            h.spec_version == 3,
            h.root_directory_offset == 0,
            h.root_directory_length == 0,
            h.json_metadata_offset == 0,
            h.json_metadata_length == 0,
            h.leaf_directories_offset == 0,
            h.leaf_directories_length == 0,
            h.tile_data_offset == 0,
            h.tile_data_length == 0,
            h.num_addressed_tiles == 0,
            h.num_tile_entries == 0,
            h.num_tile_content == 0,
            h.clustered == false,
            h.internal_compression == Compression::GZip,
            h.tile_compression == Compression::Uncompressed,
            h.tile_type == TileType::Unknown,
            h.min_zoom == 0,
            h.max_zoom == 0,
            h.min_pos == (LatLng { longitude_e7: -1_800_000_000i32, latitude_e7: -850_000_000i32 }),
            h.max_pos == (LatLng { longitude_e7: 1_800_000_000i32, latitude_e7: 850_000_000i32 }),
            h.center_zoom == 0,
            h.center_pos == (LatLng { longitude_e7: 0i32, latitude_e7: 0i32 }),
    {
        Header {
            spec_version: 3,
            root_directory_offset: 0,
            root_directory_length: 0,
            json_metadata_offset: 0,
            json_metadata_length: 0,
            leaf_directories_offset: 0,
            leaf_directories_length: 0,
            tile_data_offset: 0,
            tile_data_length: 0,
            num_addressed_tiles: 0,
            num_tile_entries: 0,
            num_tile_content: 0,
            clustered: false,
            internal_compression: Compression::GZip,
            tile_compression: Compression::Uncompressed,
            tile_type: TileType::Unknown,
            min_zoom: 0,
            max_zoom: 0,
            min_pos: LatLng { longitude_e7: -1_800_000_000, latitude_e7: -850_000_000 },
            max_pos: LatLng { longitude_e7: 1_800_000_000, latitude_e7: 850_000_000 },
            center_zoom: 0,
            center_pos: LatLng { longitude_e7: 0, latitude_e7: 0 },
        }
    }
}

/// Round trip of the header codec: every header that carries the
/// mandatory version 3 is recovered exactly from its 127-byte encoding.
pub proof fn lemma_header_roundtrip(h: Header)
    requires
        h.spec_version == 3,
    ensures
        spec_encode_header(h).len() == 127,
        spec_parse_header(spec_encode_header(h)) == Some(h),
{
    let s = spec_encode_header(h);
    lemma_hdr_scalar_bytes(h);
    lemma_hdr_u64_fields_a(h);
    lemma_hdr_u64_fields_b(h);
    lemma_hdr_i32_fields(h);
    assert(spec_compression_of_byte(spec_compression_byte(h.internal_compression)) == Some(
        h.internal_compression,
    ));
    assert(spec_compression_of_byte(spec_compression_byte(h.tile_compression)) == Some(
        h.tile_compression,
    ));
    assert(spec_tile_type_of_byte(spec_tile_type_byte(h.tile_type)) == Some(h.tile_type));
}

#[verifier::spinoff_prover]
#[verifier::rlimit(100)]
proof fn lemma_hdr_scalar_bytes(h: Header)
    ensures
        spec_encode_header(h).len() == 127,
        spec_encode_header(h).subrange(0, 7) == spec_magic(),
        spec_encode_header(h)[7] == h.spec_version,
        spec_encode_header(h)[96] == (if h.clustered {
            1u8
        } else {
            0u8
        }),
        spec_encode_header(h)[97] == spec_compression_byte(h.internal_compression),
        spec_encode_header(h)[98] == spec_compression_byte(h.tile_compression),
        spec_encode_header(h)[99] == spec_tile_type_byte(h.tile_type),
        spec_encode_header(h)[100] == h.min_zoom,
        spec_encode_header(h)[101] == h.max_zoom,
        spec_encode_header(h)[118] == h.center_zoom,
{
    let s = spec_encode_header(h);
    assert(s.subrange(0, 7) =~= spec_magic());
}

#[verifier::spinoff_prover]
#[verifier::rlimit(100)]
proof fn lemma_hdr_u64_fields_a(h: Header)
    ensures
        spec_u64_at(spec_encode_header(h), 8) == h.root_directory_offset,
        spec_u64_at(spec_encode_header(h), 16) == h.root_directory_length,
        spec_u64_at(spec_encode_header(h), 24) == h.json_metadata_offset,
        spec_u64_at(spec_encode_header(h), 32) == h.json_metadata_length,
        spec_u64_at(spec_encode_header(h), 40) == h.leaf_directories_offset,
        spec_u64_at(spec_encode_header(h), 48) == h.leaf_directories_length,
{
    let s = spec_encode_header(h);
    lemma_field_u64(s, 8, h.root_directory_offset);
    lemma_field_u64(s, 16, h.root_directory_length);
    lemma_field_u64(s, 24, h.json_metadata_offset);
    lemma_field_u64(s, 32, h.json_metadata_length);
    lemma_field_u64(s, 40, h.leaf_directories_offset);
    lemma_field_u64(s, 48, h.leaf_directories_length);
}

#[verifier::spinoff_prover]
#[verifier::rlimit(100)]
proof fn lemma_hdr_u64_fields_b(h: Header)
    ensures
        spec_u64_at(spec_encode_header(h), 56) == h.tile_data_offset,
        spec_u64_at(spec_encode_header(h), 64) == h.tile_data_length,
        spec_u64_at(spec_encode_header(h), 72) == h.num_addressed_tiles,
        spec_u64_at(spec_encode_header(h), 80) == h.num_tile_entries,
        spec_u64_at(spec_encode_header(h), 88) == h.num_tile_content,
{
    let s = spec_encode_header(h);
    lemma_field_u64(s, 56, h.tile_data_offset);
    lemma_field_u64(s, 64, h.tile_data_length);
    lemma_field_u64(s, 72, h.num_addressed_tiles);
    lemma_field_u64(s, 80, h.num_tile_entries);
    lemma_field_u64(s, 88, h.num_tile_content);
}

#[verifier::spinoff_prover]
#[verifier::rlimit(100)]
proof fn lemma_hdr_i32_fields(h: Header)
    ensures
        spec_i32_at(spec_encode_header(h), 102) == h.min_pos.longitude_e7,
        spec_i32_at(spec_encode_header(h), 106) == h.min_pos.latitude_e7,
        spec_i32_at(spec_encode_header(h), 110) == h.max_pos.longitude_e7,
        spec_i32_at(spec_encode_header(h), 114) == h.max_pos.latitude_e7,
        spec_i32_at(spec_encode_header(h), 119) == h.center_pos.longitude_e7,
        spec_i32_at(spec_encode_header(h), 123) == h.center_pos.latitude_e7,
{
    let s = spec_encode_header(h);
    lemma_field_i32(s, 102, h.min_pos.longitude_e7);
    lemma_field_i32(s, 106, h.min_pos.latitude_e7);
    lemma_field_i32(s, 110, h.max_pos.longitude_e7);
    lemma_field_i32(s, 114, h.max_pos.latitude_e7);
    lemma_field_i32(s, 119, h.center_pos.longitude_e7);
    lemma_field_i32(s, 123, h.center_pos.latitude_e7);
}

proof fn lemma_field_u64(s: Seq<u8>, i: int, v: u64)
    requires
        0 <= i,
        i + 8 <= s.len(),
        forall|k: int| 0 <= k < 8 ==> s[i + k] == spec_u64_le(v)[k],
    ensures
        spec_u64_at(s, i) == v,
{
    lemma_u64_le_roundtrip(v);
    assert(s[i] == spec_u64_le(v)[0]);
    assert(s[i + 1] == spec_u64_le(v)[1]);
    assert(s[i + 2] == spec_u64_le(v)[2]);
    assert(s[i + 3] == spec_u64_le(v)[3]);
    assert(s[i + 4] == spec_u64_le(v)[4]);
    assert(s[i + 5] == spec_u64_le(v)[5]);
    assert(s[i + 6] == spec_u64_le(v)[6]);
    assert(s[i + 7] == spec_u64_le(v)[7]);
}

proof fn lemma_field_i32(s: Seq<u8>, i: int, v: i32)
    requires
        0 <= i,
        i + 4 <= s.len(),
        forall|k: int| 0 <= k < 4 ==> s[i + k] == spec_i32_le(v)[k],
    ensures
        spec_i32_at(s, i) == v,
{
    lemma_i32_le_roundtrip(v);
    assert(s[i] == spec_i32_le(v)[0]);
    assert(s[i + 1] == spec_i32_le(v)[1]);
    assert(s[i + 2] == spec_i32_le(v)[2]);
    assert(s[i + 3] == spec_i32_le(v)[3]);
}

/// A header parse reads only the first 127 bytes: any byte stream that
/// agrees with a header's encoding there parses to that header.
pub proof fn lemma_parse_header_extend(enc: Seq<u8>, s: Seq<u8>, h: Header)
    requires
        spec_parse_header(enc) == Some(h),
        enc.len() == 127,
        s.len() >= 127,
        forall|i: int| 0 <= i < 127 ==> s[i] == enc[i],
    ensures
        spec_parse_header(s) == Some(h),
{
    assert(s.subrange(0, 7) =~= enc.subrange(0, 7));
    assert(spec_u64_at(s, 8) == spec_u64_at(enc, 8));
    assert(spec_u64_at(s, 16) == spec_u64_at(enc, 16));
    assert(spec_u64_at(s, 24) == spec_u64_at(enc, 24));
    assert(spec_u64_at(s, 32) == spec_u64_at(enc, 32));
    assert(spec_u64_at(s, 40) == spec_u64_at(enc, 40));
    assert(spec_u64_at(s, 48) == spec_u64_at(enc, 48));
    assert(spec_u64_at(s, 56) == spec_u64_at(enc, 56));
    assert(spec_u64_at(s, 64) == spec_u64_at(enc, 64));
    assert(spec_u64_at(s, 72) == spec_u64_at(enc, 72));
    assert(spec_u64_at(s, 80) == spec_u64_at(enc, 80));
    assert(spec_u64_at(s, 88) == spec_u64_at(enc, 88));
    assert(spec_i32_at(s, 102) == spec_i32_at(enc, 102));
    assert(spec_i32_at(s, 106) == spec_i32_at(enc, 106));
    assert(spec_i32_at(s, 110) == spec_i32_at(enc, 110));
    assert(spec_i32_at(s, 114) == spec_i32_at(enc, 114));
    assert(spec_i32_at(s, 119) == spec_i32_at(enc, 119));
    assert(spec_i32_at(s, 123) == spec_i32_at(enc, 123));
}

} // verus!
