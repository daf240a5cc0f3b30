use pmtiles2::{
    compress_all, decompress_all, range_end_inc, Compression, Directory, Entry, Header, LatLng,
    PmtError, TileType,
};

#[test]
fn compression_test_http_content_encoding() {
    assert_eq!(Compression::Unknown.http_content_encoding(), None);

    assert_eq!(Compression::Uncompressed.http_content_encoding(), None);

    assert_eq!(Compression::GZip.http_content_encoding(), Some("gzip"));

    assert_eq!(Compression::Brotli.http_content_encoding(), Some("br"));

    assert_eq!(Compression::ZStd.http_content_encoding(), Some("zstd"));
}

#[test]
fn tile_type_test_http_content_type() {
    assert_eq!(TileType::Unknown.http_content_type(), None);

    assert_eq!(
        TileType::Mvt.http_content_type(),
        Some("application/vnd.mapbox-vector-tile")
    );

    assert_eq!(TileType::Png.http_content_type(), Some("image/png"));

    assert_eq!(TileType::Jpeg.http_content_type(), Some("image/jpeg"));

    assert_eq!(TileType::WebP.http_content_type(), Some("image/webp"));
}

#[test]
fn mod_test_http_content_type() {
    let header = Header {
        tile_type: TileType::Mvt,
        ..Header::default()
    };

    assert_eq!(header.http_content_type(), TileType::Mvt.http_content_type());
}

#[test]
fn mod_test_http_content_encoding() {
    let header = Header {
        internal_compression: Compression::Brotli,
        tile_compression: Compression::GZip,
        ..Header::default()
    };

    assert_eq!(
        header.http_content_encoding(),
        Compression::GZip.http_content_encoding()
    );
}

#[test]
fn decompress_all_unknown() {
    let res = decompress_all(Compression::Unknown, &Vec::new());
    assert!(res.is_err());
}

#[test]
fn compress_all_unknown() {
    let res = compress_all(Compression::Unknown, &Vec::new());
    assert!(res.is_err());
}

#[test]
fn test_range_end_inc() {
    assert_eq!(range_end_inc(&(..)), None);
    assert_eq!(range_end_inc(&(..=3)), Some(3));
    assert_eq!(range_end_inc(&(..3)), Some(2));
    assert_eq!(range_end_inc(&(1..)), None);
}

fn roundtrip(compression: Compression) {
    let data: Vec<u8> = vec![7u8; 1000];
    let packed = compress_all(compression, &data).unwrap();
    // a real compressor shrinks this very repetitive input
    assert!(packed.len() < data.len());
    let unpacked = decompress_all(compression, &packed).unwrap();
    assert_eq!(unpacked, data);
}

#[test]
fn compression_roundtrip_gzip() {
    roundtrip(Compression::GZip);
}

#[test]
fn compression_roundtrip_brotli() {
    roundtrip(Compression::Brotli);
}

#[test]
fn compression_roundtrip_zstd() {
    roundtrip(Compression::ZStd);
}

#[test]
fn compression_roundtrip_uncompressed() {
    let data: Vec<u8> = vec![7u8; 10];
    let packed = compress_all(Compression::Uncompressed, &data).unwrap();
    assert_eq!(packed, data);
    let unpacked = decompress_all(Compression::Uncompressed, &packed).unwrap();
    assert_eq!(unpacked, data);
}

#[test]
fn decompress_malformed_gzip() {
    let garbage: Vec<u8> = vec![1, 2, 3, 4, 5];
    assert_eq!(
        decompress_all(Compression::GZip, &garbage),
        Err(PmtError::Malformed)
    );
}

fn sample_header() -> Header {
    Header {
        spec_version: 3,
        root_directory_offset: 127,
        root_directory_length: 246,
        json_metadata_offset: 373,
        json_metadata_length: 22,
        leaf_directories_offset: 395,
        leaf_directories_length: 0,
        tile_data_offset: 395,
        tile_data_length: 715_657,
        num_addressed_tiles: 85,
        num_tile_entries: 84,
        num_tile_content: 80,
        clustered: true,
        internal_compression: Compression::GZip,
        tile_compression: Compression::Uncompressed,
        tile_type: TileType::Png,
        min_zoom: 0,
        max_zoom: 3,
        min_pos: LatLng {
            longitude_e7: -1_800_000_000,
            latitude_e7: -850_000_000,
        },
        max_pos: LatLng {
            longitude_e7: 1_800_000_000,
            latitude_e7: 850_000_000,
        },
        center_zoom: 0,
        center_pos: LatLng {
            longitude_e7: 0,
            latitude_e7: 0,
        },
    }
}

#[test]
fn header_roundtrip() {
    let header = sample_header();
    let bytes = header.to_bytes();
    assert_eq!(bytes.len(), 127);
    // the fixed prefix: magic then version
    assert_eq!(&bytes[0..8], b"PMTiles\x03");
    let parsed = Header::from_bytes(&bytes).unwrap();
    assert_eq!(parsed, header);
}

#[test]
fn header_rejects_bad_magic() {
    let mut bytes = sample_header().to_bytes();
    bytes[0] = b'X';
    assert_eq!(Header::from_bytes(&bytes), Err(PmtError::Malformed));
}

#[test]
fn header_rejects_bad_version() {
    let mut bytes = sample_header().to_bytes();
    bytes[7] = 2;
    assert_eq!(Header::from_bytes(&bytes), Err(PmtError::Malformed));
}

#[test]
fn header_rejects_truncated() {
    let bytes = vec![0u8; 126];
    assert_eq!(Header::from_bytes(&bytes), Err(PmtError::Malformed));
}

fn sample_entries() -> Vec<Entry> {
    vec![
        Entry {
            tile_id: 0,
            offset: 0,
            length: 10,
            run_length: 1,
        },
        Entry {
            tile_id: 1,
            offset: 10,
            length: 20,
            run_length: 2,
        },
        Entry {
            tile_id: 58,
            offset: 422_070,
            length: 850,
            run_length: 2,
        },
    ]
}

fn directory_roundtrip(compression: Compression) {
    let entries = sample_entries();
    let dir = Directory::from_entries(entries.clone());
    let bytes = dir.to_compressed_bytes(compression).unwrap();
    let parsed = Directory::from_compressed_bytes(&bytes, compression).unwrap();
    assert_eq!(parsed.iter().as_slice(), entries.as_slice());
}

#[test]
fn directory_roundtrip_uncompressed() {
    directory_roundtrip(Compression::Uncompressed);
}

#[test]
fn directory_roundtrip_gzip() {
    directory_roundtrip(Compression::GZip);
}

#[test]
fn directory_roundtrip_brotli() {
    directory_roundtrip(Compression::Brotli);
}

#[test]
fn directory_roundtrip_zstd() {
    directory_roundtrip(Compression::ZStd);
}

#[test]
fn directory_wire_format() {
    // count 2; deltas 5, 3; run lengths 1, 1; lengths 10, 20;
    // offset column: 6 (offset 5), 0 (contiguous: 5 + 10 = 15)
    let bytes: Vec<u8> = vec![2, 5, 3, 1, 1, 10, 20, 6, 0];
    let dir = Directory::from_compressed_bytes(&bytes, Compression::Uncompressed).unwrap();
    assert_eq!(dir.len(), 2);
    assert_eq!(
        *dir.get(0),
        Entry {
            tile_id: 5,
            offset: 5,
            length: 10,
            run_length: 1
        }
    );
    assert_eq!(
        *dir.get(1),
        Entry {
            tile_id: 8,
            offset: 15,
            length: 20,
            run_length: 1
        }
    );
}

#[test]
fn directory_rejects_leading_offset_sentinel() {
    // count 1; delta 0; run 1; length 0; offset column starts with the
    // contiguity sentinel, which has no predecessor
    let bytes: Vec<u8> = vec![1, 0, 1, 0, 0];
    assert_eq!(
        Directory::from_compressed_bytes(&bytes, Compression::Uncompressed),
        Err(PmtError::Malformed)
    );
}

#[test]
fn directory_rejects_truncated() {
    let bytes: Vec<u8> = vec![3, 1];
    assert_eq!(
        Directory::from_compressed_bytes(&bytes, Compression::Uncompressed),
        Err(PmtError::Malformed)
    );
}

#[test]
fn directory_rejects_unknown_compression() {
    let bytes: Vec<u8> = vec![0];
    assert_eq!(
        Directory::from_compressed_bytes(&bytes, Compression::Unknown),
        Err(PmtError::UnsupportedCompression)
    );
}

#[test]
fn entry_helpers() {
    let e = Entry {
        tile_id: 10,
        offset: 0,
        length: 1,
        run_length: 3,
    };
    assert_eq!(e.tile_id_range(), 10..13);
    assert!(!e.is_leaf_dir_entry());
    let leaf = Entry {
        tile_id: 10,
        offset: 0,
        length: 1,
        run_length: 0,
    };
    assert!(leaf.is_leaf_dir_entry());
}

#[test]
fn header_io_via_streams() {
    let header = sample_header();
    let mut out = std::io::Cursor::new(Vec::<u8>::new());
    header.to_writer(&mut out).unwrap();
    let written = out.into_inner();
    assert_eq!(written.len(), 127);

    let mut reader = std::io::Cursor::new(written);
    let parsed = Header::from_reader(&mut reader).unwrap();
    assert_eq!(parsed, header);
}

#[test]
fn directory_io_via_streams() {
    let entries = sample_entries();
    let dir = Directory::from_entries(entries.clone());
    let mut out = std::io::Cursor::new(Vec::<u8>::new());
    dir.to_writer(&mut out, Compression::GZip).unwrap();
    let written = out.into_inner();
    let length = written.len() as u64;

    let mut reader = std::io::Cursor::new(written);
    let parsed = Directory::from_reader(&mut reader, length, Compression::GZip).unwrap();
    assert_eq!(parsed.iter().as_slice(), entries.as_slice());
}
