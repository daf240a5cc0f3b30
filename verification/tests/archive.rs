use std::io::Cursor;

use pmtiles2::{
    split_directories, tile_id, Compression, Entry, Header, PMTiles, PmtError, TileType,
    MAX_ROOT_DIR_LENGTH,
};

type MemArchive = PMTiles<Cursor<Vec<u8>>>;

#[test]
fn dedup_write_scenario() -> Result<(), PmtError> {
    let mut pm = MemArchive::new(TileType::Mvt, Compression::GZip);
    let b = vec![1u8, 3, 3, 7, 4, 2];
    pm.add_tile(0, b.clone());
    pm.add_tile(1, vec![1]);
    pm.add_tile(1337, b);

    let result = pm.tile_manager.finish()?;

    assert_eq!(result.data.len(), 7);
    assert_eq!(result.directory.len(), 3);
    for i in 0..3 {
        assert_eq!(result.directory.get(i).run_length, 1);
    }
    assert_eq!(
        result.directory.get(0).offset,
        result.directory.get(2).offset
    );
    assert_eq!(result.num_tile_content, 2);

    Ok(())
}

#[test]
fn empty_archive_roundtrip() -> Result<(), PmtError> {
    let pm = MemArchive::new(TileType::Png, Compression::Uncompressed);
    let bytes = pm.to_bytes()?;

    let header = Header::from_bytes(&bytes)?;
    assert_eq!(header.spec_version, 3);
    assert_eq!(header.root_directory_offset, 127);
    assert!(header.root_directory_length <= MAX_ROOT_DIR_LENGTH);
    assert!(header.clustered);
    assert_eq!(header.tile_type, TileType::Png);
    assert_eq!(header.num_addressed_tiles, 0);

    let reopened = PMTiles::from_bytes(bytes)?;
    assert_eq!(reopened.num_tiles(), 0);
    assert_eq!(reopened.tile_type, TileType::Png);
    // absent metadata is written as the empty JSON object
    let empty = serde_json::Value::Object(serde_json::Map::new());
    assert_eq!(reopened.meta_data, Some(empty));

    Ok(())
}

#[test]
fn small_archive_roundtrip() -> Result<(), PmtError> {
    let mut pm = MemArchive::new(TileType::Mvt, Compression::Uncompressed);
    pm.min_zoom = 0;
    pm.max_zoom = 2;
    pm.add_tile(tile_id(0, 0, 0), vec![10, 11, 12]);
    pm.add_tile(tile_id(1, 0, 0), vec![20]);
    pm.add_tile(tile_id(1, 1, 1), vec![30, 31]);

    let bytes = pm.to_bytes()?;
    let mut reopened = PMTiles::from_bytes(bytes)?;
    assert_eq!(reopened.num_tiles(), 3);
    assert_eq!(reopened.max_zoom, 2);
    assert_eq!(
        reopened.get_tile_by_id(tile_id(1, 0, 0))?,
        Some(vec![20u8])
    );
    assert_eq!(reopened.get_tile(1, 1, 1)?, Some(vec![30u8, 31]));
    assert_eq!(reopened.get_tile_by_id(999)?, None);

    Ok(())
}

#[test]
fn header_fields_survive_roundtrip() -> Result<(), PmtError> {
    let mut pm = MemArchive::new(TileType::WebP, Compression::Brotli);
    pm.internal_compression = Compression::ZStd;
    pm.min_zoom = 1;
    pm.max_zoom = 9;
    pm.center_zoom = 4;
    pm.min_longitude_e7 = -1_800_000_000;
    pm.min_latitude_e7 = -850_000_000;
    pm.max_longitude_e7 = 1_800_000_000;
    pm.max_latitude_e7 = 850_000_000;
    pm.center_longitude_e7 = 112_414_827;
    pm.center_latitude_e7 = 437_797_790;
    pm.add_tile(5, vec![1, 2, 3]);

    let bytes = pm.to_bytes()?;
    let reopened = PMTiles::from_bytes(bytes)?;
    assert_eq!(reopened.tile_type, TileType::WebP);
    assert_eq!(reopened.tile_compression, Compression::Brotli);
    assert_eq!(reopened.internal_compression, Compression::ZStd);
    assert_eq!(reopened.min_zoom, 1);
    assert_eq!(reopened.max_zoom, 9);
    assert_eq!(reopened.center_zoom, 4);
    assert_eq!(reopened.min_longitude_e7, -1_800_000_000);
    assert_eq!(reopened.min_latitude_e7, -850_000_000);
    assert_eq!(reopened.max_longitude_e7, 1_800_000_000);
    assert_eq!(reopened.max_latitude_e7, 850_000_000);
    assert_eq!(reopened.center_longitude_e7, 112_414_827);
    assert_eq!(reopened.center_latitude_e7, 437_797_790);

    Ok(())
}

#[test]
fn filter_soundness() -> Result<(), PmtError> {
    let mut pm = MemArchive::new(TileType::Mvt, Compression::Uncompressed);
    for id in 0u64..100 {
        pm.add_tile(id, id.to_le_bytes().to_vec());
    }
    let bytes = pm.to_bytes()?;

    let full = PMTiles::from_bytes(bytes.clone())?;
    let mut full_ids = full.tile_ids();
    full_ids.sort_unstable();

    let partial = PMTiles::from_bytes_partially(bytes, &(10u64..=50u64))?;
    let mut partial_ids = partial.tile_ids();
    partial_ids.sort_unstable();

    let expected: Vec<u64> = full_ids
        .iter()
        .copied()
        .filter(|id| (10..=50).contains(id))
        .collect();
    assert_eq!(partial_ids, expected);
    assert_eq!(partial_ids.len(), 41);

    Ok(())
}

#[test]
fn root_overflow_split() -> Result<(), PmtError> {
    let mut entries: Vec<Entry> = Vec::with_capacity(200_000);
    for i in 0u64..200_000 {
        entries.push(Entry {
            tile_id: i,
            offset: i * 131,
            length: 131,
            run_length: 1,
        });
    }
    let (root, leaves) = split_directories(&entries, Compression::Uncompressed, None)?;
    assert!(root.len() as u64 <= MAX_ROOT_DIR_LENGTH);
    assert!(!leaves.is_empty());

    Ok(())
}

#[test]
fn root_overflow_archive_roundtrip() -> Result<(), PmtError> {
    // enough distinct tiles that the root cannot hold them directly
    let count = 20_000u64;
    let mut pm = MemArchive::new(TileType::Mvt, Compression::Uncompressed);
    pm.internal_compression = Compression::Uncompressed;
    for id in 0..count {
        // distinct contents so nothing merges
        pm.add_tile(id * 3, id.to_le_bytes().to_vec());
    }
    let bytes = pm.to_bytes()?;

    let header = Header::from_bytes(&bytes)?;
    assert!(header.root_directory_length <= MAX_ROOT_DIR_LENGTH);
    assert!(header.leaf_directories_length > 0);

    let reopened = PMTiles::from_bytes(bytes)?;
    assert_eq!(reopened.num_tiles(), count as usize);

    Ok(())
}

#[test]
fn to_bytes_rejects_unknown_internal_compression() {
    let mut pm = MemArchive::new(TileType::Png, Compression::Uncompressed);
    pm.internal_compression = Compression::Unknown;
    assert!(pm.to_bytes().is_err());
}

#[test]
fn read_directories_from_written_archive() -> Result<(), PmtError> {
    let mut pm = MemArchive::new(TileType::Mvt, Compression::Uncompressed);
    for id in 0u64..10 {
        pm.add_tile(id, vec![id as u8; 4]);
    }
    let bytes = pm.to_bytes()?;

    let header = Header::from_bytes(&bytes)?;
    let mut reader = Cursor::new(bytes);
    let map = pmtiles2::read_directories(
        &mut reader,
        header.internal_compression,
        (header.root_directory_offset, header.root_directory_length),
        header.leaf_directories_offset,
        &(..),
    )?;
    assert_eq!(map.len(), 10);
    assert!(map.contains_key(&3));

    Ok(())
}

#[test]
fn write_directories_small_set_has_no_leaves() -> Result<(), PmtError> {
    let entries = vec![Entry {
        tile_id: 0,
        offset: 0,
        length: 4,
        run_length: 1,
    }];
    let mut out = Cursor::new(Vec::<u8>::new());
    let leaves =
        pmtiles2::write_directories(&mut out, &entries, Compression::GZip, None)?;
    assert!(leaves.is_empty());
    assert!(!out.into_inner().is_empty());

    Ok(())
}

#[test]
fn filter_empty_range() -> Result<(), PmtError> {
    let mut pm = MemArchive::new(TileType::Mvt, Compression::Uncompressed);
    for id in 0u64..5 {
        pm.add_tile(id, vec![id as u8]);
    }
    let bytes = pm.to_bytes()?;

    // an excluded end of 0 admits nothing, tile 0 included
    let none = PMTiles::from_bytes_partially(bytes.clone(), &(..0u64))?;
    assert_eq!(none.num_tiles(), 0);

    let none2 = PMTiles::from_bytes_partially(bytes, &(3u64..3u64))?;
    assert_eq!(none2.num_tiles(), 0);

    Ok(())
}
