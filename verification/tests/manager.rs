use std::io::Cursor;

use pmtiles2::{PmtError, TileManager};

type MemManager = TileManager<Cursor<Vec<u8>>>;

#[test]
fn test_get_tile_none() -> Result<(), PmtError> {
    let mut manager = MemManager::default();

    assert!(manager.get_tile(42)?.is_none());

    Ok(())
}

#[test]
fn test_get_tile_some() -> Result<(), PmtError> {
    let mut manager = MemManager::default();

    let contents = vec![1u8, 3, 3, 7, 4, 2];

    manager.add_tile(42, contents.clone());

    let opt = manager.get_tile(42)?;

    assert!(opt.is_some());
    assert_eq!(opt.unwrap(), contents);

    Ok(())
}

#[test]
fn test_add_tile() {
    let mut manager = MemManager::default();

    manager.add_tile(1337, vec![1, 3, 3, 7, 4, 2]);
    assert_eq!(manager.num_stored_contents(), 1);

    manager.add_tile(42, vec![4, 2, 1, 3, 3, 7]);
    assert_eq!(manager.num_stored_contents(), 2);
}

#[test]
fn test_add_tile_dedup() {
    let mut manager = MemManager::default();

    let contents = vec![1u8, 3, 3, 7, 4, 2];

    manager.add_tile(42, contents.clone());
    manager.add_tile(1337, contents);

    assert_eq!(manager.num_stored_contents(), 1);
}

#[test]
fn test_add_tile_update() {
    let mut manager = MemManager::default();

    manager.add_tile(1337, vec![1, 3, 3, 7, 4, 2]);
    assert_eq!(manager.num_stored_contents(), 1);
    assert_eq!(manager.num_addressed_tiles(), 1);
    assert_eq!(manager.num_hash_groups(), 1);

    manager.add_tile(1337, vec![4, 2, 1, 3, 3, 7]);
    assert_eq!(manager.num_stored_contents(), 1);
    assert_eq!(manager.num_addressed_tiles(), 1);
    assert_eq!(manager.num_hash_groups(), 1);
}

#[test]
fn test_remove_tile() {
    let mut manager = MemManager::default();

    manager.add_tile(42, vec![1u8, 3, 3, 7, 4, 2]);

    assert_eq!(manager.num_addressed_tiles(), 1);
    assert_eq!(manager.num_stored_contents(), 1);
    assert_eq!(manager.num_hash_groups(), 1);

    assert!(manager.remove_tile(42));

    assert_eq!(manager.num_addressed_tiles(), 0);
    assert_eq!(manager.num_stored_contents(), 0);
    assert_eq!(manager.num_hash_groups(), 0);
}

#[test]
fn test_remove_tile_non_existent() {
    let mut manager = MemManager::default();

    let removed = manager.remove_tile(42);

    assert!(!removed);
}

#[test]
fn test_remove_tile_dupe() {
    let mut manager = MemManager::default();

    let contents = vec![1u8, 3, 3, 7, 4, 2];
    manager.add_tile(69, contents.clone());
    manager.add_tile(42, contents.clone());
    manager.add_tile(1337, contents);

    assert_eq!(manager.num_stored_contents(), 1);

    manager.remove_tile(1337);
    assert_eq!(manager.num_stored_contents(), 1);
    assert_eq!(manager.num_hash_groups(), 1);

    manager.remove_tile(69);
    assert_eq!(manager.num_stored_contents(), 1);
    assert_eq!(manager.num_hash_groups(), 1);

    manager.remove_tile(42);
    assert_eq!(manager.num_stored_contents(), 0);
    assert_eq!(manager.num_hash_groups(), 0);
}

#[test]
fn test_finish() -> Result<(), PmtError> {
    let mut manager = MemManager::default();

    let tile_0 = vec![0u8, 3, 3, 7, 4, 2];
    let tile_42 = vec![42u8, 3, 3, 7, 4, 2];
    let tile_1337 = vec![1u8, 3, 3, 7, 4, 2];

    manager.add_tile(0, tile_0.clone());
    manager.add_tile(42, tile_42.clone());
    manager.add_tile(1337, tile_1337.clone());

    let result = manager.finish()?;
    let data = result.data;
    let directory = result.directory;

    assert_eq!(data.len(), tile_0.len() + tile_42.len() + tile_1337.len());
    assert_eq!(directory.len(), 3);
    assert_eq!(result.num_tile_entries, 3);
    assert_eq!(result.num_addressed_tiles, 3);
    assert_eq!(result.num_tile_content, 3);

    Ok(())
}

#[test]
fn test_finish_dupes() -> Result<(), PmtError> {
    let mut manager = MemManager::default();

    let content = vec![1u8, 3, 3, 7, 4, 2];

    manager.add_tile(0, content.clone());
    manager.add_tile(1, vec![1]);
    manager.add_tile(1337, content.clone());

    let result = manager.finish()?;
    let data = result.data;
    let directory = result.directory;

    assert_eq!(data.len(), content.len() + 1);
    assert_eq!(directory.len(), 3);
    assert_eq!(result.num_tile_entries, 3);
    assert_eq!(result.num_addressed_tiles, 3);
    assert_eq!(result.num_tile_content, 2);
    assert_eq!(directory.get(0).offset, directory.get(2).offset);
    assert_eq!(directory.get(0).length, directory.get(2).length);

    Ok(())
}

#[test]
fn test_finish_dupes_reader() -> Result<(), PmtError> {
    let reader = Cursor::new(vec![1u8, 3, 3, 7, 1, 3, 3, 7]);

    let mut manager = TileManager::new(Some(reader));

    manager.add_offset_tile(0, 0, 4);
    manager.add_offset_tile(5, 0, 4);
    manager.add_offset_tile(10, 4, 4);
    manager.add_tile(15, vec![1, 3, 3, 7]);
    manager.add_tile(20, vec![1, 3, 3, 7]);

    let result = manager.finish()?;
    let data = result.data;
    let directory = result.directory;

    assert_eq!(data.len(), 4);
    assert_eq!(directory.len(), 5);
    assert_eq!(result.num_tile_entries, 5);
    assert_eq!(result.num_addressed_tiles, 5);
    assert_eq!(result.num_tile_content, 1);
    assert_eq!(directory.get(0).offset, 0);
    assert_eq!(directory.get(0).length, 4);
    assert_eq!(directory.get(1).offset, 0);
    assert_eq!(directory.get(1).length, 4);
    assert_eq!(directory.get(2).offset, 0);
    assert_eq!(directory.get(2).length, 4);
    assert_eq!(directory.get(3).offset, 0);
    assert_eq!(directory.get(3).length, 4);
    assert_eq!(directory.get(4).offset, 0);
    assert_eq!(directory.get(4).length, 4);

    Ok(())
}

#[test]
fn test_finish_run_length() -> Result<(), PmtError> {
    let mut manager = MemManager::default();

    let content = vec![1u8, 3, 3, 7, 4, 2];

    manager.add_tile(0, content.clone());
    manager.add_tile(1, content.clone());
    manager.add_tile(2, content.clone());
    manager.add_tile(3, content.clone());
    manager.add_tile(4, content);

    let result = manager.finish()?;
    let directory = result.directory;

    assert_eq!(directory.len(), 1);
    assert_eq!(directory.get(0).run_length, 5);
    assert_eq!(result.num_tile_entries, 1);
    assert_eq!(result.num_addressed_tiles, 5);
    assert_eq!(result.num_tile_content, 1);

    Ok(())
}

#[test]
fn test_finish_clustered() -> Result<(), PmtError> {
    let mut manager = MemManager::default();

    // add tiles in random order
    manager.add_tile(42, vec![42]);
    manager.add_tile(1337, vec![13, 37]);
    manager.add_tile(69, vec![69]);
    manager.add_tile(1, vec![1]);

    let result = manager.finish()?;
    let directory = result.directory;

    // make sure entries are in asc order
    assert_eq!(directory.get(0).tile_id, 1);
    assert_eq!(directory.get(1).tile_id, 42);
    assert_eq!(directory.get(2).tile_id, 69);
    assert_eq!(directory.get(3).tile_id, 1337);

    // make sure data offsets are in asc order (clustered)
    assert!(directory.get(1).offset > directory.get(0).offset);
    assert!(directory.get(2).offset > directory.get(1).offset);
    assert!(directory.get(3).offset > directory.get(2).offset);

    Ok(())
}

#[test]
fn test_finish_no_mergeable_pair() -> Result<(), PmtError> {
    let mut manager = MemManager::default();

    // consecutive ids with equal content merge; a gap or another
    // content starts a new entry that cannot be merged back
    let a = vec![1u8, 2, 3];
    let b = vec![9u8, 9];
    manager.add_tile(0, a.clone());
    manager.add_tile(1, a.clone());
    manager.add_tile(2, b.clone());
    manager.add_tile(4, a);

    let result = manager.finish()?;
    let directory = result.directory;

    assert_eq!(directory.len(), 3);
    for i in 0..directory.len() - 1 {
        let cur = *directory.get(i);
        let next = *directory.get(i + 1);
        assert!(next.tile_id >= cur.tile_id + u64::from(cur.run_length));
        let mergeable = next.tile_id == cur.tile_id + u64::from(cur.run_length)
            && next.offset == cur.offset
            && next.length == cur.length;
        assert!(!mergeable);
    }

    Ok(())
}

#[test]
fn test_get_tile_missing_reader() {
    let mut manager = MemManager::new(None);

    manager.add_offset_tile(7, 0, 4);

    assert_eq!(manager.get_tile(7), Err(PmtError::MissingReader));
}
