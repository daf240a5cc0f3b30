use pmtiles2::{tile_id, zxy, MaxZError};

#[test]
fn test_tile_id() {
    assert_eq!(tile_id(0, 0, 0), 0);
    assert_eq!(tile_id(1, 0, 0), 1);
    assert_eq!(tile_id(1, 0, 1), 2);
    assert_eq!(tile_id(1, 1, 1), 3);
    assert_eq!(tile_id(1, 1, 0), 4);
    assert_eq!(tile_id(2, 0, 0), 5);
}

#[test]
fn test_xyz() -> Result<(), MaxZError> {
    assert_eq!(zxy(0)?, (0, 0, 0));
    assert_eq!(zxy(1)?, (1, 0, 0));
    assert_eq!(zxy(2)?, (1, 0, 1));
    assert_eq!(zxy(3)?, (1, 1, 1));
    assert_eq!(zxy(4)?, (1, 1, 0));
    assert_eq!(zxy(5)?, (2, 0, 0));
    assert_eq!(zxy(19_078_479)?, (12, 3423, 1763));

    Ok(())
}

#[test]
fn test_extremes() -> Result<(), MaxZError> {
    for z in 0u8..32 {
        let dim: u64 = (1 << z) - 1;
        assert_eq!(zxy(tile_id(z, 0, 0))?, (z, 0, 0));
        assert_eq!(zxy(tile_id(z, dim, 0))?, (z, dim, 0));
        assert_eq!(zxy(tile_id(z, 0, dim))?, (z, 0, dim));
        assert_eq!(zxy(tile_id(z, dim, dim))?, (z, dim, dim));
    }

    Ok(())
}

#[test]
fn test_zxy_max_z_error() {
    // the first id that would need zoom 32
    assert_eq!(zxy(6148914691236517205), Err(MaxZError));
    // the greatest id of zoom 31
    let r = zxy(6148914691236517204).unwrap();
    assert_eq!(r.0, 31);
    assert_eq!(zxy(u64::MAX), Err(MaxZError));
}
