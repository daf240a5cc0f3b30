//! The type of the tiles an archive stores.
use vstd::prelude::*;

verus! {

/// A tile type supported in archives.
///
/// The wire encoding (one header byte) is `Unknown = 0`, `Mvt = 1`,
/// `Png = 2`, `Jpeg = 3`, `WebP = 4`.
#[derive(Debug, Clone, Copy, PartialEq, Eq, Structural)]
pub enum TileType {
    /// Unknown tile type.
    Unknown,
    /// Mapbox Vector Tiles.
    Mvt,
    /// PNG raster tiles.
    Png,
    /// JPEG raster tiles.
    Jpeg,
    /// WebP raster tiles.
    WebP,
}

impl TileType {
    /// The `Content-Type` HTTP header value for tiles of this type, or
    /// `None` when no concrete value applies.
    pub fn http_content_type(&self) -> (r: Option<&'static str>)
        ensures
            match self {
                TileType::Mvt => r is Some && r->Some_0@ == "application/vnd.mapbox-vector-tile"@,
                TileType::Png => r is Some && r->Some_0@ == "image/png"@,
                TileType::Jpeg => r is Some && r->Some_0@ == "image/jpeg"@,
                TileType::WebP => r is Some && r->Some_0@ == "image/webp"@,
                TileType::Unknown => r is None,
            },
    {
        match self {
            TileType::Mvt => Some("application/vnd.mapbox-vector-tile"),
            TileType::Png => Some("image/png"),
            TileType::Jpeg => Some("image/jpeg"),
            TileType::WebP => Some("image/webp"),
            TileType::Unknown => None,
        }
    }
}

} // verus!
