//! The directory tree walker: resolve the root and leaf directories of
//! an archive into a tile-id to byte-range map, pruning whole leaves
//! that lie beyond an id filter.
use std::collections::HashMap;
use vstd::prelude::*;

use crate::compression::Compression;
use crate::directory::Directory;
use crate::error::PmtError;
use crate::io_util::read_exact_vec;
use crate::io_util::seek_to;

verus! {

broadcast use vstd::std_specs::hash::group_hash_axioms;

/// A range of bytes within a larger byte stream.
#[derive(Debug, Clone, Copy, PartialEq, Eq, Structural)]
pub struct OffsetLength {
    /// Offset of the first byte.
    pub offset: u64,
    /// Number of bytes in the range.
    pub length: u32,
}

/// Greatest leaf-directory nesting the walker follows; archives nest at
/// most two or three levels deep.
pub const MAX_WALK_DEPTH: u32 = 64;

#[verifier::external_type_specification]
/// The unbounded range, usable as a tile-id filter.
pub struct ExRangeFull(core::ops::RangeFull);

/// Relies on `std::ops::RangeBounds::start_bound`: each variant is
/// mapped to the matching case, carrying the bound value and whether it
/// is inclusive; `None` stands for an unbounded start.
#[verifier::external_body]
fn start_bound_of<T: std::ops::RangeBounds<u64>>(range: &T) -> (r: Option<(u64, bool)>) {
    match range.start_bound() {
        std::ops::Bound::Included(v) => Some((*v, true)),
        std::ops::Bound::Excluded(v) => Some((*v, false)),
        std::ops::Bound::Unbounded => None,
    }
}

/// Relies on `std::ops::RangeBounds::end_bound`: each variant is mapped
/// to the matching case, carrying the bound value and whether it is
/// inclusive; `None` stands for an unbounded end.
#[verifier::external_body]
fn end_bound_of<T: std::ops::RangeBounds<u64>>(range: &T) -> (r: Option<(u64, bool)>) {
    match range.end_bound() {
        std::ops::Bound::Included(v) => Some((*v, true)),
        std::ops::Bound::Excluded(v) => Some((*v, false)),
        std::ops::Bound::Unbounded => None,
    }
}

/// The inclusive end a raw end bound denotes: the value itself when
/// included, one less when excluded (saturating at 0), `None` when
/// unbounded.
pub open spec fn spec_end_inc_of_bound(b: Option<(u64, bool)>) -> Option<u64> {
    match b {
        Option::None => Option::None,
        Some((v, true)) => Some(v),
        Some((v, false)) => if v == 0 {
            Some(0u64)
        } else {
            Some((v - 1) as u64)
        },
    }
}

fn end_inc_of_bound(b: Option<(u64, bool)>) -> (r: Option<u64>)
    ensures
        r == spec_end_inc_of_bound(b),
{
    match b {
        None => None,
        Some((v, true)) => Some(v),
        Some((v, false)) => if v == 0 {
            Some(0)
        } else {
            Some(v - 1)
        },
    }
}

/// The inclusive end of a range's bounds, or `None` for an unbounded
/// end; an excluded end of 0 saturates to `Some(0)`. The conversion is
/// `spec_end_inc_of_bound` of the raw end bound.
pub fn range_end_inc<T: std::ops::RangeBounds<u64>>(range: &T) -> (r: Option<u64>) {
    end_inc_of_bound(end_bound_of(range))
}

/// The inclusive id filter a pair of raw bounds denotes. A range that
/// holds no id at all (an excluded start of `u64::MAX` or an excluded
/// end of 0) becomes the empty filter `(1, Some(0))`, which admits
/// nothing.
pub open spec fn spec_filter_of_bounds(
    sb: Option<(u64, bool)>,
    eb: Option<(u64, bool)>,
) -> (u64, Option<u64>) {
    if sb == Some((u64::MAX, false)) || eb == Some((0u64, false)) {
        (1u64, Some(0u64))
    } else {
        let start = match sb {
            Option::None => 0u64,
            Some((v, true)) => v,
            Some((v, false)) => (v + 1) as u64,
        };
        (start, spec_end_inc_of_bound(eb))
    }
}

fn filter_of_bounds(sb: Option<(u64, bool)>, eb: Option<(u64, bool)>) -> (r: (u64, Option<u64>))
    ensures
        r == spec_filter_of_bounds(sb, eb),
{
    match eb {
        Some((v, inc)) => {
            if !inc && v == 0 {
                return (1, Some(0));
            }
        },
        None => {},
    }
    let start: u64 = match sb {
        None => 0,
        Some((v, true)) => v,
        Some((v, false)) => {
            if v == u64::MAX {
                return (1, Some(0));
            }
            v + 1
        },
    };
    (start, end_inc_of_bound(eb))
}

/// The empty filter admits no id.
pub proof fn lemma_empty_filter_admits_nothing(id: u64)
    ensures
        !spec_in_filter(1, Some(0u64), id),
{
}

/// The inclusive bounds `(start, end)` of a tile-id filter:
/// `spec_filter_of_bounds` of the range's raw bounds.
pub(crate) fn filter_bounds<T: std::ops::RangeBounds<u64>>(range: &T) -> (r: (u64, Option<u64>)) {
    filter_of_bounds(start_bound_of(range), end_bound_of(range))
}

/// Whether `id` lies within the inclusive filter `(start, end)`.
pub open spec fn spec_in_filter(start: u64, end: Option<u64>, id: u64) -> bool {
    start <= id && match end {
        Option::None => true,
        Some(e) => id <= e,
    }
}

/// Walk one directory (and, recursively, the leaves it points to),
/// appending every tile reference whose id lies within the filter.
///
/// Every appended pair lies within the filter: the walker never yields
/// a tile the filter excludes.
pub fn walk_directories<R: std::io::Read + std::io::Seek>(
    reader: &mut R,
    compression: Compression,
    dir_offset: u64,
    dir_length: u64,
    leaf_dir_offset: u64,
    start: u64,
    end: Option<u64>,
    depth: u32,
    out: &mut Vec<(u64, OffsetLength)>,
) -> (r: Result<(), PmtError>)
    ensures
        final(out)@.len() >= old(out)@.len(),
        forall|i: int| 0 <= i < old(out)@.len() ==> final(out)@[i] == old(out)@[i],
        forall|i: int|
            old(out)@.len() <= i < final(out)@.len() ==> spec_in_filter(
                start,
                end,
                (#[trigger] final(out)@[i]).0,
            ),
    decreases depth,
{
    if dir_length > usize::MAX as u64 {
        return Err(PmtError::Malformed);
    }
    seek_to(reader, dir_offset)?;
    let buf = read_exact_vec(reader, dir_length as usize)?;
    let directory = Directory::from_compressed_bytes(&buf, compression)?;
    let n = directory.len();
    let mut k: usize = 0;
    while k < n
        invariant
            k <= n,
            n == directory@.len(),
            out@.len() >= old(out)@.len(),
            forall|i: int| 0 <= i < old(out)@.len() ==> out@[i] == old(out)@[i],
            forall|i: int|
                old(out)@.len() <= i < out@.len() ==> spec_in_filter(
                    start,
                    end,
                    (#[trigger] out@[i]).0,
                ),
        decreases n - k,
    {
        let entry = *directory.get(k);
        if entry.run_length == 0 {
            // a leaf pointer; skip it when the whole subtree lies past
            // the filter's end
            let skip = match end {
                Some(e) => entry.tile_id > e,
                None => false,
            };
            if !skip {
                if depth == 0 {
                    return Err(PmtError::Malformed);
                }
                let leaf_offset = match leaf_dir_offset.checked_add(entry.offset) {
                    Some(v) => v,
                    None => {
                        return Err(PmtError::Malformed);
                    },
                };
                match walk_directories(
                    reader,
                    compression,
                    leaf_offset,
                    entry.length as u64,
                    leaf_dir_offset,
                    start,
                    end,
                    depth - 1,
                    out,
                ) {
                    Ok(()) => {},
                    Err(e) => {
                        return Err(e);
                    },
                }
            }
        } else {
            let run_end = match entry.tile_id.checked_add(entry.run_length as u64) {
                Some(v) => v,
                None => {
                    return Err(PmtError::Malformed);
                },
            };
            let mut id = entry.tile_id;
            while id < run_end
                invariant
                    entry.tile_id <= id <= run_end,
                    out@.len() >= old(out)@.len(),
                    forall|i: int| 0 <= i < old(out)@.len() ==> out@[i] == old(out)@[i],
                    forall|i: int|
                        old(out)@.len() <= i < out@.len() ==> spec_in_filter(
                            start,
                            end,
                            (#[trigger] out@[i]).0,
                        ),
                decreases run_end - id,
            {
                let inside = start <= id && match end {
                    Some(e) => id <= e,
                    None => true,
                };
                if inside {
                    out.push((id, OffsetLength { offset: entry.offset, length: entry.length }));
                }
                id = id + 1;
            }
        }
        k = k + 1;
    }
    Ok(())
}

/// Read every directory reachable from the root and return all tile
/// references as a map from tile id to byte range, keeping only ids
/// inside the inclusive filter `(start, end)` (unbounded end when
/// `None`). Later occurrences of an id overwrite earlier ones.
///
/// Every key of a returned map lies within the filter.
pub fn read_directories_bounded<R: std::io::Read + std::io::Seek>(
    reader: &mut R,
    compression: Compression,
    root_dir_offset_length: (u64, u64),
    leaf_dir_offset: u64,
    start: u64,
    end: Option<u64>,
) -> (r: Result<HashMap<u64, OffsetLength>, PmtError>)
    ensures
        r is Ok ==> forall|id: u64|
            #[trigger] r->Ok_0@.dom().contains(id) ==> spec_in_filter(start, end, id),
{
    let mut pairs: Vec<(u64, OffsetLength)> = Vec::new();
    let (root_offset, root_length) = root_dir_offset_length;
    walk_directories(
        reader,
        compression,
        root_offset,
        root_length,
        leaf_dir_offset,
        start,
        end,
        MAX_WALK_DEPTH,
        &mut pairs,
    )?;
    let mut tiles: HashMap<u64, OffsetLength> = HashMap::new();
    let n = pairs.len();
    let mut k: usize = 0;
    while k < n
        invariant
            k <= n,
            n == pairs@.len(),
            forall|i: int| 0 <= i < n ==> spec_in_filter(start, end, (#[trigger] pairs@[i]).0),
            forall|id: u64|
                #[trigger] tiles@.dom().contains(id) ==> spec_in_filter(start, end, id),
        decreases n - k,
    {
        let (id, loc) = pairs[k];
        tiles.insert(id, loc);
        k = k + 1;
    }
    Ok(tiles)
}

/// Read every directory reachable from the root and return all tile
/// references as a map from tile id to byte range, keeping only ids the
/// filter admits. The filter guarantees live on
/// `read_directories_bounded`, which this calls with
/// `spec_filter_of_bounds` of the range's raw bounds; the range itself
/// is opaque here, so nothing can be stated over it.
pub fn read_directories<R: std::io::Read + std::io::Seek, T: std::ops::RangeBounds<u64>>(
    reader: &mut R,
    compression: Compression,
    root_dir_offset_length: (u64, u64),
    leaf_dir_offset: u64,
    filter_range: &T,
) -> (r: Result<HashMap<u64, OffsetLength>, PmtError>)
{
    let (start, end) = filter_bounds(filter_range);
    read_directories_bounded(
        reader,
        compression,
        root_dir_offset_length,
        leaf_dir_offset,
        start,
        end,
    )
}

} // verus!
