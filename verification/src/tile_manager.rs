//! The tile manager: a content-hash deduplicating store of tiles that
//! finalizes into a clustered, run-length-merged directory and one
//! concatenated data blob.
use std::collections::{HashMap, HashSet};
use vstd::prelude::*;

use crate::directory::{spec_dir_encodable, Directory, Entry};
use crate::error::PmtError;
use crate::io_util::{read_exact_vec, seek_to};

verus! {

broadcast use vstd::std_specs::hash::group_hash_axioms;

/// How a tile's bytes are held: in memory under a content hash, or as a
/// byte range of the attached source reader.
#[derive(Debug, Clone, Copy, PartialEq, Eq, Structural)]
pub enum TileRef {
    /// In-memory content, keyed by its 64-bit content hash.
    Hash(u64),
    /// A byte range (offset, length) of the source reader.
    OffsetLength(u64, u32),
}

/// What `finish` produces: the tile data blob, the counters for the
/// header, and the directory.
pub struct FinishResult {
    /// The concatenated deduplicated tile data.
    pub data: Vec<u8>,
    /// Number of tiles addressable through the directory.
    pub num_addressed_tiles: u64,
    /// Number of directory entries.
    pub num_tile_entries: u64,
    /// Number of distinct tile contents in `data`.
    pub num_tile_content: u64,
    /// The clustered, run-length-merged directory.
    pub directory: Directory,
}

/// The mathematical state of a tile manager.
pub struct TileManagerModel {
    /// Which reference each tile id carries.
    pub tiles: Map<u64, TileRef>,
    /// The stored content of each hash.
    pub data: Map<u64, Seq<u8>>,
    /// Which tile ids have been stored under each hash.
    pub ids_by_hash: Map<u64, Set<u64>>,
}

/// A content-hash deduplicating store of tiles.
pub struct TileManager<R> {
    data_by_hash: HashMap<u64, Vec<u8>>,
    tile_by_id: HashMap<u64, TileRef>,
    ids_by_hash: HashMap<u64, HashSet<u64>>,
    ids_sorted: Vec<u64>,
    reader: Option<R>,
}

/// Strictly ascending order.
pub open spec fn strictly_sorted(s: Seq<u64>) -> bool {
    forall|i: int, j: int| 0 <= i < j < s.len() ==> s[i] < s[j]
}

impl<R> View for TileManager<R> {
    type V = TileManagerModel;

    closed spec fn view(&self) -> TileManagerModel {
        TileManagerModel {
            tiles: self.tile_by_id@,
            data: self.data_by_hash@.map_values(|v: Vec<u8>| v@),
            ids_by_hash: self.ids_by_hash@.map_values(|s: HashSet<u64>| s@),
        }
    }
}

/// Removing a tile id from the model: a hash reference leaves its
/// reverse-index set, and the stored content goes away with the last
/// id of its set.
pub open spec fn spec_remove_tile(m: TileManagerModel, id: u64) -> TileManagerModel {
    if !m.tiles.dom().contains(id) {
        m
    } else {
        match m.tiles[id] {
            TileRef::OffsetLength(_, _) => TileManagerModel {
                tiles: m.tiles.remove(id),
                ..m
            },
            TileRef::Hash(h) => {
                if m.ids_by_hash.dom().contains(h) {
                    let remaining = m.ids_by_hash[h].remove(id);
                    if remaining.is_empty() {
                        TileManagerModel {
                            tiles: m.tiles.remove(id),
                            data: m.data.remove(h),
                            ids_by_hash: m.ids_by_hash.remove(h),
                        }
                    } else {
                        TileManagerModel {
                            tiles: m.tiles.remove(id),
                            data: m.data,
                            ids_by_hash: m.ids_by_hash.insert(h, remaining),
                        }
                    }
                } else {
                    TileManagerModel { tiles: m.tiles.remove(id), ..m }
                }
            },
        }
    }
}

/// Adding a tile to the model under content hash `h`: any previous
/// reference of `id` is removed first, then the content is stored under
/// `h` and `id` joins that hash's set.
pub open spec fn spec_add_tile(
    m: TileManagerModel,
    id: u64,
    h: u64,
    content: Seq<u8>,
) -> TileManagerModel {
    let m1 = spec_remove_tile(m, id);
    let ids = if m1.ids_by_hash.dom().contains(h) {
        m1.ids_by_hash[h]
    } else {
        Set::empty()
    };
    TileManagerModel {
        tiles: m1.tiles.insert(id, TileRef::Hash(h)),
        data: m1.data.insert(h, content),
        ids_by_hash: m1.ids_by_hash.insert(h, ids.insert(id)),
    }
}

impl<R> TileManager<R> {
    /// The internal bookkeeping the methods preserve.
    pub closed spec fn wf(&self) -> bool {
        &&& strictly_sorted(self.ids_sorted@)
        &&& forall|id: u64|
            #[trigger] self.ids_sorted@.contains(id) <==> self.tile_by_id@.dom().contains(id)
        &&& forall|id: u64|
            self.tile_by_id@.dom().contains(id) && #[trigger] self.tile_by_id@[id] is Hash ==> {
                let h = self.tile_by_id@[id]->Hash_0;
                &&& self.data_by_hash@.dom().contains(h)
                &&& self.ids_by_hash@.dom().contains(h)
                &&& self.ids_by_hash@[h]@.contains(id)
            }
    }

    /// Whether a source reader is attached.
    pub closed spec fn has_reader(&self) -> bool {
        self.reader is Some
    }

    /// Construct a manager, optionally over a source reader for tiles
    /// referenced by offset.
    pub fn new(reader: Option<R>) -> (r: TileManager<R>)
        ensures
            r.wf(),
            r@.tiles == Map::<u64, TileRef>::empty(),
            r@.data == Map::<u64, Seq<u8>>::empty(),
            r@.ids_by_hash == Map::<u64, Set<u64>>::empty(),
            r.has_reader() == reader is Some,
    {
        let r = TileManager {
            data_by_hash: HashMap::new(),
            tile_by_id: HashMap::new(),
            ids_by_hash: HashMap::new(),
            ids_sorted: Vec::new(),
            reader,
        };
        proof {
            assert(r@.tiles =~= Map::<u64, TileRef>::empty());
            assert(r@.data =~= Map::<u64, Seq<u8>>::empty());
            assert(r@.ids_by_hash =~= Map::<u64, Set<u64>>::empty());
        }
        r
    }
}

/// Relies on `ahash::AHasher::default` (via `Hash` for byte slices and
/// `Hasher::finish`) for the 64-bit content hash. The default hasher
/// uses keys fixed once per process, so equal bytes hash alike within a
/// run; nothing is assumed here about the value it returns.
#[verifier::external_body]
fn content_hash(data: &Vec<u8>) -> (r: u64) {
    let mut hasher = ahash::AHasher::default();
    std::hash::Hash::hash(data.as_slice(), &mut hasher);
    std::hash::Hasher::finish(&hasher)
}

fn sorted_insert(v: &mut Vec<u64>, x: u64)
    requires
        strictly_sorted(old(v)@),
        !old(v)@.contains(x),
    ensures
        strictly_sorted(final(v)@),
        forall|id: u64| #[trigger] final(v)@.contains(id) <==> old(v)@.contains(id) || id == x,
        final(v)@.len() == old(v)@.len() + 1,
{
    let mut i: usize = 0;
    while i < v.len() && v[i] < x
        invariant
            i <= v@.len(),
            v@ == old(v)@,
            strictly_sorted(v@),
            !v@.contains(x),
            forall|k: int| 0 <= k < i ==> v@[k] < x,
        decreases v@.len() - i,
    {
        i = i + 1;
    }
    proof {
        assert(forall|k: int| 0 <= k < i ==> v@[k] < x);
        assert(forall|k: int| i <= k < v@.len() ==> v@[k] > x) by {
            if i < v@.len() {
                assert(v@[i as int] != x);
                assert(v@[i as int] > x);
                assert(forall|k: int| i < k < v@.len() ==> v@[i as int] < v@[k]);
            }
        }
    }
    v.insert(i, x);
    proof {
        assert(forall|id: u64| v@.contains(id) <==> old(v)@.contains(id) || id == x) by {
            assert(forall|k: int| 0 <= k < i ==> v@[k] == old(v)@[k]);
            assert(forall|k: int| i < k < v@.len() ==> v@[k] == old(v)@[k - 1]);
            assert(v@[i as int] == x);
            assert(forall|id: u64| old(v)@.contains(id) ==> exists|k: int|
                0 <= k < old(v)@.len() && old(v)@[k] == id);
            assert(forall|k: int|
                0 <= k < old(v)@.len() ==> v@[if k < i as int {
                    k
                } else {
                    k + 1
                }] == old(v)@[k]);
        }
    }
}

fn sorted_remove(v: &mut Vec<u64>, x: u64)
    requires
        strictly_sorted(old(v)@),
        old(v)@.contains(x),
    ensures
        strictly_sorted(final(v)@),
        forall|id: u64| #[trigger] final(v)@.contains(id) <==> old(v)@.contains(id) && id != x,
        final(v)@.len() + 1 == old(v)@.len(),
{
    let mut i: usize = 0;
    let n = v.len();
    while i < n && v[i] != x
        invariant
            i <= n,
            n == v@.len(),
            v@ == old(v)@,
            strictly_sorted(v@),
            v@.contains(x),
            forall|k: int| 0 <= k < i ==> v@[k] != x,
        decreases n - i,
    {
        i = i + 1;
    }
    proof {
        assert(i < n) by {
            if i == n {
                let k = choose|k: int| 0 <= k < v@.len() && v@[k] == x;
                assert(false);
            }
        }
    }
    v.remove(i);
    proof {
        assert(forall|k: int| 0 <= k < i ==> v@[k] == old(v)@[k]);
        assert(forall|k: int| i <= k < v@.len() ==> v@[k] == old(v)@[k + 1]);
        assert(forall|id: u64| v@.contains(id) <==> old(v)@.contains(id) && id != x) by {
            assert(forall|k: int|
                0 <= k < old(v)@.len() && k != i ==> old(v)@[k] == v@[if k < i as int {
                    k
                } else {
                    k - 1
                }]);
            assert(forall|k: int| 0 <= k < old(v)@.len() && old(v)@[k] == x ==> k == i) by {
                assert(forall|k: int|
                    0 <= k < old(v)@.len() && k != i as int ==> (old(v)@[k] != old(v)@[
                        i as int
                    ]));
            }
        }
    }
}

impl<R> TileManager<R> {
    /// Add a tile with in-memory content.
    ///
    /// Any earlier reference of `tile_id` is removed first; the content
    /// is stored once per distinct 64-bit content hash, so equal bytes
    /// added under several ids occupy one slot.
    pub fn add_tile(&mut self, tile_id: u64, data: Vec<u8>)
        requires
            old(self).wf(),
        ensures
            final(self).wf(),
            exists|h: u64| final(self)@ == spec_add_tile(old(self)@, tile_id, h, data@)
                && final(self)@.tiles[tile_id] == TileRef::Hash(h),
            final(self)@.tiles.dom() =~= old(self)@.tiles.dom().insert(tile_id),
            final(self).has_reader() == old(self).has_reader(),
    {
        self.remove_tile(tile_id);
        let h = content_hash(&data);
        let ghost m1 = self@;
        self.tile_by_id.insert(tile_id, TileRef::Hash(h));
        let mut ids = match self.ids_by_hash.remove(&h) {
            Some(s) => s,
            None => HashSet::new(),
        };
        ids.insert(tile_id);
        self.ids_by_hash.insert(h, ids);
        self.data_by_hash.insert(h, data);
        sorted_insert(&mut self.ids_sorted, tile_id);
        proof {
            let target = spec_add_tile(old(self)@, tile_id, h, data@);
            assert(self@.tiles =~= target.tiles);
            assert(self@.data =~= target.data);
            assert(self@.ids_by_hash =~= target.ids_by_hash);
            assert(self@ == target);
            assert(self@.tiles.dom() =~= old(self)@.tiles.dom().insert(tile_id));
        }
    }

    /// Add a tile that defers to a byte range of the source reader. No
    /// deduplication happens at insert time for such tiles.
    pub fn add_offset_tile(&mut self, tile_id: u64, offset: u64, length: u32)
        requires
            old(self).wf(),
        ensures
            final(self).wf(),
            final(self)@.tiles == old(self)@.tiles.insert(
                tile_id,
                TileRef::OffsetLength(offset, length),
            ),
            final(self)@.data == old(self)@.data,
            final(self)@.ids_by_hash == old(self)@.ids_by_hash,
            final(self).has_reader() == old(self).has_reader(),
    {
        let present = self.tile_by_id.contains_key(&tile_id);
        self.tile_by_id.insert(tile_id, TileRef::OffsetLength(offset, length));
        if !present {
            sorted_insert(&mut self.ids_sorted, tile_id);
        }
    }

    /// Remove a tile; returns whether it was present. Dropping the last
    /// id stored under a hash drops the stored content with it.
    pub fn remove_tile(&mut self, tile_id: u64) -> (r: bool)
        requires
            old(self).wf(),
        ensures
            final(self).wf(),
            final(self)@ == spec_remove_tile(old(self)@, tile_id),
            r == old(self)@.tiles.dom().contains(tile_id),
            final(self).has_reader() == old(self).has_reader(),
    {
        let tile = match self.tile_by_id.get(&tile_id) {
            None => {
                proof {
                    assert(self@ == spec_remove_tile(old(self)@, tile_id));
                }
                return false;
            },
            Some(t) => *t,
        };
        self.tile_by_id.remove(&tile_id);
        sorted_remove(&mut self.ids_sorted, tile_id);
        match tile {
            TileRef::OffsetLength(_, _) => {
                proof {
                    let target = spec_remove_tile(old(self)@, tile_id);
                    assert(self@.tiles =~= target.tiles);
                    assert(self@ == target);
                }
            },
            TileRef::Hash(h) => {
                let mut now_empty = false;
                match self.ids_by_hash.remove(&h) {
                    Some(mut set) => {
                        set.remove(&tile_id);
                        if set.is_empty() {
                            now_empty = true;
                        } else {
                            self.ids_by_hash.insert(h, set);
                        }
                    },
                    None => {},
                }
                if now_empty {
                    self.data_by_hash.remove(&h);
                }
                proof {
                    let target = spec_remove_tile(old(self)@, tile_id);
                    assert(old(self)@.ids_by_hash.dom().contains(h));
                    assert(old(self)@.ids_by_hash[h] == old(self).ids_by_hash@[h]@);
                    if now_empty {
                        assert(old(self)@.ids_by_hash[h].remove(tile_id) =~= Set::<u64>::empty());
                        assert(self@.tiles =~= target.tiles);
                        assert(self@.data =~= target.data);
                        assert(self@.ids_by_hash =~= target.ids_by_hash);
                    } else {
                        assert(!old(self)@.ids_by_hash[h].remove(tile_id).is_empty());
                        assert(self@.tiles =~= target.tiles);
                        assert(self@.data =~= target.data);
                        assert(self@.ids_by_hash =~= target.ids_by_hash);
                    }
                    assert(self@ == target);
                }
            },
        }
        true
    }

    /// All tile ids, in ascending order.
    pub fn get_tile_ids(&self) -> (r: Vec<u64>)
        requires
            self.wf(),
        ensures
            strictly_sorted(r@),
            forall|id: u64| #[trigger] r@.contains(id) <==> self@.tiles.dom().contains(id),
    {
        self.ids_sorted.clone()
    }

    /// Number of addressable tiles.
    pub fn num_addressed_tiles(&self) -> (r: usize)
        ensures
            r == self@.tiles.dom().len(),
    {
        self.tile_by_id.len()
    }

    /// Number of distinct tile contents currently stored in memory.
    pub fn num_stored_contents(&self) -> (r: usize)
        ensures
            r == self@.data.dom().len(),
    {
        proof {
            assert(self@.data.dom() =~= self.data_by_hash@.dom());
        }
        self.data_by_hash.len()
    }

    /// Number of content hashes that currently have at least one tile id
    /// stored under them.
    pub fn num_hash_groups(&self) -> (r: usize)
        ensures
            r == self@.ids_by_hash.dom().len(),
    {
        proof {
            assert(self@.ids_by_hash.dom() =~= self.ids_by_hash@.dom());
        }
        self.ids_by_hash.len()
    }
}

impl<R> Default for TileManager<R> {
    /// An empty manager with no source reader.
    fn default() -> (r: TileManager<R>)
        ensures
            r.wf(),
            r@.tiles == Map::<u64, TileRef>::empty(),
            r@.data == Map::<u64, Seq<u8>>::empty(),
            r@.ids_by_hash == Map::<u64, Set<u64>>::empty(),
            !r.has_reader(),
    {
        TileManager::new(None)
    }
}

impl<R: std::io::Read + std::io::Seek> TileManager<R> {
    /// Fetch a tile's bytes by id: in-memory content is cloned, an
    /// offset reference is read from the source reader.
    ///
    /// Returns `Ok(None)` exactly when the id is absent; fails with
    /// `MissingReader` exactly when an offset reference is fetched while
    /// no reader is attached.
    pub fn get_tile(&mut self, tile_id: u64) -> (r: Result<Option<Vec<u8>>, PmtError>)
        requires
            old(self).wf(),
        ensures
            final(self).wf(),
            final(self)@ == old(self)@,
            final(self).has_reader() == old(self).has_reader(),
            !old(self)@.tiles.dom().contains(tile_id) ==> r == Ok::<Option<Vec<u8>>, PmtError>(
                None,
            ),
            old(self)@.tiles.dom().contains(tile_id) && old(self)@.tiles[tile_id] is Hash ==> {
                &&& r is Ok
                &&& r->Ok_0 is Some
                &&& r->Ok_0->Some_0@ == old(self)@.data[old(self)@.tiles[tile_id]->Hash_0]
            },
            old(self)@.tiles.dom().contains(tile_id) && old(self)@.tiles[tile_id] is OffsetLength
                ==> {
                &&& !old(self).has_reader() ==> r == Err::<Option<Vec<u8>>, PmtError>(
                    PmtError::MissingReader,
                )
                &&& old(self).has_reader() && r is Ok ==> r->Ok_0 is Some
                    && r->Ok_0->Some_0@.len() == old(self)@.tiles[tile_id]->OffsetLength_1
                &&& old(self).has_reader() && r is Err ==> r->Err_0 == PmtError::Io
            },
    {
        let tile = match self.tile_by_id.get(&tile_id) {
            None => {
                return Ok(None);
            },
            Some(t) => *t,
        };
        match tile {
            TileRef::Hash(h) => match self.data_by_hash.get(&h) {
                Some(v) => {
                    let c = v.clone();
                    proof {
                        assert(c@ =~= self@.data[h]);
                    }
                    Ok(Some(c))
                },
                None => Err(PmtError::Io),
            },
            TileRef::OffsetLength(offset, length) => match &mut self.reader {
                Some(rd) => {
                    match seek_to(rd, offset) {
                        Ok(()) => {},
                        Err(e) => {
                            return Err(e);
                        },
                    }
                    match read_exact_vec(rd, length as usize) {
                        Ok(buf) => Ok(Some(buf)),
                        Err(e) => Err(e),
                    }
                },
                None => Err(PmtError::MissingReader),
            },
        }
    }
}

/// Entries strictly ascending in tile id, each covering at least one id,
/// with no overlap between one entry's run and the next entry.
pub open spec fn spec_clustered(es: Seq<Entry>) -> bool {
    &&& forall|i: int| 0 <= i < es.len() ==> (#[trigger] es[i]).run_length >= 1
    &&& forall|i: int|
        0 <= i && i + 1 < es.len() ==> (#[trigger] es[i]).tile_id + es[i].run_length <= (
        #[trigger] es[i + 1]).tile_id
}

/// No two consecutive entries could be merged into one run.
pub open spec fn spec_no_mergeable(es: Seq<Entry>) -> bool {
    forall|i: int|
        0 <= i && i + 1 < es.len() && (#[trigger] es[i]).tile_id + es[i].run_length == (
        #[trigger] es[i + 1]).tile_id && es[i].run_length < u32::MAX ==> !(es[i + 1].offset
            == es[i].offset && es[i + 1].length == es[i].length)
}

/// Some entry's run covers `id`.
pub open spec fn spec_dir_covers(es: Seq<Entry>, id: u64) -> bool {
    exists|i: int|
        0 <= i < es.len() && ((#[trigger] es[i]).tile_id <= id < es[i].tile_id + es[i].run_length)
}

/// Some entry's run covers `id` and points at `(offset, length)`.
pub open spec fn spec_dir_locates(es: Seq<Entry>, id: u64, offset: u64, length: u32) -> bool {
    exists|i: int|
        0 <= i < es.len() && ((#[trigger] es[i]).tile_id <= id < es[i].tile_id + es[i].run_length)
            && es[i].offset == offset && es[i].length == length
}

/// Appending one tile location to the entry list: the last entry's run
/// grows where the tile continues it with the same location, else a new
/// entry of run length 1 starts.
pub open spec fn spec_push_entry(es: Seq<Entry>, tile_id: u64, offset: u64, length: u32) -> Seq<
    Entry,
> {
    if es.len() > 0 && {
        let last = es.last();
        &&& last.tile_id + last.run_length == tile_id
        &&& last.offset == offset
        &&& last.length == length
        &&& last.run_length < u32::MAX
    } {
        es.update(
            es.len() - 1,
            Entry { run_length: (es.last().run_length + 1) as u32, ..es.last() },
        )
    } else {
        es.push(Entry { tile_id, offset, length, run_length: 1 })
    }
}

fn push_entry(entries: &mut Vec<Entry>, tile_id: u64, offset: u64, length: u32)
    ensures
        final(entries)@ == spec_push_entry(old(entries)@, tile_id, offset, length),
{
    let n = entries.len();
    if n > 0 {
        let last = entries[n - 1];
        let merge = match last.tile_id.checked_add(last.run_length as u64) {
            Some(next) => next == tile_id && last.offset == offset && last.length == length
                && last.run_length < u32::MAX,
            None => false,
        };
        if merge {
            entries.pop();
            entries.push(Entry { run_length: last.run_length + 1, ..last });
            proof {
                assert(entries@ =~= spec_push_entry(old(entries)@, tile_id, offset, length));
            }
            return ;
        }
    }
    entries.push(Entry { tile_id, offset, length, run_length: 1 });
}

/// Every tile reference is in-memory content.
pub open spec fn spec_all_in_memory(m: TileManagerModel) -> bool {
    forall|id: u64| m.tiles.dom().contains(id) ==> (#[trigger] m.tiles[id]) is Hash
}

/// Every stored content fits a directory entry's 32-bit length field.
pub open spec fn spec_contents_fit(m: TileManagerModel) -> bool {
    forall|h: u64| m.data.dom().contains(h) ==> (#[trigger] m.data[h]).len() <= u32::MAX
}

/// The concatenation of the stored contents of `order`, in order.
pub open spec fn spec_concat_contents(data: Map<u64, Seq<u8>>, order: Seq<u64>) -> Seq<u8>
    decreases order.len(),
{
    if order.len() == 0 {
        Seq::empty()
    } else {
        spec_concat_contents(data, order.drop_last()) + data[order.last()]
    }
}

/// The blob is exactly the stored contents of the distinct hashes of
/// `loc`, concatenated once each in the order `order`, and each hash's
/// location is its content's position in that concatenation.
pub open spec fn spec_blob_layout(
    m: TileManagerModel,
    data: Seq<u8>,
    loc: Map<u64, (u64, u32)>,
    order: Seq<u64>,
) -> bool {
    &&& order.no_duplicates()
    &&& forall|h: u64| #[trigger] order.contains(h) <==> loc.dom().contains(h)
    &&& data == spec_concat_contents(m.data, order)
    &&& forall|i: int|
        0 <= i < order.len() ==> loc[#[trigger] order[i]] == (
            spec_concat_contents(m.data, order.take(i)).len() as u64,
            m.data[order[i]].len() as u32,
        )
}

/// What a successful `finish` promises through its location table `loc`
/// (content hash to blob position): the counters are exact, every tile
/// id is located by the directory and the directory covers no other
/// ids, ids stored under one hash share one location, and (for a
/// manager whose tiles are all in memory) the blob is exactly the
/// distinct stored contents concatenated once each, every one at its
/// recorded location.
pub open spec fn spec_finish_ok(
    m: TileManagerModel,
    data: Seq<u8>,
    es: Seq<Entry>,
    num_addressed: u64,
    num_entries: u64,
    num_content: u64,
    loc: Map<u64, (u64, u32)>,
) -> bool {
    &&& num_addressed == m.tiles.dom().len()
    &&& num_entries == es.len()
    &&& num_content == loc.dom().len()
    &&& forall|id: u64| #[trigger] m.tiles.dom().contains(id) ==> spec_dir_covers(es, id)
    &&& forall|id: u64| #[trigger] spec_dir_covers(es, id) ==> m.tiles.dom().contains(id)
    &&& forall|id: u64|
        m.tiles.dom().contains(id) && (#[trigger] m.tiles[id]) is Hash ==> {
            let h = m.tiles[id]->Hash_0;
            &&& loc.dom().contains(h)
            &&& spec_dir_locates(es, id, loc[h].0, loc[h].1)
        }
    &&& spec_all_in_memory(m) ==> forall|h: u64| #[trigger] loc.dom().contains(h) ==> {
        &&& m.data.dom().contains(h)
        &&& loc[h].0 + loc[h].1 <= data.len()
        &&& data.subrange(loc[h].0 as int, loc[h].0 + loc[h].1) == m.data[h]
        &&& m.data[h].len() == loc[h].1
    }
    &&& spec_all_in_memory(m) ==> exists|order: Seq<u64>| spec_blob_layout(m, data, loc, order)
}

/// The dedup law at the store level: when one content is added under
/// two tile ids and the content hash comes out the same both times (as
/// it does within one process), the second addition stores nothing new;
/// both ids reference the single stored slot under that hash, which
/// holds exactly the added bytes. Together with the location table of
/// `finish`, the two ids are then located at one blob position.
pub proof fn lemma_add_tile_dedup(m: TileManagerModel, a: u64, b: u64, h: u64, content: Seq<u8>)
    requires
        a != b,
        !m.tiles.dom().contains(b),
    ensures
        ({
            let m1 = spec_add_tile(m, a, h, content);
            let m2 = spec_add_tile(m1, b, h, content);
            &&& m2.tiles[a] == TileRef::Hash(h)
            &&& m2.tiles[b] == TileRef::Hash(h)
            &&& m2.data[h] == content
            &&& m2.data.dom() == m1.data.dom()
            &&& m2.ids_by_hash[h].contains(a)
            &&& m2.ids_by_hash[h].contains(b)
        }),
{
    let m1 = spec_add_tile(m, a, h, content);
    assert(!m1.tiles.dom().contains(b));
    assert(spec_remove_tile(m1, b) == m1);
    let m2 = spec_add_tile(m1, b, h, content);
    assert(m2.data.dom() =~= m1.data.dom());
    assert(m1.ids_by_hash[h].contains(a));
    assert(m2.ids_by_hash[h].contains(a) && m2.ids_by_hash[h].contains(b));
}

/// Entries that keep their id, location and at-least-their run length
/// keep every coverage and location fact.
#[verifier::spinoff_prover]
proof fn lemma_entries_monotone(es: Seq<Entry>, es2: Seq<Entry>)
    requires
        es2.len() >= es.len(),
        forall|i: int|
            0 <= i < es.len() ==> (#[trigger] es2[i]).tile_id == es[i].tile_id && es2[i].offset
                == es[i].offset && es2[i].length == es[i].length && es2[i].run_length
                >= es[i].run_length,
    ensures
        forall|id2: u64, o: u64, l: u32|
            #[trigger] spec_dir_locates(es, id2, o, l) ==> spec_dir_locates(es2, id2, o, l),
        forall|id2: u64| #[trigger] spec_dir_covers(es, id2) ==> spec_dir_covers(es2, id2),
{
    assert forall|id2: u64, o: u64, l: u32|
        #[trigger] spec_dir_locates(es, id2, o, l) implies spec_dir_locates(es2, id2, o, l) by {
        let i = choose|i: int|
            0 <= i < es.len() && ((#[trigger] es[i]).tile_id <= id2 < es[i].tile_id
                + es[i].run_length) && es[i].offset == o && es[i].length == l;
        assert(es2[i].tile_id <= id2 < es2[i].tile_id + es2[i].run_length && es2[i].offset == o
            && es2[i].length == l);
    }
    assert forall|id2: u64| #[trigger] spec_dir_covers(es, id2) implies spec_dir_covers(
        es2,
        id2,
    ) by {
        let i = choose|i: int|
            0 <= i < es.len() && ((#[trigger] es[i]).tile_id <= id2 < es[i].tile_id
                + es[i].run_length);
        assert(es2[i].tile_id <= id2 < es2[i].tile_id + es2[i].run_length);
    }
}

/// One `push_entry` step keeps the directory clustered, unmergeable and
/// encodable, locates the new id, and preserves every earlier location.
#[verifier::spinoff_prover]
#[verifier::rlimit(100)]
proof fn lemma_push_entry_step(es: Seq<Entry>, id: u64, off: u64, len: u32)
    requires
        spec_clustered(es),
        spec_no_mergeable(es),
        spec_dir_encodable(es),
        es.len() > 0 ==> es.last().tile_id + es.last().run_length <= id,
        off < u64::MAX,
        off + len <= u64::MAX,
    ensures
        ({
            let es2 = spec_push_entry(es, id, off, len);
            &&& spec_clustered(es2)
            &&& spec_no_mergeable(es2)
            &&& spec_dir_encodable(es2)
            &&& es2.len() > 0
            &&& es2.last().tile_id + es2.last().run_length == id + 1
            &&& spec_dir_locates(es2, id, off, len)
            &&& spec_dir_covers(es2, id)
            &&& forall|id2: u64| #[trigger] spec_dir_covers(es, id2) ==> spec_dir_covers(es2, id2)
            &&& forall|id2: u64|
                #[trigger] spec_dir_covers(es2, id2) ==> spec_dir_covers(es, id2) || id2 == id
            &&& forall|id2: u64, o: u64, l: u32|
                #[trigger] spec_dir_locates(es, id2, o, l) ==> spec_dir_locates(es2, id2, o, l)
        }),
{
    let es2 = spec_push_entry(es, id, off, len);
    let n = es.len() as int;
    if es.len() > 0 && {
        let last = es.last();
        &&& last.tile_id + last.run_length == id
        &&& last.offset == off
        &&& last.length == len
        &&& last.run_length < u32::MAX
    } {
        let last = es.last();
        let updated = Entry { run_length: (last.run_length + 1) as u32, ..last };
        assert(es2 =~= es.update(n - 1, updated));
        assert(forall|i: int| 0 <= i < n - 1 ==> es2[i] == es[i]);
        assert(es2[n - 1] == updated);
        assert(es2.last() == updated);
        assert(forall|i: int|
            0 <= i < n ==> (#[trigger] es2[i]).tile_id == es[i].tile_id && es2[i].offset
                == es[i].offset && es2[i].length == es[i].length && es2[i].run_length
                >= es[i].run_length);
        lemma_entries_monotone(es, es2);
        assert(spec_clustered(es2)) by {
            assert forall|i: int| 0 <= i && i + 1 < es2.len() implies (#[trigger] es2[i]).tile_id
                + es2[i].run_length <= es2[i + 1].tile_id by {
                if i + 1 < n - 1 {
                    assert(es2[i] == es[i] && es2[i + 1] == es[i + 1]);
                } else {
                    assert(i == n - 2 && es2[i] == es[i]);
                }
            }
        }
        assert(spec_no_mergeable(es2)) by {
            assert forall|i: int|
                0 <= i && i + 1 < es2.len() && (#[trigger] es2[i]).tile_id + es2[i].run_length
                    == es2[i + 1].tile_id && es2[i].run_length < u32::MAX implies !(es2[i
                    + 1].offset == es2[i].offset && es2[i + 1].length == es2[i].length) by {
                if i + 1 < n - 1 {
                    assert(es2[i] == es[i] && es2[i + 1] == es[i + 1]);
                } else {
                    assert(i == n - 2 && es2[i] == es[i]);
                }
            }
        }
        assert(spec_dir_locates(es2, id, off, len)) by {
            assert(es2[n - 1].tile_id <= id < es2[n - 1].tile_id + es2[n - 1].run_length);
        }
        assert(spec_dir_covers(es2, id)) by {
            assert(es2[n - 1].tile_id <= id < es2[n - 1].tile_id + es2[n - 1].run_length);
        }
        assert(forall|id2: u64|
            #[trigger] spec_dir_covers(es2, id2) ==> spec_dir_covers(es, id2) || id2 == id) by {
            assert forall|id2: u64| #[trigger] spec_dir_covers(es2, id2) implies spec_dir_covers(
                es,
                id2,
            ) || id2 == id by {
                let i = choose|i: int|
                    0 <= i < es2.len() && ((#[trigger] es2[i]).tile_id <= id2 < es2[i].tile_id
                        + es2[i].run_length);
                if i < n - 1 {
                    assert(es2[i] == es[i]);
                    assert(es[i].tile_id <= id2 < es[i].tile_id + es[i].run_length);
                } else {
                    assert(es2[i] == updated);
                    if id2 < last.tile_id + last.run_length {
                        assert(es[n - 1].tile_id <= id2 < es[n - 1].tile_id + es[n
                            - 1].run_length);
                    } else {
                        assert(id2 == id);
                    }
                }
            }
        }
    } else {
        let e = Entry { tile_id: id, offset: off, length: len, run_length: 1 };
        assert(es2 =~= es.push(e));
        assert(forall|i: int| 0 <= i < n ==> es2[i] == es[i]);
        assert(es2[n] == e);
        assert(forall|i: int|
            0 <= i < n ==> (#[trigger] es2[i]).tile_id == es[i].tile_id && es2[i].offset
                == es[i].offset && es2[i].length == es[i].length && es2[i].run_length
                >= es[i].run_length);
        lemma_entries_monotone(es, es2);
        assert(spec_clustered(es2)) by {
            assert forall|i: int| 0 <= i && i + 1 < es2.len() implies (#[trigger] es2[i]).tile_id
                + es2[i].run_length <= es2[i + 1].tile_id by {
                if i + 1 < n {
                    assert(es2[i] == es[i] && es2[i + 1] == es[i + 1]);
                } else {
                    assert(i == n - 1 && es2[i] == es[i] && es[i] == es.last());
                }
            }
        }
        assert(spec_no_mergeable(es2)) by {
            assert forall|i: int|
                0 <= i && i + 1 < es2.len() && (#[trigger] es2[i]).tile_id + es2[i].run_length
                    == es2[i + 1].tile_id && es2[i].run_length < u32::MAX implies !(es2[i
                    + 1].offset == es2[i].offset && es2[i + 1].length == es2[i].length) by {
                if i + 1 < n {
                    assert(es2[i] == es[i] && es2[i + 1] == es[i + 1]);
                } else {
                    assert(i == n - 1 && es2[i] == es[i] && es[i] == es.last());
                }
            }
        }
        assert(spec_dir_encodable(es2)) by {
            assert forall|a: int, b: int|
                0 <= a < b < es2.len() implies es2[a].tile_id <= es2[b].tile_id by {
                if b < n {
                    assert(es2[a] == es[a] && es2[b] == es[b]);
                } else {
                    assert(es2[a] == es[a]);
                    if a < n - 1 {
                        assert(es[a].tile_id <= es[n - 1].tile_id);
                    }
                }
            }
            assert(forall|i: int| 0 <= i < n ==> es2[i] == es[i]);
        }
        assert(spec_dir_locates(es2, id, off, len)) by {
            assert(es2[n].tile_id <= id < es2[n].tile_id + es2[n].run_length);
        }
        assert(spec_dir_covers(es2, id)) by {
            assert(es2[n].tile_id <= id < es2[n].tile_id + es2[n].run_length);
        }
        assert(forall|id2: u64|
            #[trigger] spec_dir_covers(es2, id2) ==> spec_dir_covers(es, id2) || id2 == id) by {
            assert forall|id2: u64| #[trigger] spec_dir_covers(es2, id2) implies spec_dir_covers(
                es,
                id2,
            ) || id2 == id by {
                let i = choose|i: int|
                    0 <= i < es2.len() && ((#[trigger] es2[i]).tile_id <= id2 < es2[i].tile_id
                        + es2[i].run_length);
                if i < n {
                    assert(es2[i] == es[i]);
                    assert(es[i].tile_id <= id2 < es[i].tile_id + es[i].run_length);
                } else {
                    assert(es2[i] == e);
                    assert(id2 == id);
                }
            }
        }
    }
}

impl<R: std::io::Read + std::io::Seek> TileManager<R> {
    /// Consume the manager: fetch every tile in ascending id order,
    /// deduplicate contents by hash into one blob, and merge runs of
    /// consecutive ids sharing one location into single entries.
    ///
    /// The directory of a successful result is clustered, cannot be
    /// merged further and can be encoded; its counters and location
    /// guarantees are those of `spec_finish_ok`. A manager whose tiles
    /// all live in memory (and fit the 32-bit length field) always
    /// finishes; reading deferred tiles may fail with `Io`, or with
    /// `MissingReader` when no reader is attached.
    #[verifier::rlimit(100)]
    #[verifier::spinoff_prover]
    pub fn finish(self) -> (r: Result<FinishResult, PmtError>)
        requires
            self.wf(),
        ensures
            r is Ok ==> ({
                let fr = r->Ok_0;
                &&& spec_clustered(fr.directory@)
                &&& spec_no_mergeable(fr.directory@)
                &&& spec_dir_encodable(fr.directory@)
                &&& exists|loc: Map<u64, (u64, u32)>|
                    spec_finish_ok(
                        self@,
                        fr.data@,
                        fr.directory@,
                        fr.num_addressed_tiles,
                        fr.num_tile_entries,
                        fr.num_tile_content,
                        loc,
                    )
            }),
            spec_all_in_memory(self@) && spec_contents_fit(self@) && self@.tiles.dom().len()
                <= u32::MAX ==> r is Ok,
    {
        let ghost m = self@;
        let TileManager { data_by_hash, tile_by_id, ids_by_hash: _, ids_sorted: ids, mut reader } =
            self;
        proof {
            assert(m.data.dom() =~= data_by_hash@.dom());
            assert(forall|h: u64|
                #[trigger] data_by_hash@.dom().contains(h) ==> data_by_hash@[h]@ == m.data[h]);
            assert(ids@.no_duplicates());
            ids@.unique_seq_to_set();
            assert(ids@.to_set() =~= m.tiles.dom()) by {
                assert(forall|id: u64| ids@.to_set().contains(id) <==> ids@.contains(id));
            }
        }
        let n = ids.len();
        let mut entries: Vec<Entry> = Vec::new();
        let mut data: Vec<u8> = Vec::new();
        let mut num_addressed: u64 = 0;
        let mut num_content: u64 = 0;
        let mut olm: HashMap<u64, (u64, u32)> = HashMap::new();
        let ghost mut order_g: Seq<u64> = Seq::empty();
        let mut k: usize = 0;
        proof {
            assert(spec_concat_contents(m.data, Seq::<u64>::empty()) == Seq::<u8>::empty());
        }
        while k < n
            invariant
                m == self@,
                k <= n,
                n == ids@.len(),
                n == m.tiles.dom().len(),
                strictly_sorted(ids@),
                forall|id: u64| #[trigger] ids@.contains(id) <==> m.tiles.dom().contains(id),
                forall|id: u64|
                    m.tiles.dom().contains(id) && (#[trigger] m.tiles[id]) is Hash
                        ==> m.data.dom().contains(m.tiles[id]->Hash_0),
                tile_by_id@ == m.tiles,
                m.data.dom() == data_by_hash@.dom(),
                forall|h: u64|
                    #[trigger] data_by_hash@.dom().contains(h) ==> data_by_hash@[h]@ == m.data[h],
                num_addressed == k,
                num_content == olm@.dom().len(),
                num_content <= k,
                spec_clustered(entries@),
                spec_no_mergeable(entries@),
                spec_dir_encodable(entries@),
                forall|i: int|
                    0 <= i < entries@.len() ==> (#[trigger] entries@[i]).offset
                        + entries@[i].length <= data@.len(),
                entries@.len() > 0 <==> k > 0,
                k > 0 ==> entries@.last().tile_id + entries@.last().run_length == ids@[k - 1] + 1,
                forall|j: int| 0 <= j < k ==> spec_dir_covers(entries@, #[trigger] ids@[j]),
                forall|j: int|
                    0 <= j < k && (#[trigger] m.tiles[ids@[j]]) is Hash ==> {
                        let h = m.tiles[ids@[j]]->Hash_0;
                        &&& olm@.dom().contains(h)
                        &&& spec_dir_locates(entries@, ids@[j], olm@[h].0, olm@[h].1)
                    },
                forall|h: u64|
                    #[trigger] olm@.dom().contains(h) ==> olm@[h].0 < u64::MAX && olm@[h].0
                        + olm@[h].1 <= data@.len(),
                data@.len() <= olm@.dom().len() * 0xffffffffnat,
                spec_all_in_memory(m) ==> forall|h: u64| #[trigger] olm@.dom().contains(h) ==> {
                    &&& m.data.dom().contains(h)
                    &&& data@.subrange(olm@[h].0 as int, olm@[h].0 + olm@[h].1) == m.data[h]
                    &&& m.data[h].len() == olm@[h].1
                },
                forall|id2: u64|
                    #[trigger] spec_dir_covers(entries@, id2) ==> m.tiles.dom().contains(id2),
                spec_all_in_memory(m) ==> order_g.no_duplicates(),
                spec_all_in_memory(m) ==> (forall|h: u64|
                    #[trigger] order_g.contains(h) <==> olm@.dom().contains(h)),
                spec_all_in_memory(m) ==> data@ == spec_concat_contents(m.data, order_g),
                spec_all_in_memory(m) ==> forall|i: int|
                    0 <= i < order_g.len() ==> olm@[#[trigger] order_g[i]] == (
                        spec_concat_contents(m.data, order_g.take(i)).len() as u64,
                        m.data[order_g[i]].len() as u32,
                    ),
            decreases n - k,
        {
            let id = ids[k];
            proof {
                assert(ids@.contains(id));
                if k > 0 {
                    assert(ids@[k - 1] < ids@[k as int]);
                }
            }
            let tile = match tile_by_id.get(&id) {
                Some(t) => *t,
                None => {
                    return Err(PmtError::Io);
                },
            };
            let mut content: Vec<u8>;
            let hash: u64;
            match tile {
                TileRef::Hash(h) => {
                    match data_by_hash.get(&h) {
                        Some(v) => {
                            content = v.clone();
                        },
                        None => {
                            return Err(PmtError::Io);
                        },
                    }
                    hash = h;
                    proof {
                        assert(data_by_hash@.dom().contains(h));
                        assert(m.data[h] == data_by_hash@[h]@);
                        assert(content@ =~= m.data[h]);
                    }
                },
                TileRef::OffsetLength(off0, len0) => {
                    proof {
                        assert(!spec_all_in_memory(m)) by {
                            assert(m.tiles.dom().contains(id) && !(m.tiles[id] is Hash));
                        }
                    }
                    match &mut reader {
                        Some(rd) => {
                            match seek_to(rd, off0) {
                                Ok(()) => {},
                                Err(e) => {
                                    return Err(e);
                                },
                            }
                            match read_exact_vec(rd, len0 as usize) {
                                Ok(b) => {
                                    content = b;
                                },
                                Err(e) => {
                                    return Err(e);
                                },
                            }
                        },
                        None => {
                            return Err(PmtError::MissingReader);
                        },
                    }
                    hash = content_hash(&content);
                },
            }
            num_addressed = num_addressed + 1;
            let cached: Option<(u64, u32)> = match olm.get(&hash) {
                Some(p) => Some(*p),
                None => None,
            };
            let ghost old_entries = entries@;
            match cached {
                Some((off, len)) => {
                    proof {
                        assert(olm@.dom().contains(hash));
                        assert(data.len() <= usize::MAX);
                        assert(olm@[hash] == (off, len));
                        lemma_push_entry_step(entries@, id, off, len);
                    }
                    push_entry(&mut entries, id, off, len);
                    proof {
                        assert forall|j: int|
                            0 <= j < k + 1 && (#[trigger] m.tiles[ids@[j]]) is Hash implies {
                            let h2 = m.tiles[ids@[j]]->Hash_0;
                            &&& olm@.dom().contains(h2)
                            &&& spec_dir_locates(entries@, ids@[j], olm@[h2].0, olm@[h2].1)
                        } by {
                            let h2 = m.tiles[ids@[j]]->Hash_0;
                            if j < k {
                                assert(spec_dir_locates(
                                    old_entries,
                                    ids@[j],
                                    olm@[h2].0,
                                    olm@[h2].1,
                                ));
                            } else {
                                assert(ids@[j] == id);
                                assert(h2 == hash);
                                assert(spec_dir_locates(entries@, id, off, len));
                            }
                        }
                    }
                },
                None => {
                    if content.len() > u32::MAX as usize {
                        proof {
                            if spec_all_in_memory(m) {
                                assert(m.tiles[id] is Hash);
                                assert(content@ == m.data[hash]);
                                assert(!spec_contents_fit(m)) by {
                                    assert(m.data.dom().contains(hash) && m.data[hash].len()
                                        > u32::MAX);
                                }
                            }
                        }
                        return Err(PmtError::Malformed);
                    }
                    if data.len() as u64 == u64::MAX {
                        proof {
                            if spec_all_in_memory(m) && spec_contents_fit(m) && m.tiles.dom().len()
                                <= u32::MAX {
                                assert(olm@.dom().len() <= k < n <= u32::MAX);
                                assert(olm@.dom().len() * 0xffffffffnat <= (n - 1)
                                    * 0xffffffffnat) by (nonlinear_arith)
                                    requires olm@.dom().len() <= n - 1
                                ;
                                assert((n - 1) * 0xffffffffnat < 0xffffffffffffffffnat)
                                    by (nonlinear_arith)
                                    requires n <= 0xffffffffnat
                                ;
                                assert(false);
                            }
                        }
                        return Err(PmtError::Malformed);
                    }
                    let off = data.len() as u64;
                    let len32 = content.len() as u32;
                    let ghost data_pre = data@;
                    let ghost content_pre = content@;
                    data.append(&mut content);
                    proof {
                        assert(data.len() <= usize::MAX);
                        assert(off + len32 == data@.len());
                        lemma_push_entry_step(entries@, id, off, len32);
                        assert((olm@.dom().len() + 1) * 0xffffffffnat == olm@.dom().len()
                            * 0xffffffffnat + 0xffffffffnat) by (nonlinear_arith);
                    }
                    num_content = num_content + 1;
                    push_entry(&mut entries, id, off, len32);
                    let ghost olm_pre = olm@;
                    olm.insert(hash, (off, len32));
                    proof {
                        assert(olm@.dom() =~= olm_pre.dom().insert(hash));
                        if spec_all_in_memory(m) {
                            assert(m.tiles[id] is Hash);
                            assert(hash == m.tiles[id]->Hash_0);
                            assert(content_pre == m.data[hash]);
                            assert(!order_g.contains(hash));
                            let order_pre = order_g;
                            order_g = order_g.push(hash);
                            assert(order_g.drop_last() =~= order_pre);
                            assert(order_g.last() == hash);
                            assert(forall|i: int| 0 <= i < order_pre.len() ==> order_g[i]
                                == order_pre[i]);
                            assert(order_g[order_pre.len() as int] == hash);
                            assert(order_g.no_duplicates()) by {
                                assert forall|a: int, b: int|
                                    0 <= a < b < order_g.len() implies order_g[a] != order_g[
                                    b] by {
                                    if b < order_g.len() - 1 {
                                        assert(order_g[a] == order_pre[a] && order_g[b]
                                            == order_pre[b]);
                                    } else {
                                        assert(order_g[b] == hash);
                                        assert(order_pre.contains(order_pre[a]));
                                    }
                                }
                            }
                            assert(forall|h2: u64|
                                #[trigger] order_g.contains(h2) <==> olm@.dom().contains(
                                    h2,
                                )) by {
                                assert forall|h2: u64|
                                    #[trigger] order_g.contains(h2) implies olm@.dom().contains(
                                    h2,
                                ) by {
                                    let i = choose|i: int|
                                        0 <= i < order_g.len() && order_g[i] == h2;
                                    if i < order_pre.len() {
                                        assert(order_pre.contains(h2));
                                    } else {
                                        assert(h2 == hash);
                                    }
                                }
                                assert forall|h2: u64|
                                    #[trigger] olm@.dom().contains(h2) implies order_g.contains(
                                    h2,
                                ) by {
                                    if h2 == hash {
                                        assert(order_g[order_pre.len() as int] == h2);
                                    } else {
                                        assert(olm_pre.dom().contains(h2));
                                        assert(order_pre.contains(h2));
                                        let i = choose|i: int|
                                            0 <= i < order_pre.len() && order_pre[i] == h2;
                                        assert(order_g[i] == h2);
                                    }
                                }
                            }
                            assert(data@ == spec_concat_contents(m.data, order_g)) by {
                                assert(spec_concat_contents(m.data, order_g)
                                    == spec_concat_contents(m.data, order_pre) + m.data[hash]);
                                assert(data_pre == spec_concat_contents(m.data, order_pre));
                                assert(data@ == data_pre + content_pre);
                            }
                            assert(forall|i: int|
                                0 <= i < order_g.len() ==> olm@[#[trigger] order_g[i]] == (
                                    spec_concat_contents(m.data, order_g.take(i)).len() as u64,
                                    m.data[order_g[i]].len() as u32,
                                )) by {
                                assert forall|i: int| 0 <= i < order_g.len() implies olm@[
                                #[trigger] order_g[i]] == (
                                    spec_concat_contents(m.data, order_g.take(i)).len() as u64,
                                    m.data[order_g[i]].len() as u32,
                                ) by {
                                    if i < order_pre.len() {
                                        assert(order_g.take(i) =~= order_pre.take(i));
                                        assert(order_pre.contains(order_pre[i]));
                                        assert(order_g[i] != hash);
                                        assert(olm@[order_g[i]] == olm_pre[order_pre[i]]);
                                    } else {
                                        assert(order_g[i] == hash);
                                        assert(order_g.take(i) =~= order_pre);
                                        assert(olm@[hash] == (off, len32));
                                        assert(off == spec_concat_contents(
                                            m.data,
                                            order_pre,
                                        ).len());
                                        assert(len32 == m.data[hash].len());
                                    }
                                }
                            }
                        }
                        assert forall|j: int|
                            0 <= j < k + 1 && (#[trigger] m.tiles[ids@[j]]) is Hash implies {
                            let h2 = m.tiles[ids@[j]]->Hash_0;
                            &&& olm@.dom().contains(h2)
                            &&& spec_dir_locates(entries@, ids@[j], olm@[h2].0, olm@[h2].1)
                        } by {
                            let h2 = m.tiles[ids@[j]]->Hash_0;
                            if j < k {
                                assert(olm_pre.dom().contains(h2));
                                assert(h2 != hash);
                                assert(olm@[h2] == olm_pre[h2]);
                                assert(spec_dir_locates(
                                    old_entries,
                                    ids@[j],
                                    olm_pre[h2].0,
                                    olm_pre[h2].1,
                                ));
                            } else {
                                assert(ids@[j] == id);
                                assert(h2 == hash);
                                assert(olm@[hash] == (off, len32));
                                assert(spec_dir_locates(entries@, id, off, len32));
                            }
                        }
                    }
                },
            }
            proof {
                assert(forall|j: int|
                    0 <= j < k + 1 ==> spec_dir_covers(entries@, #[trigger] ids@[j])) by {
                    assert forall|j: int| 0 <= j < k + 1 implies spec_dir_covers(
                        entries@,
                        #[trigger] ids@[j],
                    ) by {
                        if j < k {
                            assert(spec_dir_covers(old_entries, ids@[j]));
                        } else {
                            assert(ids@[j] == id);
                        }
                    }
                }
                assert(forall|id2: u64|
                    #[trigger] spec_dir_covers(entries@, id2) ==> m.tiles.dom().contains(
                        id2,
                    )) by {
                    assert forall|id2: u64|
                        #[trigger] spec_dir_covers(entries@, id2) implies m.tiles.dom().contains(
                        id2,
                    ) by {
                        assert(spec_dir_covers(old_entries, id2) || id2 == id);
                    }
                }
                if spec_all_in_memory(m) {
                    assert forall|h2: u64| #[trigger] olm@.dom().contains(h2) implies {
                        &&& m.data.dom().contains(h2)
                        &&& data@.subrange(olm@[h2].0 as int, olm@[h2].0 + olm@[h2].1)
                            == m.data[h2]
                        &&& m.data[h2].len() == olm@[h2].1
                    } by {
                        assert(data@.subrange(olm@[h2].0 as int, olm@[h2].0 + olm@[h2].1) =~= (
                        m.data[h2]));
                    }
                }
            }
            k = k + 1;
        }
        let num_entries = entries.len() as u64;
        let directory = Directory::from_entries(entries);
        proof {
            assert(spec_finish_ok(
                m,
                data@,
                directory@,
                num_addressed,
                num_entries,
                num_content,
                olm@,
            )) by {
                assert(forall|id: u64| #[trigger] m.tiles.dom().contains(id) ==> ids@.contains(
                    id,
                ));
                assert(forall|id: u64| #[trigger] ids@.contains(id) ==> exists|j: int|
                    0 <= j < ids@.len() && ids@[j] == id);
                if spec_all_in_memory(m) {
                    assert(spec_blob_layout(m, data@, olm@, order_g));
                }
            }
            assert(m == self@);
        }
        let result = FinishResult {
            data,
            num_addressed_tiles: num_addressed,
            num_tile_entries: num_entries,
            num_tile_content: num_content,
            directory,
        };
        proof {
            assert(exists|loc: Map<u64, (u64, u32)>|
                spec_finish_ok(
                    self@,
                    result.data@,
                    result.directory@,
                    result.num_addressed_tiles,
                    result.num_tile_entries,
                    result.num_tile_content,
                    loc,
                )) by {
                assert(spec_finish_ok(
                    self@,
                    result.data@,
                    result.directory@,
                    result.num_addressed_tiles,
                    result.num_tile_entries,
                    result.num_tile_content,
                    olm@,
                ));
            }
        }
        Ok(result)
    }
}

} // verus!
