//! Directories: sorted entry lists and their varint columnar delta
//! encoding.
use vstd::prelude::*;

use crate::compression::{compress_all, decompress_all, spec_decompress, Compression};
use crate::error::PmtError;
use crate::io_util::{read_exact_vec, write_all};
use crate::varint::{
    all_fit_u64, as_nats, lemma_parse_varint_of_encoded, lemma_parse_varints_of_encoded,
    lemma_varints_cat_push, read_varint, read_varint_column, spec_parse_varint,
    spec_parse_varints, spec_varint, spec_varints_cat, write_varint,
};

verus! {

/// A directory entry: where to find either one run of tiles or one leaf
/// directory.
#[derive(Debug, Clone, Copy, PartialEq, Eq, Structural)]
pub struct Entry {
    /// The first tile id this entry is valid for.
    pub tile_id: u64,
    /// Offset (in bytes) of the referenced region, relative to the start
    /// of the tile data section (for tile entries) or of the leaf
    /// directories section (for leaf pointers).
    pub offset: u64,
    /// Length (in bytes) of the referenced region.
    pub length: u32,
    /// Number of consecutive tile ids this entry is valid for; `0` marks
    /// a pointer to a leaf directory.
    pub run_length: u32,
}

impl Entry {
    /// The range of tile ids this entry is valid for.
    pub fn tile_id_range(&self) -> (r: core::ops::Range<u64>)
        requires
            self.tile_id + self.run_length <= u64::MAX,
        ensures
            r.start == self.tile_id,
            r.end == self.tile_id + self.run_length,
    {
        self.tile_id..(self.tile_id + self.run_length as u64)
    }

    /// Whether this entry points at a leaf directory rather than tiles.
    pub fn is_leaf_dir_entry(&self) -> (r: bool)
        ensures
            r == (self.run_length == 0),
    {
        self.run_length == 0
    }
}

/// An ordered list of entries.
#[derive(Debug, Clone, PartialEq, Eq)]
pub struct Directory {
    entries: Vec<Entry>,
}

impl View for Directory {
    type V = Seq<Entry>;

    closed spec fn view(&self) -> Seq<Entry> {
        self.entries@
    }
}

impl Directory {
    /// The number of entries in the directory.
    pub fn len(&self) -> (r: usize)
        ensures
            r == self@.len(),
    {
        self.entries.len()
    }

    /// Whether the directory holds no entries.
    pub fn is_empty(&self) -> (r: bool)
        ensures
            r == (self@.len() == 0),
    {
        self.entries.is_empty()
    }

    /// The entries, in order.
    pub fn iter(&self) -> (r: &Vec<Entry>)
        ensures
            r@ == self@,
    {
        &self.entries
    }

    /// The entry at position `i`.
    pub fn get(&self, i: usize) -> (r: &Entry)
        requires
            i < self@.len(),
        ensures
            *r == self@[i as int],
    {
        &self.entries[i]
    }
}

impl Directory {
    /// Wrap an entry list as a directory.
    pub fn from_entries(entries: Vec<Entry>) -> (r: Directory)
        ensures
            r@ == entries@,
    {
        Directory { entries }
    }

    /// Take the entry list back out of the directory.
    pub fn into_entries(self) -> (r: Vec<Entry>)
        ensures
            r@ == self@,
    {
        self.entries
    }
}

/// The delta column: each entry's tile id less its predecessor's (less
/// `prev_id` for the first).
pub open spec fn spec_delta_col(entries: Seq<Entry>, prev_id: nat) -> Seq<nat>
    decreases entries.len(),
{
    if entries.len() == 0 {
        Seq::empty()
    } else {
        seq![(entries[0].tile_id - prev_id) as nat] + spec_delta_col(
            entries.drop_first(),
            entries[0].tile_id as nat,
        )
    }
}

/// The run-length column.
pub open spec fn spec_run_col(entries: Seq<Entry>) -> Seq<nat> {
    entries.map_values(|e: Entry| e.run_length as nat)
}

/// The length column.
pub open spec fn spec_len_col(entries: Seq<Entry>) -> Seq<nat> {
    entries.map_values(|e: Entry| e.length as nat)
}

/// The offset column: `0` where an entry starts exactly at its
/// predecessor's end (never for the first entry), else `offset + 1`.
pub open spec fn spec_off_col(entries: Seq<Entry>, prev_end: nat, first: bool) -> Seq<nat>
    decreases entries.len(),
{
    if entries.len() == 0 {
        Seq::empty()
    } else {
        let v: nat = if !first && entries[0].offset == prev_end {
            0
        } else {
            (entries[0].offset + 1) as nat
        };
        seq![v] + spec_off_col(
            entries.drop_first(),
            (entries[0].offset + entries[0].length) as nat,
            false,
        )
    }
}

/// Whether an entry list can be encoded: tile ids non-decreasing (so
/// deltas are non-negative) and every offset below `u64::MAX` (so the
/// `offset + 1` column fits).
pub open spec fn spec_dir_encodable(entries: Seq<Entry>) -> bool {
    &&& forall|i: int, j: int|
        0 <= i < j < entries.len() ==> entries[i].tile_id <= entries[j].tile_id
    &&& forall|i: int| 0 <= i < entries.len() ==> entries[i].offset < u64::MAX
    &&& forall|i: int|
        0 <= i < entries.len() ==> entries[i].offset + entries[i].length <= u64::MAX
}

/// The uncompressed wire bytes of a directory: the entry count, then the
/// four varint columns.
pub open spec fn spec_encode_directory(entries: Seq<Entry>) -> Seq<u8> {
    spec_varint(entries.len() as nat) + spec_varints_cat(spec_delta_col(entries, 0))
        + spec_varints_cat(spec_run_col(entries)) + spec_varints_cat(spec_len_col(entries))
        + spec_varints_cat(spec_off_col(entries, 0, true))
}

/// Rebuild entries from the four parsed columns, threading the running
/// tile id and the previous entry's end; `None` on any value out of
/// range or a leading `0` in the offset column.
pub open spec fn spec_assemble_entries(
    deltas: Seq<nat>,
    runs: Seq<nat>,
    lens: Seq<nat>,
    offs: Seq<nat>,
    prev_id: nat,
    prev_end: nat,
    first: bool,
) -> Option<Seq<Entry>>
    decreases deltas.len(),
{
    if deltas.len() == 0 {
        Some(Seq::empty())
    } else {
        let id = prev_id + deltas[0];
        if id > u64::MAX || runs[0] > u32::MAX || lens[0] > u32::MAX {
            None
        } else if first && offs[0] == 0 {
            None
        } else {
            let off: nat = if !first && offs[0] == 0 {
                prev_end
            } else {
                (offs[0] - 1) as nat
            };
            if off > u64::MAX {
                None
            } else {
                let e = Entry {
                    tile_id: id as u64,
                    offset: off as u64,
                    length: lens[0] as u32,
                    run_length: runs[0] as u32,
                };
                match spec_assemble_entries(
                    deltas.drop_first(),
                    runs.drop_first(),
                    lens.drop_first(),
                    offs.drop_first(),
                    id,
                    off + lens[0],
                    false,
                ) {
                    None => None,
                    Some(rest) => Some(seq![e] + rest),
                }
            }
        }
    }
}

pub proof fn lemma_delta_col_len(entries: Seq<Entry>, p: nat)
    ensures
        spec_delta_col(entries, p).len() == entries.len(),
    decreases entries.len(),
{
    if entries.len() > 0 {
        lemma_delta_col_len(entries.drop_first(), entries[0].tile_id as nat);
    }
}

pub proof fn lemma_off_col_len(entries: Seq<Entry>, pe: nat, first: bool)
    ensures
        spec_off_col(entries, pe, first).len() == entries.len(),
    decreases entries.len(),
{
    if entries.len() > 0 {
        lemma_off_col_len(
            entries.drop_first(),
            (entries[0].offset + entries[0].length) as nat,
            false,
        );
    }
}

/// The running tile id after encoding `entries`, starting from `p`.
pub open spec fn spec_last_id(entries: Seq<Entry>, p: nat) -> nat {
    if entries.len() == 0 {
        p
    } else {
        entries.last().tile_id as nat
    }
}

/// The end position of the last entry, starting from `pe`.
pub open spec fn spec_last_end(entries: Seq<Entry>, pe: nat) -> nat {
    if entries.len() == 0 {
        pe
    } else {
        (entries.last().offset + entries.last().length) as nat
    }
}

pub proof fn lemma_delta_col_snoc(entries: Seq<Entry>, e: Entry, p: nat)
    ensures
        spec_delta_col(entries.push(e), p) == spec_delta_col(entries, p).push(
            (e.tile_id - spec_last_id(entries, p)) as nat,
        ),
    decreases entries.len(),
{
    if entries.len() == 0 {
        assert(entries.push(e) =~= seq![e]);
        assert(seq![e].drop_first() =~= Seq::<Entry>::empty());
        assert(spec_delta_col(Seq::<Entry>::empty(), e.tile_id as nat) == Seq::<nat>::empty());
        assert(seq![e][0] == e);
        assert(spec_delta_col(seq![e], p) == seq![(e.tile_id - p) as nat] + Seq::<nat>::empty());
        assert(spec_delta_col(seq![e], p) =~= spec_delta_col(entries, p).push(
            (e.tile_id - spec_last_id(entries, p)) as nat,
        ));
    } else {
        assert(entries.push(e).drop_first() =~= entries.drop_first().push(e));
        assert(entries.push(e)[0] == entries[0]);
        lemma_delta_col_snoc(entries.drop_first(), e, entries[0].tile_id as nat);
        assert(spec_last_id(entries.drop_first(), entries[0].tile_id as nat) == spec_last_id(
            entries,
            p,
        )) by {
            if entries.len() > 1 {
                assert(entries.drop_first().last() == entries.last());
            }
        }
        assert(spec_delta_col(entries.push(e), p) =~= spec_delta_col(entries, p).push(
            (e.tile_id - spec_last_id(entries, p)) as nat,
        ));
    }
}

pub proof fn lemma_off_col_snoc(entries: Seq<Entry>, e: Entry, pe: nat, first: bool)
    ensures
        spec_off_col(entries.push(e), pe, first) == spec_off_col(entries, pe, first).push(
            if !(first && entries.len() == 0) && e.offset == spec_last_end(entries, pe) {
                0
            } else {
                (e.offset + 1) as nat
            },
        ),
    decreases entries.len(),
{
    if entries.len() == 0 {
        assert(entries.push(e) =~= seq![e]);
        assert(seq![e].drop_first() =~= Seq::<Entry>::empty());
        assert(spec_off_col(Seq::<Entry>::empty(), (e.offset + e.length) as nat, false)
            == Seq::<nat>::empty());
        assert(seq![e][0] == e);
        assert(spec_off_col(seq![e], pe, first) == seq![(if !first && e.offset == pe { 0nat } else { (e.offset + 1) as nat })] + Seq::<nat>::empty());
        assert(spec_off_col(entries.push(e), pe, first) =~= spec_off_col(entries, pe, first).push(
            if !(first && entries.len() == 0) && e.offset == spec_last_end(entries, pe) {
                0
            } else {
                (e.offset + 1) as nat
            },
        ));
    } else {
        assert(entries.push(e).drop_first() =~= entries.drop_first().push(e));
        assert(entries.push(e)[0] == entries[0]);
        lemma_off_col_snoc(
            entries.drop_first(),
            e,
            (entries[0].offset + entries[0].length) as nat,
            false,
        );
        assert(spec_last_end(entries.drop_first(), (entries[0].offset + entries[0].length) as nat)
            == spec_last_end(entries, pe)) by {
            if entries.len() > 1 {
                assert(entries.drop_first().last() == entries.last());
            }
        }
        assert(spec_off_col(entries.push(e), pe, first) =~= spec_off_col(entries, pe, first).push(
            if !(first && entries.len() == 0) && e.offset == spec_last_end(entries, pe) {
                0
            } else {
                (e.offset + 1) as nat
            },
        ));
    }
}

/// Assembling the four columns of an encodable entry list recovers it.
pub proof fn lemma_assemble_inverts(entries: Seq<Entry>, p: nat, pe: nat, first: bool)
    requires
        spec_dir_encodable(entries),
        entries.len() > 0 ==> p <= entries[0].tile_id,
        p <= u64::MAX,
    ensures
        spec_assemble_entries(
            spec_delta_col(entries, p),
            spec_run_col(entries),
            spec_len_col(entries),
            spec_off_col(entries, pe, first),
            p,
            pe,
            first,
        ) == Some(entries),
    decreases entries.len(),
{
    let deltas = spec_delta_col(entries, p);
    let runs = spec_run_col(entries);
    let lens = spec_len_col(entries);
    let offs = spec_off_col(entries, pe, first);
    if entries.len() == 0 {
        assert(entries =~= Seq::<Entry>::empty());
    } else {
        let e0 = entries[0];
        assert(deltas[0] == (e0.tile_id - p) as nat);
        assert(runs[0] == e0.run_length as nat);
        assert(lens[0] == e0.length as nat);
        let id = p + deltas[0];
        assert(id == e0.tile_id);
        let off: nat = if !first && offs[0] == 0 {
            pe
        } else {
            (offs[0] - 1) as nat
        };
        assert(e0.offset < u64::MAX);
        assert(off == e0.offset) by {
            if !first && e0.offset == pe {
                assert(offs[0] == 0);
            } else {
                assert(offs[0] == e0.offset + 1);
            }
        }
        assert(!(first && offs[0] == 0));
        let e = Entry {
            tile_id: id as u64,
            offset: off as u64,
            length: lens[0] as u32,
            run_length: runs[0] as u32,
        };
        assert(e == e0);
        let rest = entries.drop_first();
        assert(spec_dir_encodable(rest)) by {
            assert(forall|i: int, j: int|
                0 <= i < j < rest.len() ==> rest[i] == entries[i + 1] && rest[j] == entries[j + 1]);
            assert(forall|i: int| 0 <= i < rest.len() ==> rest[i] == entries[i + 1]);
        }
        if rest.len() > 0 {
            assert(rest[0] == entries[1]);
            assert(e0.tile_id <= entries[1].tile_id);
        }
        lemma_assemble_inverts(rest, e0.tile_id as nat, (e0.offset + e0.length) as nat, false);
        assert(deltas.drop_first() =~= spec_delta_col(rest, e0.tile_id as nat));
        assert(offs.drop_first() =~= spec_off_col(rest, (e0.offset + e0.length) as nat, false));
        assert(runs.drop_first() =~= spec_run_col(rest)) by {
            assert(forall|i: int|
                0 <= i < rest.len() ==> runs.drop_first()[i] == runs[i + 1] && rest[i] == entries[i
                    + 1]);
        }
        assert(lens.drop_first() =~= spec_len_col(rest)) by {
            assert(forall|i: int|
                0 <= i < rest.len() ==> lens.drop_first()[i] == lens[i + 1] && rest[i] == entries[i
                    + 1]);
        }
        assert(off + lens[0] == e0.offset + e0.length);
        assert(seq![e] + rest =~= entries);
    }
}

/// The directory parsed from uncompressed wire bytes, or `None` where
/// they are malformed. Trailing bytes after the last column are ignored.
pub open spec fn spec_parse_directory(s: Seq<u8>) -> Option<Seq<Entry>> {
    match spec_parse_varint(s, 0) {
        None => None,
        Some((n, i1)) => if n > usize::MAX {
            None
        } else {
            match spec_parse_varints(s, i1, n) {
                None => None,
                Some((deltas, i2)) => if !all_fit_u64(deltas) {
                    None
                } else {
                    match spec_parse_varints(s, i2, n) {
                        None => None,
                        Some((runs, i3)) => if !all_fit_u64(runs) {
                            None
                        } else {
                            match spec_parse_varints(s, i3, n) {
                                None => None,
                                Some((lens, i4)) => if !all_fit_u64(lens) {
                                    None
                                } else {
                                    match spec_parse_varints(s, i4, n) {
                                        None => None,
                                        Some((offs, _i5)) => if !all_fit_u64(offs) {
                                            None
                                        } else {
                                            spec_assemble_entries(
                                                deltas,
                                                runs,
                                                lens,
                                                offs,
                                                0,
                                                0,
                                                true,
                                            )
                                        },
                                    }
                                },
                            }
                        },
                    }
                },
            }
        },
    }
}

pub proof fn lemma_delta_col_fit(entries: Seq<Entry>, p: nat)
    requires
        spec_dir_encodable(entries),
        p <= u64::MAX,
        entries.len() > 0 ==> p <= entries[0].tile_id,
    ensures
        all_fit_u64(spec_delta_col(entries, p)),
    decreases entries.len(),
{
    if entries.len() > 0 {
        let rest = entries.drop_first();
        assert(spec_dir_encodable(rest)) by {
            assert(forall|i: int, j: int|
                0 <= i < j < rest.len() ==> rest[i] == entries[i + 1] && rest[j] == entries[j + 1]);
            assert(forall|i: int| 0 <= i < rest.len() ==> rest[i] == entries[i + 1]);
        }
        if rest.len() > 0 {
            assert(rest[0] == entries[1]);
        }
        lemma_delta_col_fit(rest, entries[0].tile_id as nat);
        let col = spec_delta_col(entries, p);
        let tail = spec_delta_col(rest, entries[0].tile_id as nat);
        assert(forall|k: int| 0 <= k < col.len() ==> col[k] == (seq![
            (entries[0].tile_id - p) as nat,
        ] + tail)[k]);
        assert(forall|k: int| 1 <= k < col.len() ==> col[k] == tail[k - 1]);
    }
}

pub proof fn lemma_off_col_fit(entries: Seq<Entry>, pe: nat, first: bool)
    requires
        spec_dir_encodable(entries),
    ensures
        all_fit_u64(spec_off_col(entries, pe, first)),
    decreases entries.len(),
{
    if entries.len() > 0 {
        let rest = entries.drop_first();
        assert(spec_dir_encodable(rest)) by {
            assert(forall|i: int, j: int|
                0 <= i < j < rest.len() ==> rest[i] == entries[i + 1] && rest[j] == entries[j + 1]);
            assert(forall|i: int| 0 <= i < rest.len() ==> rest[i] == entries[i + 1]);
        }
        lemma_off_col_fit(rest, (entries[0].offset + entries[0].length) as nat, false);
        let col = spec_off_col(entries, pe, first);
        let tail = spec_off_col(rest, (entries[0].offset + entries[0].length) as nat, false);
        assert(col[0] <= u64::MAX);
        assert(forall|k: int| 1 <= k < col.len() ==> col[k] == tail[k - 1]);
    }
}

/// Round trip of the directory codec: every encodable entry list is
/// recovered exactly from its uncompressed wire bytes.
pub proof fn lemma_directory_roundtrip(entries: Seq<Entry>)
    requires
        spec_dir_encodable(entries),
        entries.len() <= usize::MAX,
    ensures
        spec_parse_directory(spec_encode_directory(entries)) == Some(entries),
{
    let a = spec_varint(entries.len());
    let dd = spec_delta_col(entries, 0);
    let rr = spec_run_col(entries);
    let ll = spec_len_col(entries);
    let oo = spec_off_col(entries, 0, true);
    let b = spec_varints_cat(dd);
    let c = spec_varints_cat(rr);
    let d = spec_varints_cat(ll);
    let e = spec_varints_cat(oo);
    let s = spec_encode_directory(entries);
    lemma_delta_col_len(entries, 0);
    lemma_off_col_len(entries, 0, true);
    assert(s.len() == a.len() + b.len() + c.len() + d.len() + e.len());
    let i1 = a.len() as int;
    let i2 = i1 + b.len() as int;
    let i3 = i2 + c.len() as int;
    let i4 = i3 + d.len() as int;
    let i5 = i4 + e.len() as int;
    assert(s.subrange(0, i1) =~= a);
    assert(s.subrange(i1, i2) =~= b);
    assert(s.subrange(i2, i3) =~= c);
    assert(s.subrange(i3, i4) =~= d);
    assert(s.subrange(i4, i5) =~= e);
    lemma_parse_varint_of_encoded(s, 0, entries.len());
    lemma_parse_varints_of_encoded(s, i1, dd);
    lemma_parse_varints_of_encoded(s, i2, rr);
    lemma_parse_varints_of_encoded(s, i3, ll);
    lemma_parse_varints_of_encoded(s, i4, oo);
    lemma_delta_col_fit(entries, 0);
    lemma_off_col_fit(entries, 0, true);
    assert(all_fit_u64(rr)) by {
        assert(forall|k: int| 0 <= k < rr.len() ==> rr[k] == entries[k].run_length as nat);
    }
    assert(all_fit_u64(ll)) by {
        assert(forall|k: int| 0 <= k < ll.len() ==> ll[k] == entries[k].length as nat);
    }
    lemma_assemble_inverts(entries, 0, 0, true);
}

impl Directory {
    /// Decode a directory from uncompressed wire bytes.
    ///
    /// Fails with `Malformed` exactly when the bytes do not parse.
    pub fn from_uncompressed_bytes(bytes: &Vec<u8>) -> (r: Result<Directory, PmtError>)
        ensures
            match spec_parse_directory(bytes@) {
                Some(es) => r is Ok && r->Ok_0@ == es,
                None => r == Err::<Directory, PmtError>(PmtError::Malformed),
            },
    {
        let (n64, i1) = match read_varint(bytes, 0) {
            Ok(v) => v,
            Err(_) => {
                return Err(PmtError::Malformed);
            },
        };
        if n64 > usize::MAX as u64 {
            return Err(PmtError::Malformed);
        }
        let n = n64 as usize;
        let (deltas, i2) = match read_varint_column(bytes, i1, n) {
            Ok(v) => v,
            Err(_) => {
                return Err(PmtError::Malformed);
            },
        };
        let (runs, i3) = match read_varint_column(bytes, i2, n) {
            Ok(v) => v,
            Err(_) => {
                return Err(PmtError::Malformed);
            },
        };
        let (lens, i4) = match read_varint_column(bytes, i3, n) {
            Ok(v) => v,
            Err(_) => {
                return Err(PmtError::Malformed);
            },
        };
        let (offs, _i5) = match read_varint_column(bytes, i4, n) {
            Ok(v) => v,
            Err(_) => {
                return Err(PmtError::Malformed);
            },
        };
        let ghost dn = as_nats(deltas@);
        let ghost rn = as_nats(runs@);
        let ghost ln = as_nats(lens@);
        let ghost on = as_nats(offs@);
        proof {
            crate::varint::lemma_parse_varints_range(bytes@, i1 as int, n as nat);
            crate::varint::lemma_parse_varints_range(bytes@, i2 as int, n as nat);
            crate::varint::lemma_parse_varints_range(bytes@, i3 as int, n as nat);
            crate::varint::lemma_parse_varints_range(bytes@, i4 as int, n as nat);
        }
        let ghost full = spec_assemble_entries(dn, rn, ln, on, 0, 0, true);
        proof {
            assert(spec_parse_directory(bytes@) == full);
            assert(dn.skip(0) =~= dn);
            assert(rn.skip(0) =~= rn);
            assert(ln.skip(0) =~= ln);
            assert(on.skip(0) =~= on);
            if full is Some {
                assert(Seq::<Entry>::empty() + full->Some_0 =~= full->Some_0);
            }
        }
        let mut entries: Vec<Entry> = Vec::new();
        let mut prev_id: u64 = 0;
        let mut prev_end: Option<u64> = Some(0);
        let ghost mut prev_end_g: nat = 0nat;
        let mut k: usize = 0;
        while k < n
            invariant
                k <= n,
                deltas@.len() == n,
                runs@.len() == n,
                lens@.len() == n,
                offs@.len() == n,
                dn == as_nats(deltas@),
                rn == as_nats(runs@),
                ln == as_nats(lens@),
                on == as_nats(offs@),
                entries@.len() == k,
                full == spec_assemble_entries(dn, rn, ln, on, 0, 0, true),
                spec_parse_directory(bytes@) == full,
                match prev_end {
                    Some(pe) => pe as nat == prev_end_g,
                    None => prev_end_g > u64::MAX,
                },
                match spec_assemble_entries(
                    dn.skip(k as int),
                    rn.skip(k as int),
                    ln.skip(k as int),
                    on.skip(k as int),
                    prev_id as nat,
                    prev_end_g,
                    k == 0,
                ) {
                    None => full is None,
                    Some(rest) => full == Some(entries@ + rest),
                },
            decreases n - k,
        {
            let ghost dsk = dn.skip(k as int);
            let ghost rsk = rn.skip(k as int);
            let ghost lsk = ln.skip(k as int);
            let ghost osk = on.skip(k as int);
            proof {
                assert(dsk[0] == dn[k as int] && dsk.len() == n - k);
                assert(rsk[0] == rn[k as int]);
                assert(lsk[0] == ln[k as int]);
                assert(osk[0] == on[k as int]);
                assert(dsk.drop_first() =~= dn.skip(k + 1));
                assert(rsk.drop_first() =~= rn.skip(k + 1));
                assert(lsk.drop_first() =~= ln.skip(k + 1));
                assert(osk.drop_first() =~= on.skip(k + 1));
            }
            let dv = deltas[k];
            let id = match prev_id.checked_add(dv) {
                Some(v) => v,
                None => {
                    return Err(PmtError::Malformed);
                },
            };
            let run64 = runs[k];
            let len64 = lens[k];
            if run64 > u32::MAX as u64 || len64 > u32::MAX as u64 {
                return Err(PmtError::Malformed);
            }
            let ov = offs[k];
            let off: u64;
            if k > 0 && ov == 0 {
                match prev_end {
                    Some(pe) => {
                        off = pe;
                    },
                    None => {
                        return Err(PmtError::Malformed);
                    },
                }
            } else if ov == 0 {
                return Err(PmtError::Malformed);
            } else {
                off = ov - 1;
            }
            let e = Entry { tile_id: id, offset: off, length: len64 as u32, run_length: run64 as u32 };
            proof {
                assert(spec_assemble_entries(
                    dsk,
                    rsk,
                    lsk,
                    osk,
                    prev_id as nat,
                    prev_end_g,
                    k == 0,
                ) == match spec_assemble_entries(
                    dn.skip(k + 1),
                    rn.skip(k + 1),
                    ln.skip(k + 1),
                    on.skip(k + 1),
                    id as nat,
                    off as nat + len64 as nat,
                    false,
                ) {
                    Option::None => Option::<Seq<Entry>>::None,
                    Some(rest) => Some(seq![e] + rest),
                });
                if spec_assemble_entries(
                    dn.skip(k + 1),
                    rn.skip(k + 1),
                    ln.skip(k + 1),
                    on.skip(k + 1),
                    id as nat,
                    off as nat + len64 as nat,
                    false,
                ) is Some {
                    let rest = spec_assemble_entries(
                        dn.skip(k + 1),
                        rn.skip(k + 1),
                        ln.skip(k + 1),
                        on.skip(k + 1),
                        id as nat,
                        off as nat + len64 as nat,
                        false,
                    )->Some_0;
                    assert(entries@ + (seq![e] + rest) =~= entries@.push(e) + rest);
                }
            }
            entries.push(e);
            prev_id = id;
            prev_end = off.checked_add(len64);
            proof {
                prev_end_g = off as nat + len64 as nat;
            }
            k = k + 1;
        }
        proof {
            assert(dn.skip(n as int) =~= Seq::<nat>::empty());
            assert(rn.skip(n as int) =~= Seq::<nat>::empty());
            assert(ln.skip(n as int) =~= Seq::<nat>::empty());
            assert(on.skip(n as int) =~= Seq::<nat>::empty());
            assert(entries@ + Seq::<Entry>::empty() =~= entries@);
        }
        Ok(Directory { entries })
    }

    /// Encode the directory into its uncompressed wire bytes.
    #[verifier::rlimit(100)]
    pub fn to_uncompressed_bytes(&self) -> (r: Vec<u8>)
        requires
            spec_dir_encodable(self@),
        ensures
            r@ == spec_encode_directory(self@),
    {
        let ghost es = self@;
        let n = self.entries.len();
        let mut out: Vec<u8> = Vec::new();
        write_varint(&mut out, n as u64);
        let ghost p0 = out@;
        proof {
            assert(p0 == spec_varint(es.len()));
        }
        let mut last_id: u64 = 0;
        for k in 0..n
            invariant
                n == es.len(),
                self@ == es,
                spec_dir_encodable(es),
                out@ == p0 + spec_varints_cat(spec_delta_col(es.take(k as int), 0)),
                last_id as nat == spec_last_id(es.take(k as int), 0),
                p0 == spec_varint(es.len()),
        {
            let e = self.entries[k];
            proof {
                lemma_delta_col_snoc(es.take(k as int), e, 0);
                lemma_varints_cat_push(
                    spec_delta_col(es.take(k as int), 0),
                    (e.tile_id - spec_last_id(es.take(k as int), 0)) as nat,
                );
                assert(es.take(k + 1) =~= es.take(k as int).push(e));
                if k > 0 {
                    assert(es.take(k as int).last() == es[k as int - 1]);
                }
            }
            write_varint(&mut out, e.tile_id - last_id);
            last_id = e.tile_id;
        }
        proof {
            assert(es.take(n as int) =~= es);
        }
        let ghost p1 = out@;
        for k in 0..n
            invariant
                n == es.len(),
                self@ == es,
                spec_dir_encodable(es),
                out@ == p1 + spec_varints_cat(spec_run_col(es).take(k as int)),
                p1 == p0 + spec_varints_cat(spec_delta_col(es, 0)),
                p0 == spec_varint(es.len()),
        {
            let e = self.entries[k];
            proof {
                lemma_varints_cat_push(spec_run_col(es).take(k as int), e.run_length as nat);
                assert(spec_run_col(es).take(k + 1) =~= spec_run_col(es).take(k as int).push(
                    e.run_length as nat,
                ));
            }
            write_varint(&mut out, e.run_length as u64);
        }
        proof {
            assert(spec_run_col(es).take(n as int) =~= spec_run_col(es));
        }
        let ghost p2 = out@;
        for k in 0..n
            invariant
                n == es.len(),
                self@ == es,
                spec_dir_encodable(es),
                out@ == p2 + spec_varints_cat(spec_len_col(es).take(k as int)),
                p2 == p1 + spec_varints_cat(spec_run_col(es)),
                p1 == p0 + spec_varints_cat(spec_delta_col(es, 0)),
                p0 == spec_varint(es.len()),
        {
            let e = self.entries[k];
            proof {
                lemma_varints_cat_push(spec_len_col(es).take(k as int), e.length as nat);
                assert(spec_len_col(es).take(k + 1) =~= spec_len_col(es).take(k as int).push(
                    e.length as nat,
                ));
            }
            write_varint(&mut out, e.length as u64);
        }
        proof {
            assert(spec_len_col(es).take(n as int) =~= spec_len_col(es));
        }
        let ghost p3 = out@;
        let mut next_byte: u64 = 0;
        for k in 0..n
            invariant
                n == es.len(),
                self@ == es,
                spec_dir_encodable(es),
                out@ == p3 + spec_varints_cat(spec_off_col(es.take(k as int), 0, true)),
                next_byte as nat == spec_last_end(es.take(k as int), 0),
                p3 == p2 + spec_varints_cat(spec_len_col(es)),
                p2 == p1 + spec_varints_cat(spec_run_col(es)),
                p1 == p0 + spec_varints_cat(spec_delta_col(es, 0)),
                p0 == spec_varint(es.len()),
        {
            let e = self.entries[k];
            let v: u64 = if k > 0 && e.offset == next_byte {
                0
            } else {
                e.offset + 1
            };
            proof {
                lemma_off_col_snoc(es.take(k as int), e, 0, true);
                lemma_varints_cat_push(spec_off_col(es.take(k as int), 0, true), v as nat);
                assert(es.take(k + 1) =~= es.take(k as int).push(e));
            }
            write_varint(&mut out, v);
            next_byte = e.offset + e.length as u64;
        }
        proof {
            assert(es.take(n as int) =~= es);
        }
        out
    }

    /// Encode the directory and compress it under `compression`.
    ///
    /// Fails exactly when `compression` is `Unknown`; the result
    /// decompresses back to the wire bytes of the directory.
    pub fn to_compressed_bytes(&self, compression: Compression) -> (r: Result<Vec<u8>, PmtError>)
        requires
            spec_dir_encodable(self@),
        ensures
            compression is Unknown <==> r == Err::<Vec<u8>, PmtError>(
                PmtError::UnsupportedCompression,
            ),
            r is Ok <==> !(compression is Unknown),
            r is Ok ==> spec_decompress(compression, r->Ok_0@) == Some(
                spec_encode_directory(self@),
            ),
    {
        let plain = self.to_uncompressed_bytes();
        compress_all(compression, &plain)
    }

    /// Decode a directory from compressed bytes.
    ///
    /// Fails with `UnsupportedCompression` exactly when `compression` is
    /// `Unknown`, and with `Malformed` exactly when the bytes do not
    /// decompress or do not parse.
    pub fn from_compressed_bytes(bytes: &Vec<u8>, compression: Compression) -> (r: Result<
        Directory,
        PmtError,
    >)
        ensures
            compression is Unknown <==> r == Err::<Directory, PmtError>(
                PmtError::UnsupportedCompression,
            ),
            !(compression is Unknown) ==> match spec_decompress(compression, bytes@) {
                Option::None => r == Err::<Directory, PmtError>(PmtError::Malformed),
                Some(plain) => match spec_parse_directory(plain) {
                    Some(es) => r is Ok && r->Ok_0@ == es,
                    Option::None => r == Err::<Directory, PmtError>(PmtError::Malformed),
                },
            },
    {
        let plain = decompress_all(compression, bytes)?;
        Directory::from_uncompressed_bytes(&plain)
    }

    /// Read `length` compressed bytes from a reader and decode them as a
    /// directory.
    pub fn from_reader<R: std::io::Read>(
        input: &mut R,
        length: u64,
        compression: Compression,
    ) -> (r: Result<Directory, PmtError>)
        ensures
            compression is Unknown && length <= usize::MAX ==> r is Err,
    {
        if length > usize::MAX as u64 {
            return Err(PmtError::Malformed);
        }
        let buf = read_exact_vec(input, length as usize)?;
        Directory::from_compressed_bytes(&buf, compression)
    }

    /// Encode the directory, compress it and write it to a writer.
    ///
    /// Fails exactly when `compression` is `Unknown` (with
    /// `UnsupportedCompression`) or when a write to `output` fails (with
    /// `Io`).
    pub fn to_writer<W: std::io::Write>(
        &self,
        output: &mut W,
        compression: Compression,
    ) -> (r: Result<(), PmtError>)
        requires
            spec_dir_encodable(self@),
        ensures
            compression is Unknown <==> r == Err::<(), PmtError>(PmtError::UnsupportedCompression),
            r is Err ==> r->Err_0 == PmtError::UnsupportedCompression || r->Err_0 == PmtError::Io,
    {
        let bytes = self.to_compressed_bytes(compression)?;
        write_all(output, &bytes)
    }
}


} // verus!
