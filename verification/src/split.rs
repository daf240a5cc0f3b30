//! The root/leaf splitter: the root directory plus the 127-byte header
//! must fit a single 16384-byte initial fetch, so an oversized root is
//! split into leaf directories of doubling chunk size until it does.
use vstd::prelude::*;

use crate::compression::{spec_decompress, Compression};
use crate::directory::{spec_dir_encodable, spec_encode_directory, Directory, Entry};
use crate::error::PmtError;
use crate::io_util::write_all;

verus! {

/// Greatest size (in bytes) of the compressed root directory: 16384
/// less the header's 127 bytes.
pub const MAX_ROOT_DIR_LENGTH: u64 = 16257;

/// Strategies to divide entries into leaf directories when the root
/// directory overflows its size budget.
#[derive(Debug, Clone, Copy, PartialEq, Eq, Structural)]
#[non_exhaustive]
pub enum WriteDirsOverflowStrategy {
    /// Move all entries into leaf directories, so the root holds only
    /// leaf pointers; the leaf chunk size doubles until the root fits.
    OnlyLeafPointers {
        /// The starting chunk size in entries (4096 when absent).
        start_size: Option<usize>,
    },
}

impl Default for WriteDirsOverflowStrategy {
    /// Leaf pointers only, with the default starting chunk size.
    fn default() -> (r: WriteDirsOverflowStrategy)
        ensures
            r == (WriteDirsOverflowStrategy::OnlyLeafPointers { start_size: None }),
    {
        WriteDirsOverflowStrategy::OnlyLeafPointers { start_size: None }
    }
}

/// Encode all entries into a root directory and, where the root would
/// overflow its budget, into leaf directories pointed to by the root.
///
/// On success the first buffer is the compressed root, no longer than
/// `MAX_ROOT_DIR_LENGTH` bytes; it decompresses to the wire bytes of an
/// encodable directory holding either the given entries themselves or
/// leaf pointers only (entries of run length 0). The second buffer is
/// the leaf-directories section (empty when everything fit in the
/// root).
pub fn split_directories(
    all_entries: &Vec<Entry>,
    compression: Compression,
    start_size: Option<usize>,
) -> (r: Result<(Vec<u8>, Vec<u8>), PmtError>)
    requires
        spec_dir_encodable(all_entries@),
    ensures
        compression is Unknown ==> r == Err::<(Vec<u8>, Vec<u8>), PmtError>(
            PmtError::UnsupportedCompression,
        ),
        r is Err ==> r->Err_0 == PmtError::UnsupportedCompression || r->Err_0
            == PmtError::Malformed || r->Err_0 == PmtError::RootDirOverflow,
        !(compression is Unknown) && r is Err ==> r->Err_0 == PmtError::Malformed || r->Err_0
            == PmtError::RootDirOverflow,
        r is Ok ==> ({
            let (root, _leaves) = r->Ok_0;
            &&& root@.len() <= MAX_ROOT_DIR_LENGTH
            &&& exists|es: Seq<Entry>|
                spec_dir_encodable(es) && spec_decompress(compression, root@) == Some(
                    spec_encode_directory(es),
                ) && (es == all_entries@ || forall|j: int|
                    0 <= j < es.len() ==> (#[trigger] es[j]).run_length == 0)
        }),
{
    let whole = Directory::from_entries(all_entries.clone());
    proof {
        assert(whole@ =~= all_entries@);
    }
    let root = whole.to_compressed_bytes(compression)?;
    if root.len() as u64 <= MAX_ROOT_DIR_LENGTH {
        proof {
            assert(spec_dir_encodable(all_entries@) && spec_decompress(compression, root@) == Some(
                spec_encode_directory(all_entries@),
            ) && all_entries@ == all_entries@);
        }
        return Ok((root, Vec::new()));
    }
    let n = all_entries.len();
    let mut leaf_size: usize = match start_size {
        Some(s) => if s == 0 {
            4096
        } else {
            s
        },
        None => 4096,
    };
    let mut attempts: u32 = 64;
    while attempts > 0
        invariant
            leaf_size >= 1,
            n == all_entries@.len(),
            spec_dir_encodable(all_entries@),
            !(compression is Unknown),
        decreases attempts,
    {
        let mut leaf_bytes: Vec<u8> = Vec::new();
        let mut root_entries: Vec<Entry> = Vec::new();
        let mut i: usize = 0;
        while i < n
            invariant
                i <= n,
                n == all_entries@.len(),
                leaf_size >= 1,
                spec_dir_encodable(all_entries@),
                !(compression is Unknown),
                spec_dir_encodable(root_entries@),
                forall|j: int| 0 <= j < root_entries@.len() ==> (#[trigger] root_entries@[j]).run_length == 0,
                forall|j: int|
                    0 <= j < root_entries@.len() ==> (#[trigger] root_entries@[j]).offset
                        + root_entries@[j].length <= leaf_bytes@.len(),
                root_entries@.len() > 0 && i < n ==> root_entries@.last().tile_id
                    <= all_entries@[i as int].tile_id,
            decreases n - i,
        {
            let end = if n - i < leaf_size {
                n
            } else {
                i + leaf_size
            };
            let mut chunk: Vec<Entry> = Vec::new();
            let mut j: usize = i;
            while j < end
                invariant
                    i <= j <= end <= n,
                    n == all_entries@.len(),
                    chunk@ == all_entries@.subrange(i as int, j as int),
                decreases end - j,
            {
                chunk.push(all_entries[j]);
                proof {
                    assert(chunk@ =~= all_entries@.subrange(i as int, j + 1));
                }
                j = j + 1;
            }
            proof {
                assert(spec_dir_encodable(chunk@)) by {
                    assert(forall|a: int|
                        0 <= a < chunk@.len() ==> chunk@[a] == all_entries@[i + a]);
                }
            }
            let chunk_dir = Directory::from_entries(chunk);
            if leaf_bytes.len() as u64 == u64::MAX {
                return Err(PmtError::Malformed);
            }
            let offset = leaf_bytes.len() as u64;
            let cbytes = match chunk_dir.to_compressed_bytes(compression) {
                Ok(b) => b,
                Err(e) => {
                    return Err(e);
                },
            };
            if cbytes.len() > u32::MAX as usize {
                return Err(PmtError::Malformed);
            }
            let clen = cbytes.len() as u32;
            let mut cb = cbytes;
            leaf_bytes.append(&mut cb);
            proof {
                assert(leaf_bytes.len() <= usize::MAX);
            }
            let first_id = all_entries[i].tile_id;
            let ghost re_pre = root_entries@;
            root_entries.push(Entry { tile_id: first_id, offset, length: clen, run_length: 0 });
            proof {
                let re = root_entries@;
                assert(forall|a: int| 0 <= a < re_pre.len() ==> re[a] == re_pre[a]);
                assert(re[re.len() - 1] == (Entry {
                    tile_id: first_id,
                    offset,
                    length: clen,
                    run_length: 0u32,
                }));
                assert(spec_dir_encodable(re)) by {
                    assert forall|a: int, b: int|
                        0 <= a < b < re.len() implies re[a].tile_id <= re[b].tile_id by {
                        if b < re.len() - 1 {
                            assert(re[a] == re_pre[a] && re[b] == re_pre[b]);
                        } else {
                            assert(re[a] == re_pre[a]);
                            assert(re_pre[a].tile_id <= re_pre[re_pre.len() - 1].tile_id || a
                                == re_pre.len() - 1);
                        }
                    }
                }
                assert(forall|j2: int|
                    0 <= j2 < re.len() ==> (#[trigger] re[j2]).offset + re[j2].length
                        <= leaf_bytes@.len());
                if end < n {
                    assert(all_entries@[i as int].tile_id <= all_entries@[end as int].tile_id);
                }
            }
            i = end;
        }
        let ghost res = root_entries@;
        let root_dir = Directory::from_entries(root_entries);
        let root2 = root_dir.to_compressed_bytes(compression)?;
        if root2.len() as u64 <= MAX_ROOT_DIR_LENGTH {
            proof {
                assert(spec_dir_encodable(res) && spec_decompress(compression, root2@) == Some(
                    spec_encode_directory(res),
                ) && (forall|j: int| 0 <= j < res.len() ==> (#[trigger] res[j]).run_length == 0));
            }
            return Ok((root2, leaf_bytes));
        }
        if leaf_size >= n {
            return Err(PmtError::RootDirOverflow);
        }
        leaf_size = match leaf_size.checked_mul(2) {
            Some(v) => v,
            None => n,
        };
        attempts = attempts - 1;
    }
    Err(PmtError::RootDirOverflow)
}

/// Write the root directory to a writer and return the bytes of the
/// leaf-directories section (empty when no leaves were needed). The
/// compressed root is never longer than `MAX_ROOT_DIR_LENGTH` bytes.
///
/// Fails with `UnsupportedCompression` exactly when `compression` is
/// `Unknown`; otherwise only with `Io` (a write failed), `Malformed` (a
/// section outgrew its size field) or `RootDirOverflow` (no chunking
/// made the root fit).
pub fn write_directories<W: std::io::Write + std::io::Seek>(
    output: &mut W,
    all_entries: &Vec<Entry>,
    compression: Compression,
    overflow_strategy: Option<WriteDirsOverflowStrategy>,
) -> (r: Result<Vec<u8>, PmtError>)
    requires
        spec_dir_encodable(all_entries@),
    ensures
        compression is Unknown <==> r == Err::<Vec<u8>, PmtError>(
            PmtError::UnsupportedCompression,
        ),
        r is Err ==> r->Err_0 == PmtError::UnsupportedCompression || r->Err_0 == PmtError::Io
            || r->Err_0 == PmtError::Malformed || r->Err_0 == PmtError::RootDirOverflow,
{
    let start_size = match overflow_strategy {
        Some(WriteDirsOverflowStrategy::OnlyLeafPointers { start_size }) => start_size,
        None => None,
    };
    let (root, leaves) = split_directories(all_entries, compression, start_size)?;
    write_all(output, &root)?;
    Ok(leaves)
}

} // verus!
