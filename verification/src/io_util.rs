//! Trusted shims around the std byte-stream traits: every verified
//! function touches readers and writers only through these.
use vstd::prelude::*;

use crate::error::PmtError;

verus! {

/// Relies on `std::io::Read::read_exact`: on success the result holds
/// exactly `len` bytes taken from the reader at its current position.
#[verifier::external_body]
pub(crate) fn read_exact_vec<R: std::io::Read>(reader: &mut R, len: usize) -> (r: Result<
    Vec<u8>,
    PmtError,
>)
    ensures
        r is Ok ==> r->Ok_0@.len() == len as nat,
        r is Err ==> r->Err_0 == PmtError::Io,
{
    let mut buf = vec![0u8; len];
    match reader.read_exact(&mut buf) {
        Ok(()) => Ok(buf),
        Err(_) => Err(PmtError::Io),
    }
}

/// Relies on `std::io::Seek::seek` with `SeekFrom::Start`: it moves the
/// stream to the absolute offset.
#[verifier::external_body]
pub(crate) fn seek_to<R: std::io::Seek>(reader: &mut R, offset: u64) -> (r: Result<(), PmtError>)
    ensures
        r is Err ==> r->Err_0 == PmtError::Io,
{
    match reader.seek(std::io::SeekFrom::Start(offset)) {
        Ok(_) => Ok(()),
        Err(_) => Err(PmtError::Io),
    }
}

/// Relies on `std::io::Write::write_all`: on success every byte of `data`
/// was written to the stream.
#[verifier::external_body]
pub(crate) fn write_all<W: std::io::Write>(writer: &mut W, data: &Vec<u8>) -> (r: Result<
    (),
    PmtError,
>)
    ensures
        r is Err ==> r->Err_0 == PmtError::Io,
{
    match writer.write_all(data.as_slice()) {
        Ok(()) => Ok(()),
        Err(_) => Err(PmtError::Io),
    }
}

} // verus!
