//! Decompression of zlib streams.

use std::io::Read;
use vstd::prelude::*;

verus! {

/// The error of a failed read.
#[verifier::external_type_specification]
#[verifier::external_body]
pub struct ExIoError(std::io::Error);

/// The bytes that a zlib stream stands for, or `None` where it is corrupt or
/// cut off.
pub uninterp spec fn inflated(stream: Seq<u8>) -> Option<Seq<u8>>;

/// Calls `flate2::read::ZlibDecoder` on `stream` and reads it to its end
/// (`Read::read_to_end`). Returns the bytes that were read, and whether the
/// reading failed. The outcome is named by [`inflated`]. How many bytes were
/// read before a failure is left open, as it depends on the room that the
/// reads had, and so is which `std::io::Error` comes.
#[verifier::external_body]
pub(crate) fn inflate(stream: &[u8]) -> (r: (Vec<u8>, Result<(), std::io::Error>))
    ensures
        match r.1 {
            Ok(_) => inflated(stream@) == Some(r.0@),
            Err(_) => inflated(stream@) is None,
        },
{
    let mut bytes = Vec::new();
    let outcome = flate2::read::ZlibDecoder::new(stream).read_to_end(&mut bytes);
    (bytes, outcome.map(|_| ()))
}

/// Whether `left` is what a call of [`inflate`] on `stream` reads before it
/// fails.
pub closed spec fn read_before_failure(stream: Seq<u8>, left: Seq<u8>) -> bool {
    exists|bytes: &[u8], answer: (Vec<u8>, Result<(), std::io::Error>)|
        #![trigger bytes@, answer.0@]
        bytes@ == stream && answer.0@ == left && answer.1 is Err && call_ensures(
            inflate,
            (bytes,),
            answer,
        )
}

/// Inflate `stream`, or get what was read before a failure.
pub(crate) fn inflate_or_left(stream: &[u8]) -> (r: Result<Vec<u8>, Vec<u8>>)
    ensures
        match r {
            Ok(bytes) => inflated(stream@) == Some(bytes@),
            Err(left) => inflated(stream@) is None && read_before_failure(stream@, left@),
        },
{
    let (bytes, outcome) = inflate(stream);
    match outcome {
        Ok(()) => Ok(bytes),
        Err(_) => Err(bytes),
    }
}

} // verus!
