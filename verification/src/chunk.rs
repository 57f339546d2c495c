//! Reading a text file in chunks: what to do with the bytes read so far, so
//! that every chunk handed on ends on a character boundary.
use vstd::prelude::*;

verus! {

/// What decoding a run of bytes as UTF-8 finds.
#[derive(Debug, Clone, Copy, PartialEq, Eq, Structural)]
pub enum Utf8Status {
    /// All of them are valid UTF-8.
    Valid,
    /// The first `n` are valid, and the rest begin a character that more
    /// bytes may complete.
    Incomplete(usize),
    /// They hold a sequence that no more bytes can make valid.
    Invalid,
}

/// What decoding `bytes` as UTF-8 finds.
pub uninterp spec fn utf8_status(bytes: Seq<u8>) -> Utf8Status;

/// Trusted: `std::str::from_utf8` decodes the bytes; when it fails, its error
/// says up to where the bytes are valid, and `error_len` is `None` exactly
/// when the input ended inside a character. Then that prefix is shorter than
/// the input. What the decoding finds is named, not stated.
#[verifier::external_body]
fn decode_status(bytes: &[u8]) -> (r: Utf8Status)
    ensures
        r == utf8_status(bytes@),
        match r {
            Utf8Status::Incomplete(n) => n < bytes@.len(),
            _ => true,
        },
{
    match std::str::from_utf8(bytes) {
        Ok(_) => Utf8Status::Valid,
        Err(e) => match e.error_len() {
            None => Utf8Status::Incomplete(e.valid_up_to()),
            Some(_) => Utf8Status::Invalid,
        },
    }
}

/// What the reader does next.
#[derive(Debug, Clone, Copy, PartialEq, Eq, Structural)]
pub enum ChunkStep {
    /// Hand on the first `n` bytes as text, and keep the rest for the next read.
    Emit(usize),
    /// The file has ended with nothing left over: stop.
    Done,
    /// The file has ended inside a character.
    Truncated,
    /// The bytes are not UTF-8.
    Invalid,
}

/// The step that the bytes in `buf` call for, where `buf` holds the bytes
/// kept from before followed by the `n_read` bytes just read (none at the end
/// of the file).
pub open spec fn chunk_step_spec(buf: Seq<u8>, n_read: nat) -> ChunkStep {
    if n_read == 0 {
        if buf.len() > 0 {
            ChunkStep::Truncated
        } else {
            ChunkStep::Done
        }
    } else {
        match utf8_status(buf) {
            Utf8Status::Valid => ChunkStep::Emit(buf.len() as usize),
            Utf8Status::Incomplete(n) => ChunkStep::Emit(n),
            Utf8Status::Invalid => ChunkStep::Invalid,
        }
    }
}

/// Decides what to do after a read: at the end of the file, stop, or fail if
/// bytes are left over; otherwise hand on all the bytes, or the valid ones
/// before a character cut off at the end, or fail on invalid bytes.
pub fn chunk_step(buf: &[u8], n_read: usize) -> (r: ChunkStep)
    ensures
        r == chunk_step_spec(buf@, n_read as nat),
        match r {
            ChunkStep::Emit(n) => n <= buf@.len(),
            _ => true,
        },
{
    if n_read == 0 {
        if buf.len() > 0 {
            ChunkStep::Truncated
        } else {
            ChunkStep::Done
        }
    } else {
        match decode_status(buf) {
            Utf8Status::Valid => ChunkStep::Emit(buf.len()),
            Utf8Status::Incomplete(n) => ChunkStep::Emit(n),
            Utf8Status::Invalid => ChunkStep::Invalid,
        }
    }
}

} // verus!
