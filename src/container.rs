//! Sections of a sprite container: a two-byte tag, a length at offset 8, a body from offset 12.
use vstd::prelude::*;
use crate::bytes::{le32, read_uint32_le};
use crate::error::DecodeError;

verus! {

/// The first byte of every section's tag.
pub const MAGIC_0: u8 = 0xE9;

/// The second byte of every section's tag.
pub const MAGIC_1: u8 = 0x03;

/// Bytes before a section's body: the tag, padding, and the body length at offset 8.
pub const SECTION_PREFIX: usize = 12;

/// Where the section at the start of `b` ends (its body is `b[12..end]`), or why it cannot be read.
pub open spec fn section_end(b: Seq<u8>) -> Result<int, DecodeError> {
    if b.len() < 2 {
        Err(DecodeError::TruncatedInput)
    } else if b[0] != MAGIC_0 || b[1] != MAGIC_1 {
        Err(DecodeError::BadMagic)
    } else if b.len() < 12 {
        Err(DecodeError::TruncatedInput)
    } else if 12 + le32(b, 8) > b.len() {
        Err(DecodeError::TruncatedInput)
    } else {
        Ok(12 + le32(b, 8))
    }
}

/// Splits the section at the start of `buf` into its body and the bytes after it.
pub fn open_section(buf: &[u8]) -> (r: Result<(&[u8], &[u8]), DecodeError>)
    ensures
        match section_end(buf@) {
            Ok(end) => r matches Ok((body, rest)) && body@ == buf@.subrange(12, end)
                && rest@ == buf@.subrange(end, buf@.len() as int),
            Err(e) => r == Err::<(&[u8], &[u8]), DecodeError>(e),
        },
        r matches Ok((body, rest)) ==> body@ + rest@ == buf@.subrange(12, buf@.len() as int),
{
    if buf.len() < 2 {
        return Err(DecodeError::TruncatedInput);
    }
    if buf[0] != MAGIC_0 || buf[1] != MAGIC_1 {
        return Err(DecodeError::BadMagic);
    }
    if buf.len() < SECTION_PREFIX {
        return Err(DecodeError::TruncatedInput);
    }
    let length = read_uint32_le(&buf[8..12]) as usize;
    if length > buf.len() - SECTION_PREFIX {
        return Err(DecodeError::TruncatedInput);
    }
    let end = SECTION_PREFIX + length;
    let body = &buf[SECTION_PREFIX..end];
    let rest = &buf[end..buf.len()];
    assert(body@ + rest@ =~= buf@.subrange(12, buf@.len() as int));
    Ok((body, rest))
}

/// The bytes after the section at the start of `buf`, its body left unread.
pub fn skip_section(buf: &[u8]) -> (r: Result<&[u8], DecodeError>)
    ensures
        match section_end(buf@) {
            Ok(end) => r matches Ok(rest) && rest@ == buf@.subrange(end, buf@.len() as int),
            Err(e) => r == Err::<&[u8], DecodeError>(e),
        },
{
    match open_section(buf) {
        Ok((_, rest)) => Ok(rest),
        Err(e) => Err(e),
    }
}

} // verus!
