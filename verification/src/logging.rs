//! Keeping the Nexus API key out of messages.

use vstd::prelude::*;
use vstd::string::*;
use vstd::utf8::*;

verus! {

/// The last character boundary of `bytes` at or before byte `i`.
pub open spec fn boundary_at_or_before(bytes: Seq<u8>, i: int) -> int
    decreases i,
{
    if i <= 0 {
        0
    } else if is_char_boundary(bytes, i) {
        i
    } else {
        boundary_at_or_before(bytes, i - 1)
    }
}

/// The first character boundary of `bytes` at or after byte `i`.
pub open spec fn boundary_at_or_after(bytes: Seq<u8>, i: int) -> int
    decreases bytes.len() - i,
{
    if i >= bytes.len() {
        bytes.len() as int
    } else if is_char_boundary(bytes, i) {
        i
    } else {
        boundary_at_or_after(bytes, i + 1)
    }
}

/// What a redacted key reads: short keys (at most 8 bytes) are hidden
/// entirely; longer ones keep the whole characters within their first four
/// and within their last four bytes, around `***`.
pub open spec fn redacted(bytes: Seq<u8>) -> Seq<char> {
    if bytes.len() <= 8 {
        "***REDACTED***"@
    } else {
        decode_utf8(bytes.subrange(0, boundary_at_or_before(bytes, 4))) + "***"@ + decode_utf8(
            bytes.subrange(boundary_at_or_after(bytes, bytes.len() - 4), bytes.len() as int),
        )
    }
}

/// Returns the API key redacted for use in error messages or log lines; any
/// key can be redacted.
pub fn redact_key(key: &str) -> (r: String)
    requires
        key.spec_bytes().len() <= usize::MAX,
    ensures
        r@ == redacted(key.spec_bytes()),
{
    let len = key.len();
    if len <= 8 {
        return String::from_str("***REDACTED***");
    }
    let ghost bytes = key.spec_bytes();
    proof {
        encode_utf8_valid_utf8(key@);
        is_char_boundary_start_end_of_seq(bytes);
    }
    let mut front: usize = 4;
    while !key.is_char_boundary(front)
        invariant
            0 <= front <= 4,
            len == bytes.len(),
            bytes == key.spec_bytes(),
            is_char_boundary(bytes, 0),
            boundary_at_or_before(bytes, front as int) == boundary_at_or_before(bytes, 4),
        decreases front,
    {
        front -= 1;
    }
    let mut back: usize = len - 4;
    while !key.is_char_boundary(back)
        invariant
            len - 4 <= back <= len,
            len == bytes.len(),
            bytes == key.spec_bytes(),
            is_char_boundary(bytes, len as int),
            boundary_at_or_after(bytes, back as int) == boundary_at_or_after(bytes, len - 4),
        decreases len - back,
    {
        back += 1;
    }
    let (prefix, _) = key.split_at(front);
    let (_, suffix) = key.split_at(back);
    proof {
        encode_utf8_decode_utf8(prefix@);
        encode_utf8_decode_utf8(suffix@);
    }
    let mut out = String::from_str(prefix);
    out.append("***");
    out.append(suffix);
    out
}

} // verus!
