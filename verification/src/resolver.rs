//! The decisions of the working-directory resolver that do not touch the
//! operating system.  The caller reads the target process's runtime
//! structures and hands the raw values in; this module validates the
//! declared length and turns the raw UTF-16 path into the final directory
//! string.

use vstd::prelude::*;

use crate::expand::{utf16_lossy_decoded, utf16_lossy_chars};
use crate::text::{chars_of, string_from_chars, subvec};

verus! {

/// The directory string read out of a foreign process is bounded to 32 KiB;
/// a zero or oversized declared byte length is treated as corrupt and
/// aborts the whole resolution.
pub fn directory_length_valid(byte_len: usize) -> (r: bool)
    ensures
        r == (0 < byte_len <= 32768),
{
    0 < byte_len && byte_len <= 32768
}

/// A directory path with a single trailing backslash stripped.
pub open spec fn strip_trailing_backslash(s: Seq<char>) -> Seq<char> {
    if s.len() > 0 && s[s.len() - 1] == '\\' {
        s.drop_last()
    } else {
        s
    }
}

/// Finishes the resolver's work on the raw UTF-16 code units read from the
/// target process: decode them, and strip one trailing backslash if
/// present.
pub fn finish_directory(units: &Vec<u16>) -> (r: String)
    ensures
        r@ == strip_trailing_backslash(utf16_lossy_decoded(units@)),
{
    let decoded = utf16_lossy_chars(units);
    let chars = chars_of(decoded.as_str());
    if chars.len() > 0 && chars[chars.len() - 1] == '\\' {
        let stripped = subvec(&chars, 0, chars.len() - 1);
        proof {
            assert(stripped@ =~= chars@.drop_last());
        }
        string_from_chars(&stripped)
    } else {
        string_from_chars(&chars)
    }
}

} // verus!
