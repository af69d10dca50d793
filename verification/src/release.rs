//! Telling releases apart by the last part of their version.

use crate::matcher::{find_prev, lemma_prev_index, prev_index};
use crate::text::{lemma_ascii_is_boundary, lemma_str_is_utf8, same_text, str_from};
use vstd::prelude::*;
use vstd::string::*;
use vstd::utf8::*;

verus! {

/// The byte `.`.
pub const DOT: u8 = 46;

/// The last part of a version: what stands behind its last dot, or all of
/// it if it has no dot.
pub open spec fn last_part(version: Seq<u8>) -> Seq<u8> {
    version.subrange(prev_index(version, DOT, version.len() as int) + 1, version.len() as int)
}

/// The last part of the version that runs: of `0.1.19` it is `19`.
pub fn parse_running_version(version: &str) -> (part: &str)
    ensures
        part.spec_bytes() == last_part(version.spec_bytes()),
{
    let bytes = version.as_bytes();
    let n = bytes.len();
    proof {
        lemma_str_is_utf8(version);
        lemma_prev_index(bytes@, DOT, n as int);
    }
    match find_prev(bytes, DOT, n) {
        Some(p) => {
            proof {
                lemma_ascii_is_boundary(bytes@, p as int);
            }
            str_from(version, p + 1)
        },
        None => {
            assert(bytes@.subrange(0, n as int) =~= bytes@);
            version
        },
    }
}

/// Whether the version that runs is the release of this tag: their last
/// parts are the same.
pub fn is_latest_release(running: &str, tag_name: &str) -> (latest: bool)
    ensures
        latest == (last_part(running.spec_bytes()) == last_part(tag_name.spec_bytes())),
{
    let ours = parse_running_version(running);
    let theirs = parse_running_version(tag_name);
    proof {
        encode_utf8_decode_utf8(ours@);
        encode_utf8_decode_utf8(theirs@);
    }
    same_text(ours, theirs)
}

} // verus!
