//! Cutting string slices at byte offsets.
//!
//! A string slice may only be cut at the boundary of a character. Every
//! delimiter that this library cuts at is an ASCII byte, and in well-formed
//! UTF-8 both sides of an ASCII byte are boundaries.

use vstd::prelude::*;
use vstd::string::*;
use vstd::utf8::*;

verus! {

/// In well-formed UTF-8, a character begins at every ASCII byte and right
/// after it.
pub proof fn lemma_ascii_is_boundary(bytes: Seq<u8>, p: int)
    requires
        valid_utf8(bytes),
        0 <= p < bytes.len(),
        bytes[p] <= 0x7f,
    ensures
        is_char_boundary(bytes, p),
        is_char_boundary(bytes, p + 1),
{
    is_char_boundary_iff_not_is_continuation_byte(bytes, p);
    if p + 1 == bytes.len() {
        is_char_boundary_start_end_of_seq(bytes);
    } else {
        valid_utf8_split(bytes, p);
        let tail = bytes.subrange(p, bytes.len() as int);
        assert(tail[0] == bytes[p]);
        assert(length_of_first_scalar(tail) == 1);
        let rest = pop_first_scalar(tail);
        assert(valid_utf8(rest));
        assert(rest.len() > 0);
        assert(rest[0] == bytes[p + 1]);
        is_char_boundary_start_end_of_seq(rest);
        is_char_boundary_iff_not_is_continuation_byte(rest, 0);
        is_char_boundary_iff_not_is_continuation_byte(bytes, p + 1);
    }
}

/// The bytes of a string slice are well-formed UTF-8.
pub proof fn lemma_str_is_utf8(s: &str)
    ensures
        valid_utf8(s.spec_bytes()),
{
    encode_utf8_valid_utf8(s@);
}

/// The part of `s` before byte offset `end`.
pub fn str_before(s: &str, end: usize) -> (r: &str)
    requires
        end <= s.spec_bytes().len(),
        is_char_boundary(s.spec_bytes(), end as int),
    ensures
        r.spec_bytes() == s.spec_bytes().subrange(0, end as int),
{
    let (head, _) = s.split_at(end);
    head
}

/// The part of `s` from byte offset `start` on.
pub fn str_from(s: &str, start: usize) -> (r: &str)
    requires
        start <= s.spec_bytes().len(),
        is_char_boundary(s.spec_bytes(), start as int),
    ensures
        r.spec_bytes() == s.spec_bytes().subrange(start as int, s.spec_bytes().len() as int),
{
    let (_, tail) = s.split_at(start);
    tail
}

/// The part of `s` from byte offset `from` up to byte offset `to`.
pub fn str_between(s: &str, from: usize, to: usize) -> (r: &str)
    requires
        from <= to <= s.spec_bytes().len(),
        is_char_boundary(s.spec_bytes(), from as int),
        is_char_boundary(s.spec_bytes(), to as int),
    ensures
        r.spec_bytes() == s.spec_bytes().subrange(from as int, to as int),
{
    let head = str_before(s, to);
    proof {
        lemma_str_is_utf8(s);
        lemma_str_is_utf8(head);
        if from < to {
            is_char_boundary_iff_not_is_continuation_byte(s.spec_bytes(), from as int);
            is_char_boundary_iff_not_is_continuation_byte(head.spec_bytes(), from as int);
        } else {
            is_char_boundary_start_end_of_seq(head.spec_bytes());
        }
    }
    let r = str_from(head, from);
    assert(r.spec_bytes() =~= s.spec_bytes().subrange(from as int, to as int));
    r
}

/// Whether two string slices hold the same text.
pub fn same_text(a: &str, b: &str) -> (same: bool)
    ensures
        same == (a@ == b@),
{
    let x = a.as_bytes();
    let y = b.as_bytes();
    proof {
        encode_utf8_decode_utf8(a@);
        encode_utf8_decode_utf8(b@);
    }
    if x.len() != y.len() {
        return false;
    }
    let mut i: usize = 0;
    while i < x.len()
        invariant
            i <= x@.len(),
            x@.len() == y@.len(),
            x@ == a.spec_bytes(),
            y@ == b.spec_bytes(),
            forall|j: int| 0 <= j < i ==> x@[j] == y@[j],
        decreases x@.len() - i,
    {
        if x[i] != y[i] {
            return false;
        }
        i += 1;
    }
    assert(x@ =~= y@);
    true
}

/// Whether a byte is a decimal digit.
pub open spec fn is_digit(b: u8) -> bool {
    48 <= b <= 57
}

/// The first offset at or after `from` at which no digit stands.
pub open spec fn digits_end(buf: Seq<u8>, from: int) -> int
    decreases buf.len() - from,
{
    if 0 <= from < buf.len() && is_digit(buf[from]) {
        digits_end(buf, from + 1)
    } else {
        from
    }
}

/// The end of a run of digits lies within the buffer, all bytes up to it
/// are digits, and the byte at it is none.
pub proof fn lemma_digits_end(buf: Seq<u8>, from: int)
    requires
        0 <= from <= buf.len(),
    ensures
        from <= digits_end(buf, from) <= buf.len(),
        forall|i: int| from <= i < digits_end(buf, from) ==> is_digit(#[trigger] buf[i]),
        digits_end(buf, from) < buf.len() ==> !is_digit(buf[digits_end(buf, from)]),
    decreases buf.len() - from,
{
    if from < buf.len() && is_digit(buf[from]) {
        lemma_digits_end(buf, from + 1);
    }
}

/// A run of digits that ends before a byte that is no digit ends where
/// `digits_end` says.
pub proof fn lemma_digits_end_is(buf: Seq<u8>, from: int, end: int)
    requires
        0 <= from <= end <= buf.len(),
        forall|i: int| from <= i < end ==> is_digit(#[trigger] buf[i]),
        end < buf.len() ==> !is_digit(buf[end]),
    ensures
        digits_end(buf, from) == end,
    decreases end - from,
{
    if from < end {
        lemma_digits_end_is(buf, from + 1, end);
    }
}

/// Skips the digits that stand at offset `from`.
pub fn skip_digits(buf: &[u8], from: usize) -> (end: usize)
    requires
        from <= buf@.len(),
    ensures
        end == digits_end(buf@, from as int),
        from <= end <= buf@.len(),
{
    let n = buf.len();
    let mut end: usize = from;
    while end < n && buf[end] >= 48 && buf[end] <= 57
        invariant
            from <= end <= n,
            n == buf@.len(),
            digits_end(buf@, from as int) == digits_end(buf@, end as int),
        decreases n - end,
    {
        end += 1;
    }
    end
}

} // verus!
