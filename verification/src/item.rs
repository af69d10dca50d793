//! Items that can be matched: what of a line is shown, and which part of it
//! the query is matched against.

use crate::matcher::{
    find_next, find_prev, is_embedding, match_spec, next_index, outcome, prev_index, score, Algo,
    MatcherResult,
};
use crate::text::{
    digits_end, lemma_ascii_is_boundary, lemma_str_is_utf8, skip_digits, str_before, str_from,
};
use vstd::prelude::*;
use vstd::string::*;
use vstd::utf8::*;

verus! {

/// The byte `:`.
pub const COLON: u8 = 58;

/// The byte `/`.
pub const SLASH: u8 = 47;

/// The mathematical value of a text to match and the offset at which it
/// begins.
pub open spec fn part_view(part: Option<(&str, usize)>) -> Option<(Seq<u8>, usize)> {
    match part {
        None => None,
        Some((text, offset)) => Some((text.spec_bytes(), offset)),
    }
}

/// `part` stands in `whole` at byte offset `offset`.
pub open spec fn is_part_of(whole: Seq<u8>, part: Seq<u8>, offset: usize) -> bool {
    &&& offset + part.len() <= whole.len()
    &&& whole.subrange(offset as int, offset + part.len()) == part
}

/// Every offset moved up by `k`.
pub open spec fn shifted(idx: Seq<usize>, k: usize) -> Seq<usize> {
    Seq::new(idx.len(), |i: int| (idx[i] + k) as usize)
}

/// The result of matching a query against a part of a line: the result of
/// the scorer on the bare part, with every offset moved up by the offset at
/// which the part begins.
pub open spec fn shifted_match(algo: Algo, part: Option<(Seq<u8>, usize)>, query: Seq<u8>) -> Option<
    (i64, Seq<usize>),
> {
    match part {
        None => None,
        Some((text, k)) => match match_spec(algo, text, query) {
            None => None,
            Some((score, idx)) => Some((score, shifted(idx, k))),
        },
    }
}

/// Every offset lies within the part of the line that is matched.
pub open spec fn lies_within(idx: Seq<usize>, part: Option<(Seq<u8>, usize)>) -> bool {
    part matches Some((text, k)) && forall|i: int|
        0 <= i < idx.len() ==> k <= (#[trigger] idx[i]) < k + text.len()
}

/// A way of spelling the query in a part of a line, moved up by the offset
/// of the part, spells the query in the line, within the part.
pub proof fn lemma_shifted_embedding(
    whole: Seq<u8>,
    part: Seq<u8>,
    k: usize,
    query: Seq<u8>,
    idx: Seq<usize>,
)
    requires
        whole.len() <= usize::MAX,
        is_part_of(whole, part, k),
        is_embedding(part, query, idx),
    ensures
        is_embedding(whole, query, shifted(idx, k)),
        forall|i: int|
            0 <= i < idx.len() ==> k <= (#[trigger] shifted(idx, k)[i]) < k + part.len()
                && shifted(idx, k)[i] == idx[i] + k,
{
    let moved = shifted(idx, k);
    assert forall|i: int| 0 <= i < moved.len() implies (#[trigger] moved[i]) < whole.len()
        && whole[moved[i] as int] == query[i] by {
        assert(idx[i] < part.len());
        assert(whole.subrange(k as int, k + part.len())[idx[i] as int] == whole[k + idx[i]]);
    }
    assert forall|i: int, j: int| 0 <= i < j < moved.len() implies moved[i] < moved[j] by {
        assert(idx[i] < idx[j]);
        assert(idx[j] < part.len());
    }
    assert forall|i: int| 0 <= i < idx.len() implies k <= (#[trigger] moved[i]) < k + part.len()
        && moved[i] == idx[i] + k by {
        assert(idx[i] < part.len());
    }
}

/// Moves every offset up by `k`.
pub fn shift_all(idx: Vec<usize>, k: usize) -> (r: Vec<usize>)
    requires
        forall|i: int| 0 <= i < idx@.len() ==> idx@[i] + k <= usize::MAX,
    ensures
        r@ == shifted(idx@, k),
{
    let mut out: Vec<usize> = Vec::new();
    let mut i: usize = 0;
    while i < idx.len()
        invariant
            i <= idx@.len(),
            forall|j: int| 0 <= j < idx@.len() ==> idx@[j] + k <= usize::MAX,
            out@ == shifted(idx@.subrange(0, i as int), k),
        decreases idx@.len() - i,
    {
        out.push(idx[i] + k);
        assert(out@ =~= shifted(idx@.subrange(0, i + 1), k));
        i += 1;
    }
    assert(idx@.subrange(0, idx@.len() as int) =~= idx@);
    out
}

/// Something that can be shown and matched.
pub trait MatchItem {
    /// The text that is shown.
    spec fn shown(&self) -> Seq<char>;

    /// The bytes that the query is matched against and the byte offset in
    /// the shown text at which they begin; `None` if nothing of the item
    /// can be matched.
    spec fn matched_part(&self) -> Option<(Seq<u8>, usize)>;

    /// Returns the text for displaying.
    fn display_text(&self) -> (text: &str)
        ensures
            text@ == self.shown(),
    ;

    /// Returns the text for matching and the offset, in bytes, at which it
    /// begins in the displayed text.
    fn match_text(&self) -> (part: Option<(&str, usize)>)
        ensures
            part_view(part) == self.matched_part(),
            match part {
                Some((text, offset)) => is_part_of(
                    encode_utf8(self.shown()),
                    text.spec_bytes(),
                    offset,
                ),
                None => true,
            },
    ;

    /// Matches the query against the text for matching. Every offset of
    /// the result is an offset into the displayed text.
    fn do_match(&self, query: &str, algo: Algo) -> (r: MatcherResult)
        ensures
            outcome(r) == shifted_match(algo, self.matched_part(), query.spec_bytes()),
            match r {
                Some((_, idx)) => is_embedding(
                    encode_utf8(self.shown()),
                    query.spec_bytes(),
                    idx@,
                ) && lies_within(idx@, self.matched_part()),
                None => true,
            },
    {
        // Every offset is bounded by the length of the displayed text.
        let shown_len = self.display_text().as_bytes().len();
        match self.match_text() {
            None => None,
            Some((text, offset)) => match score(algo, text, query) {
                None => None,
                Some((score, idx)) => {
                    proof {
                        lemma_shifted_embedding(
                            encode_utf8(self.shown()),
                            text.spec_bytes(),
                            offset,
                            query.spec_bytes(),
                            idx@,
                        );
                        assert forall|i: int| 0 <= i < idx@.len() implies idx@[i] + offset
                            <= usize::MAX by {
                            assert(shifted(idx@, offset)[i] == idx@[i] + offset);
                        }
                    }
                    if offset == 0 {
                        assert(idx@ =~= shifted(idx@, 0));
                        Some((score, idx))
                    } else {
                        Some((score, shift_all(idx, offset)))
                    }
                },
            },
        }
    }
}

/// Which part of a line the query is matched against.
#[derive(Clone, Copy, Debug, PartialEq, Eq, Structural)]
pub enum MatchScope {
    /// The whole line.
    Full,
    /// The name of a tag: what stands before the first colon, or the whole
    /// line if it has no colon.
    TagName,
    /// The name of a file: what stands behind the last slash. A line that
    /// ends in a slash, or is empty, has no file name.
    FileName,
    /// The text of a search hit: what stands behind the first place of the
    /// form `:line:column:`, which ends the path of the file. A line
    /// without such a place is not matched.
    GrepLine,
}

/// Where the number that stands at `from`, with the colon behind it, ends:
/// one or more digits and a colon.
pub open spec fn number_field_end(bytes: Seq<u8>, from: int) -> Option<int> {
    let d = digits_end(bytes, from);
    if from < d < bytes.len() && bytes[d] == COLON {
        Some(d + 1)
    } else {
        None
    }
}

/// Where the place `:line:column:` that begins at `p` ends, if one begins
/// there.
pub open spec fn location_end(bytes: Seq<u8>, p: int) -> Option<int> {
    if 0 <= p < bytes.len() && bytes[p] == COLON {
        match number_field_end(bytes, p + 1) {
            Some(column) => number_field_end(bytes, column),
            None => None,
        }
    } else {
        None
    }
}

/// Where the first place `:line:column:` at or after `from` ends.
pub open spec fn hit_text_start(bytes: Seq<u8>, from: int) -> Option<int>
    decreases bytes.len() - from,
{
    if from < 0 || from >= bytes.len() {
        None
    } else if location_end(bytes, from) is Some {
        location_end(bytes, from)
    } else {
        hit_text_start(bytes, from + 1)
    }
}

/// The first place `:line:column:` at or after `from` ends within the
/// line, right behind a colon.
pub proof fn lemma_hit_text_start(bytes: Seq<u8>, from: int)
    requires
        0 <= from,
    ensures
        hit_text_start(bytes, from) matches Some(e) ==> from + 5 <= e <= bytes.len() && bytes[e
            - 1] == COLON,
    decreases bytes.len() - from,
{
    if from < bytes.len() {
        if location_end(bytes, from) is Some {
            crate::text::lemma_digits_end(bytes, from + 1);
            let column = number_field_end(bytes, from + 1)->Some_0;
            crate::text::lemma_digits_end(bytes, column);
        } else {
            lemma_hit_text_start(bytes, from + 1);
        }
    }
}

fn read_number_field(bytes: &[u8], from: usize) -> (end: Option<usize>)
    requires
        from <= bytes@.len(),
    ensures
        match end {
            Some(e) => number_field_end(bytes@, from as int) == Some(e as int),
            None => number_field_end(bytes@, from as int) is None,
        },
{
    let d = skip_digits(bytes, from);
    if from < d && d < bytes.len() && bytes[d] == COLON {
        Some(d + 1)
    } else {
        None
    }
}

fn read_location(bytes: &[u8], p: usize) -> (end: Option<usize>)
    requires
        p < bytes@.len(),
    ensures
        match end {
            Some(e) => location_end(bytes@, p as int) == Some(e as int),
            None => location_end(bytes@, p as int) is None,
        },
{
    if bytes[p] != COLON {
        return None;
    }
    match read_number_field(bytes, p + 1) {
        Some(column) => {
            proof {
                crate::text::lemma_digits_end(bytes@, p + 1);
            }
            read_number_field(bytes, column)
        },
        None => None,
    }
}

/// Finds where the text of a search hit begins.
pub fn find_hit_text(bytes: &[u8]) -> (start: Option<usize>)
    ensures
        match start {
            Some(e) => hit_text_start(bytes@, 0) == Some(e as int),
            None => hit_text_start(bytes@, 0) is None,
        },
{
    let n = bytes.len();
    let mut p: usize = 0;
    while p < n
        invariant
            p <= n,
            n == bytes@.len(),
            hit_text_start(bytes@, 0) == hit_text_start(bytes@, p as int),
        decreases n - p,
    {
        match read_location(bytes, p) {
            Some(e) => {
                return Some(e);
            },
            None => {},
        }
        p += 1;
    }
    None
}

/// The part of a line, given by its bytes, that a scope selects.
pub open spec fn scope_part(scope: MatchScope, bytes: Seq<u8>) -> Option<(Seq<u8>, usize)> {
    match scope {
        MatchScope::Full => Some((bytes, 0usize)),
        MatchScope::TagName => Some((bytes.subrange(0, next_index(bytes, COLON, 0)), 0usize)),
        MatchScope::FileName => {
            let start = prev_index(bytes, SLASH, bytes.len() as int) + 1;
            if start >= bytes.len() {
                None
            } else {
                Some((bytes.subrange(start, bytes.len() as int), start as usize))
            }
        },
        MatchScope::GrepLine => match hit_text_start(bytes, 0) {
            Some(start) => Some((bytes.subrange(start, bytes.len() as int), start as usize)),
            None => None,
        },
    }
}

/// A line of a source, with the scope in which it is matched.
pub struct SourceItem {
    /// The raw line.
    pub raw: String,
    /// The part of the line that queries are matched against.
    pub scope: MatchScope,
}

impl SourceItem {
    /// An item for the line `raw`, matched within `scope`.
    pub fn new(raw: String, scope: MatchScope) -> (item: Self)
        ensures
            item.raw == raw,
            item.scope == scope,
    {
        SourceItem { raw, scope }
    }
}

impl From<String> for SourceItem {
    /// The item for a line that is matched as a whole.
    fn from(raw: String) -> (item: Self) {
        SourceItem { raw, scope: MatchScope::Full }
    }
}

impl vstd::std_specs::convert::FromSpecImpl<String> for SourceItem {
    open spec fn obeys_from_spec() -> bool {
        true
    }

    open spec fn from_spec(raw: String) -> Self {
        SourceItem { raw: raw, scope: MatchScope::Full }
    }
}

impl MatchItem for SourceItem {
    open spec fn shown(&self) -> Seq<char> {
        self.raw@
    }

    open spec fn matched_part(&self) -> Option<(Seq<u8>, usize)> {
        scope_part(self.scope, encode_utf8(self.raw@))
    }

    fn display_text(&self) -> (text: &str) {
        self.raw.as_str()
    }

    fn match_text(&self) -> (part: Option<(&str, usize)>) {
        let line = self.raw.as_str();
        let bytes = line.as_bytes();
        let n = bytes.len();
        proof {
            lemma_str_is_utf8(line);
        }
        match self.scope {
            MatchScope::Full => {
                assert(bytes@.subrange(0, n as int) =~= bytes@);
                Some((line, 0))
            },
            MatchScope::TagName => {
                let end = find_next(bytes, COLON, 0);
                proof {
                    crate::matcher::lemma_next_index(bytes@, COLON, 0);
                    if end < n {
                        lemma_ascii_is_boundary(bytes@, end as int);
                    } else {
                        is_char_boundary_start_end_of_seq(bytes@);
                    }
                }
                Some((str_before(line, end), 0))
            },
            MatchScope::FileName => {
                proof {
                    crate::matcher::lemma_prev_index(bytes@, SLASH, n as int);
                }
                let start = match find_prev(bytes, SLASH, n) {
                    Some(p) => {
                        proof {
                            lemma_ascii_is_boundary(bytes@, p as int);
                        }
                        p + 1
                    },
                    None => {
                        proof {
                            is_char_boundary_start_end_of_seq(bytes@);
                        }
                        0
                    },
                };
                if start >= n {
                    None
                } else {
                    Some((str_from(line, start), start))
                }
            },
            MatchScope::GrepLine => {
                match find_hit_text(bytes) {
                    Some(start) => {
                        proof {
                            lemma_hit_text_start(bytes@, 0);
                            lemma_ascii_is_boundary(bytes@, start - 1);
                        }
                        Some((str_from(line, start), start))
                    },
                    None => None,
                }
            },
        }
    }
}

} // verus!
