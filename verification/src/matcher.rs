//! The matching engine: pure scoring functions over bytes.
//!
//! Every algorithm answers the same question: does the query match the
//! text, and if so, at which byte offsets and how well. A match is reported
//! as a score, where a higher score is a better match, and the offsets of
//! the matched bytes in ascending order.

use vstd::prelude::*;
use vstd::string::*;

verus! {

/// What a scorer returns: the score and the matched byte offsets.
pub type MatcherResult = Option<(i64, Vec<usize>)>;

/// The supported scorers.
#[derive(Clone, Copy, Debug, PartialEq, Eq, Structural)]
pub enum Algo {
    /// The query occurs in the text as one contiguous block of bytes.
    SubString,
    /// The query is a subsequence of the text; every query byte is taken at
    /// its earliest possible offset.
    Leftmost,
    /// The query is a subsequence of the text; the match ends where the
    /// leftmost match ends and every query byte is taken as late as that
    /// end allows, which gives the tightest window with that end.
    Compact,
}

/// Weight of one unmatched byte inside the matched window.
pub const GAP_WEIGHT: i128 = 4;

/// The mathematical value of a scorer's result.
pub open spec fn outcome(r: MatcherResult) -> Option<(i64, Seq<usize>)> {
    match r {
        None => None,
        Some((score, indices)) => Some((score, indices@)),
    }
}

/// `pos` lists, in ascending order, offsets into `text` that spell `query`.
pub open spec fn is_embedding(text: Seq<u8>, query: Seq<u8>, pos: Seq<usize>) -> bool {
    &&& pos.len() == query.len()
    &&& forall|i: int|
        0 <= i < pos.len() ==> (#[trigger] pos[i]) < text.len() && text[pos[i] as int] == query[i]
    &&& forall|i: int, j: int| 0 <= i < j < pos.len() ==> pos[i] < pos[j]
}

/// The penalty of a match: the unmatched bytes inside its window, weighted,
/// plus the offset at which it starts. An empty match has no penalty.
pub open spec fn penalty_of(pos: Seq<usize>) -> int {
    if pos.len() == 0 {
        0
    } else {
        GAP_WEIGHT * (pos.last() - pos[0] + 1 - pos.len()) + pos[0]
    }
}

/// The score of a match: its penalty negated, held within `i64`.
pub open spec fn score_of(pos: Seq<usize>) -> i64 {
    let p = penalty_of(pos);
    if -p < i64::MIN {
        i64::MIN
    } else if -p > i64::MAX {
        i64::MAX
    } else {
        (-p) as i64
    }
}

/// Computes the score of a list of matched offsets.
pub fn position_score(pos: &Vec<usize>) -> (score: i64)
    ensures
        score == score_of(pos@),
{
    let len = pos.len();
    if len == 0 {
        return 0;
    }
    let first: i128 = pos[0] as i128;
    let last: i128 = pos[len - 1] as i128;
    let penalty: i128 = GAP_WEIGHT * (last - first + 1 - len as i128) + first;
    let negated: i128 = -penalty;
    if negated < i64::MIN as i128 {
        i64::MIN
    } else if negated > i64::MAX as i128 {
        i64::MAX
    } else {
        negated as i64
    }
}

/// The query stands in the text at offset `k`.
pub open spec fn occurs_at(text: Seq<u8>, query: Seq<u8>, k: int) -> bool {
    &&& 0 <= k
    &&& k + query.len() <= text.len()
    &&& forall|i: int| 0 <= i < query.len() ==> text[k + i] == #[trigger] query[i]
}

/// The least offset at or after `from` at which the query stands in the text.
pub open spec fn first_occurrence(text: Seq<u8>, query: Seq<u8>, from: int) -> Option<int>
    decreases text.len() - from,
{
    if from < 0 || from + query.len() > text.len() {
        None
    } else if occurs_at(text, query, from) {
        Some(from)
    } else {
        first_occurrence(text, query, from + 1)
    }
}

/// The `m` consecutive offsets that start at `k`.
pub open spec fn consecutive(k: int, m: nat) -> Seq<usize> {
    Seq::new(m, |i: int| (k + i) as usize)
}

/// The result of the substring scorer: the first occurrence of the query.
pub open spec fn substring_match(text: Seq<u8>, query: Seq<u8>) -> Option<(i64, Seq<usize>)> {
    match first_occurrence(text, query, 0) {
        None => None,
        Some(k) => Some((score_of(consecutive(k, query.len())), consecutive(k, query.len()))),
    }
}

/// What `first_occurrence` finds is an occurrence, and nothing between
/// `from` and it is one; when it finds nothing, no occurrence exists at or
/// after `from`.
pub proof fn lemma_first_occurrence(text: Seq<u8>, query: Seq<u8>, from: int)
    requires
        0 <= from,
    ensures
        match first_occurrence(text, query, from) {
            Some(k) => from <= k && occurs_at(text, query, k) && forall|j: int|
                from <= j < k ==> !occurs_at(text, query, j),
            None => forall|j: int| from <= j ==> !occurs_at(text, query, j),
        },
    decreases text.len() - from,
{
    if from + query.len() > text.len() {
    } else if occurs_at(text, query, from) {
    } else {
        lemma_first_occurrence(text, query, from + 1);
    }
}

fn matches_at(text: &[u8], query: &[u8], k: usize) -> (b: bool)
    requires
        k + query@.len() <= text@.len(),
    ensures
        b == occurs_at(text@, query@, k as int),
{
    let n = text.len();
    let m = query.len();
    let mut i: usize = 0;
    while i < m
        invariant
            i <= m,
            m == query@.len(),
            n == text@.len(),
            k + m <= n,
            forall|j: int| 0 <= j < i ==> text@[k + j] == #[trigger] query@[j],
        decreases m - i,
    {
        if text[k + i] != query[i] {
            return false;
        }
        i += 1;
    }
    true
}

fn run_from(k: usize, m: usize) -> (idx: Vec<usize>)
    requires
        k + m <= usize::MAX,
    ensures
        idx@ == consecutive(k as int, m as nat),
{
    let mut idx: Vec<usize> = Vec::new();
    let mut i: usize = 0;
    while i < m
        invariant
            i <= m,
            k + m <= usize::MAX,
            idx@ == consecutive(k as int, i as nat),
        decreases m - i,
    {
        idx.push(k + i);
        assert(idx@ =~= consecutive(k as int, (i + 1) as nat));
        i += 1;
    }
    idx
}

/// The substring scorer: finds the first occurrence of the query in the
/// text and reports its offsets. An empty query matches at offset 0 with no
/// offsets.
pub fn substr_indices(text: &[u8], query: &[u8]) -> (r: MatcherResult)
    ensures
        outcome(r) == substring_match(text@, query@),
{
    let n = text.len();
    let m = query.len();
    if m > n {
        return None;
    }
    let mut k: usize = 0;
    while k <= n - m
        invariant
            m <= n,
            n == text@.len(),
            m == query@.len(),
            k <= n - m + 1,
            first_occurrence(text@, query@, 0) == first_occurrence(text@, query@, k as int),
        decreases n - m + 1 - k,
    {
        if matches_at(text, query, k) {
            let idx = run_from(k, m);
            let score = position_score(&idx);
            return Some((score, idx));
        }
        k += 1;
    }
    None
}

/// The least offset at or after `from` at which the text holds the byte `b`,
/// or the length of the text when there is none.
pub open spec fn next_index(text: Seq<u8>, b: u8, from: int) -> int
    decreases text.len() - from,
{
    if from >= text.len() {
        text.len() as int
    } else if from >= 0 && text[from] == b {
        from
    } else {
        next_index(text, b, from + 1)
    }
}

/// The greatest offset before `upto` at which the text holds the byte `b`,
/// or -1 when there is none.
pub open spec fn prev_index(text: Seq<u8>, b: u8, upto: int) -> int
    decreases upto,
{
    if upto <= 0 {
        -1
    } else if upto <= text.len() && text[upto - 1] == b {
        upto - 1
    } else {
        prev_index(text, b, upto - 1)
    }
}

/// The offset that the leftmost match gives to query byte `i`: the first
/// occurrence of that byte after the offset given to the byte before it.
/// It is the length of the text when the query cannot be matched that far.
pub open spec fn left_pos(text: Seq<u8>, query: Seq<u8>, i: int) -> int
    decreases i,
{
    if i <= 0 {
        next_index(text, query[0], 0)
    } else {
        next_index(text, query[i], left_pos(text, query, i - 1) + 1)
    }
}

/// The offset that the compact match gives to query byte `i`, for a match
/// that ends at `end`: the last occurrence of that byte before the offset
/// given to the byte after it.
pub open spec fn tight_pos(text: Seq<u8>, query: Seq<u8>, end: int, i: int) -> int
    decreases query.len() - i,
{
    if i >= query.len() - 1 {
        end
    } else {
        prev_index(text, query[i], tight_pos(text, query, end, i + 1))
    }
}

/// The query is a subsequence of the text.
pub open spec fn is_subsequence(text: Seq<u8>, query: Seq<u8>) -> bool {
    query.len() == 0 || left_pos(text, query, query.len() - 1) < text.len()
}

/// The offsets of the leftmost match.
pub open spec fn leftmost_positions(text: Seq<u8>, query: Seq<u8>) -> Seq<usize> {
    Seq::new(query.len(), |i: int| left_pos(text, query, i) as usize)
}

/// The offsets of the compact match.
pub open spec fn compact_positions(text: Seq<u8>, query: Seq<u8>) -> Seq<usize> {
    Seq::new(
        query.len(),
        |i: int| tight_pos(text, query, left_pos(text, query, query.len() - 1), i) as usize,
    )
}

/// The result of the leftmost scorer.
pub open spec fn leftmost_match(text: Seq<u8>, query: Seq<u8>) -> Option<(i64, Seq<usize>)> {
    if is_subsequence(text, query) {
        Some((score_of(leftmost_positions(text, query)), leftmost_positions(text, query)))
    } else {
        None
    }
}

/// The result of the compact scorer.
pub open spec fn compact_match(text: Seq<u8>, query: Seq<u8>) -> Option<(i64, Seq<usize>)> {
    if is_subsequence(text, query) {
        Some((score_of(compact_positions(text, query)), compact_positions(text, query)))
    } else {
        None
    }
}

/// The result of a scorer on a text and a query.
pub open spec fn match_spec(algo: Algo, text: Seq<u8>, query: Seq<u8>) -> Option<
    (i64, Seq<usize>),
> {
    match algo {
        Algo::SubString => substring_match(text, query),
        Algo::Leftmost => leftmost_match(text, query),
        Algo::Compact => compact_match(text, query),
    }
}

/// `next_index` stays within the text, finds the byte, and skips no
/// occurrence of it.
pub proof fn lemma_next_index(text: Seq<u8>, b: u8, from: int)
    requires
        0 <= from,
    ensures
        next_index(text, b, from) <= text.len(),
        from <= text.len() ==> from <= next_index(text, b, from),
        next_index(text, b, from) < text.len() ==> text[next_index(text, b, from)] == b,
        forall|j: int| from <= j < next_index(text, b, from) ==> text[j] != b,
    decreases text.len() - from,
{
    if from >= text.len() {
    } else if text[from] == b {
    } else {
        lemma_next_index(text, b, from + 1);
    }
}

/// `prev_index` stays before `upto`, finds the byte, and skips no
/// occurrence of it.
pub proof fn lemma_prev_index(text: Seq<u8>, b: u8, upto: int)
    requires
        upto <= text.len(),
    ensures
        -1 <= prev_index(text, b, upto),
        prev_index(text, b, upto) < upto || upto <= 0,
        0 <= prev_index(text, b, upto) ==> text[prev_index(text, b, upto)] == b,
        forall|j: int| 0 <= j < upto && prev_index(text, b, upto) < j ==> text[j] != b,
    decreases upto,
{
    if upto <= 0 {
    } else if text[upto - 1] == b {
    } else {
        lemma_prev_index(text, b, upto - 1);
    }
}

/// The offsets of the leftmost match ascend as long as they stay within the
/// text, and once one of them leaves the text all later ones do.
pub proof fn lemma_left_pos(text: Seq<u8>, query: Seq<u8>, i: int)
    requires
        0 <= i < query.len(),
    ensures
        0 <= left_pos(text, query, i) <= text.len(),
        left_pos(text, query, i) < text.len() ==> text[left_pos(text, query, i)] == query[i],
        i > 0 && left_pos(text, query, i) < text.len() ==> left_pos(text, query, i - 1)
            < left_pos(text, query, i),
        i > 0 && left_pos(text, query, i - 1) >= text.len() ==> left_pos(text, query, i)
            >= text.len(),
    decreases i,
{
    if i == 0 {
        lemma_next_index(text, query[0], 0);
    } else {
        lemma_left_pos(text, query, i - 1);
        lemma_next_index(text, query[i], left_pos(text, query, i - 1) + 1);
    }
}

/// When query byte `j` has a place in the text under the leftmost match,
/// so has every byte before it, at a smaller offset.
pub proof fn lemma_left_pos_ascends(text: Seq<u8>, query: Seq<u8>, i: int, j: int)
    requires
        0 <= i <= j < query.len(),
        left_pos(text, query, j) < text.len(),
    ensures
        left_pos(text, query, i) < text.len(),
        i < j ==> left_pos(text, query, i) < left_pos(text, query, j),
    decreases j - i,
{
    if i < j {
        lemma_left_pos(text, query, j);
        lemma_left_pos_ascends(text, query, i, j - 1);
    }
}

/// The leftmost match of a subsequence spells the query in ascending
/// offsets of the text.
pub proof fn lemma_leftmost_is_embedding(text: Seq<u8>, query: Seq<u8>)
    requires
        text.len() <= usize::MAX,
        is_subsequence(text, query),
    ensures
        is_embedding(text, query, leftmost_positions(text, query)),
{
    let pos = leftmost_positions(text, query);
    let last = query.len() - 1;
    assert forall|i: int| 0 <= i < pos.len() implies (#[trigger] pos[i]) < text.len()
        && text[pos[i] as int] == query[i] by {
        lemma_left_pos_ascends(text, query, i, last);
        lemma_left_pos(text, query, i);
    }
    assert forall|i: int, j: int| 0 <= i < j < pos.len() implies pos[i] < pos[j] by {
        lemma_left_pos_ascends(text, query, j, last);
        lemma_left_pos_ascends(text, query, i, j);
        lemma_left_pos(text, query, i);
        lemma_left_pos(text, query, j);
    }
}

/// No way of spelling the query in the text takes any query byte earlier
/// than the leftmost match does.
pub proof fn lemma_leftmost_is_least(text: Seq<u8>, query: Seq<u8>, pos: Seq<usize>, i: int)
    requires
        is_embedding(text, query, pos),
        0 <= i < query.len(),
    ensures
        left_pos(text, query, i) <= pos[i],
    decreases i,
{
    if i == 0 {
        lemma_next_index(text, query[0], 0);
    } else {
        lemma_leftmost_is_least(text, query, pos, i - 1);
        lemma_left_pos(text, query, i - 1);
        lemma_next_index(text, query[i], left_pos(text, query, i - 1) + 1);
        assert(pos[i - 1] < pos[i]);
    }
}

/// The leftmost scorer finds a match exactly when some way of spelling the
/// query in the text exists.
pub proof fn lemma_subsequence_iff_embedding(text: Seq<u8>, query: Seq<u8>)
    requires
        text.len() <= usize::MAX,
    ensures
        is_subsequence(text, query) <==> exists|pos: Seq<usize>| is_embedding(text, query, pos),
{
    if is_subsequence(text, query) {
        lemma_leftmost_is_embedding(text, query);
    }
    if exists|pos: Seq<usize>| is_embedding(text, query, pos) {
        let pos = choose|pos: Seq<usize>| is_embedding(text, query, pos);
        if query.len() > 0 {
            lemma_leftmost_is_least(text, query, pos, query.len() - 1);
        }
    }
}

/// Under the compact match of a subsequence, no query byte stands before
/// its place in the leftmost match, and the offsets ascend and spell the
/// query.
pub proof fn lemma_tight_pos(text: Seq<u8>, query: Seq<u8>, i: int)
    requires
        query.len() > 0,
        is_subsequence(text, query),
        0 <= i < query.len(),
    ensures
        0 <= left_pos(text, query, i) <= tight_pos(
            text,
            query,
            left_pos(text, query, query.len() - 1),
            i,
        ) < text.len(),
        text[tight_pos(text, query, left_pos(text, query, query.len() - 1), i)] == query[i],
        i < query.len() - 1 ==> tight_pos(text, query, left_pos(text, query, query.len() - 1), i)
            < tight_pos(text, query, left_pos(text, query, query.len() - 1), i + 1),
    decreases query.len() - i,
{
    let end = left_pos(text, query, query.len() - 1);
    lemma_left_pos(text, query, i);
    if i >= query.len() - 1 {
    } else {
        lemma_tight_pos(text, query, i + 1);
        let upto = tight_pos(text, query, end, i + 1);
        lemma_prev_index(text, query[i], upto);
        lemma_left_pos(text, query, i + 1);
        lemma_left_pos_ascends(text, query, i, query.len() - 1);
        lemma_left_pos_ascends(text, query, i + 1, query.len() - 1);
    }
}

/// When query byte `i` and a later byte `j` both have their place under the
/// compact match, the place of `i` is the smaller one.
pub proof fn lemma_tight_pos_ascends(text: Seq<u8>, query: Seq<u8>, i: int, j: int)
    requires
        query.len() > 0,
        is_subsequence(text, query),
        0 <= i < j < query.len(),
    ensures
        tight_pos(text, query, left_pos(text, query, query.len() - 1), i) < tight_pos(
            text,
            query,
            left_pos(text, query, query.len() - 1),
            j,
        ),
    decreases j - i,
{
    lemma_tight_pos(text, query, i);
    if i + 1 < j {
        lemma_tight_pos_ascends(text, query, i + 1, j);
    }
}

/// The compact match of a subsequence spells the query in ascending offsets
/// of the text.
pub proof fn lemma_compact_is_embedding(text: Seq<u8>, query: Seq<u8>)
    requires
        text.len() <= usize::MAX,
        is_subsequence(text, query),
    ensures
        is_embedding(text, query, compact_positions(text, query)),
{
    let pos = compact_positions(text, query);
    assert forall|i: int| 0 <= i < pos.len() implies (#[trigger] pos[i]) < text.len()
        && text[pos[i] as int] == query[i] by {
        lemma_tight_pos(text, query, i);
    }
    assert forall|i: int, j: int| 0 <= i < j < pos.len() implies pos[i] < pos[j] by {
        lemma_tight_pos_ascends(text, query, i, j);
        lemma_tight_pos(text, query, i);
        lemma_tight_pos(text, query, j);
    }
}

/// Among the ways of spelling the query that end no later than the compact
/// match, none takes any query byte later than the compact match does.
pub proof fn lemma_compact_is_greatest(text: Seq<u8>, query: Seq<u8>, pos: Seq<usize>, i: int)
    requires
        query.len() > 0,
        is_embedding(text, query, pos),
        pos.last() <= left_pos(text, query, query.len() - 1),
        0 <= i < query.len(),
    ensures
        pos[i] <= tight_pos(text, query, left_pos(text, query, query.len() - 1), i),
    decreases query.len() - i,
{
    let end = left_pos(text, query, query.len() - 1);
    if i >= query.len() - 1 {
    } else {
        lemma_compact_is_greatest(text, query, pos, i + 1);
        lemma_leftmost_is_least(text, query, pos, query.len() - 1);
        lemma_tight_pos(text, query, i + 1);
        let upto = tight_pos(text, query, end, i + 1);
        lemma_prev_index(text, query[i], upto);
        assert(pos[i] < pos[i + 1]);
    }
}

/// Every offset that a scorer reports lies within the text, the offsets
/// ascend, and the bytes at them spell the query.
pub proof fn lemma_match_is_embedding(algo: Algo, text: Seq<u8>, query: Seq<u8>)
    requires
        text.len() <= usize::MAX,
    ensures
        match match_spec(algo, text, query) {
            Some((_, pos)) => is_embedding(text, query, pos),
            None => true,
        },
{
    match algo {
        Algo::SubString => {
            lemma_first_occurrence(text, query, 0);
            match first_occurrence(text, query, 0) {
                Some(k) => {
                    let pos = consecutive(k, query.len());
                    assert forall|i: int| 0 <= i < pos.len() implies (#[trigger] pos[i])
                        < text.len() && text[pos[i] as int] == query[i] by {
                        assert(text[k + i] == query[i]);
                    }
                },
                None => {},
            }
        },
        Algo::Leftmost => {
            if is_subsequence(text, query) {
                lemma_leftmost_is_embedding(text, query);
            }
        },
        Algo::Compact => {
            if is_subsequence(text, query) {
                lemma_compact_is_embedding(text, query);
            }
        },
    }
}

/// Finds the byte `b` in the text at or after offset `from`; returns the
/// length of the text when it is not there.
pub fn find_next(text: &[u8], b: u8, from: usize) -> (p: usize)
    requires
        from <= text@.len(),
    ensures
        p == next_index(text@, b, from as int),
        from <= p <= text@.len(),
{
    let n = text.len();
    let mut j: usize = from;
    while j < n
        invariant
            from <= j <= n,
            n == text@.len(),
            next_index(text@, b, from as int) == next_index(text@, b, j as int),
        decreases n - j,
    {
        if text[j] == b {
            return j;
        }
        j += 1;
    }
    j
}

/// Finds the last place before offset `upto` at which the text holds the
/// byte `b`.
pub fn find_prev(text: &[u8], b: u8, upto: usize) -> (p: Option<usize>)
    requires
        upto <= text@.len(),
    ensures
        match p {
            Some(k) => k == prev_index(text@, b, upto as int) && k < upto,
            None => prev_index(text@, b, upto as int) == -1,
        },
{
    let mut j: usize = upto;
    while j > 0
        invariant
            j <= upto <= text@.len(),
            prev_index(text@, b, upto as int) == prev_index(text@, b, j as int),
        decreases j,
    {
        if text[j - 1] == b {
            return Some(j - 1);
        }
        j -= 1;
    }
    None
}

fn leftmost_offsets(text: &[u8], query: &[u8]) -> (r: Option<Vec<usize>>)
    ensures
        match r {
            Some(idx) => is_subsequence(text@, query@) && idx@ == leftmost_positions(
                text@,
                query@,
            ),
            None => !is_subsequence(text@, query@),
        },
{
    let n = text.len();
    let m = query.len();
    let mut idx: Vec<usize> = Vec::new();
    let mut from: usize = 0;
    let mut i: usize = 0;
    while i < m
        invariant
            i <= m,
            m == query@.len(),
            n == text@.len(),
            idx@.len() == i,
            from <= n,
            i == 0 ==> from == 0,
            i > 0 ==> from == left_pos(text@, query@, i - 1) + 1,
            forall|j: int|
                0 <= j < i ==> (#[trigger] idx@[j]) == left_pos(text@, query@, j) && idx@[j] < n,
        decreases m - i,
    {
        let p = find_next(text, query[i], from);
        if p >= n {
            proof {
                if left_pos(text@, query@, m - 1) < n {
                    lemma_left_pos_ascends(text@, query@, i as int, m - 1);
                }
            }
            return None;
        }
        idx.push(p);
        from = p + 1;
        i += 1;
    }
    assert(idx@ =~= leftmost_positions(text@, query@));
    Some(idx)
}

/// The leftmost scorer: takes every query byte at its earliest possible
/// offset. An empty query matches with no offsets.
pub fn fuzzy_leftmost(text: &[u8], query: &[u8]) -> (r: MatcherResult)
    ensures
        outcome(r) == leftmost_match(text@, query@),
{
    match leftmost_offsets(text, query) {
        None => None,
        Some(idx) => {
            let score = position_score(&idx);
            Some((score, idx))
        },
    }
}

/// The compact scorer: keeps the end of the leftmost match and takes every
/// query byte as late as that end allows. An empty query matches with no
/// offsets.
pub fn fuzzy_compact(text: &[u8], query: &[u8]) -> (r: MatcherResult)
    ensures
        outcome(r) == compact_match(text@, query@),
{
    let n = text.len();
    let m = query.len();
    match leftmost_offsets(text, query) {
        None => None,
        Some(left) => {
            let mut idx = left;
            if m > 0 {
                let ghost end = left_pos(text@, query@, m - 1);
                let mut i: usize = m - 1;
                proof {
                    lemma_tight_pos(text@, query@, m - 1);
                    assert(idx@[m - 1] == left_pos(text@, query@, m - 1));
                }
                while i > 0
                    invariant
                        0 <= i < m,
                        m == query@.len(),
                        m > 0,
                        idx@.len() == m,
                        n == text@.len(),
                        is_subsequence(text@, query@),
                        end == left_pos(text@, query@, m - 1),
                        forall|j: int|
                            i <= j < m ==> (#[trigger] idx@[j]) == tight_pos(
                                text@,
                                query@,
                                end,
                                j,
                            ) && idx@[j] < text@.len(),
                    decreases i,
                {
                    proof {
                        lemma_tight_pos(text@, query@, i - 1);
                        lemma_left_pos(text@, query@, i - 1);
                    }
                    let upto = idx[i];
                    match find_prev(text, query[i - 1], upto) {
                        Some(p) => {
                            idx.set(i - 1, p);
                        },
                        None => {
                            assert(false);
                        },
                    }
                    i -= 1;
                }
            }
            assert(idx@ =~= compact_positions(text@, query@));
            let score = position_score(&idx);
            Some((score, idx))
        },
    }
}

/// Scores a text against a query with the chosen scorer. The offsets are
/// byte offsets into the text.
pub fn score(algo: Algo, text: &str, query: &str) -> (r: MatcherResult)
    ensures
        outcome(r) == match_spec(algo, text.spec_bytes(), query.spec_bytes()),
        match r {
            Some((_, idx)) => is_embedding(text.spec_bytes(), query.spec_bytes(), idx@),
            None => true,
        },
{
    score_bytes(algo, text.as_bytes(), query.as_bytes())
}

/// Scores a text against a query, both given as bytes.
pub fn score_bytes(algo: Algo, text: &[u8], query: &[u8]) -> (r: MatcherResult)
    ensures
        outcome(r) == match_spec(algo, text@, query@),
        match r {
            Some((_, idx)) => is_embedding(text@, query@, idx@),
            None => true,
        },
{
    let n = text.len();
    proof {
        lemma_match_is_embedding(algo, text@, query@);
    }
    match algo {
        Algo::SubString => substr_indices(text, query),
        Algo::Leftmost => fuzzy_leftmost(text, query),
        Algo::Compact => fuzzy_compact(text, query),
    }
}

} // verus!
