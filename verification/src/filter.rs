//! Filtering in one call, for sources that are held in memory: match every
//! line, rank the results, cut the ranking to a page and render the page.

use crate::item::{MatchScope, SourceItem};
use crate::matcher::Algo;
use crate::ranked::{
    lemma_merged_ranked, lemma_top_n, merged, ranked, sort_results, top_n, views, MatchResult,
    MatchView, RankedSet,
};
use crate::source::{filter_items, items_of, lemma_matches_of_chunks, matches_of, Source};
use vstd::prelude::*;
use vstd::string::*;
use vstd::utf8::*;

verus! {

/// The display width that is assumed when none is given.
pub const DEFAULT_WINWIDTH: usize = 62;

/// The scorer that is used when none is chosen.
pub open spec fn algo_or_default(algo: Option<Algo>) -> Algo {
    match algo {
        Some(a) => a,
        None => Algo::Compact,
    }
}

/// Ranks results and keeps the best `cap` of them.
pub fn rank(results: Vec<MatchResult>, cap: usize) -> (r: Vec<MatchResult>)
    ensures
        views(r@) == top_n(views(results@), cap as nat),
{
    let mut set = RankedSet::new(cap);
    let ghost all = views(results@);
    assert(all.subrange(0, 0) =~= Seq::empty());
    for item in iter: results
        invariant
            set.wf(),
            set.capacity() == cap,
            all == views(iter.seq()),
            set.seen() == all.subrange(0, iter.index() as int),
    {
        let ghost i = iter.index() as int;
        assert(all[i] == item@);
        set.offer(item);
        assert(all.subrange(0, i).push(all[i]) =~= all.subrange(0, i + 1));
    }
    assert(all.subrange(0, all.len() as int) =~= all);
    set.into_results()
}

/// Matches every line against the query and returns the results of the
/// lines that match, ranked: best score first, and among equal scores in
/// the order of the lines.
pub fn filter(lines: Vec<String>, query: &str, algo: Option<Algo>) -> (r: Vec<MatchResult>)
    ensures
        views(r@) == ranked(
            matches_of(
                items_of(lines@, MatchScope::Full),
                algo_or_default(algo),
                query.spec_bytes(),
                None,
            ),
        ),
{
    let algo = match algo {
        Some(a) => a,
        None => Algo::Compact,
    };
    let source = Source::from_lines(lines, MatchScope::Full);
    match source {
        Source::List(items) => sort_results(filter_items(&items, algo, query, None)),
        _ => Vec::new(),
    }
}

/// How many characters of a result are shown: all but the elided ones.
pub open spec fn shown_chars(v: MatchView) -> int {
    match v.elided {
        Some(k) => if k <= v.line.len() {
            v.line.len() - k
        } else {
            v.line.len() as int
        },
        None => v.line.len() as int,
    }
}

/// The line of a result as it is shown.
pub open spec fn shown_line(v: MatchView) -> Seq<char> {
    v.line.subrange(0, shown_chars(v))
}

/// The matched offsets of a result that lie within the line as shown.
pub open spec fn shown_indices(v: MatchView) -> Seq<usize> {
    v.indices.filter(|i: usize| i < encode_utf8(shown_line(v)).len())
}

/// The shown lines of a sequence of results.
pub open spec fn shown_lines(s: Seq<MatchView>) -> Seq<Seq<char>> {
    Seq::new(s.len(), |i: int| shown_line(s[i]))
}

/// The shown offsets of a sequence of results.
pub open spec fn shown_offsets(s: Seq<MatchView>) -> Seq<Seq<usize>> {
    Seq::new(s.len(), |i: int| shown_indices(s[i]))
}

/// A result is shown shortened.
pub open spec fn is_truncated(v: MatchView) -> bool {
    v.elided matches Some(k) && 0 < k <= v.line.len()
}

/// For every result that is shown shortened, its position and the number
/// of characters left out, in the order of the results.
pub open spec fn truncations(s: Seq<MatchView>) -> Seq<(usize, usize)>
    decreases s.len(),
{
    if s.len() == 0 {
        Seq::empty()
    } else if is_truncated(s.last()) {
        truncations(s.drop_last()).push(((s.len() - 1) as usize, s.last().elided->Some_0))
    } else {
        truncations(s.drop_last())
    }
}

/// The values of a sequence of strings.
pub open spec fn strings(v: Seq<String>) -> Seq<Seq<char>> {
    v.map_values(|s: String| s@)
}

/// The values of a sequence of offset lists.
pub open spec fn offset_lists(v: Seq<Vec<usize>>) -> Seq<Seq<usize>> {
    v.map_values(|l: Vec<usize>| l@)
}

/// One page of results, as it is reported to the client.
pub struct FilterResponse {
    /// The number of lines that matched.
    pub total: usize,
    /// The lines of the page as shown, best first.
    pub lines: Vec<String>,
    /// For each line of the page, the matched offsets within it.
    pub indices: Vec<Vec<usize>>,
    /// For each line that is shown shortened, its position in the page and
    /// the number of characters left out.
    pub truncated_map: Vec<(usize, usize)>,
}

/// The mathematical value of a `FilterResponse`.
pub struct ResponseView {
    pub total: nat,
    pub lines: Seq<Seq<char>>,
    pub indices: Seq<Seq<usize>>,
    pub truncated_map: Seq<(usize, usize)>,
}

impl View for FilterResponse {
    type V = ResponseView;

    open spec fn view(&self) -> ResponseView {
        ResponseView {
            total: self.total as nat,
            lines: strings(self.lines@),
            indices: offset_lists(self.indices@),
            truncated_map: self.truncated_map@,
        }
    }
}

/// The page that reports `page`, the best of `total` results.
pub open spec fn page_of(page: Seq<MatchView>, total: nat) -> ResponseView {
    ResponseView {
        total: total,
        lines: shown_lines(page),
        indices: shown_offsets(page),
        truncated_map: truncations(page),
    }
}

/// The line of a result as shown, and the matched offsets within it.
pub fn render(m: &MatchResult) -> (out: (String, Vec<usize>))
    ensures
        out.0@ == shown_line(m@),
        out.1@ == shown_indices(m@),
{
    let whole = m.line.as_str();
    let chars = whole.unicode_len();
    let shown_len = match m.elided {
        Some(k) => if k <= chars {
            chars - k
        } else {
            chars
        },
        None => chars,
    };
    let shown = whole.substring_char(0, shown_len);
    let limit = shown.as_bytes().len();
    let ghost pred = |i: usize| i < encode_utf8(shown_line(m@)).len();
    let mut kept: Vec<usize> = Vec::new();
    let mut i: usize = 0;
    assert(m.indices@.subrange(0, 0) =~= Seq::empty());
    while i < m.indices.len()
        invariant
            i <= m.indices@.len(),
            limit == encode_utf8(shown_line(m@)).len(),
            pred == (|i: usize| i < encode_utf8(shown_line(m@)).len()),
            kept@ == m.indices@.subrange(0, i as int).filter(pred),
        decreases m.indices@.len() - i,
    {
        let x = m.indices[i];
        proof {
            Seq::lemma_filter_push(m.indices@.subrange(0, i as int), x, pred);
            assert(m.indices@.subrange(0, i as int).push(x) =~= m.indices@.subrange(0, i + 1));
        }
        if x < limit {
            kept.push(x);
        }
        i += 1;
    }
    assert(m.indices@.subrange(0, m.indices@.len() as int) =~= m.indices@);
    (String::from_str(shown), kept)
}

/// Renders the results of a page and reports them with the total number
/// of matches.
pub fn respond(page: &Vec<MatchResult>, total: usize) -> (r: FilterResponse)
    ensures
        r@ == page_of(views(page@), total as nat),
{
    let mut lines: Vec<String> = Vec::new();
    let mut indices: Vec<Vec<usize>> = Vec::new();
    let mut truncated_map: Vec<(usize, usize)> = Vec::new();
    let ghost all = views(page@);
    let mut i: usize = 0;
    assert(all.subrange(0, 0) =~= Seq::empty());
    while i < page.len()
        invariant
            i <= page@.len(),
            all == views(page@),
            strings(lines@) =~= shown_lines(all.subrange(0, i as int)),
            offset_lists(indices@) =~= shown_offsets(all.subrange(0, i as int)),
            truncated_map@ == truncations(all.subrange(0, i as int)),
        decreases page@.len() - i,
    {
        let m = &page[i];
        let ghost head = all.subrange(0, i as int);
        let ghost next = all.subrange(0, i + 1);
        assert(next.drop_last() =~= head);
        assert(next.last() == m@);
        let (line, offsets) = render(m);
        let ghost old_lines = strings(lines@);
        let ghost old_indices = offset_lists(indices@);
        lines.push(line);
        indices.push(offsets);
        let chars = m.line.as_str().unicode_len();
        match m.elided {
            Some(k) => {
                if 0 < k && k <= chars {
                    truncated_map.push((i, k));
                }
            },
            None => {},
        }
        assert(strings(lines@) =~= old_lines.push(shown_line(m@)));
        assert(offset_lists(indices@) =~= old_indices.push(shown_indices(m@)));
        assert(strings(lines@) =~= shown_lines(next));
        assert(offset_lists(indices@) =~= shown_offsets(next));
        i += 1;
    }
    assert(all.subrange(0, all.len() as int) =~= all);
    FilterResponse { total, lines, indices, truncated_map }
}

/// What one call of the filter gives.
pub enum Output {
    /// The best results, rendered for the display, with the total.
    Page(FilterResponse),
    /// Every result, ranked, as the raw line and the matched offsets.
    All(Vec<(String, Vec<usize>)>),
}

/// The mathematical value of an `Output`.
pub enum OutputView {
    Page(ResponseView),
    All(Seq<(Seq<char>, Seq<usize>)>),
}

impl View for Output {
    type V = OutputView;

    open spec fn view(&self) -> OutputView {
        match self {
            Output::Page(r) => OutputView::Page(r@),
            Output::All(v) => OutputView::All(v@.map_values(|e: (String, Vec<usize>)| (e.0@, e.1@))),
        }
    }
}

/// The width for which results are rendered: none when every result is
/// asked for, else the given width or the default.
pub open spec fn page_width(number: Option<usize>, winwidth: Option<usize>) -> Option<usize> {
    match number {
        None => None,
        Some(_) => match winwidth {
            Some(w) => Some(w),
            None => Some(DEFAULT_WINWIDTH),
        },
    }
}

/// What filtering the lines by the query gives: with a number, the page of
/// that many best results and the total; without, all results ranked.
pub open spec fn run_spec(
    query: Seq<u8>,
    lines: Seq<String>,
    algo: Option<Algo>,
    number: Option<usize>,
    winwidth: Option<usize>,
) -> OutputView {
    let found = matches_of(
        items_of(lines, MatchScope::Full),
        algo_or_default(algo),
        query,
        page_width(number, winwidth),
    );
    match number {
        Some(n) => OutputView::Page(page_of(top_n(found, n as nat), found.len())),
        None => OutputView::All(ranked(found).map_values(|v: MatchView| (v.line, v.indices))),
    }
}

/// The page of the `number` best results among the lines that match the
/// query, rendered for a display of the given width, or of the default
/// width if none is given.
pub fn page(
    query: &str,
    lines: Vec<String>,
    algo: Option<Algo>,
    number: usize,
    winwidth: Option<usize>,
) -> (r: FilterResponse)
    ensures
        OutputView::Page(r@) == run_spec(query.spec_bytes(), lines@, algo, Some(number), winwidth),
{
    let algo = match algo {
        Some(a) => a,
        None => Algo::Compact,
    };
    let width = match winwidth {
        Some(w) => w,
        None => DEFAULT_WINWIDTH,
    };
    let items = match Source::from_lines(lines, MatchScope::Full) {
        Source::List(items) => items,
        _ => Vec::new(),
    };
    let found = filter_items(&items, algo, query, Some(width));
    let total = found.len();
    respond(&rank(found, number), total)
}

/// Every result among the lines that match the query, ranked, as the raw
/// line and the matched offsets.
pub fn all_matches(query: &str, lines: Vec<String>, algo: Option<Algo>) -> (r: Vec<
    (String, Vec<usize>),
>)
    ensures
        OutputView::All(r@.map_values(|e: (String, Vec<usize>)| (e.0@, e.1@))) == run_spec(
            query.spec_bytes(),
            lines@,
            algo,
            None,
            None,
        ),
{
    let all = filter(lines, query, algo);
    let mut out: Vec<(String, Vec<usize>)> = Vec::new();
    let ghost sorted = views(all@);
    let ghost pick = |v: MatchView| (v.line, v.indices);
    let ghost unpack = |e: (String, Vec<usize>)| (e.0@, e.1@);
    for m in iter: all
        invariant
            sorted == views(iter.seq()),
            pick == (|v: MatchView| (v.line, v.indices)),
            unpack == (|e: (String, Vec<usize>)| (e.0@, e.1@)),
            out@.map_values(unpack) =~= sorted.subrange(0, iter.index() as int).map_values(pick),
    {
        let ghost i = iter.index() as int;
        assert(sorted[i] == m@);
        let ghost before = out@.map_values(unpack);
        out.push((m.line, m.indices));
        assert(out@.map_values(unpack) =~= before.push(pick(sorted[i])));
    }
    assert(sorted.subrange(0, sorted.len() as int) =~= sorted);
    out
}

/// Filters lines that are held in memory in one call: matches every line,
/// ranks the results and, if a number is given, renders the page of that
/// many best results for a display of the given width.
pub fn run(
    query: &str,
    lines: Vec<String>,
    algo: Option<Algo>,
    number: Option<usize>,
    winwidth: Option<usize>,
) -> (out: Output)
    ensures
        out@ == run_spec(query.spec_bytes(), lines@, algo, number, winwidth),
{
    match number {
        Some(n) => Output::Page(page(query, lines, algo, n, winwidth)),
        None => Output::All(all_matches(query, lines, algo)),
    }
}

/// Filtering is a function of the lines, the query and the settings: two
/// runs on the same input give the same output.
pub proof fn lemma_run_is_repeatable(
    first: Output,
    second: Output,
    query: Seq<u8>,
    lines: Seq<String>,
    algo: Option<Algo>,
    number: Option<usize>,
    winwidth: Option<usize>,
)
    requires
        first@ == run_spec(query, lines, algo, number, winwidth),
        second@ == run_spec(query, lines, algo, number, winwidth),
    ensures
        first@ == second@,
{
}

/// A page never has more lines than were asked for, nor more than matched.
pub proof fn lemma_page_is_bounded(found: Seq<MatchView>, n: nat)
    ensures
        page_of(top_n(found, n), found.len()).lines.len() <= n,
        page_of(top_n(found, n), found.len()).lines.len() <= found.len(),
        page_of(top_n(found, n), found.len()).indices.len() == page_of(
            top_n(found, n),
            found.len(),
        ).lines.len(),
{
    lemma_top_n(found, n);
}

/// The order in which chunks of a source are read and matched does not
/// show in the ranking beyond the order of the chunks themselves: ranking
/// each chunk and merging the rankings gives the ranking of the whole.
pub proof fn lemma_chunks_rank_as_whole(
    a: Seq<SourceItem>,
    b: Seq<SourceItem>,
    algo: Algo,
    query: Seq<u8>,
    width: Option<usize>,
)
    ensures
        merged(
            ranked(matches_of(a, algo, query, width)),
            ranked(matches_of(b, algo, query, width)),
        ) == ranked(matches_of(a + b, algo, query, width)),
{
    lemma_matches_of_chunks(a, b, algo, query, width);
    lemma_merged_ranked(matches_of(a, algo, query, width), matches_of(b, algo, query, width));
}

} // verus!
