//! Where candidate lines come from, and the filtering of lines that are
//! held in memory.

use crate::item::{shifted_match, MatchItem, MatchScope, SourceItem};
use crate::matcher::Algo;
use crate::ranked::{elided_for, views, MatchResult, MatchView};
use vstd::prelude::*;
use vstd::string::*;

verus! {

/// A command whose standard output is read line by line.
pub struct Command {
    /// The program to run.
    pub program: String,
    /// Its arguments.
    pub args: Vec<String>,
    /// The directory in which it runs, if one is set.
    pub dir: Option<String>,
}

/// Anything that produces lines.
pub enum Source {
    /// Standard input; it may never end.
    Stdin,
    /// The standard output of a command; it ends when the command exits.
    Exec(Command),
    /// The lines of the file at this path.
    File(String),
    /// Lines held in memory.
    List(Vec<SourceItem>),
}

/// Why a source could not be filtered.
#[derive(Clone, Copy, Debug, PartialEq, Eq, Structural)]
pub enum SourceError {
    /// The lines of the source have not been read into memory.
    NotRead,
}

/// The items for a sequence of lines, all matched within one scope.
pub open spec fn items_of(lines: Seq<String>, scope: MatchScope) -> Seq<SourceItem> {
    lines.map_values(|line: String| SourceItem { raw: line, scope: scope })
}

/// The result of matching one item: nothing if the query does not match,
/// else the shown text with the score and the offsets of the match.
pub open spec fn item_match<T: MatchItem>(
    item: T,
    algo: Algo,
    query: Seq<u8>,
    width: Option<usize>,
) -> Option<MatchView> {
    match shifted_match(algo, item.matched_part(), query) {
        None => None,
        Some((score, idx)) => Some(
            MatchView {
                line: item.shown(),
                score: score,
                indices: idx,
                elided: elided_for(item.shown(), width),
            },
        ),
    }
}

/// The results of the items that match, in the order of the items.
pub open spec fn matches_of<T: MatchItem>(
    items: Seq<T>,
    algo: Algo,
    query: Seq<u8>,
    width: Option<usize>,
) -> Seq<MatchView>
    decreases items.len(),
{
    if items.len() == 0 {
        Seq::empty()
    } else {
        let rest = matches_of(items.drop_last(), algo, query, width);
        match item_match(items.last(), algo, query, width) {
            None => rest,
            Some(v) => rest.push(v),
        }
    }
}

/// The matches of two chunks of items, put together, are the matches of
/// the chunks put together: chunks can be matched independently.
pub proof fn lemma_matches_of_chunks<T: MatchItem>(
    a: Seq<T>,
    b: Seq<T>,
    algo: Algo,
    query: Seq<u8>,
    width: Option<usize>,
)
    ensures
        matches_of(a + b, algo, query, width) == matches_of(a, algo, query, width) + matches_of(
            b,
            algo,
            query,
            width,
        ),
    decreases b.len(),
{
    if b.len() == 0 {
        assert(a + b =~= a);
        assert(matches_of(a, algo, query, width) + matches_of(b, algo, query, width) =~= matches_of(
            a,
            algo,
            query,
            width,
        ));
    } else {
        lemma_matches_of_chunks(a, b.drop_last(), algo, query, width);
        assert((a + b).drop_last() =~= a + b.drop_last());
        assert((a + b).last() == b.last());
        let head = matches_of(a, algo, query, width);
        let rest = matches_of(b.drop_last(), algo, query, width);
        match item_match(b.last(), algo, query, width) {
            None => {},
            Some(v) => {
                assert((head + rest).push(v) =~= head + rest.push(v));
            },
        }
    }
}

/// The value of a result that may be absent.
pub open spec fn result_view(r: Option<MatchResult>) -> Option<MatchView> {
    match r {
        None => None,
        Some(m) => Some(m@),
    }
}

/// Matches one item against the query.
pub fn match_item<T: MatchItem>(item: &T, algo: Algo, query: &str, width: Option<usize>) -> (r:
    Option<MatchResult>)
    ensures
        result_view(r) == item_match(*item, algo, query.spec_bytes(), width),
{
    match item.do_match(query, algo) {
        None => None,
        Some((score, indices)) => {
            let line = String::from_str(item.display_text());
            Some(MatchResult::new(line, score, indices, width))
        },
    }
}

/// Matches every item against the query and returns the results of those
/// that match, in the order of the items.
pub fn filter_items<T: MatchItem>(
    items: &Vec<T>,
    algo: Algo,
    query: &str,
    width: Option<usize>,
) -> (r: Vec<MatchResult>)
    ensures
        views(r@) == matches_of(items@, algo, query.spec_bytes(), width),
{
    let mut out: Vec<MatchResult> = Vec::new();
    let mut i: usize = 0;
    assert(items@.subrange(0, 0) =~= Seq::empty());
    assert(views(out@) =~= Seq::empty());
    while i < items.len()
        invariant
            i <= items@.len(),
            views(out@) == matches_of(items@.subrange(0, i as int), algo, query.spec_bytes(), width),
        decreases items@.len() - i,
    {
        let ghost before = views(out@);
        assert(items@.subrange(0, i + 1).drop_last() =~= items@.subrange(0, i as int));
        assert(items@.subrange(0, i + 1).last() == items@[i as int]);
        match match_item(&items[i], algo, query, width) {
            None => {},
            Some(m) => {
                out.push(m);
                assert(views(out@) =~= before.push(m@));
            },
        }
        i += 1;
    }
    assert(items@.subrange(0, items@.len() as int) =~= items@);
    out
}

impl Source {
    /// A source of lines held in memory, all matched within one scope.
    pub fn from_lines(lines: Vec<String>, scope: MatchScope) -> (source: Self)
        ensures
            source == Source::List(source->List_0),
            source->List_0@ == items_of(lines@, scope),
    {
        let mut items: Vec<SourceItem> = Vec::new();
        let ghost all = lines@;
        for line in iter: lines
            invariant
                all == iter.seq(),
                items@ == items_of(all.subrange(0, iter.index() as int), scope),
        {
            let ghost i = iter.index() as int;
            items.push(SourceItem::new(line, scope));
            assert(items@ =~= items_of(all.subrange(0, i + 1), scope));
        }
        assert(all.subrange(0, all.len() as int) =~= all);
        Source::List(items)
    }

    /// Whether the source is sure to end: all but standard input are.
    pub fn is_finite(&self) -> (finite: bool)
        ensures
            finite == !(self is Stdin),
    {
        match self {
            Source::Stdin => false,
            _ => true,
        }
    }

    /// Returns the results of the lines that match the query, in the order
    /// of the lines. Only lines held in memory can be filtered; a source
    /// that is still to be read gives `NotRead`.
    pub fn filter(self, algo: Algo, query: &str) -> (r: Result<Vec<MatchResult>, SourceError>)
        ensures
            match self {
                Source::List(items) => r is Ok && views(r->Ok_0@) == matches_of(
                    items@,
                    algo,
                    query.spec_bytes(),
                    None,
                ),
                _ => r == Err::<Vec<MatchResult>, SourceError>(SourceError::NotRead),
            },
    {
        match self {
            Source::List(items) => Ok(filter_items(&items, algo, query, None)),
            _ => Err(SourceError::NotRead),
        }
    }
}

} // verus!
