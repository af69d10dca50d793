//! The live filter: one pipeline per query, fed line by line while the
//! source is still producing, and asked for progress by a timer.
//!
//! A pipeline decides; it does no I/O. Whoever drives it reads the source,
//! keeps the timer, hands each line and each tick to the pipeline and sends
//! the events that the pipeline gives back.

use crate::filter::{page_of, respond, FilterResponse, ResponseView};
use crate::item::{MatchScope, SourceItem};
use crate::matcher::Algo;
use crate::ranked::{
    insert_point, keep, lemma_top_n, lemma_top_n_push, rank_insert, top_n, MatchView, RankedSet,
};
use crate::source::{item_match, items_of, match_item, matches_of};
use vstd::prelude::*;
use vstd::string::*;
use vstd::utf8::*;

verus! {

/// What a pipeline does once the hard cap of matches is reached.
#[derive(Clone, Copy, Debug, PartialEq, Eq, Structural)]
pub enum CapPolicy {
    /// Stop reading the source.
    StopConsuming,
    /// Keep reading and counting; only the pages are no longer sent.
    KeepCounting,
}

/// The settings of a pipeline.
#[derive(Clone, Copy, Debug)]
pub struct PipelineConfig {
    /// The scorer.
    pub algo: Algo,
    /// The part of each line that is matched.
    pub scope: MatchScope,
    /// How many results a page holds at most.
    pub capacity: usize,
    /// The number of matches after which progress reports carry the total
    /// only.
    pub hard_cap: usize,
    /// What happens to the source once the hard cap is reached.
    pub policy: CapPolicy,
    /// The width of the display, in characters.
    pub winwidth: Option<usize>,
    /// Whether a run that matched nothing but skipped lines that were not
    /// valid UTF-8 reports one line that says so.
    pub report_invalid: bool,
}

/// The states of a pipeline.
#[derive(Clone, Copy, Debug, PartialEq, Eq, Structural)]
pub enum PipelineState {
    /// Lines are taken and progress is reported.
    Running,
    /// The source has ended and the final event was given.
    Exhausted,
    /// A newer query took over; nothing is reported any more.
    Cancelled,
}

/// What the driver does after it handed over a line.
#[derive(Clone, Copy, Debug, PartialEq, Eq, Structural)]
pub enum Next {
    /// Read on.
    Continue,
    /// Read no further line for this pipeline.
    Stop,
}

/// What a pipeline reports. Every event carries the generation of the
/// query that the pipeline works for.
#[allow(inconsistent_fields)]
pub enum Event {
    /// The source is still producing.
    Progress {
        generation: u64,
        /// Lines taken so far.
        processed: usize,
        /// Matches so far.
        total: usize,
        /// The best results so far, unless they did not change or the hard
        /// cap was reached.
        page: Option<FilterResponse>,
    },
    /// The source has ended.
    Final {
        generation: u64,
        /// Lines taken in all.
        processed: usize,
        /// The best results and the number of matches.
        page: FilterResponse,
    },
}

/// The mathematical value of an `Event`.
#[allow(inconsistent_fields)]
pub enum EventView {
    Progress { generation: u64, processed: usize, total: usize, page: Option<ResponseView> },
    Final { generation: u64, processed: usize, page: ResponseView },
}

impl View for Event {
    type V = EventView;

    open spec fn view(&self) -> EventView {
        match self {
            Event::Progress { generation, processed, total, page } => EventView::Progress {
                generation: *generation,
                processed: *processed,
                total: *total,
                page: match page {
                    Some(p) => Some(p@),
                    None => None,
                },
            },
            Event::Final { generation, processed, page } => EventView::Final {
                generation: *generation,
                processed: *processed,
                page: page@,
            },
        }
    }
}

impl EventView {
    /// The generation that the event is tagged with.
    pub open spec fn generation(self) -> u64 {
        match self {
            EventView::Progress { generation, .. } => generation,
            EventView::Final { generation, .. } => generation,
        }
    }

    /// The number of lines that the event reports as taken.
    pub open spec fn processed(self) -> usize {
        match self {
            EventView::Progress { processed, .. } => processed,
            EventView::Final { processed, .. } => processed,
        }
    }
}

impl Event {
    /// The generation that the event is tagged with.
    pub fn generation(&self) -> (g: u64)
        ensures
            g == self@.generation(),
    {
        match self {
            Event::Progress { generation, .. } => *generation,
            Event::Final { generation, .. } => *generation,
        }
    }
}

/// The value of an event that may be absent.
pub open spec fn event_view(e: Option<Event>) -> Option<EventView> {
    match e {
        Some(e) => Some(e@),
        None => None,
    }
}

/// The line that stands for skipped input when nothing else can be shown.
pub const INVALID_NOTICE: &'static str = "some lines were skipped: not valid UTF-8";

/// The mathematical value of a pipeline.
pub struct PipelineView {
    pub generation: u64,
    pub query: Seq<char>,
    pub config: PipelineConfig,
    pub state: PipelineState,
    /// The lines taken so far, in the order of arrival.
    pub items: Seq<SourceItem>,
    /// How many lines were skipped because they were not valid UTF-8.
    pub invalid: usize,
    /// How many lines were taken.
    pub processed: usize,
    /// How many of them matched.
    pub matched: usize,
    /// The number of lines taken when progress was last reported.
    pub reported: usize,
    /// The number of matches when a page was last sent.
    pub paged: usize,
    /// Whether the best results changed since a page was last sent.
    pub dirty: bool,
    /// The best results so far.
    pub kept: Seq<MatchView>,
}

/// A counter one higher, or unchanged at the greatest value it can hold.
pub open spec fn bump(n: usize) -> usize {
    if n < usize::MAX {
        (n + 1) as usize
    } else {
        n
    }
}

/// A count held in a counter that stops at its greatest value.
pub open spec fn counted(n: nat) -> usize {
    if n <= usize::MAX {
        n as usize
    } else {
        usize::MAX
    }
}

impl PipelineView {
    /// Every match among the lines taken so far, in the order of arrival.
    pub open spec fn seen(self) -> Seq<MatchView> {
        matches_of(self.items, self.config.algo, encode_utf8(self.query), self.config.winwidth)
    }

    /// What holds of every pipeline: it keeps the best of all matches so
    /// far, its counters say how many lines were taken and how many
    /// matched, and no report is ahead of the counters.
    pub open spec fn inv(self) -> bool {
        &&& self.kept == top_n(self.seen(), self.config.capacity as nat)
        &&& self.processed == counted(self.items.len())
        &&& self.matched == counted(self.seen().len())
        &&& self.reported <= self.processed
        &&& self.paged <= self.matched
    }

    /// The pipeline for a query, before any line.
    pub open spec fn start(generation: u64, query: Seq<char>, config: PipelineConfig) -> Self {
        PipelineView {
            generation: generation,
            query: query,
            config: config,
            state: PipelineState::Running,
            items: Seq::empty(),
            invalid: 0,
            processed: 0,
            matched: 0,
            reported: 0,
            paged: 0,
            dirty: false,
            kept: Seq::empty(),
        }
    }

    /// The pipeline after a line: a running pipeline counts the line and,
    /// if it matches, counts the match and offers it to the ranking; any
    /// other pipeline ignores the line.
    pub open spec fn after_line(self, line: String) -> Self {
        if self.state != PipelineState::Running {
            self
        } else {
            let item = SourceItem { raw: line, scope: self.config.scope };
            let found = item_match(
                item,
                self.config.algo,
                encode_utf8(self.query),
                self.config.winwidth,
            );
            match found {
                None => PipelineView {
                    items: self.items.push(item),
                    processed: bump(self.processed),
                    ..self
                },
                Some(m) => PipelineView {
                    items: self.items.push(item),
                    processed: bump(self.processed),
                    matched: bump(self.matched),
                    dirty: self.dirty || insert_point(self.kept, m.score) < self.config.capacity,
                    kept: keep(rank_insert(self.kept, m), self.config.capacity as nat),
                    ..self
                },
            }
        }
    }

    /// Whether the source is read no further after a line was handed over.
    pub open spec fn stops(self) -> bool {
        self.state != PipelineState::Running || (self.config.policy == CapPolicy::StopConsuming
            && self.matched >= self.config.hard_cap)
    }

    /// The pipeline after a line that was not valid UTF-8: a running
    /// pipeline counts it as skipped.
    pub open spec fn after_invalid(self) -> Self {
        if self.state != PipelineState::Running {
            self
        } else {
            PipelineView { invalid: bump(self.invalid), ..self }
        }
    }

    /// Whether the next progress report carries a page: the best results
    /// changed, and no page was sent yet at or beyond the hard cap.
    pub open spec fn sends_page(self) -> bool {
        self.dirty && self.paged < self.config.hard_cap
    }

    /// Whether a tick leads to a report: the pipeline runs and has taken
    /// lines since the last report.
    pub open spec fn reports(self) -> bool {
        self.state == PipelineState::Running && self.processed != self.reported
    }

    /// The pipeline after a tick of the timer.
    pub open spec fn after_tick(self) -> Self {
        if !self.reports() {
            self
        } else if self.sends_page() {
            PipelineView { reported: self.processed, paged: self.matched, dirty: false, ..self }
        } else {
            PipelineView { reported: self.processed, ..self }
        }
    }

    /// What a tick of the timer reports.
    pub open spec fn tick_event(self) -> Option<EventView> {
        if !self.reports() {
            None
        } else {
            Some(
                EventView::Progress {
                    generation: self.generation,
                    processed: self.processed,
                    total: self.matched,
                    page: if self.sends_page() {
                        Some(page_of(self.kept, self.matched as nat))
                    } else {
                        None
                    },
                },
            )
        }
    }

    /// Whether the final page holds the notice of skipped lines in place
    /// of results.
    pub open spec fn shows_notice(self) -> bool {
        self.config.report_invalid && self.kept.len() == 0 && self.invalid > 0
    }

    /// The page of the final event.
    pub open spec fn final_page(self) -> ResponseView {
        if self.shows_notice() {
            ResponseView {
                total: 0,
                lines: seq![INVALID_NOTICE@],
                indices: seq![Seq::<usize>::empty()],
                truncated_map: Seq::empty(),
            }
        } else {
            page_of(self.kept, self.matched as nat)
        }
    }

    /// The pipeline after its source has ended.
    pub open spec fn after_end(self) -> Self {
        if self.state != PipelineState::Running {
            self
        } else {
            PipelineView { state: PipelineState::Exhausted, reported: self.processed, ..self }
        }
    }

    /// What the end of the source reports: the final event, once, and only
    /// if the pipeline was not cancelled.
    pub open spec fn end_event(self) -> Option<EventView> {
        if self.state != PipelineState::Running {
            None
        } else {
            Some(
                EventView::Final {
                    generation: self.generation,
                    processed: self.processed,
                    page: self.final_page(),
                },
            )
        }
    }

    /// The pipeline after it was cancelled.
    pub open spec fn after_cancel(self) -> Self {
        if self.state != PipelineState::Running {
            self
        } else {
            PipelineView { state: PipelineState::Cancelled, ..self }
        }
    }
}

/// One run of the live filter for one query.
pub struct Pipeline {
    generation: u64,
    query: String,
    config: PipelineConfig,
    state: PipelineState,
    items: Ghost<Seq<SourceItem>>,
    invalid: usize,
    processed: usize,
    matched: usize,
    reported: usize,
    paged: usize,
    dirty: bool,
    ranked: RankedSet,
}

fn bumped(n: usize) -> (r: usize)
    ensures
        r == bump(n),
{
    if n < usize::MAX {
        n + 1
    } else {
        n
    }
}

impl View for Pipeline {
    type V = PipelineView;

    closed spec fn view(&self) -> PipelineView {
        PipelineView {
            generation: self.generation,
            query: self.query@,
            config: self.config,
            state: self.state,
            items: self.items@,
            invalid: self.invalid,
            processed: self.processed,
            matched: self.matched,
            reported: self.reported,
            paged: self.paged,
            dirty: self.dirty,
            kept: self.ranked@,
        }
    }
}

impl Pipeline {
    /// The pipeline is in order.
    pub closed spec fn wf(&self) -> bool {
        &&& self@.inv()
        &&& self.ranked.wf()
        &&& self.ranked.capacity() == self.config.capacity
        &&& self.ranked.seen() == self@.seen()
    }

    /// What holds of every pipeline in order.
    pub proof fn lemma_inv(&self)
        requires
            self.wf(),
        ensures
            self@.inv(),
    {
    }

    /// A running pipeline for the query of the given generation.
    pub fn new(generation: u64, query: String, config: PipelineConfig) -> (p: Self)
        ensures
            p.wf(),
            p@ == PipelineView::start(generation, query@, config),
    {
        let ranked = RankedSet::new(config.capacity);
        let p = Pipeline {
            generation,
            query,
            config,
            state: PipelineState::Running,
            items: Ghost(Seq::empty()),
            invalid: 0,
            processed: 0,
            matched: 0,
            reported: 0,
            paged: 0,
            dirty: false,
            ranked,
        };
        proof {
            lemma_top_n(p@.seen(), config.capacity as nat);
        }
        p
    }

    /// The generation of the query that the pipeline works for.
    pub fn generation(&self) -> (g: u64)
        ensures
            g == self@.generation,
    {
        self.generation
    }

    /// The state of the pipeline.
    pub fn state(&self) -> (s: PipelineState)
        ensures
            s == self@.state,
    {
        self.state
    }

    /// Whether the pipeline still takes lines and reports.
    pub fn is_running(&self) -> (b: bool)
        ensures
            b == (self@.state == PipelineState::Running),
    {
        self.state == PipelineState::Running
    }

    /// The number of lines taken so far.
    pub fn processed(&self) -> (n: usize)
        ensures
            n == self@.processed,
    {
        self.processed
    }

    /// The number of matches so far.
    pub fn total(&self) -> (n: usize)
        ensures
            n == self@.matched,
    {
        self.matched
    }

    /// Takes one line of the source. Returns whether the source is to be
    /// read further.
    pub fn on_line(&mut self, line: String) -> (next: Next)
        requires
            old(self).wf(),
        ensures
            final(self).wf(),
            final(self)@ == old(self)@.after_line(line),
            next == if final(self)@.stops() {
                Next::Stop
            } else {
                Next::Continue
            },
    {
        if self.state != PipelineState::Running {
            return Next::Stop;
        }
        let ghost before = self@;
        let item = SourceItem::new(line, self.config.scope);
        let found = match_item(&item, self.config.algo, self.query.as_str(), self.config.winwidth);
        proof {
            assert(before.items.push(item).drop_last() =~= before.items);
            lemma_top_n(before.seen(), self.config.capacity as nat);
        }
        self.items = Ghost(self.items@.push(item));
        self.processed = bumped(self.processed);
        match found {
            None => {},
            Some(m) => {
                self.matched = bumped(self.matched);
                if self.ranked.offer(m) {
                    self.dirty = true;
                }
            },
        }
        match self.config.policy {
            CapPolicy::StopConsuming => if self.matched >= self.config.hard_cap {
                Next::Stop
            } else {
                Next::Continue
            },
            CapPolicy::KeepCounting => Next::Continue,
        }
    }

    /// Takes note of a line that was skipped because it was not valid
    /// UTF-8.
    pub fn on_invalid_line(&mut self)
        requires
            old(self).wf(),
        ensures
            final(self).wf(),
            final(self)@ == old(self)@.after_invalid(),
    {
        if self.state == PipelineState::Running {
            self.invalid = bumped(self.invalid);
        }
    }

    /// A tick of the timer. Reports progress if lines were taken since the
    /// last report.
    pub fn on_tick(&mut self) -> (event: Option<Event>)
        requires
            old(self).wf(),
        ensures
            final(self).wf(),
            final(self)@ == old(self)@.after_tick(),
            event_view(event) == old(self)@.tick_event(),
    {
        if self.state != PipelineState::Running || self.processed == self.reported {
            return None;
        }
        let page = if self.dirty && self.paged < self.config.hard_cap {
            self.paged = self.matched;
            self.dirty = false;
            Some(respond(self.ranked.results(), self.matched))
        } else {
            None
        };
        self.reported = self.processed;
        Some(
            Event::Progress {
                generation: self.generation,
                processed: self.processed,
                total: self.matched,
                page,
            },
        )
    }

    /// The source has ended. Gives the final event, unless the pipeline
    /// was cancelled or had ended before.
    pub fn on_exhausted(&mut self) -> (event: Option<Event>)
        requires
            old(self).wf(),
        ensures
            final(self).wf(),
            final(self)@ == old(self)@.after_end(),
            event_view(event) == old(self)@.end_event(),
    {
        if self.state != PipelineState::Running {
            return None;
        }
        self.state = PipelineState::Exhausted;
        self.reported = self.processed;
        let page = if self.config.report_invalid && self.ranked.len() == 0 && self.invalid > 0 {
            let mut lines: Vec<String> = Vec::new();
            lines.push(String::from_str(INVALID_NOTICE));
            let mut indices: Vec<Vec<usize>> = Vec::new();
            indices.push(Vec::new());
            let r = FilterResponse { total: 0, lines, indices, truncated_map: Vec::new() };
            assert(r@.lines =~= seq![INVALID_NOTICE@]);
            assert(r@.indices =~= seq![Seq::<usize>::empty()]);
            r
        } else {
            respond(self.ranked.results(), self.matched)
        };
        Some(Event::Final { generation: self.generation, processed: self.processed, page })
    }

    /// Cancels the pipeline: from now on it takes no line and reports
    /// nothing. A pipeline whose source has ended stays as it is.
    pub fn cancel(&mut self)
        requires
            old(self).wf(),
        ensures
            final(self).wf(),
            final(self)@ == old(self)@.after_cancel(),
    {
        if self.state == PipelineState::Running {
            self.state = PipelineState::Cancelled;
        }
    }
}

/// A pipeline that was cancelled, or whose source has ended, takes no line
/// and reports nothing, whatever it is handed.
pub proof fn lemma_stopped_is_silent(v: PipelineView, line: String)
    requires
        v.state != PipelineState::Running,
    ensures
        v.after_line(line) == v,
        v.after_invalid() == v,
        v.after_tick() == v,
        v.tick_event() is None,
        v.after_end() == v,
        v.end_event() is None,
        v.after_cancel() == v,
{
}

/// Reports never run backwards: after a tick or the end of the source the
/// number of lines last reported is at least what it was, and an event
/// reports exactly the number that is then remembered, under the
/// generation of the pipeline.
pub proof fn lemma_reports_ascend_once(v: PipelineView)
    requires
        v.inv(),
    ensures
        v.after_tick().reported >= v.reported,
        v.after_end().reported >= v.reported,
        v.tick_event() matches Some(e) ==> e.processed() == v.after_tick().reported
            && e.generation() == v.generation,
        v.end_event() matches Some(e) ==> e.processed() == v.after_end().reported
            && e.generation() == v.generation,
{
}

/// The pipeline after the lines were handed to it one by one.
pub open spec fn fed(v: PipelineView, lines: Seq<String>) -> PipelineView
    decreases lines.len(),
{
    if lines.len() == 0 {
        v
    } else {
        fed(v, lines.drop_last()).after_line(lines.last())
    }
}

/// What holds of a pipeline holds after a line that was skipped, a tick,
/// the end of the source and a cancellation.
pub proof fn lemma_steps_keep_inv(v: PipelineView)
    requires
        v.inv(),
    ensures
        v.after_invalid().inv(),
        v.after_tick().inv(),
        v.after_end().inv(),
        v.after_cancel().inv(),
{
}

/// What holds of a pipeline holds after a line, and the line changes
/// neither the generation, the query, the settings nor the state.
pub proof fn lemma_line_keeps_inv(v: PipelineView, line: String)
    requires
        v.inv(),
    ensures
        v.after_line(line).inv(),
        v.after_line(line).generation == v.generation,
        v.after_line(line).config == v.config,
        v.after_line(line).query == v.query,
        v.after_line(line).state == v.state,
{
    if v.state == PipelineState::Running {
        let item = SourceItem { raw: line, scope: v.config.scope };
        let found = item_match(item, v.config.algo, encode_utf8(v.query), v.config.winwidth);
        let w = v.after_line(line);
        assert(v.items.push(item).drop_last() =~= v.items);
        match found {
            None => {
                assert(w.seen() == v.seen());
            },
            Some(m) => {
                assert(w.seen() == v.seen().push(m));
                lemma_top_n_push(v.seen(), m, v.config.capacity as nat);
            },
        }
    }
}

/// The start of a pipeline is in order.
pub proof fn lemma_start_inv(generation: u64, query: Seq<char>, config: PipelineConfig)
    ensures
        PipelineView::start(generation, query, config).inv(),
{
    let v = PipelineView::start(generation, query, config);
    lemma_top_n(v.seen(), config.capacity as nat);
}

/// A pipeline that was handed lines one by one is in order, works for the
/// same query with the same settings, and is in the state it was in; if it
/// runs, it has taken exactly these lines, in their order.
pub proof fn lemma_fed(v: PipelineView, lines: Seq<String>)
    requires
        v.inv(),
    ensures
        fed(v, lines).inv(),
        fed(v, lines).generation == v.generation,
        fed(v, lines).config == v.config,
        fed(v, lines).query == v.query,
        fed(v, lines).state == v.state,
        v.state == PipelineState::Running ==> fed(v, lines).items == v.items + items_of(
            lines,
            v.config.scope,
        ),
        v.state != PipelineState::Running ==> fed(v, lines) == v,
    decreases lines.len(),
{
    if lines.len() == 0 {
        assert(v.items + items_of(lines, v.config.scope) =~= v.items);
    } else {
        lemma_fed(v, lines.drop_last());
        lemma_line_keeps_inv(fed(v, lines.drop_last()), lines.last());
        if v.state == PipelineState::Running {
            assert(fed(v, lines).items =~= v.items + items_of(lines, v.config.scope));
        }
    }
}

/// The final event of a pipeline that took the lines of a source one by
/// one reports what filtering the same lines in one call gives: the best
/// results of all matches among them, and their number.
pub proof fn lemma_final_page(generation: u64, query: Seq<char>, config: PipelineConfig, lines: Seq<String>)
    ensures
        ({
            let found = matches_of(
                items_of(lines, config.scope),
                config.algo,
                encode_utf8(query),
                config.winwidth,
            );
            let last = fed(PipelineView::start(generation, query, config), lines);
            &&& last.kept == top_n(found, config.capacity as nat)
            &&& last.matched == counted(found.len())
            &&& last.processed == counted(lines.len())
            &&& last.end_event() matches Some(e) && e.generation() == generation
            &&& !last.shows_notice() ==> last.end_event() == Some(
                EventView::Final {
                    generation: generation,
                    processed: counted(lines.len()),
                    page: page_of(
                        top_n(found, config.capacity as nat),
                        counted(found.len()) as nat,
                    ),
                },
            )
        }),
{
    let start = PipelineView::start(generation, query, config);
    lemma_start_inv(generation, query, config);
    lemma_fed(start, lines);
    assert(start.items + items_of(lines, config.scope) =~= items_of(lines, config.scope));
}

/// What can happen to a pipeline.
pub enum Feed {
    /// The source gave a line.
    Line(String),
    /// The source gave a line that is not valid UTF-8.
    Invalid,
    /// The timer fired.
    Tick,
    /// The source ended.
    End,
    /// A newer query took over.
    Cancel,
}

impl PipelineView {
    /// The pipeline after something happened to it.
    pub open spec fn step(self, feed: Feed) -> Self {
        match feed {
            Feed::Line(line) => self.after_line(line),
            Feed::Invalid => self.after_invalid(),
            Feed::Tick => self.after_tick(),
            Feed::End => self.after_end(),
            Feed::Cancel => self.after_cancel(),
        }
    }

    /// What the pipeline reports when something happens to it.
    pub open spec fn emits(self, feed: Feed) -> Option<EventView> {
        match feed {
            Feed::Tick => self.tick_event(),
            Feed::End => self.end_event(),
            _ => None,
        }
    }
}

/// The pipeline after a sequence of happenings.
pub open spec fn after_all(v: PipelineView, feeds: Seq<Feed>) -> PipelineView
    decreases feeds.len(),
{
    if feeds.len() == 0 {
        v
    } else {
        after_all(v, feeds.drop_last()).step(feeds.last())
    }
}

/// The events that a pipeline reports over a sequence of happenings, in
/// the order in which it reports them.
pub open spec fn reports_of(v: PipelineView, feeds: Seq<Feed>) -> Seq<EventView>
    decreases feeds.len(),
{
    if feeds.len() == 0 {
        Seq::empty()
    } else {
        let before = reports_of(v, feeds.drop_last());
        match after_all(v, feeds.drop_last()).emits(feeds.last()) {
            Some(e) => before.push(e),
            None => before,
        }
    }
}

/// Over any sequence of happenings a pipeline stays in order, and what it
/// remembers as reported is at least the number of lines in any event that
/// it sent, and at least what it remembered at the start.
pub proof fn lemma_after_all(v: PipelineView, feeds: Seq<Feed>)
    requires
        v.inv(),
    ensures
        after_all(v, feeds).inv(),
        after_all(v, feeds).generation == v.generation,
        after_all(v, feeds).reported >= v.reported,
        forall|i: int|
            0 <= i < reports_of(v, feeds).len() ==> (#[trigger] reports_of(v, feeds)[i]).processed()
                <= after_all(v, feeds).reported && reports_of(v, feeds)[i].generation()
                == v.generation,
    decreases feeds.len(),
{
    if feeds.len() > 0 {
        let earlier = after_all(v, feeds.drop_last());
        let before = reports_of(v, feeds.drop_last());
        let all = reports_of(v, feeds);
        lemma_after_all(v, feeds.drop_last());
        lemma_steps_keep_inv(earlier);
        match feeds.last() {
            Feed::Line(line) => {
                lemma_line_keeps_inv(earlier, line);
            },
            _ => {},
        }
        assert forall|i: int| 0 <= i < all.len() implies (#[trigger] all[i]).processed()
            <= after_all(v, feeds).reported && all[i].generation() == v.generation by {
            if i < before.len() {
                assert(all[i] == before[i]);
            }
        }
    }
}

/// The events of a pipeline never run backwards: of two events, the later
/// one reports at least as many lines as the earlier one.
pub proof fn lemma_reports_in_order(v: PipelineView, feeds: Seq<Feed>, i: int, j: int)
    requires
        v.inv(),
        0 <= i <= j < reports_of(v, feeds).len(),
    ensures
        reports_of(v, feeds)[i].processed() <= reports_of(v, feeds)[j].processed(),
    decreases feeds.len(),
{
    if feeds.len() > 0 {
        let before = reports_of(v, feeds.drop_last());
        if j < before.len() {
            lemma_reports_in_order(v, feeds.drop_last(), i, j);
        } else if i < j {
            let earlier = after_all(v, feeds.drop_last());
            lemma_after_all(v, feeds.drop_last());
            lemma_reports_ascend_once(earlier);
        }
    }
}

} // verus!
