//! Sessions: one conversation with a client, which holds at most one
//! pipeline at any time.
//!
//! A session is driven by inputs: requests of the client, and what comes
//! back from the source that runs for it. Every query change starts a new
//! generation. What arrives for an older generation is dropped, so nothing
//! is ever reported for a query that has been superseded.

use crate::item::MatchScope;
use crate::live::{
    event_view, fed, lemma_fed, lemma_line_keeps_inv, lemma_start_inv, lemma_steps_keep_inv, Event,
    EventView, Next, Pipeline, PipelineConfig, PipelineState, PipelineView,
};
use vstd::prelude::*;
use vstd::string::*;

verus! {

/// How a session answers a query, by the provider's configuration.
#[derive(Clone, Copy, Debug, PartialEq, Eq, Structural)]
pub enum FilterMode {
    /// From the lines that were cached at the start, in one call; a session
    /// that has cached nothing runs a source.
    Snapshot,
    /// From a source that is started anew for every query.
    Live,
}

/// What comes in for a session.
pub enum Input {
    /// The lines that the provider gives before any query.
    Init { request_id: u64, lines: Vec<String> },
    /// The query changed.
    Query { request_id: u64, query: String },
    /// A line from the source that was started for `generation`.
    Line { generation: u64, line: String },
    /// The source of `generation` produced a line that is not valid UTF-8.
    Invalid { generation: u64 },
    /// The timer of the pipeline of `generation` fired.
    Tick { generation: u64 },
    /// The source of `generation` has ended.
    End { generation: u64 },
    /// The source for `generation` could not be started.
    SpawnFailed { generation: u64 },
}

/// What the driver of a session is to do.
pub enum Action {
    /// Nothing.
    Idle,
    /// Send the event as the answer to request `id`.
    Reply { id: u64, event: Event },
    /// Start a source for the query and feed its lines back under this
    /// generation.
    Spawn { generation: u64 },
    /// Answer request `id` with an error.
    Fail { id: u64, error: Failure },
}

/// Why a request could not be served.
#[derive(Clone, Copy, Debug, PartialEq, Eq, Structural)]
pub enum Failure {
    /// The source for the query could not be started.
    SpawnFailed,
    /// The session has used up its generations.
    OutOfGenerations,
    /// The request names no query.
    MissingQuery,
    /// The request names no line.
    MissingLine,
}

/// The mathematical value of an `Action`.
pub enum ActionView {
    Idle,
    Reply { id: u64, event: EventView },
    Spawn { generation: u64 },
    Fail { id: u64, error: Failure },
}

impl View for Action {
    type V = ActionView;

    open spec fn view(&self) -> ActionView {
        match self {
            Action::Idle => ActionView::Idle,
            Action::Reply { id, event } => ActionView::Reply { id: *id, event: event@ },
            Action::Spawn { generation } => ActionView::Spawn { generation: *generation },
            Action::Fail { id, error } => ActionView::Fail { id: *id, error: *error },
        }
    }
}

/// What a session gives back for an input.
pub struct Output {
    /// The generation whose source is no longer wanted and is to be
    /// terminated, if any.
    pub kill: Option<u64>,
    /// What else is to be done.
    pub action: Action,
}

/// The mathematical value of an `Output`.
pub struct OutputView {
    pub kill: Option<u64>,
    pub action: ActionView,
}

impl View for Output {
    type V = OutputView;

    open spec fn view(&self) -> OutputView {
        OutputView { kill: self.kill, action: self.action@ }
    }
}

impl OutputView {
    /// The event that the output sends, if it sends one.
    pub open spec fn event(self) -> Option<EventView> {
        match self.action {
            ActionView::Reply { id, event } => Some(event),
            _ => None,
        }
    }
}

/// The settings of the pipeline that shows the lines before any query: the
/// whole of every line is matched, and nothing is cut for the display.
pub open spec fn unfiltered(config: PipelineConfig) -> PipelineConfig {
    PipelineConfig { scope: MatchScope::Full, winwidth: None, ..config }
}

/// The answer of a request to an event that may be absent.
pub open spec fn reply_or_idle(id: u64, event: Option<EventView>) -> ActionView {
    match event {
        Some(e) => ActionView::Reply { id: id, event: e },
        None => ActionView::Idle,
    }
}

/// The mathematical value of a session.
pub struct SessionView {
    pub id: u64,
    pub cwd: Seq<char>,
    pub config: PipelineConfig,
    pub mode: FilterMode,
    /// The number of the current query.
    pub generation: u64,
    /// The request that set the current query.
    pub request_id: u64,
    /// The pipeline of the current query, if one is live.
    pub pipeline: Option<PipelineView>,
    /// The lines cached at the start, if any.
    pub snapshot: Option<Seq<String>>,
}

impl SessionView {
    /// What holds of every session: a pipeline that it holds works for the
    /// current generation, with the settings of the session.
    pub open spec fn inv(self) -> bool {
        self.pipeline matches Some(p) ==> p.inv() && p.generation == self.generation && p.config
            == self.config
    }

    /// A new session.
    pub open spec fn start(id: u64, cwd: Seq<char>, config: PipelineConfig, mode: FilterMode) -> Self {
        SessionView {
            id: id,
            cwd: cwd,
            config: config,
            mode: mode,
            generation: 0,
            request_id: 0,
            pipeline: None,
            snapshot: None,
        }
    }

    /// Whether the session holds a pipeline for this generation.
    pub open spec fn is_current(self, generation: u64) -> bool {
        self.pipeline is Some && generation == self.generation
    }

    /// The generation of a pipeline that is still running, which a query
    /// change supersedes.
    pub open spec fn superseded(self) -> Option<u64> {
        match self.pipeline {
            Some(p) => if p.state == PipelineState::Running {
                Some(p.generation)
            } else {
                None
            },
            None => None,
        }
    }

    /// Whether a query is answered from the cached lines.
    pub open spec fn answers_from_snapshot(self) -> bool {
        self.mode == FilterMode::Snapshot && self.snapshot is Some
    }

    /// The pipeline that has taken all the cached lines for a query.
    pub open spec fn snapshot_run(self, generation: u64, query: Seq<char>) -> PipelineView {
        fed(PipelineView::start(generation, query, self.config), self.snapshot->Some_0)
    }

    /// The pipeline that has taken the given lines without a query.
    pub open spec fn initial_run(self, lines: Seq<String>) -> PipelineView {
        fed(PipelineView::start(self.generation, Seq::empty(), unfiltered(self.config)), lines)
    }

    /// The session after an input.
    pub open spec fn step(self, input: Input) -> Self {
        match input {
            Input::Init { request_id, lines } => SessionView { snapshot: Some(lines@), ..self },
            Input::Query { request_id, query } => {
                if self.generation == u64::MAX {
                    self
                } else if self.answers_from_snapshot() {
                    SessionView {
                        generation: (self.generation + 1) as u64,
                        request_id: request_id,
                        pipeline: None,
                        ..self
                    }
                } else {
                    SessionView {
                        generation: (self.generation + 1) as u64,
                        request_id: request_id,
                        pipeline: Some(
                            PipelineView::start(
                                (self.generation + 1) as u64,
                                query@,
                                self.config,
                            ),
                        ),
                        ..self
                    }
                }
            },
            Input::Line { generation, line } => {
                if self.is_current(generation) {
                    SessionView { pipeline: Some(self.pipeline->Some_0.after_line(line)), ..self }
                } else {
                    self
                }
            },
            Input::Invalid { generation } => {
                if self.is_current(generation) {
                    SessionView { pipeline: Some(self.pipeline->Some_0.after_invalid()), ..self }
                } else {
                    self
                }
            },
            Input::Tick { generation } => {
                if self.is_current(generation) {
                    SessionView { pipeline: Some(self.pipeline->Some_0.after_tick()), ..self }
                } else {
                    self
                }
            },
            Input::End { generation } => {
                if self.is_current(generation) {
                    SessionView { pipeline: None, ..self }
                } else {
                    self
                }
            },
            Input::SpawnFailed { generation } => {
                if self.is_current(generation) {
                    SessionView { pipeline: None, ..self }
                } else {
                    self
                }
            },
        }
    }

    /// What the session gives back for an input.
    pub open spec fn output(self, input: Input) -> OutputView {
        match input {
            Input::Init { request_id, lines } => OutputView {
                kill: None,
                action: reply_or_idle(request_id, self.initial_run(lines@).end_event()),
            },
            Input::Query { request_id, query } => {
                if self.generation == u64::MAX {
                    OutputView {
                        kill: None,
                        action: ActionView::Fail {
                            id: request_id,
                            error: Failure::OutOfGenerations,
                        },
                    }
                } else if self.answers_from_snapshot() {
                    OutputView {
                        kill: self.superseded(),
                        action: reply_or_idle(
                            request_id,
                            self.snapshot_run((self.generation + 1) as u64, query@).end_event(),
                        ),
                    }
                } else {
                    OutputView {
                        kill: self.superseded(),
                        action: ActionView::Spawn { generation: (self.generation + 1) as u64 },
                    }
                }
            },
            Input::Line { generation, line } => {
                if self.is_current(generation) {
                    OutputView {
                        kill: if self.pipeline->Some_0.after_line(line).stops() {
                            Some(generation)
                        } else {
                            None
                        },
                        action: ActionView::Idle,
                    }
                } else {
                    OutputView { kill: Some(generation), action: ActionView::Idle }
                }
            },
            Input::Invalid { generation } => {
                if self.is_current(generation) {
                    OutputView { kill: None, action: ActionView::Idle }
                } else {
                    OutputView { kill: Some(generation), action: ActionView::Idle }
                }
            },
            Input::Tick { generation } => {
                if self.is_current(generation) {
                    OutputView {
                        kill: None,
                        action: reply_or_idle(
                            self.request_id,
                            self.pipeline->Some_0.tick_event(),
                        ),
                    }
                } else {
                    OutputView { kill: Some(generation), action: ActionView::Idle }
                }
            },
            Input::End { generation } => {
                if self.is_current(generation) {
                    OutputView {
                        kill: None,
                        action: reply_or_idle(self.request_id, self.pipeline->Some_0.end_event()),
                    }
                } else {
                    OutputView { kill: None, action: ActionView::Idle }
                }
            },
            Input::SpawnFailed { generation } => {
                if self.is_current(generation) {
                    OutputView {
                        kill: None,
                        action: ActionView::Fail {
                            id: self.request_id,
                            error: Failure::SpawnFailed,
                        },
                    }
                } else {
                    OutputView { kill: None, action: ActionView::Idle }
                }
            },
        }
    }
}

/// One conversation with a client.
pub struct Session {
    id: u64,
    cwd: String,
    config: PipelineConfig,
    mode: FilterMode,
    generation: u64,
    request_id: u64,
    pipeline: Option<Pipeline>,
    snapshot: Option<Vec<String>>,
}

/// Hands all the lines to a pipeline and returns its final event.
fn run_through(pipeline: &mut Pipeline, lines: &Vec<String>) -> (event: Option<Event>)
    requires
        old(pipeline).wf(),
    ensures
        final(pipeline).wf(),
        final(pipeline)@ == fed(old(pipeline)@, lines@).after_end(),
        event_view(event) == fed(old(pipeline)@, lines@).end_event(),
{
    let ghost start = pipeline@;
    let mut i: usize = 0;
    assert(lines@.subrange(0, 0) =~= Seq::empty());
    while i < lines.len()
        invariant
            i <= lines@.len(),
            pipeline.wf(),
            pipeline@ == fed(start, lines@.subrange(0, i as int)),
        decreases lines@.len() - i,
    {
        assert(lines@.subrange(0, i + 1).drop_last() =~= lines@.subrange(0, i as int));
        assert(lines@.subrange(0, i + 1).last() == lines@[i as int]);
        let line = lines[i].clone();
        let _ = pipeline.on_line(line);
        i += 1;
    }
    assert(lines@.subrange(0, lines@.len() as int) =~= lines@);
    pipeline.on_exhausted()
}

fn reply(id: u64, event: Option<Event>) -> (action: Action)
    ensures
        action@ == reply_or_idle(id, event_view(event)),
{
    match event {
        Some(e) => Action::Reply { id, event: e },
        None => Action::Idle,
    }
}

impl View for Session {
    type V = SessionView;

    closed spec fn view(&self) -> SessionView {
        SessionView {
            id: self.id,
            cwd: self.cwd@,
            config: self.config,
            mode: self.mode,
            generation: self.generation,
            request_id: self.request_id,
            pipeline: match self.pipeline {
                Some(p) => Some(p@),
                None => None,
            },
            snapshot: match self.snapshot {
                Some(lines) => Some(lines@),
                None => None,
            },
        }
    }
}

impl Session {
    /// The session is in order.
    pub closed spec fn wf(&self) -> bool {
        &&& self@.inv()
        &&& self.pipeline matches Some(p) ==> p.wf()
    }

    /// What holds of every session in order.
    pub proof fn lemma_inv(&self)
        requires
            self.wf(),
        ensures
            self@.inv(),
    {
    }

    /// A new session, which has seen no query and holds no pipeline.
    pub fn new(id: u64, cwd: String, config: PipelineConfig, mode: FilterMode) -> (s: Self)
        ensures
            s.wf(),
            s@ == SessionView::start(id, cwd@, config, mode),
    {
        Session {
            id,
            cwd,
            config,
            mode,
            generation: 0,
            request_id: 0,
            pipeline: None,
            snapshot: None,
        }
    }

    /// A new session whose queries are numbered from `generation` on, as
    /// for a conversation that is taken up again.
    pub fn starting_at(
        id: u64,
        cwd: String,
        config: PipelineConfig,
        mode: FilterMode,
        generation: u64,
    ) -> (s: Self)
        ensures
            s.wf(),
            s@ == (SessionView {
                generation: generation,
                ..SessionView::start(id, cwd@, config, mode)
            }),
    {
        Session {
            id,
            cwd,
            config,
            mode,
            generation,
            request_id: 0,
            pipeline: None,
            snapshot: None,
        }
    }

    /// The identity of the session.
    pub fn id(&self) -> (id: u64)
        ensures
            id == self@.id,
    {
        self.id
    }

    /// The working directory of the session.
    pub fn cwd(&self) -> (cwd: &str)
        ensures
            cwd@ == self@.cwd,
    {
        self.cwd.as_str()
    }

    /// The number of the current query.
    pub fn generation(&self) -> (g: u64)
        ensures
            g == self@.generation,
    {
        self.generation
    }

    /// Whether a pipeline is live.
    pub fn has_pipeline(&self) -> (b: bool)
        ensures
            b == (self@.pipeline is Some),
    {
        self.pipeline.is_some()
    }

    /// Caches the lines that later queries are answered from.
    pub fn set_source_list(&mut self, lines: Vec<String>)
        requires
            old(self).wf(),
        ensures
            final(self).wf(),
            final(self)@ == (SessionView { snapshot: Some(lines@), ..old(self)@ }),
    {
        self.snapshot = Some(lines);
    }

    /// Cancels the pipeline, if one is live, and returns the generation
    /// whose source is to be terminated.
    pub fn close(&mut self) -> (kill: Option<u64>)
        requires
            old(self).wf(),
        ensures
            final(self).wf(),
            final(self)@ == (SessionView { pipeline: None, ..old(self)@ }),
            kill == old(self)@.superseded(),
    {
        let kill = self.running_generation();
        self.pipeline = None;
        kill
    }

    fn running_generation(&self) -> (g: Option<u64>)
        requires
            self.wf(),
        ensures
            g == self@.superseded(),
    {
        match &self.pipeline {
            Some(p) => if p.is_running() {
                Some(p.generation())
            } else {
                None
            },
            None => None,
        }
    }

    /// Takes one input and says what is to be done.
    pub fn step(&mut self, input: Input) -> (out: Output)
        requires
            old(self).wf(),
        ensures
            final(self).wf(),
            final(self)@ == old(self)@.step(input),
            out@ == old(self)@.output(input),
    {
        match input {
            Input::Init { request_id, lines } => {
                let config = PipelineConfig {
                    scope: MatchScope::Full,
                    winwidth: None,
                    ..self.config
                };
                let mut first = Pipeline::new(self.generation, String::new(), config);
                let event = run_through(&mut first, &lines);
                self.snapshot = Some(lines);
                Output { kill: None, action: reply(request_id, event) }
            },
            Input::Query { request_id, query } => {
                if self.generation == u64::MAX {
                    return Output {
                        kill: None,
                        action: Action::Fail { id: request_id, error: Failure::OutOfGenerations },
                    };
                }
                let kill = self.running_generation();
                let generation = self.generation + 1;
                let mut next = Pipeline::new(generation, query, self.config);
                self.generation = generation;
                self.request_id = request_id;
                let from_snapshot = match self.mode {
                    FilterMode::Snapshot => self.snapshot.is_some(),
                    FilterMode::Live => false,
                };
                if from_snapshot {
                    let event = match &self.snapshot {
                        Some(lines) => run_through(&mut next, lines),
                        None => None,
                    };
                    self.pipeline = None;
                    Output { kill, action: reply(request_id, event) }
                } else {
                    proof {
                        next.lemma_inv();
                    }
                    self.pipeline = Some(next);
                    Output { kill, action: Action::Spawn { generation } }
                }
            },
            Input::Line { generation, line } => {
                if generation != self.generation {
                    return Output { kill: Some(generation), action: Action::Idle };
                }
                match self.pipeline.take() {
                    Some(mut p) => {
                        let next = p.on_line(line);
                        proof {
                            p.lemma_inv();
                        }
                        self.pipeline = Some(p);
                        match next {
                            Next::Stop => Output { kill: Some(generation), action: Action::Idle },
                            Next::Continue => Output { kill: None, action: Action::Idle },
                        }
                    },
                    None => Output { kill: Some(generation), action: Action::Idle },
                }
            },
            Input::Invalid { generation } => {
                if generation != self.generation {
                    return Output { kill: Some(generation), action: Action::Idle };
                }
                match self.pipeline.take() {
                    Some(mut p) => {
                        p.on_invalid_line();
                        proof {
                            p.lemma_inv();
                        }
                        self.pipeline = Some(p);
                        Output { kill: None, action: Action::Idle }
                    },
                    None => Output { kill: Some(generation), action: Action::Idle },
                }
            },
            Input::Tick { generation } => {
                if generation != self.generation {
                    return Output { kill: Some(generation), action: Action::Idle };
                }
                match self.pipeline.take() {
                    Some(mut p) => {
                        let event = p.on_tick();
                        proof {
                            p.lemma_inv();
                        }
                        self.pipeline = Some(p);
                        Output { kill: None, action: reply(self.request_id, event) }
                    },
                    None => Output { kill: Some(generation), action: Action::Idle },
                }
            },
            Input::End { generation } => {
                if generation != self.generation {
                    return Output { kill: None, action: Action::Idle };
                }
                match self.pipeline.take() {
                    Some(mut p) => {
                        let event = p.on_exhausted();
                        Output { kill: None, action: reply(self.request_id, event) }
                    },
                    None => Output { kill: None, action: Action::Idle },
                }
            },
            Input::SpawnFailed { generation } => {
                if generation != self.generation {
                    return Output { kill: None, action: Action::Idle };
                }
                match self.pipeline.take() {
                    Some(_) => Output {
                        kill: None,
                        action: Action::Fail { id: self.request_id, error: Failure::SpawnFailed },
                    },
                    None => Output { kill: None, action: Action::Idle },
                }
            },
        }
    }
}

impl Input {
    /// The generation that an input from a source is tagged with; a
    /// request of the client has none.
    pub open spec fn tag(self) -> Option<u64> {
        match self {
            Input::Init { .. } => None,
            Input::Query { .. } => None,
            Input::Line { generation, .. } => Some(generation),
            Input::Invalid { generation } => Some(generation),
            Input::Tick { generation } => Some(generation),
            Input::End { generation } => Some(generation),
            Input::SpawnFailed { generation } => Some(generation),
        }
    }
}

/// The session after a sequence of inputs.
pub open spec fn run(v: SessionView, inputs: Seq<Input>) -> SessionView
    decreases inputs.len(),
{
    if inputs.len() == 0 {
        v
    } else {
        run(v, inputs.drop_last()).step(inputs.last())
    }
}

/// The events that a session sends over a sequence of inputs, in the order
/// in which it sends them.
pub open spec fn events(v: SessionView, inputs: Seq<Input>) -> Seq<EventView>
    decreases inputs.len(),
{
    if inputs.len() == 0 {
        Seq::empty()
    } else {
        let before = events(v, inputs.drop_last());
        match run(v, inputs.drop_last()).output(inputs.last()).event() {
            Some(e) => before.push(e),
            None => before,
        }
    }
}

/// One step of a session: the session stays in order, its generation
/// never falls, and an event that it sends is tagged with the generation
/// that the session then has.
pub proof fn lemma_step(v: SessionView, input: Input)
    requires
        v.inv(),
    ensures
        v.step(input).inv(),
        v.step(input).generation >= v.generation,
        v.step(input).id == v.id,
        v.output(input).event() matches Some(e) ==> e.generation() == v.step(input).generation,
{
    match input {
        Input::Init { request_id, lines } => {
            let start = PipelineView::start(v.generation, Seq::empty(), unfiltered(v.config));
            lemma_start_inv(v.generation, Seq::empty(), unfiltered(v.config));
            lemma_fed(start, lines@);
        },
        Input::Query { request_id, query } => {
            if v.generation < u64::MAX {
                let g = (v.generation + 1) as u64;
                lemma_start_inv(g, query@, v.config);
                if v.answers_from_snapshot() {
                    lemma_fed(PipelineView::start(g, query@, v.config), v.snapshot->Some_0);
                }
            }
        },
        Input::Line { generation, line } => {
            if v.is_current(generation) {
                lemma_line_keeps_inv(v.pipeline->Some_0, line);
            }
        },
        Input::Invalid { generation } => {
            if v.is_current(generation) {
                lemma_steps_keep_inv(v.pipeline->Some_0);
            }
        },
        Input::Tick { generation } => {
            if v.is_current(generation) {
                lemma_steps_keep_inv(v.pipeline->Some_0);
            }
        },
        Input::End { generation } => {},
        Input::SpawnFailed { generation } => {},
    }
}

/// What comes from a source of another generation than the current one
/// changes nothing and is never reported: a superseded query stays silent.
pub proof fn lemma_stale_is_silent(v: SessionView, input: Input)
    requires
        input.tag() matches Some(g) && g != v.generation,
    ensures
        v.step(input) == v,
        v.output(input).action == ActionView::Idle,
        v.output(input).event() is None,
{
}

/// Over any sequence of inputs the session stays in order and its
/// generation never falls; every event sent is tagged with a generation
/// between the one at the start and the one at the end.
pub proof fn lemma_run(v: SessionView, inputs: Seq<Input>)
    requires
        v.inv(),
    ensures
        run(v, inputs).inv(),
        run(v, inputs).generation >= v.generation,
        forall|i: int|
            0 <= i < events(v, inputs).len() ==> v.generation <= (#[trigger] events(
                v,
                inputs,
            )[i]).generation() <= run(v, inputs).generation,
    decreases inputs.len(),
{
    if inputs.len() > 0 {
        lemma_run(v, inputs.drop_last());
        lemma_step(run(v, inputs.drop_last()), inputs.last());
        let before = events(v, inputs.drop_last());
        let all = events(v, inputs);
        assert forall|i: int| 0 <= i < all.len() implies v.generation <= (#[trigger] all[i]).generation()
            <= run(v, inputs).generation by {
            if i < before.len() {
                assert(all[i] == before[i]);
            }
        }
    }
}

/// The generations of the events that a session sends never fall: once an
/// event of a generation was sent, no event of an older generation follows.
pub proof fn lemma_generations_ascend(v: SessionView, inputs: Seq<Input>, i: int, j: int)
    requires
        v.inv(),
        0 <= i <= j < events(v, inputs).len(),
    ensures
        events(v, inputs)[i].generation() <= events(v, inputs)[j].generation(),
    decreases inputs.len(),
{
    if inputs.len() > 0 {
        let before = events(v, inputs.drop_last());
        if j < before.len() {
            lemma_generations_ascend(v, inputs.drop_last(), i, j);
        } else if i < j {
            lemma_run(v, inputs.drop_last());
            lemma_step(run(v, inputs.drop_last()), inputs.last());
        }
    }
}

} // verus!
