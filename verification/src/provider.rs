//! The provider of project tags: sessions whose lines are the tags of a
//! project, matched by the name of the tag.

use crate::executor::{execute_at, tag_lines, texts, Executor, TagInfo};
use crate::item::MatchScope;
use crate::live::{CapPolicy, PipelineConfig};
use crate::matcher::Algo;
use crate::path::{joined_path, preview_of, PreviewRequest};
use crate::rpc::Message;
use crate::session::{
    Action, ActionView, Failure, FilterMode, Input, Output, OutputView, Session, SessionView,
};
use vstd::prelude::*;
use vstd::string::*;

verus! {

/// The name by which the client knows this provider.
pub const PROVIDER_ID: &'static str = "proj_tags";

/// How many lines a page holds.
pub const PAGE_SIZE: usize = 50;

/// The number of matches after which only the total is reported.
pub const HARD_CAP: usize = 500;

/// Starts sessions on the tags of a project.
pub struct ProjTagsSession;

/// Handles what comes in for a session on the tags of a project.
#[derive(Clone, Copy)]
pub struct ProjTagsMessageHandler;

/// The requests that reach a session once it runs.
pub enum RpcMessage {
    /// The selection changed.
    OnMove(Message),
    /// The query changed.
    OnTyped(Message),
}

/// What handling a request gives.
pub enum Handled {
    /// A preview is to be shown.
    Preview(PreviewRequest),
    /// The session took the request and says what is to be done.
    Filter(Output),
}

/// The settings of a pipeline on tags, for a display of the given width.
pub open spec fn tags_config_of(winwidth: Option<usize>) -> PipelineConfig {
    PipelineConfig {
        algo: Algo::Compact,
        scope: MatchScope::TagName,
        capacity: PAGE_SIZE,
        hard_cap: HARD_CAP,
        policy: CapPolicy::KeepCounting,
        winwidth: winwidth,
        report_invalid: true,
    }
}

/// The settings of a pipeline on tags, for a display of the given width.
pub fn tags_config(winwidth: Option<usize>) -> (config: PipelineConfig)
    ensures
        config == tags_config_of(winwidth),
{
    PipelineConfig {
        algo: Algo::Compact,
        scope: MatchScope::TagName,
        capacity: PAGE_SIZE,
        hard_cap: HARD_CAP,
        policy: CapPolicy::KeepCounting,
        winwidth,
        report_invalid: true,
    }
}

/// An output that only refuses a request.
pub open spec fn refusal(id: u64, error: Failure) -> OutputView {
    OutputView { kill: None, action: ActionView::Fail { id: id, error: error } }
}

/// The session took `lines`, which are the lines of the tag records, as
/// its first input and gave `out` back.
pub open spec fn starts_with_tags(
    before: SessionView,
    after: SessionView,
    out: OutputView,
    request_id: u64,
    records: Seq<Option<TagInfo>>,
    lines: Vec<String>,
) -> bool {
    let input = Input::Init { request_id: request_id, lines: lines };
    &&& texts(lines@) == tag_lines(records)
    &&& after == before.step(input)
    &&& out == before.output(input)
}

/// Handles the first request of a session, given the records that the
/// tags program produced, or `None` if it could not be run: the lines of
/// the tags are cached in the session and their first page is sent. If
/// the program could not be run, nothing happens.
pub fn handle_message_on_init(
    msg: &Message,
    session: &mut Session,
    records: Option<&Vec<Option<TagInfo>>>,
) -> (out: Option<Output>)
    requires
        old(session).wf(),
    ensures
        final(session).wf(),
        match records {
            None => out is None && final(session)@ == old(session)@,
            Some(r) => out is Some && exists|lines: Vec<String>|
                starts_with_tags(
                    old(session)@,
                    final(session)@,
                    out->Some_0@,
                    msg.id,
                    r@,
                    lines,
                ),
        },
{
    match records {
        Some(r) => {
            let lines = execute_at(Executor::ProjTags, r);
            let ghost taken = lines;
            let out = Some(session.step(Input::Init { request_id: msg.id, lines }));
            assert(starts_with_tags(
                old(session)@,
                session@,
                out->Some_0@,
                msg.id,
                r@,
                taken,
            ));
            out
        },
        None => None,
    }
}

/// Handles a change of the query: the session starts a new generation for
/// the query of the request. A request without a query is refused and
/// changes nothing.
pub fn handle_message_on_typed(msg: Message, session: &mut Session) -> (out: Output)
    requires
        old(session).wf(),
    ensures
        final(session).wf(),
        match msg.params.query {
            Some(query) => {
                let input = Input::Query { request_id: msg.id, query: query };
                &&& final(session)@ == old(session)@.step(input)
                &&& out@ == old(session)@.output(input)
            },
            None => final(session)@ == old(session)@ && out@ == refusal(
                msg.id,
                Failure::MissingQuery,
            ),
        },
{
    match msg.params.query {
        Some(query) => session.step(Input::Query { request_id: msg.id, query }),
        None => Output {
            kill: None,
            action: Action::Fail { id: msg.id, error: Failure::MissingQuery },
        },
    }
}

/// The working directory that a request names; empty if it names none.
pub open spec fn cwd_of(msg: Message) -> Seq<char> {
    match msg.params.cwd {
        Some(dir) => dir@,
        None => Seq::empty(),
    }
}

/// The session that a request starts, before it has taken anything.
pub open spec fn new_session_of(msg: Message) -> SessionView {
    SessionView::start(
        msg.session_id,
        cwd_of(msg),
        tags_config_of(msg.params.winwidth),
        FilterMode::Live,
    )
}

impl ProjTagsSession {
    /// Starts a session for the request and handles the request as the
    /// first of the session.
    pub fn spawn(&self, msg: &Message, records: Option<&Vec<Option<TagInfo>>>) -> (started: (
        Session,
        Option<Output>,
    ))
        ensures
            started.0.wf(),
            match records {
                None => started.1 is None && started.0@ == new_session_of(*msg),
                Some(r) => started.1 is Some && exists|lines: Vec<String>|
                    starts_with_tags(
                        new_session_of(*msg),
                        started.0@,
                        started.1->Some_0@,
                        msg.id,
                        r@,
                        lines,
                    ),
            },
    {
        let cwd = match &msg.params.cwd {
            Some(dir) => dir.clone(),
            None => String::new(),
        };
        let mut session = Session::new(
            msg.session_id,
            cwd,
            tags_config(msg.params.winwidth),
            FilterMode::Live,
        );
        let out = handle_message_on_init(msg, &mut session, records);
        (session, out)
    }
}

/// The directory against which the line of a move is taken: the working
/// directory that the request names, or that of the session.
pub open spec fn preview_base(m: Message, session: SessionView) -> Seq<char> {
    match m.params.cwd {
        Some(cwd) => cwd@,
        None => session.cwd,
    }
}

/// Handling the request took the session from `before` to `after` and gave
/// `handled`. A move leaves the session as it is and asks for the preview
/// of the line, whose path is taken against the working directory; a
/// change of the query is one step of the session. A request that lacks
/// its line or its query is refused and changes nothing.
pub open spec fn is_handled(
    before: SessionView,
    after: SessionView,
    msg: RpcMessage,
    handled: Handled,
) -> bool {
    match msg {
        RpcMessage::OnMove(m) => after == before && match m.params.curline {
            Some(line) => handled matches Handled::Preview(p) && p.id == m.id && p.path@
                == joined_path(preview_base(m, before), line@),
            None => handled matches Handled::Filter(o) && o@ == refusal(
                m.id,
                Failure::MissingLine,
            ),
        },
        RpcMessage::OnTyped(m) => handled matches Handled::Filter(o) && match m.params.query {
            Some(query) => {
                let input = Input::Query { request_id: m.id, query: query };
                &&& after == before.step(input)
                &&& o@ == before.output(input)
            },
            None => after == before && o@ == refusal(m.id, Failure::MissingQuery),
        },
    }
}

impl ProjTagsMessageHandler {
    /// Handles a request to a running session. A move of the selection
    /// asks for a preview and leaves the session as it is; a change of the
    /// query goes to the session.
    pub fn handle(&self, msg: RpcMessage, session: &mut Session) -> (handled: Handled)
        requires
            old(session).wf(),
        ensures
            final(session).wf(),
            is_handled(old(session)@, final(session)@, msg, handled),
    {
        match msg {
            RpcMessage::OnMove(m) => {
                match &m.params.curline {
                    Some(curline) => {
                        let request = match &m.params.cwd {
                            Some(cwd) => preview_of(m.id, cwd.as_str(), curline.as_str()),
                            None => preview_of(m.id, session.cwd(), curline.as_str()),
                        };
                        Handled::Preview(request)
                    },
                    None => Handled::Filter(
                        Output {
                            kill: None,
                            action: Action::Fail { id: m.id, error: Failure::MissingLine },
                        },
                    ),
                }
            },
            RpcMessage::OnTyped(m) => Handled::Filter(handle_message_on_typed(m, session)),
        }
    }
}

} // verus!
