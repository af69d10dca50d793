//! The sessions of one process, by their ids.
//!
//! All changes to a session go through the manager. An operation on an id
//! that names no session does nothing: the client may address a session
//! that is already closed.

use crate::executor::TagInfo;
use crate::live::PipelineConfig;
use crate::path::{dir_for, joined_path, preview_of, set_current_dir, PreviewRequest};
use crate::provider::{
    is_handled, new_session_of, starts_with_tags, Handled, ProjTagsMessageHandler, ProjTagsSession,
    RpcMessage,
};
use crate::rpc::{grep_request, searches_for, Message};
use crate::session::{FilterMode, Input, Output, OutputView, Session, SessionView};
use crate::source::Command;
use std::collections::HashMap;
use vstd::prelude::*;
use vstd::string::*;

verus! {

broadcast use vstd::std_specs::hash::group_hash_axioms;

/// What starts a search in the contents of files.
pub struct GrepStart {
    /// The command to run as the source.
    pub command: Command,
    /// The generation of the session that ran under this id before, whose
    /// source is to be terminated, if one was running.
    pub kill: Option<u64>,
    /// What the new session asks for: to start the source.
    pub out: Output,
}

/// The session took a query without text as its first input, on behalf of
/// the request, and gave `out` back.
pub open spec fn starts_unfiltered(
    before: SessionView,
    after: SessionView,
    out: OutputView,
    request_id: u64,
    query: String,
) -> bool {
    let input = Input::Query { request_id: request_id, query: query };
    &&& query@ == Seq::<char>::empty()
    &&& after == before.step(input)
    &&& out == before.output(input)
}

/// The directory of a search as it is set for the command: the directory
/// that the request names, or its parent if it names no directory; none
/// if the request names none.
pub open spec fn dir_is_set(set: Option<String>, dir: Option<String>, is_dir: bool) -> bool {
    match dir {
        None => set is None,
        Some(d) => set matches Some(s) && s@ == dir_for(d@, is_dir),
    }
}

/// The working directory of a search: the directory that the request
/// names, or none.
pub open spec fn search_cwd(msg: Message) -> Seq<char> {
    match msg.params.dir {
        Some(d) => d@,
        None => Seq::empty(),
    }
}

/// The sessions of one process.
pub struct Manager {
    sessions: HashMap<u64, Session>,
}

impl View for Manager {
    type V = Map<u64, SessionView>;

    /// The sessions by their ids.
    closed spec fn view(&self) -> Map<u64, SessionView> {
        self.sessions@.map_values(|s: Session| s@)
    }
}

impl Manager {
    /// Every session is in order and filed under its own id.
    pub closed spec fn wf(&self) -> bool {
        forall|id: u64| #[trigger]
            self.sessions@.contains_key(id) ==> self.sessions@[id].wf() && self.sessions@[id]@.id
                == id
    }

    /// What holds of the sessions of a manager in order.
    pub proof fn lemma_inv(&self, id: u64)
        requires
            self.wf(),
            self@.contains_key(id),
        ensures
            self@[id].inv(),
            self@[id].id == id,
    {
        assert(self.sessions@.contains_key(id));
        self.sessions@[id].lemma_inv();
    }

    /// A manager without sessions.
    pub fn new() -> (m: Self)
        ensures
            m.wf(),
            m@ == Map::<u64, SessionView>::empty(),
    {
        let m = Manager { sessions: HashMap::new() };
        assert(m@ =~= Map::<u64, SessionView>::empty());
        m
    }

    /// Whether a session goes by this id.
    pub fn has(&self, session_id: u64) -> (b: bool)
        ensures
            b == self@.contains_key(session_id),
    {
        self.sessions.contains_key(&session_id)
    }

    /// Files a new session under its id. If a session goes by this id
    /// already, it stays and the new one is not filed.
    pub fn new_session(&mut self, session: Session) -> (created: bool)
        requires
            old(self).wf(),
            session.wf(),
        ensures
            final(self).wf(),
            created == !old(self)@.contains_key(session@.id),
            final(self)@ == if created {
                old(self)@.insert(session@.id, session@)
            } else {
                old(self)@
            },
    {
        let id = session.id();
        if self.sessions.contains_key(&id) {
            return false;
        }
        let ghost before = self.sessions@;
        self.sessions.insert(id, session);
        assert(self@ =~= before.map_values(|s: Session| s@).insert(id, session@));
        assert forall|k: u64| #[trigger] self.sessions@.contains_key(k) implies self.sessions@[k].wf()
            && self.sessions@[k]@.id == k by {
            if k != id {
                assert(before.contains_key(k));
            }
        }
        true
    }

    /// Starts the session of a request on the tags of a project and
    /// handles the request as its first: given the records of the tags
    /// program, or `None` if it could not be run. If a session goes by
    /// the id of the request already, the request is skipped.
    pub fn init(&mut self, msg: &Message, records: Option<&Vec<Option<TagInfo>>>) -> (out: Option<
        Output,
    >)
        requires
            old(self).wf(),
        ensures
            final(self).wf(),
            if old(self)@.contains_key(msg.session_id) {
                out is None && final(self)@ == old(self)@
            } else {
                &&& final(self)@.contains_key(msg.session_id)
                &&& final(self)@ == old(self)@.insert(
                    msg.session_id,
                    final(self)@[msg.session_id],
                )
                &&& match records {
                    None => out is None && final(self)@[msg.session_id] == new_session_of(*msg),
                    Some(r) => out is Some && exists|lines: Vec<String>|
                        starts_with_tags(
                            new_session_of(*msg),
                            final(self)@[msg.session_id],
                            out->Some_0@,
                            msg.id,
                            r@,
                            lines,
                        ),
                }
            },
    {
        if self.has(msg.session_id) {
            return None;
        }
        let (session, out) = ProjTagsSession.spawn(msg, records);
        proof {
            session.lemma_inv();
            if records is Some {
                let lines = choose|lines: Vec<String>|
                    starts_with_tags(
                        new_session_of(*msg),
                        session@,
                        out->Some_0@,
                        msg.id,
                        records->Some_0@,
                        lines,
                    );
                crate::session::lemma_step(
                    new_session_of(*msg),
                    Input::Init { request_id: msg.id, lines: lines },
                );
            }
        }
        let ghost filed = session@;
        self.new_session(session);
        assert(self@[msg.session_id] == filed);
        out
    }

    /// The query of the session of this id changed: the session starts a
    /// new generation, which supersedes its pipeline. `None`, and no
    /// change, if no session goes by this id.
    pub fn on_query_changed(&mut self, session_id: u64, request_id: u64, query: String) -> (out:
        Option<Output>)
        requires
            old(self).wf(),
        ensures
            final(self).wf(),
            match out {
                Some(o) => {
                    let input = Input::Query { request_id: request_id, query: query };
                    &&& old(self)@.contains_key(session_id)
                    &&& o@ == old(self)@[session_id].output(input)
                    &&& final(self)@ == old(self)@.insert(
                        session_id,
                        old(self)@[session_id].step(input),
                    )
                },
                None => !old(self)@.contains_key(session_id) && final(self)@ == old(self)@,
            },
    {
        self.send(session_id, Input::Query { request_id, query })
    }

    /// Starts a search in the contents of files for the query of a
    /// request. The session that went by the id of the request is ended,
    /// and a new one takes its place, whose only pipeline shows the hits
    /// as they come. A request without a query starts nothing.
    pub fn grep(&mut self, msg: Message, is_dir: bool, config: PipelineConfig) -> (start: Option<
        GrepStart,
    >)
        requires
            old(self).wf(),
        ensures
            final(self).wf(),
            match msg.params.query {
                None => start is None && final(self)@ == old(self)@,
                Some(query) => {
                    &&& start matches Some(s)
                    &&& searches_for(s.command.program, s.command.args, query@)
                    &&& dir_is_set(s.command.dir, msg.params.dir, is_dir)
                    &&& s.kill == if old(self)@.contains_key(msg.session_id) {
                        old(self)@[msg.session_id].superseded()
                    } else {
                        None
                    }
                    &&& final(self)@.contains_key(msg.session_id)
                    &&& final(self)@ == old(self)@.insert(
                        msg.session_id,
                        final(self)@[msg.session_id],
                    )
                    &&& exists|nothing: String|
                        starts_unfiltered(
                            SessionView::start(
                                msg.session_id,
                                search_cwd(msg),
                                config,
                                FilterMode::Live,
                            ),
                            final(self)@[msg.session_id],
                            s.out@,
                            msg.id,
                            nothing,
                        )
                },
            },
    {
        let session_id = msg.session_id;
        let request_id = msg.id;
        let cwd = match &msg.params.dir {
            Some(dir) => dir.clone(),
            None => String::new(),
        };
        let ghost before = self@;
        match grep_request(msg) {
            None => None,
            Some(mut command) => {
                let configured = command.dir.take();
                set_current_dir(&mut command, configured, is_dir);
                let kill = self.terminate(session_id);
                let mut session = Session::new(session_id, cwd, config, FilterMode::Live);
                let ghost fresh = session@;
                let nothing = String::new();
                let ghost unfiltered = nothing;
                proof {
                    session.lemma_inv();
                    crate::session::lemma_step(
                        fresh,
                        Input::Query { request_id: request_id, query: unfiltered },
                    );
                }
                let out = session.step(Input::Query { request_id, query: nothing });
                let ghost started = session@;
                self.new_session(session);
                let start = GrepStart { command, kill, out };
                assert(self@ =~= before.insert(session_id, started));
                assert(starts_unfiltered(fresh, self@[session_id], start.out@, request_id, unfiltered));
                Some(start)
            },
        }
    }

    /// Hands an input to the session of this id and returns what the
    /// session gives back; `None`, and no change, if no session goes by
    /// this id.
    pub fn send(&mut self, session_id: u64, input: Input) -> (out: Option<Output>)
        requires
            old(self).wf(),
        ensures
            final(self).wf(),
            match out {
                Some(o) => old(self)@.contains_key(session_id) && o@ == old(self)@[session_id].output(
                    input,
                ) && final(self)@ == old(self)@.insert(
                    session_id,
                    old(self)@[session_id].step(input),
                ),
                None => !old(self)@.contains_key(session_id) && final(self)@ == old(self)@,
            },
    {
        let ghost before = self.sessions@;
        match self.sessions.remove(&session_id) {
            Some(mut session) => {
                let ghost was = session@;
                assert(before.contains_key(session_id));
                proof {
                    session.lemma_inv();
                    crate::session::lemma_step(was, input);
                }
                let out = session.step(input);
                self.sessions.insert(session_id, session);
                assert(self@ =~= before.map_values(|s: Session| s@).insert(
                    session_id,
                    was.step(input),
                ));
                assert forall|k: u64| #[trigger]
                    self.sessions@.contains_key(k) implies self.sessions@[k].wf()
                    && self.sessions@[k]@.id == k by {
                    if k != session_id {
                        assert(before.contains_key(k));
                    }
                }
                Some(out)
            },
            None => {
                assert(self.sessions@ =~= before);
                None
            },
        }
    }

    /// Ends the session of this id: its pipeline is cancelled and the
    /// session is released. Returns the generation whose source is to be
    /// terminated, if a pipeline was running.
    pub fn terminate(&mut self, session_id: u64) -> (kill: Option<u64>)
        requires
            old(self).wf(),
        ensures
            final(self).wf(),
            final(self)@ == old(self)@.remove(session_id),
            kill == if old(self)@.contains_key(session_id) {
                old(self)@[session_id].superseded()
            } else {
                None
            },
    {
        let ghost before = self.sessions@;
        let kill = match self.sessions.remove(&session_id) {
            Some(mut session) => {
                assert(before.contains_key(session_id));
                session.close()
            },
            None => None,
        };
        assert(self@ =~= before.map_values(|s: Session| s@).remove(session_id));
        assert forall|k: u64| #[trigger] self.sessions@.contains_key(k) implies self.sessions@[k].wf()
            && self.sessions@[k]@.id == k by {
            assert(before.contains_key(k));
        }
        kill
    }

    /// Hands a request to the session of this id and returns what handling
    /// it gives; `None`, and no change, if no session goes by this id.
    pub fn handle(&mut self, session_id: u64, msg: RpcMessage) -> (handled: Option<Handled>)
        requires
            old(self).wf(),
        ensures
            final(self).wf(),
            match handled {
                Some(h) => {
                    &&& old(self)@.contains_key(session_id)
                    &&& final(self)@.contains_key(session_id)
                    &&& final(self)@ == old(self)@.insert(session_id, final(self)@[session_id])
                    &&& is_handled(old(self)@[session_id], final(self)@[session_id], msg, h)
                },
                None => !old(self)@.contains_key(session_id) && final(self)@ == old(self)@,
            },
    {
        let ghost before = self.sessions@;
        match self.sessions.remove(&session_id) {
            Some(mut session) => {
                let ghost was = session@;
                assert(before.contains_key(session_id));
                proof {
                    session.lemma_inv();
                    if msg is OnTyped && msg->OnTyped_0.params.query is Some {
                        crate::session::lemma_step(
                            was,
                            Input::Query {
                                request_id: msg->OnTyped_0.id,
                                query: msg->OnTyped_0.params.query->Some_0,
                            },
                        );
                    }
                }
                let handled = ProjTagsMessageHandler.handle(msg, &mut session);
                let ghost now = session@;
                self.sessions.insert(session_id, session);
                assert(self@ =~= before.map_values(|s: Session| s@).insert(session_id, now));
                assert forall|k: u64| #[trigger]
                    self.sessions@.contains_key(k) implies self.sessions@[k].wf()
                    && self.sessions@[k]@.id == k by {
                    if k != session_id {
                        assert(before.contains_key(k));
                    }
                }
                Some(handled)
            },
            None => {
                assert(self.sessions@ =~= before);
                None
            },
        }
    }

    /// Releases every session, as when the transport is closed.
    pub fn clear(&mut self)
        requires
            old(self).wf(),
        ensures
            final(self).wf(),
            final(self)@ == Map::<u64, SessionView>::empty(),
    {
        self.sessions.clear();
        assert(self@ =~= Map::<u64, SessionView>::empty());
    }

    /// The preview for the line that the client moved to, in the session
    /// of this id; `None` if no session goes by this id. No session is
    /// changed.
    pub fn on_move(&self, session_id: u64, request_id: u64, curline: &str) -> (request: Option<
        PreviewRequest,
    >)
        requires
            self.wf(),
        ensures
            request is Some <==> self@.contains_key(session_id),
            request matches Some(r) ==> r.id == request_id && r.path@ == joined_path(
                self@[session_id].cwd,
                curline@,
            ),
    {
        assert(self.sessions@.contains_key(session_id) == self@.contains_key(session_id));
        match self.sessions.get(&session_id) {
            Some(session) => Some(preview_of(request_id, session.cwd(), curline)),
            None => None,
        }
    }
}

} // verus!
