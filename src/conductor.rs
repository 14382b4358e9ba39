use vstd::prelude::*;
use crate::errors::{Error, communication_error};
use crate::invoker::{Invoker, copy_bytes};
use crate::message::{c2i, i2c};
use crate::problem::config::{DependencyGraph, reaches};
use crate::verdict::failing;

verus! {

/// The conductor: the files it can supply to invokers, by hash, and the dependency graph of
/// each submission in flight.
pub struct Conductor {
    files: Vec<(String, Vec<u8>)>,
    submissions: Vec<(String, DependencyGraph)>,
}

/// The graph registered last for submission `id`, if any.
pub open spec fn graph_for(subs: Seq<(Seq<char>, DependencyGraph)>, id: Seq<char>) -> Option<
    DependencyGraph,
>
    decreases subs.len(),
{
    if subs.len() == 0 {
        None
    } else if subs.last().0 == id {
        Some(subs.last().1)
    } else {
        graph_for(subs.drop_last(), id)
    }
}

/// The contents registered last under `hash`, if any.
pub open spec fn file_for(files: Seq<(Seq<char>, Seq<u8>)>, hash: Seq<char>) -> Option<Seq<u8>>
    decreases files.len(),
{
    if files.len() == 0 {
        None
    } else if files.last().0 == hash {
        Some(files.last().1)
    } else {
        file_for(files.drop_last(), hash)
    }
}

/// One connection's state: the invoker, once it has introduced itself.
pub struct Session {
    pub invoker: Option<Invoker>,
}

/// What arrives on a connection.
pub enum Inbound {
    Message(i2c::Message),
    Ping,
    Close,
    /// A frame that is not a message.
    Undecodable,
}

/// What the connection does next.
pub enum Outcome {
    /// Send these messages, in order, and read on.
    Reply(Vec<c2i::Message>),
    /// The peer closed the connection.
    End,
    /// Close the connection for this error.
    Terminate(Error),
}

impl Session {
    /// A fresh connection, before the handshake.
    pub fn new() -> (r: Session)
        ensures
            r.invoker is None,
    {
        Session { invoker: None }
    }
}

impl Conductor {
    pub closed spec fn files_view(&self) -> Seq<(Seq<char>, Seq<u8>)> {
        self.files@.map_values(|e: (String, Vec<u8>)| (e.0@, e.1@))
    }

    pub closed spec fn submissions_view(&self) -> Seq<(Seq<char>, DependencyGraph)> {
        self.submissions@.map_values(|e: (String, DependencyGraph)| (e.0@, e.1))
    }

    /// A conductor that knows no files and no submissions.
    pub fn new() -> (r: Conductor)
        ensures
            r.files_view() == Seq::<(Seq<char>, Seq<u8>)>::empty(),
            r.submissions_view() == Seq::<(Seq<char>, DependencyGraph)>::empty(),
    {
        let r = Conductor { files: Vec::new(), submissions: Vec::new() };
        assert(r.files_view() =~= Seq::<(Seq<char>, Seq<u8>)>::empty());
        assert(r.submissions_view() =~= Seq::<(Seq<char>, DependencyGraph)>::empty());
        r
    }

    /// Records the dependency graph of a submission in flight, replacing an earlier one.
    pub fn register_submission(&mut self, submission_id: String, graph: DependencyGraph)
        ensures
            final(self).files_view() == old(self).files_view(),
            graph_for(final(self).submissions_view(), submission_id@) == Some(graph),
            forall|h: Seq<char>|
                h != submission_id@ ==> #[trigger] graph_for(final(self).submissions_view(), h)
                    == graph_for(old(self).submissions_view(), h),
    {
        let ghost before = self.submissions_view();
        let ghost entry = (submission_id@, graph);
        self.submissions.push((submission_id, graph));
        assert(self.submissions_view() =~= before.push(entry));
        assert(self.submissions_view().drop_last() =~= before);
    }

    /// The dependency graph registered last for submission `id`.
    pub fn find_graph(&self, id: &String) -> (r: Option<&DependencyGraph>)
        ensures
            match r {
                Some(g) => graph_for(self.submissions_view(), id@) == Some(*g),
                None => graph_for(self.submissions_view(), id@) is None,
            },
    {
        let ghost sv = self.submissions_view();
        let mut i = self.submissions.len();
        assert(sv.take(i as int) =~= sv);
        while i > 0
            invariant
                i <= self.submissions@.len(),
                sv == self.submissions_view(),
                graph_for(sv, id@) == graph_for(sv.take(i as int), id@),
            decreases i,
        {
            let ghost pre = sv.take(i as int);
            assert(pre.last() == (self.submissions@[i - 1].0@, self.submissions@[i - 1].1));
            assert(pre.drop_last() =~= sv.take(i - 1));
            if self.submissions[i - 1].0 == *id {
                return Some(&self.submissions[i - 1].1);
            }
            i -= 1;
        }
        None
    }

    /// Makes `contents` available under `hash`, replacing what was there.
    pub fn register_file(&mut self, hash: String, contents: Vec<u8>)
        ensures
            final(self).files_view() == old(self).files_view().push((hash@, contents@)),
            final(self).submissions_view() == old(self).submissions_view(),
            file_for(final(self).files_view(), hash@) == Some(contents@),
            forall|h: Seq<char>|
                h != hash@ ==> #[trigger] file_for(final(self).files_view(), h) == file_for(
                    old(self).files_view(),
                    h,
                ),
    {
        let ghost before = self.files_view();
        let ghost entry = (hash@, contents@);
        self.files.push((hash, contents));
        assert(self.files_view() =~= before.push(entry));
        assert(self.files_view().drop_last() =~= before);
    }

    /// The contents registered last under `hash`.
    pub fn lookup(&self, hash: &String) -> (r: Option<&Vec<u8>>)
        ensures
            match r {
                Some(c) => file_for(self.files_view(), hash@) == Some(c@),
                None => file_for(self.files_view(), hash@) is None,
            },
    {
        let ghost fv = self.files_view();
        let mut i = self.files.len();
        assert(fv.take(i as int) =~= fv);
        while i > 0
            invariant
                i <= self.files@.len(),
                fv == self.files_view(),
                file_for(fv, hash@) == file_for(fv.take(i as int), hash@),
            decreases i,
        {
            let ghost pre = fv.take(i as int);
            assert(pre.last() == (self.files@[i - 1].0@, self.files@[i - 1].1@));
            assert(pre.drop_last() =~= fv.take(i - 1));
            if self.files[i - 1].0 == *hash {
                return Some(&self.files[i - 1].1);
            }
            i -= 1;
        }
        None
    }

    /// Decides what a connection does with what arrived: a handshake must come first and
    /// only once; a file request is answered from the registered files.
    pub fn handle_inbound(&self, session: &mut Session, event: Inbound) -> (r: Outcome)
        ensures
            event is Undecodable ==> protocol_error(r),
            event is Ping ==> no_reply(r),
            event is Close ==> r is End,
            event is Ping || event is Undecodable ==> final(session).invoker == old(session).invoker,
            event is Message && old(session).invoker is None ==> match event {
                Inbound::Message(i2c::Message::Handshake(h)) => no_reply(r)
                    && introduced_as(final(session).invoker, h.invoker_name@),
                _ => protocol_error(r),
            },
            event is Message && old(session).invoker is Some ==> match event {
                Inbound::Message(m) => handled(self.files_view(), self.submissions_view(), m, r),
                _ => true,
            },
    {
        match event {
            Inbound::Undecodable => Outcome::Terminate(
                communication_error("a frame of unknown type arrived"),
            ),
            Inbound::Ping => Outcome::Reply(Vec::new()),
            Inbound::Close => Outcome::End,
            Inbound::Message(m) => {
                if session.invoker.is_none() {
                    match m {
                        i2c::Message::Handshake(h) => {
                            session.invoker = Some(Invoker::new(h));
                            Outcome::Reply(Vec::new())
                        },
                        _ => Outcome::Terminate(
                            communication_error("the first message must be a handshake"),
                        ),
                    }
                } else {
                    let mut inv = session.invoker.take().unwrap();
                    let r = match inv.handle_message(m, self) {
                        Ok(v) => Outcome::Reply(v),
                        Err(e) => Outcome::Terminate(e),
                    };
                    session.invoker = Some(inv);
                    r
                }
            },
        }
    }
}

/// The connection's invoker is known, under this name.
pub open spec fn introduced_as(o: Option<Invoker>, name: Seq<char>) -> bool {
    match o {
        Some(inv) => inv.name@ == name,
        None => false,
    }
}

/// The connection ends for a protocol error.
pub open spec fn protocol_error(r: Outcome) -> bool {
    match r {
        Outcome::Terminate(e) => e is CommunicationError,
        _ => false,
    }
}

/// Nothing is sent, and the connection reads on.
pub open spec fn no_reply(r: Outcome) -> bool {
    match r {
        Outcome::Reply(v) => v@.len() == 0,
        _ => false,
    }
}

/// Exactly one `SupplyFile` is sent, with this request id and these contents.
pub open spec fn supplies(r: Outcome, request_id: u64, contents: Seq<u8>) -> bool {
    match r {
        Outcome::Reply(v) => v@.len() == 1 && match v@[0] {
            c2i::Message::SupplyFile(s) => s.request_id == request_id && s.contents@ == contents,
            _ => false,
        },
        _ => false,
    }
}

/// Exactly one `CancelJudgementOnTests` is sent for this submission, listing each test that
/// transitively depends on `test`, once.
pub open spec fn cancels(r: Outcome, submission_id: Seq<char>, g: DependencyGraph, test: u64) -> bool {
    match r {
        Outcome::Reply(v) => v@.len() == 1 && match v@[0] {
            c2i::Message::CancelJudgementOnTests(c) => c.submission_id@ == submission_id && (forall|
                x: u64,
            | #[trigger] c.failed_tests@.contains(x) <==> reaches(g.rows(), test as int, x as int))
                && (forall|i: int, j: int|
                0 <= i < j < c.failed_tests@.len() ==> c.failed_tests@[i] != c.failed_tests@[j]),
            _ => false,
        },
        _ => false,
    }
}

/// What answering message `m` of an introduced invoker yields: a handshake ends the
/// connection; a file request gets exactly that file, or ends the connection where the hash
/// is unknown; a failing verdict of a known submission cancels the tests that depend on it;
/// other messages get no reply.
pub open spec fn handled(
    files: Seq<(Seq<char>, Seq<u8>)>,
    subs: Seq<(Seq<char>, DependencyGraph)>,
    m: i2c::Message,
    r: Outcome,
) -> bool {
    match m {
        i2c::Message::Handshake(_) => protocol_error(r),
        i2c::Message::RequestFile(q) => match file_for(files, q.hash@) {
            Some(c) => supplies(r, q.request_id, c),
            None => protocol_error(r),
        },
        i2c::Message::NotifyTestStatus(n) => match graph_for(subs, n.submission_id@) {
            Some(g) => if failing(n.judgement_result.verdict) {
                cancels(r, n.submission_id@, g, n.test)
            } else {
                no_reply(r)
            },
            None => no_reply(r),
        },
        _ => no_reply(r),
    }
}

} // verus!
