use vstd::prelude::*;
use crate::conductor::{Conductor, Outcome, handled};
use crate::errors::{Error, communication_error};
use crate::message::{c2i, i2c};

verus! {

/// The conductor's record of a connected invoker.
pub struct Invoker {
    pub name: String,
    /// The cores the invoker offers.
    pub cores: Vec<u64>,
    /// The RAM the invoker offers, in bytes.
    pub designated_ram: u64,
    /// The tests marked `Ignored` here after a failure they depend on: (submission, test).
    pub ignored: Vec<(String, u64)>,
}

pub open spec fn ignored_view(v: Seq<(String, u64)>) -> Seq<(Seq<char>, u64)> {
    v.map_values(|e: (String, u64)| (e.0@, e.1))
}

/// The tests that a reply cancels, with their submission.
pub open spec fn cancelled(r: Result<Vec<c2i::Message>, Error>) -> Seq<(Seq<char>, u64)> {
    match r {
        Ok(v) => if v@.len() == 1 {
            match v@[0] {
                c2i::Message::CancelJudgementOnTests(c) => c.failed_tests@.map_values(
                    |t: u64| (c.submission_id@, t),
                ),
                _ => seq![],
            }
        } else {
            seq![]
        },
        Err(_) => seq![],
    }
}

/// The offer after a mode update: cores per `core_after`, RAM replaced.
pub open spec fn mode_updated(before: Invoker, after: Invoker, m: i2c::UpdateMode) -> bool {
    &&& after.designated_ram == m.designated_ram
    &&& forall|x: u64|
        #[trigger] after.cores@.contains(x) <==> core_after(
            before.cores@,
            m.added_cores@,
            m.removed_cores@,
            x,
        )
}

/// Core `x` is offered after an update: kept and not removed, or added.
pub open spec fn core_after(old: Seq<u64>, added: Seq<u64>, removed: Seq<u64>, x: u64) -> bool {
    (old.contains(x) && !removed.contains(x)) || added.contains(x)
}

fn contains_u64(v: &Vec<u64>, x: u64) -> (r: bool)
    ensures
        r == v@.contains(x),
{
    let mut i: usize = 0;
    while i < v.len()
        invariant
            i <= v@.len(),
            forall|k: int| 0 <= k < i ==> v@[k] != x,
        decreases v@.len() - i,
    {
        if v[i] == x {
            return true;
        }
        i += 1;
    }
    false
}

/// A copy of a byte vector.
pub fn copy_bytes(b: &Vec<u8>) -> (r: Vec<u8>)
    ensures
        r@ == b@,
{
    let mut r: Vec<u8> = Vec::new();
    let mut i: usize = 0;
    while i < b.len()
        invariant
            i <= b@.len(),
            r@ == b@.subrange(0, i as int),
        decreases b@.len() - i,
    {
        r.push(b[i]);
        assert(r@ =~= b@.subrange(0, i + 1));
        i += 1;
    }
    assert(r@ =~= b@);
    r
}

impl Invoker {
    /// The invoker that introduced itself with `handshake`; it offers nothing yet.
    pub fn new(handshake: i2c::Handshake) -> (r: Invoker)
        ensures
            r.name@ == handshake.invoker_name@,
            r.cores@.len() == 0,
            r.designated_ram == 0,
            r.ignored@.len() == 0,
    {
        Invoker {
            name: handshake.invoker_name,
            cores: Vec::new(),
            designated_ram: 0,
            ignored: Vec::new(),
        }
    }

    /// Answers a message of this invoker after its handshake: a second handshake is a
    /// protocol error; a file request gets the registered file or is a protocol error where
    /// the hash is unknown; a failing verdict cancels the dependent tests of its submission;
    /// a mode update changes the offer.
    pub fn handle_message(&mut self, message: i2c::Message, conductor: &Conductor) -> (r: Result<
        Vec<c2i::Message>,
        Error,
    >)
        ensures
            handled(
                conductor.files_view(),
                conductor.submissions_view(),
                message,
                match r {
                    Ok(v) => Outcome::Reply(v),
                    Err(e) => Outcome::Terminate(e),
                },
            ),
            final(self).name == old(self).name,
            message matches i2c::Message::UpdateMode(m) ==> mode_updated(*old(self), *final(self), m),
            !(message is UpdateMode) ==> final(self).cores == old(self).cores
                && final(self).designated_ram == old(self).designated_ram,
            ignored_view(final(self).ignored@) == ignored_view(old(self).ignored@) + cancelled(r),
    {
        let ghost before = ignored_view(self.ignored@);
        match message {
            i2c::Message::Handshake(_) => Err(
                communication_error("a handshake arrived in the middle of the conversation"),
            ),
            i2c::Message::UpdateMode(m) => {
                self.update_mode(m);
                let r: Result<Vec<c2i::Message>, Error> = Ok(Vec::new());
                assert(before + cancelled(r) =~= before);
                r
            },
            i2c::Message::RequestFile(q) => match conductor.lookup(&q.hash) {
                Some(c) => {
                    let mut v = Vec::new();
                    v.push(
                        c2i::Message::SupplyFile(
                            c2i::SupplyFile { request_id: q.request_id, contents: copy_bytes(c) },
                        ),
                    );
                    Ok(v)
                },
                None => Err(communication_error("a file with an unknown hash was requested")),
            },
            i2c::Message::NotifyTestStatus(n) => {
                if !n.judgement_result.verdict.is_failure() {
                    return Ok(Vec::new());
                }
                match conductor.find_graph(&n.submission_id) {
                    Some(g) => {
                        let failed_tests = g.transitive_dependents(n.test);
                        self.mark_ignored(&n.submission_id, &failed_tests);
                        let mut v = Vec::new();
                        v.push(
                            c2i::Message::CancelJudgementOnTests(
                                c2i::CancelJudgementOnTests {
                                    submission_id: n.submission_id,
                                    failed_tests,
                                },
                            ),
                        );
                        Ok(v)
                    },
                    None => Ok(Vec::new()),
                }
            },
            _ => Ok(Vec::new()),
        }
    }

    /// Marks `tests` of submission `id` as `Ignored`.
    pub fn mark_ignored(&mut self, id: &String, tests: &Vec<u64>)
        ensures
            final(self).name == old(self).name,
            final(self).cores == old(self).cores,
            final(self).designated_ram == old(self).designated_ram,
            ignored_view(final(self).ignored@) == ignored_view(old(self).ignored@)
                + tests@.map_values(|t: u64| (id@, t)),
    {
        let ghost start = ignored_view(self.ignored@);
        let mut i: usize = 0;
        assert(tests@.take(0).map_values(|t: u64| (id@, t)) =~= seq![]);
        assert(start + seq![] =~= start);
        while i < tests.len()
            invariant
                i <= tests@.len(),
                self.name == old(self).name,
                self.cores == old(self).cores,
                self.designated_ram == old(self).designated_ram,
                ignored_view(self.ignored@) == start + tests@.take(i as int).map_values(
                    |t: u64| (id@, t),
                ),
            decreases tests@.len() - i,
        {
            let ghost b = ignored_view(self.ignored@);
            self.ignored.push((id.clone(), tests[i]));
            assert(ignored_view(self.ignored@) =~= b.push((id@, tests@[i as int])));
            assert(tests@.take(i + 1).map_values(|t: u64| (id@, t)) =~= tests@.take(
                i as int,
            ).map_values(|t: u64| (id@, t)).push((id@, tests@[i as int])));
            i += 1;
        }
        assert(tests@.take(tests@.len() as int) =~= tests@);
    }

    /// Applies a mode update: the removed cores leave, the added ones join, and the RAM
    /// budget is replaced.
    pub fn update_mode(&mut self, message: i2c::UpdateMode)
        ensures
            final(self).name == old(self).name,
            final(self).ignored == old(self).ignored,
            final(self).designated_ram == message.designated_ram,
            forall|x: u64|
                #[trigger] final(self).cores@.contains(x) <==> core_after(
                    old(self).cores@,
                    message.added_cores@,
                    message.removed_cores@,
                    x,
                ),
    {
        let ghost oldc = self.cores@;
        let mut kept: Vec<u64> = Vec::new();
        let mut i: usize = 0;
        while i < self.cores.len()
            invariant
                i <= self.cores@.len(),
                self.cores@ == oldc,
                forall|x: u64|
                    #[trigger] kept@.contains(x) <==> (oldc.subrange(0, i as int).contains(x)
                        && !message.removed_cores@.contains(x)),
            decreases self.cores@.len() - i,
        {
            let c = self.cores[i];
            let ghost k0 = kept@;
            if !contains_u64(&message.removed_cores, c) {
                kept.push(c);
            }
            proof {
                let pre = oldc.subrange(0, i as int);
                let post = oldc.subrange(0, i + 1);
                assert(post =~= pre.push(c));
                assert forall|x: u64| #[trigger] kept@.contains(x) <==> (post.contains(x)
                    && !message.removed_cores@.contains(x)) by {
                    vstd::seq_lib::lemma_seq_contains_after_push(pre, c, x);
                    vstd::seq_lib::lemma_seq_contains_after_push(k0, c, x);
                }
            }
            i += 1;
        }
        assert(oldc.subrange(0, oldc.len() as int) =~= oldc);
        let mut j: usize = 0;
        while j < message.added_cores.len()
            invariant
                j <= message.added_cores@.len(),
                forall|x: u64|
                    #[trigger] kept@.contains(x) <==> ((oldc.contains(x)
                        && !message.removed_cores@.contains(x)) || message.added_cores@.subrange(
                        0,
                        j as int,
                    ).contains(x)),
            decreases message.added_cores@.len() - j,
        {
            let c = message.added_cores[j];
            let ghost k0 = kept@;
            let present = contains_u64(&kept, c);
            if !present {
                kept.push(c);
            }
            proof {
                let pre = message.added_cores@.subrange(0, j as int);
                let post = message.added_cores@.subrange(0, j + 1);
                assert(post =~= pre.push(c));
                assert forall|x: u64| #[trigger] kept@.contains(x) <==> ((oldc.contains(x)
                    && !message.removed_cores@.contains(x)) || post.contains(x)) by {
                    vstd::seq_lib::lemma_seq_contains_after_push(pre, c, x);
                    vstd::seq_lib::lemma_seq_contains_after_push(k0, c, x);
                }
            }
            j += 1;
        }
        assert(message.added_cores@.subrange(0, message.added_cores@.len() as int)
            =~= message.added_cores@);
        self.cores = kept;
        self.designated_ram = message.designated_ram;
    }
}

} // verus!
