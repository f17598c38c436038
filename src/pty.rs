//! The terminal session registry.
//!
//! `PtyState` issues session identifiers, holds one entry per live session
//! (the caller's handles to its pseudo-terminal, of any type `S`), and decides
//! which `data` and `exit` events are sent to the front end. Devices, child
//! processes and threads stay with the caller, which reports what they do:
//! each chunk of output through `output`, the end of a child through `exited`.
//!
//! Alongside the live sessions the registry keeps, as ghost state, every event
//! it has let through and every chunk of output it has accepted, so that its
//! contracts can speak of the whole history: identifiers are never reused, a
//! session's exit is its last event, and a finished session is unknown to
//! every later lookup.
use vstd::prelude::*;
use std::collections::HashMap;
use vstd::utf8::{valid_utf8, decode_utf8};
use crate::decimal::{decimal_of, decimal_string, parse_bounded, parse_unsigned};

verus! {

broadcast use vstd::std_specs::hash::group_hash_axioms;

/// The exit code reported when the child's own code cannot be determined.
pub const UNKNOWN_EXIT_CODE: u32 = 1;

/// The payload of a `pty:data` event: output of one read, as text.
pub struct PtyDataPayload {
    pub session_id: String,
    pub data: String,
}

/// The payload of a `pty:exit` event, the last one of its session.
pub struct PtyExitPayload {
    pub session_id: String,
    pub code: u32,
}

/// Why a request about a session was refused.
#[derive(Debug, Clone, Copy, PartialEq, Eq, Structural)]
pub enum PtyError {
    /// No live session has this identifier: it has exited, never existed, or
    /// is not an identifier at all.
    UnknownSession,
    /// Every identifier has been handed out.
    IdsExhausted,
}

impl PtyError {
    /// The message shown to the front end.
    pub fn message(&self) -> (r: String)
        ensures
            r@ == self.message_spec(),
    {
        match self {
            PtyError::UnknownSession => String::from_str("Unavailable session"),
            PtyError::IdsExhausted => String::from_str("no session identifier left"),
        }
    }

    /// The text of `message`.
    pub open spec fn message_spec(&self) -> Seq<char> {
        match self {
            PtyError::UnknownSession => "Unavailable session"@,
            PtyError::IdsExhausted => "no session identifier left"@,
        }
    }
}

/// An event as the front end sees it.
pub enum PtyEvent {
    Data { id: u32, text: Seq<char> },
    Exit { id: u32, code: u32 },
}

/// The session an event is about.
pub open spec fn event_id(e: PtyEvent) -> u32 {
    match e {
        PtyEvent::Data { id, .. } => id,
        PtyEvent::Exit { id, .. } => id,
    }
}

/// `e` is the exit event of session `id`.
pub open spec fn is_exit_of(e: PtyEvent, id: u32) -> bool {
    e is Exit && event_id(e) == id
}

/// An exit event for `id` has been sent.
pub open spec fn has_exited(events: Seq<PtyEvent>, id: u32) -> bool {
    exists|i: int| 0 <= i < events.len() && is_exit_of(#[trigger] events[i], id)
}

/// The texts of the data events for `id`, in the order they were sent.
pub open spec fn data_texts(events: Seq<PtyEvent>, id: u32) -> Seq<Seq<char>>
    decreases events.len(),
{
    if events.len() == 0 {
        Seq::empty()
    } else {
        let rest = data_texts(events.drop_last(), id);
        match events.last() {
            PtyEvent::Data { id: x, text } => if x == id {
                rest.push(text)
            } else {
                rest
            },
            PtyEvent::Exit { .. } => rest,
        }
    }
}

/// What the lossy UTF-8 decoding of `b` gives.
pub uninterp spec fn utf8_lossy(b: Seq<u8>) -> Seq<char>;

/// The lossy decoding of each chunk.
pub open spec fn decoded_chunks(chunks: Seq<Seq<u8>>) -> Seq<Seq<char>> {
    chunks.map_values(|c: Seq<u8>| utf8_lossy(c))
}

/// Valid UTF-8 `b` is decoded as it stands.
pub open spec fn decodes_verbatim(b: Seq<u8>) -> bool {
    valid_utf8(b) ==> utf8_lossy(b) == decode_utf8(b)
}

/// The code reported for a child whose wait gave `status`.
pub open spec fn exit_code_of(status: Option<u32>) -> u32 {
    match status {
        Some(code) => code,
        None => UNKNOWN_EXIT_CODE,
    }
}

/// Relies on `String::from_utf8_lossy`: a function of the bytes alone, which
/// keeps valid UTF-8 as it stands and replaces each invalid sequence.
#[verifier::external_body]
pub(crate) fn decode_lossy(b: &[u8]) -> (r: String)
    ensures
        r@ == utf8_lossy(b@),
        valid_utf8(b@) ==> r@ == decode_utf8(b@),
{
    String::from_utf8_lossy(b).into_owned()
}

/// The code to report for a child whose wait gave `status` (`None` when the
/// wait failed or gave no code).
pub fn exit_code(status: Option<u32>) -> (r: u32)
    ensures
        r == exit_code_of(status),
{
    match status {
        Some(code) => code,
        None => UNKNOWN_EXIT_CODE,
    }
}

proof fn lemma_data_texts_push(events: Seq<PtyEvent>, e: PtyEvent, id: u32)
    ensures
        data_texts(events.push(e), id) == (match e {
            PtyEvent::Data { id: x, text } => if x == id {
                data_texts(events, id).push(text)
            } else {
                data_texts(events, id)
            },
            PtyEvent::Exit { .. } => data_texts(events, id),
        }),
{
    assert(events.push(e).drop_last() =~= events);
}

proof fn lemma_data_texts_unmentioned(events: Seq<PtyEvent>, id: u32)
    requires
        forall|i: int| 0 <= i < events.len() ==> event_id(#[trigger] events[i]) != id,
    ensures
        data_texts(events, id) == Seq::<Seq<char>>::empty(),
    decreases events.len(),
{
    if events.len() > 0 {
        let rest = events.drop_last();
        assert forall|i: int| 0 <= i < rest.len() implies event_id(#[trigger] rest[i]) != id by {
            assert(rest[i] == events[i]);
        }
        lemma_data_texts_unmentioned(rest, id);
        assert(event_id(events[events.len() - 1]) != id);
    }
}

/// Identifiers handed out by two registrations, the second made after the
/// first, increase strictly: no identifier is handed out twice. (No operation
/// of the registry moves the counter back.)
pub proof fn lemma_ids_increase<S>(
    pre1: PtyState<S>,
    post1: PtyState<S>,
    id1: u32,
    s1: S,
    pre2: PtyState<S>,
    post2: PtyState<S>,
    id2: u32,
    s2: S,
)
    requires
        registration(pre1, post1, id1, s1),
        registration(pre2, post2, id2, s2),
        post1.next_id() <= pre2.next_id(),
    ensures
        id1 < id2,
{
}

/// The data events of a session carry, one for each and in the order they
/// were read, the chunks of its output that the registry accepted, each
/// decoded with replacement of invalid UTF-8 sequences.
pub proof fn lemma_data_in_read_order<S>(s: PtyState<S>, id: u32)
    requires
        s.wf(),
        1 <= id < s.next_id(),
    ensures
        data_texts(s.events(), id) == decoded_chunks(s.reads()[id]),
{
    assert(s.reads().contains_key(id));
}

/// When every chunk of a session's output was valid UTF-8, its data events
/// carry exactly those chunks decoded, in read order, with nothing replaced.
pub proof fn lemma_valid_output_verbatim<S>(s: PtyState<S>, id: u32)
    requires
        s.wf(),
        1 <= id < s.next_id(),
        forall|i: int| 0 <= i < s.reads()[id].len() ==> valid_utf8(#[trigger] s.reads()[id][i]),
    ensures
        data_texts(s.events(), id) == s.reads()[id].map_values(|c: Seq<u8>| decode_utf8(c)),
{
    assert(s.reads().contains_key(id));
    let chunks = s.reads()[id];
    assert forall|i: int| 0 <= i < chunks.len() implies decoded_chunks(chunks)[i]
        == chunks.map_values(|c: Seq<u8>| decode_utf8(c))[i] by {
        assert(decodes_verbatim(s.reads()[id][i]));
    }
    assert(decoded_chunks(chunks) =~= chunks.map_values(|c: Seq<u8>| decode_utf8(c)));
}

/// A session's exit event is its last event: neither a data event nor a
/// second exit event for the same session follows it.
pub proof fn lemma_exit_is_last<S>(s: PtyState<S>, i: int, j: int)
    requires
        s.wf(),
        0 <= i < j < s.events().len(),
        s.events()[i] is Exit,
    ensures
        event_id(s.events()[j]) != event_id(s.events()[i]),
{
}

/// Once the exit event of a session has been sent, in that state and in any
/// later one (whose events extend these), a request that names the session
/// by its identifier finds no session: it fails with `UnknownSession`.
pub proof fn lemma_unknown_after_exit<S>(now: PtyState<S>, later: PtyState<S>, id: u32)
    requires
        now.wf(),
        later.wf(),
        now.events().is_prefix_of(later.events()),
        has_exited(now.events(), id),
    ensures
        later.lookup(decimal_of(id as nat)) == Err::<S, PtyError>(PtyError::UnknownSession),
{
    let i = choose|i: int| 0 <= i < now.events().len() && is_exit_of(#[trigger] now.events()[i], id);
    assert(later.events()[i] == now.events()[i]);
    assert(has_exited(later.events(), id));
    crate::decimal::lemma_decimal_round_trip(id as nat, u32::MAX as nat);
}

/// The registry of live sessions.
pub struct PtyState<S> {
    next_id: u32,
    sessions: HashMap<u32, S>,
    events: Ghost<Seq<PtyEvent>>,
    reads: Ghost<Map<u32, Seq<Seq<u8>>>>,
}

/// `post` is `pre` after a registration that handed out `id`.
pub open spec fn registration<S>(pre: PtyState<S>, post: PtyState<S>, id: u32, session: S) -> bool {
    &&& id == pre.next_id()
    &&& post.next_id() == pre.next_id() + 1
    &&& post.sessions() == pre.sessions().insert(id, session)
    &&& post.events() == pre.events()
    &&& post.reads() == pre.reads().insert(id, Seq::empty())
}

impl<S> PtyState<S> {
    /// The identifier the next registration hands out.
    pub closed spec fn next_id(self) -> nat {
        self.next_id as nat
    }

    /// The live sessions.
    pub closed spec fn sessions(self) -> Map<u32, S> {
        self.sessions@
    }

    /// Every event sent so far, in order.
    pub closed spec fn events(self) -> Seq<PtyEvent> {
        self.events@
    }

    /// For each identifier handed out, the chunks of output accepted for it.
    pub closed spec fn reads(self) -> Map<u32, Seq<Seq<u8>>> {
        self.reads@
    }

    /// What a request naming the session `text` finds: the live session whose
    /// identifier `text` is the numeral of, or `UnknownSession` for any text
    /// that names no live session.
    pub open spec fn lookup(self, text: Seq<char>) -> Result<S, PtyError> {
        match parse_bounded(text, u32::MAX as nat) {
            None => Err(PtyError::UnknownSession),
            Some(v) => if self.sessions().contains_key(v as u32) {
                Ok(self.sessions()[v as u32])
            } else {
                Err(PtyError::UnknownSession)
            },
        }
    }

    pub open spec fn wf(self) -> bool {
        &&& 1 <= self.next_id() <= u32::MAX
        &&& forall|k: u32| #[trigger]
            self.sessions().contains_key(k) ==> 1 <= k < self.next_id()
        &&& forall|k: u32| #[trigger]
            self.reads().contains_key(k) <==> 1 <= k < self.next_id()
        &&& forall|i: int|
            0 <= i < self.events().len() ==> 1 <= event_id(#[trigger] self.events()[i])
                < self.next_id()
        &&& forall|k: u32| #[trigger]
            self.sessions().contains_key(k) ==> !has_exited(self.events(), k)
        &&& forall|i: int, j: int|
            0 <= i < j < self.events().len() && (#[trigger] self.events()[i]) is Exit
                ==> event_id(#[trigger] self.events()[j]) != event_id(self.events()[i])
        &&& forall|k: u32| #[trigger]
            self.reads().contains_key(k) ==> data_texts(self.events(), k) == decoded_chunks(
                self.reads()[k],
            )
        &&& forall|k: u32, i: int|
            self.reads().contains_key(k) && 0 <= i < self.reads()[k].len() ==> decodes_verbatim(
                #[trigger] self.reads()[k][i],
            )
    }

    /// An empty registry whose first identifier is 1.
    pub fn new() -> (r: Self)
        ensures
            r.wf(),
            r.next_id() == 1,
            r.sessions() == Map::<u32, S>::empty(),
            r.events() == Seq::<PtyEvent>::empty(),
    {
        PtyState {
            next_id: 1,
            sessions: HashMap::new(),
            events: Ghost(Seq::empty()),
            reads: Ghost(Map::empty()),
        }
    }

    /// Registers a session that has just been started and hands out its
    /// identifier: the counter's value, which then moves on by one. Fails,
    /// changing nothing, only when every identifier has been handed out.
    pub fn register(&mut self, session: S) -> (r: Result<u32, PtyError>)
        requires
            old(self).wf(),
        ensures
            final(self).wf(),
            old(self).next_id() < u32::MAX ==> (r matches Ok(id) && registration(
                *old(self),
                *final(self),
                id,
                session,
            )),
            old(self).next_id() == u32::MAX ==> (r == Err::<u32, PtyError>(
                PtyError::IdsExhausted,
            ) && *final(self) == *old(self)),
    {
        if self.next_id == u32::MAX {
            return Err(PtyError::IdsExhausted);
        }
        let id = self.next_id;
        let ghost pre = *self;
        proof {
            assert forall|i: int| 0 <= i < pre.events().len() implies event_id(
                #[trigger] pre.events()[i],
            ) != id by {}
            lemma_data_texts_unmentioned(pre.events(), id);
            assert(decoded_chunks(Seq::<Seq<u8>>::empty()) =~= Seq::<Seq<char>>::empty());
        }
        self.sessions.insert(id, session);
        self.next_id = id + 1;
        self.reads = Ghost(self.reads@.insert(id, Seq::empty()));
        proof {
            assert(self.sessions() == pre.sessions().insert(id, session));
            assert forall|k: u32| #[trigger] self.sessions().contains_key(k) implies 1 <= k
                < self.next_id() && !has_exited(self.events(), k) by {
                if k != id {
                    assert(pre.sessions().contains_key(k));
                } else if has_exited(self.events(), k) {
                    let i = choose|i: int|
                        0 <= i < self.events().len() && is_exit_of(#[trigger] self.events()[i], k);
                    assert(event_id(pre.events()[i]) < id);
                }
            }
            assert forall|k: u32| #[trigger] self.reads().contains_key(k) implies data_texts(
                self.events(),
                k,
            ) == decoded_chunks(self.reads()[k]) by {
                if k != id {
                    assert(pre.reads().contains_key(k));
                }
            }
            assert forall|k: u32| #[trigger]
                self.reads().contains_key(k) <==> 1 <= k < self.next_id() by {
                assert(pre.reads().contains_key(k) <==> 1 <= k < pre.next_id());
            }
        }
        Ok(id)
    }

    /// The live session named by `session_id`, as the decimal numeral of its
    /// identifier.
    pub fn session(&self, session_id: &str) -> (r: Result<&S, PtyError>)
        requires
            self.wf(),
        ensures
            match r {
                Ok(v) => self.lookup(session_id@) == Ok::<S, PtyError>(*v),
                Err(e) => self.lookup(session_id@) == Err::<S, PtyError>(e),
            },
    {
        match parse_unsigned(session_id, u32::MAX as u64) {
            None => Err(PtyError::UnknownSession),
            Some(v) => match self.sessions.get(&(v as u32)) {
                Some(s) => Ok(s),
                None => Err(PtyError::UnknownSession),
            },
        }
    }

    /// One read of session `id`'s output gave `bytes`. While the session is
    /// live this is a data event, whose text is the bytes decoded with
    /// replacement of invalid sequences; once it has exited, nothing.
    pub fn output(&mut self, id: u32, bytes: &[u8]) -> (r: Option<PtyDataPayload>)
        requires
            old(self).wf(),
        ensures
            final(self).wf(),
            final(self).next_id() == old(self).next_id(),
            final(self).sessions() == old(self).sessions(),
            old(self).sessions().contains_key(id) ==> (r matches Some(p) && p.session_id@
                == decimal_of(id as nat) && p.data@ == utf8_lossy(bytes@) && (valid_utf8(bytes@)
                ==> p.data@ == decode_utf8(bytes@)) && final(self).events() == old(self).events().push(PtyEvent::Data { id, text: p.data@ }) && final(self).reads()
                == old(self).reads().insert(id, old(self).reads()[id].push(bytes@))),
            !old(self).sessions().contains_key(id) ==> (r is None && *final(self) == *old(self)),
    {
        if !self.sessions.contains_key(&id) {
            return None;
        }
        let data = decode_lossy(bytes);
        let ghost pre = *self;
        assert(pre.sessions().contains_key(id));
        assert(pre.reads().contains_key(id));
        let ghost e = PtyEvent::Data { id, text: data@ };
        self.events = Ghost(self.events@.push(e));
        self.reads = Ghost(self.reads@.insert(id, self.reads@[id].push(bytes@)));
        proof {
            let ev = pre.events();
            assert(self.events() == ev.push(e));
            assert(self.sessions() == pre.sessions());
            assert(self.events()[ev.len() as int] == e);
            assert forall|k: u32| #[trigger] self.reads().contains_key(k) implies data_texts(
                self.events(),
                k,
            ) == decoded_chunks(self.reads()[k]) by {
                lemma_data_texts_push(ev, e, k);
                if k == id {
                    assert(decoded_chunks(pre.reads()[id].push(bytes@)) =~= decoded_chunks(
                        pre.reads()[id],
                    ).push(utf8_lossy(bytes@)));
                }
            }
            assert forall|k: u32| #[trigger] self.sessions().contains_key(k) implies !has_exited(
                self.events(),
                k,
            ) by {
                if has_exited(self.events(), k) {
                    let i = choose|i: int|
                        0 <= i < self.events().len() && is_exit_of(#[trigger] self.events()[i], k);
                    assert(i < ev.len());
                    assert(ev[i] == self.events()[i]);
                }
            }
            assert forall|i: int, j: int|
                0 <= i < j < self.events().len() && (#[trigger] self.events()[i]) is Exit
                    implies event_id(#[trigger] self.events()[j]) != event_id(
                self.events()[i],
            ) by {
                if j == ev.len() {
                    assert(ev[i] == self.events()[i]);
                    assert(is_exit_of(ev[i], id) ==> has_exited(ev, id));
                } else {
                    assert(ev[i] == self.events()[i]);
                    assert(ev[j] == self.events()[j]);
                }
            }
        }
        Some(PtyDataPayload { session_id: decimal_string(id as u64), data })
    }

    /// The child of session `id` has ended and its wait gave `status`. A live
    /// session is removed and its exit event, the last of its events, is sent;
    /// for any other identifier nothing happens.
    pub fn exited(&mut self, id: u32, status: Option<u32>) -> (r: Option<PtyExitPayload>)
        requires
            old(self).wf(),
        ensures
            final(self).wf(),
            final(self).next_id() == old(self).next_id(),
            final(self).reads() == old(self).reads(),
            old(self).sessions().contains_key(id) ==> (r matches Some(p) && p.session_id@
                == decimal_of(id as nat) && p.code == exit_code_of(status) && final(self).sessions() == old(self).sessions().remove(id) && final(self).events() == old(self).events().push(PtyEvent::Exit { id, code: p.code })),
            !old(self).sessions().contains_key(id) ==> (r is None && *final(self) == *old(self)),
    {
        if !self.sessions.contains_key(&id) {
            return None;
        }
        let code = exit_code(status);
        let ghost pre = *self;
        let ghost e = PtyEvent::Exit { id, code };
        self.sessions.remove(&id);
        self.events = Ghost(self.events@.push(e));
        proof {
            let ev = pre.events();
            assert(self.events() == ev.push(e));
            assert(self.sessions() == pre.sessions().remove(id));
            assert(self.reads() == pre.reads());
            assert(self.events()[ev.len() as int] == e);
            assert forall|k: u32| #[trigger] self.reads().contains_key(k) implies data_texts(
                self.events(),
                k,
            ) == decoded_chunks(self.reads()[k]) by {
                lemma_data_texts_push(ev, e, k);
            }
            assert forall|k: u32| #[trigger] self.sessions().contains_key(k) implies !has_exited(
                self.events(),
                k,
            ) by {
                if has_exited(self.events(), k) {
                    let i = choose|i: int|
                        0 <= i < self.events().len() && is_exit_of(#[trigger] self.events()[i], k);
                    if i < ev.len() {
                        assert(ev[i] == self.events()[i]);
                        assert(pre.sessions().contains_key(k));
                    }
                }
            }
            assert forall|i: int, j: int|
                0 <= i < j < self.events().len() && (#[trigger] self.events()[i]) is Exit
                    implies event_id(#[trigger] self.events()[j]) != event_id(
                self.events()[i],
            ) by {
                assert(ev[i] == self.events()[i]);
                if j == ev.len() {
                    assert(is_exit_of(ev[i], id) ==> has_exited(ev, id));
                } else {
                    assert(ev[j] == self.events()[j]);
                }
            }
        }
        Some(PtyExitPayload { session_id: decimal_string(id as u64), code })
    }
}

impl<S> Default for PtyState<S> {
    /// An empty registry, as `new` makes it.
    fn default() -> (r: Self)
        ensures
            r.wf(),
            r.next_id() == 1,
            r.sessions() == Map::<u32, S>::empty(),
            r.events() == Seq::<PtyEvent>::empty(),
    {
        Self::new()
    }
}

} // verus!
