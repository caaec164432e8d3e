//! The fetch-or-serve orchestrator: a state machine run once per proxy
//! request.  The surrounding process performs the outside work — the cache
//! lookup, the origin fetch, forwarding bytes to the client — and feeds each
//! observation back as an event; every decision is made here.
//!
//! A hit streams the stored entry.  A miss fetches the origin; a success
//! response is streamed to the client while its bytes are captured, and only
//! a fully drained body yields a record for the persistence queue.  A
//! transport failure is answered with a proxy error and never cached; a
//! non-success origin response is relayed to the client and never cached; a
//! client that disconnects mid-stream aborts the capture, and nothing from
//! that request is cached.

use vstd::prelude::*;

use crate::entry::{pairs_view, CachedResponse, CachedResponseBuilder, EntryModel};

verus! {

/// Model of one observation fed to the state machine.
pub enum EventModel {
    CacheLookup(Option<EntryModel>),
    FetchFailed,
    OriginHeaders { status: u16, headers: Seq<(Seq<u8>, Seq<u8>)> },
    BodyChunk(Seq<u8>),
    BodyEnd,
    ClientGone,
}

/// Model of the per-request state.
pub enum FlowModel {
    Start { url: Seq<u8> },
    ServingCached { entry: EntryModel },
    Fetching { url: Seq<u8> },
    Streaming { entry: EntryModel },
    Relaying,
    Completed { entry: EntryModel },
    Done,
    Failed,
    Aborted,
}

/// One observation made by the surrounding process.
pub enum FetchEvent {
    /// What the cache returned for the request's key.
    CacheLookup(Option<CachedResponse>),
    /// The origin fetch failed at the transport level.
    FetchFailed,
    /// The origin response arrived: its status and headers, as received.
    OriginHeaders { status: u16, headers: Vec<(Vec<u8>, Vec<u8>)> },
    /// One body chunk arrived and was forwarded to the client.
    BodyChunk(Vec<u8>),
    /// The origin body drained completely.
    BodyEnd,
    /// The client disconnected.
    ClientGone,
}

/// The per-request state.
pub enum FetchState {
    /// A validated URL, before the cache has been consulted.
    Start { url: Vec<u8> },
    /// A hit: stream this stored entry to the client.
    ServingCached { entry: CachedResponse },
    /// A miss: the origin fetch for this URL is in flight.
    Fetching { url: Vec<u8> },
    /// A success response is streaming; its bytes are being captured.
    Streaming { builder: CachedResponseBuilder },
    /// A non-success response is streaming; nothing is captured.
    Relaying,
    /// The body drained fully; the captured entry was handed out for
    /// persistence.
    Completed { entry: CachedResponse },
    /// The relayed response was delivered; nothing was cached.
    Done,
    /// The fetch failed; a proxy error was sent; nothing was cached.
    Failed,
    /// The client went away mid-request; nothing was cached.
    Aborted,
}

/// What the surrounding process must do next.
#[derive(Debug, PartialEq, Eq)]
pub enum ProxyAction {
    /// Look the request's key up in the cache and report the result.
    LookupCache,
    /// Stream the stored entry of a hit to the client.
    ServeCached,
    /// Issue the origin fetch.
    IssueFetch,
    /// Begin the client response with the origin's status and headers.
    StartResponse,
    /// The observed chunk belongs in the client response.
    ForwardChunk,
    /// Answer the client with a proxy error.
    RespondError,
    /// Hand the completed entry to the cache's fire-and-forget write path.
    EnqueueEntry,
    /// Nothing further.
    Stop,
}

impl View for FetchEvent {
    type V = EventModel;

    open spec fn view(&self) -> EventModel {
        match self {
            FetchEvent::CacheLookup(opt) => EventModel::CacheLookup(
                match opt {
                    Some(e) => Some(e@),
                    None => None,
                },
            ),
            FetchEvent::FetchFailed => EventModel::FetchFailed,
            FetchEvent::OriginHeaders { status, headers } => EventModel::OriginHeaders {
                status: *status,
                headers: pairs_view(*headers),
            },
            FetchEvent::BodyChunk(c) => EventModel::BodyChunk(c@),
            FetchEvent::BodyEnd => EventModel::BodyEnd,
            FetchEvent::ClientGone => EventModel::ClientGone,
        }
    }
}

impl View for FetchState {
    type V = FlowModel;

    open spec fn view(&self) -> FlowModel {
        match self {
            FetchState::Start { url } => FlowModel::Start { url: url@ },
            FetchState::ServingCached { entry } => FlowModel::ServingCached { entry: entry@ },
            FetchState::Fetching { url } => FlowModel::Fetching { url: url@ },
            FetchState::Streaming { builder } => FlowModel::Streaming { entry: builder@ },
            FetchState::Relaying => FlowModel::Relaying,
            FetchState::Completed { entry } => FlowModel::Completed { entry: entry@ },
            FetchState::Done => FlowModel::Done,
            FetchState::Failed => FlowModel::Failed,
            FetchState::Aborted => FlowModel::Aborted,
        }
    }
}

/// Whether a status code is a success the proxy will cache.
pub open spec fn is_success(status: u16) -> bool {
    200 <= status < 300
}

/// The transition function: from a state and an observation to the next
/// state and the action the surrounding process must take.  An observation
/// that cannot belong to the current state aborts the request; a terminal
/// state absorbs every further observation.
pub open spec fn step_spec(s: FlowModel, ev: EventModel) -> (FlowModel, ProxyAction) {
    match (s, ev) {
        (FlowModel::Start { url: _ }, EventModel::CacheLookup(Some(e))) => (
            FlowModel::ServingCached { entry: e },
            ProxyAction::ServeCached,
        ),
        (FlowModel::Start { url }, EventModel::CacheLookup(None)) => (
            FlowModel::Fetching { url },
            ProxyAction::IssueFetch,
        ),
        (FlowModel::Fetching { url: _ }, EventModel::FetchFailed) => (
            FlowModel::Failed,
            ProxyAction::RespondError,
        ),
        (FlowModel::Fetching { url }, EventModel::OriginHeaders { status, headers }) => if
        is_success(status) {
            (
                FlowModel::Streaming {
                    entry: EntryModel { url, status, headers, body: Seq::empty() },
                },
                ProxyAction::StartResponse,
            )
        } else {
            (FlowModel::Relaying, ProxyAction::StartResponse)
        },
        (FlowModel::Streaming { entry }, EventModel::BodyChunk(c)) => (
            FlowModel::Streaming { entry: EntryModel { body: entry.body + c, ..entry } },
            ProxyAction::ForwardChunk,
        ),
        (FlowModel::Streaming { entry }, EventModel::BodyEnd) => (
            FlowModel::Completed { entry },
            ProxyAction::EnqueueEntry,
        ),
        (FlowModel::Relaying, EventModel::BodyChunk(_)) => (
            FlowModel::Relaying,
            ProxyAction::ForwardChunk,
        ),
        (FlowModel::Relaying, EventModel::BodyEnd) => (FlowModel::Done, ProxyAction::Stop),
        (FlowModel::ServingCached { entry }, _) => (
            FlowModel::ServingCached { entry },
            ProxyAction::Stop,
        ),
        (FlowModel::Completed { entry }, _) => (FlowModel::Completed { entry }, ProxyAction::Stop),
        (FlowModel::Done, _) => (FlowModel::Done, ProxyAction::Stop),
        (FlowModel::Failed, _) => (FlowModel::Failed, ProxyAction::Stop),
        (FlowModel::Aborted, _) => (FlowModel::Aborted, ProxyAction::Stop),
        (_, _) => (FlowModel::Aborted, ProxyAction::Stop),
    }
}

/// Executes one transition.
pub fn step(s: FetchState, ev: FetchEvent) -> (r: (FetchState, ProxyAction))
    ensures
        r.0@ == step_spec(s@, ev@).0,
        r.1 == step_spec(s@, ev@).1,
{
    match (s, ev) {
        (FetchState::Start { url: _ }, FetchEvent::CacheLookup(Some(e))) => (
            FetchState::ServingCached { entry: e },
            ProxyAction::ServeCached,
        ),
        (FetchState::Start { url }, FetchEvent::CacheLookup(None)) => (
            FetchState::Fetching { url },
            ProxyAction::IssueFetch,
        ),
        (FetchState::Fetching { url: _ }, FetchEvent::FetchFailed) => (
            FetchState::Failed,
            ProxyAction::RespondError,
        ),
        (FetchState::Fetching { url }, FetchEvent::OriginHeaders { status, headers }) => {
            if 200 <= status && status < 300 {
                let b = CachedResponseBuilder::new(url, status).with_headers(headers);
                proof {
                    assert(b@ =~= (EntryModel {
                        url: b@.url,
                        status: status,
                        headers: b@.headers,
                        body: Seq::empty(),
                    }));
                }
                (FetchState::Streaming { builder: b }, ProxyAction::StartResponse)
            } else {
                (FetchState::Relaying, ProxyAction::StartResponse)
            }
        },
        (FetchState::Streaming { builder }, FetchEvent::BodyChunk(c)) => {
            let mut b = builder;
            b.append_body_chunk(&c);
            (FetchState::Streaming { builder: b }, ProxyAction::ForwardChunk)
        },
        (FetchState::Streaming { builder }, FetchEvent::BodyEnd) => (
            FetchState::Completed { entry: builder.build() },
            ProxyAction::EnqueueEntry,
        ),
        (FetchState::Relaying, FetchEvent::BodyChunk(_)) => (
            FetchState::Relaying,
            ProxyAction::ForwardChunk,
        ),
        (FetchState::Relaying, FetchEvent::BodyEnd) => (FetchState::Done, ProxyAction::Stop),
        (FetchState::ServingCached { entry }, _) => (
            FetchState::ServingCached { entry },
            ProxyAction::Stop,
        ),
        (FetchState::Completed { entry }, _) => (
            FetchState::Completed { entry },
            ProxyAction::Stop,
        ),
        (FetchState::Done, _) => (FetchState::Done, ProxyAction::Stop),
        (FetchState::Failed, _) => (FetchState::Failed, ProxyAction::Stop),
        (FetchState::Aborted, _) => (FetchState::Aborted, ProxyAction::Stop),
        (_, _) => (FetchState::Aborted, ProxyAction::Stop),
    }
}

/// The state after feeding a whole trace of events.
pub open spec fn run_state(s: FlowModel, evs: Seq<EventModel>) -> FlowModel
    decreases evs.len(),
{
    if evs.len() == 0 {
        s
    } else {
        run_state(step_spec(s, evs[0]).0, evs.skip(1))
    }
}

/// The actions emitted while feeding a whole trace of events.
pub open spec fn run_actions(s: FlowModel, evs: Seq<EventModel>) -> Seq<ProxyAction>
    decreases evs.len(),
{
    if evs.len() == 0 {
        Seq::empty()
    } else {
        seq![step_spec(s, evs[0]).1] + run_actions(step_spec(s, evs[0]).0, evs.skip(1))
    }
}

/// A state no further observation can leave.
pub open spec fn is_terminal(s: FlowModel) -> bool {
    s is ServingCached || s is Completed || s is Done || s is Failed || s is Aborted
}

/// A cache write is decided only at the moment a streamed body drains
/// completely: no other transition emits one.
pub proof fn lemma_enqueue_needs_body_end(s: FlowModel, ev: EventModel)
    ensures
        step_spec(s, ev).1 == ProxyAction::EnqueueEntry ==> s is Streaming && ev is BodyEnd,
{
}

/// A terminal state absorbs every observation and emits nothing.
pub proof fn lemma_terminal_emits_only_stop(s: FlowModel, evs: Seq<EventModel>)
    requires
        is_terminal(s),
    ensures
        run_state(s, evs) == s,
        forall|i: int|
            0 <= i < run_actions(s, evs).len() ==> run_actions(s, evs)[i] == ProxyAction::Stop,
    decreases evs.len(),
{
    if evs.len() > 0 {
        assert(step_spec(s, evs[0]).0 == s);
        assert(step_spec(s, evs[0]).1 == ProxyAction::Stop);
        lemma_terminal_emits_only_stop(s, evs.skip(1));
        assert forall|i: int| 0 <= i < run_actions(s, evs).len() implies run_actions(s, evs)[i]
            == ProxyAction::Stop by {
            if i > 0 {
                assert(run_actions(s, evs)[i] == run_actions(s, evs.skip(1))[i - 1]);
            }
        }
    }
}

/// A trace in which the body never drains completely commits nothing: no
/// partial body is ever handed to the persistence queue.
pub proof fn lemma_no_body_end_no_enqueue(s: FlowModel, evs: Seq<EventModel>)
    requires
        forall|i: int| 0 <= i < evs.len() ==> !((#[trigger] evs[i]) is BodyEnd),
    ensures
        !run_actions(s, evs).contains(ProxyAction::EnqueueEntry),
    decreases evs.len(),
{
    if evs.len() > 0 {
        lemma_enqueue_needs_body_end(s, evs[0]);
        assert forall|j: int| 0 <= j < evs.skip(1).len() implies !((#[trigger] evs.skip(
            1,
        )[j]) is BodyEnd) by {
            assert(evs.skip(1)[j] == evs[j + 1]);
        }
        lemma_no_body_end_no_enqueue(step_spec(s, evs[0]).0, evs.skip(1));
        if run_actions(s, evs).contains(ProxyAction::EnqueueEntry) {
            let i = choose|i: int|
                0 <= i < run_actions(s, evs).len() && run_actions(s, evs)[i]
                    == ProxyAction::EnqueueEntry;
            if i == 0 {
                assert(run_actions(s, evs)[0] == step_spec(s, evs[0]).1);
                assert(false);
            } else {
                let rest = run_actions(step_spec(s, evs[0]).0, evs.skip(1));
                assert(run_actions(s, evs)[i] == rest[i - 1]);
                assert(rest.contains(ProxyAction::EnqueueEntry));
                assert(false);
            }
        }
    }
}

/// Partial-failure safety: once the client disconnects during streaming of a
/// fresh fetch, nothing from that request is ever handed to the persistence
/// queue, whatever else is observed afterwards.
pub proof fn lemma_disconnect_never_caches(e: EntryModel, evs: Seq<EventModel>)
    ensures
        !run_actions(
            FlowModel::Streaming { entry: e },
            seq![EventModel::ClientGone] + evs,
        ).contains(ProxyAction::EnqueueEntry),
{
    let s0 = FlowModel::Streaming { entry: e };
    let tr = seq![EventModel::ClientGone] + evs;
    assert(tr[0] == EventModel::ClientGone);
    assert(tr.skip(1) =~= evs);
    assert(step_spec(s0, EventModel::ClientGone).0 == FlowModel::Aborted);
    assert(step_spec(s0, EventModel::ClientGone).1 == ProxyAction::Stop);
    lemma_terminal_emits_only_stop(FlowModel::Aborted, evs);
    if run_actions(s0, tr).contains(ProxyAction::EnqueueEntry) {
        let i = choose|i: int|
            0 <= i < run_actions(s0, tr).len() && run_actions(s0, tr)[i]
                == ProxyAction::EnqueueEntry;
        if i > 0 {
            assert(run_actions(s0, tr)[i] == run_actions(FlowModel::Aborted, evs)[i - 1]);
        }
        assert(false);
    }
}

/// The events observed when a body arrives as the given chunks.
pub open spec fn chunk_events(cs: Seq<Seq<u8>>) -> Seq<EventModel> {
    Seq::new(cs.len(), |i: int| EventModel::BodyChunk(cs[i]))
}

/// The chunks of a body, in arrival order, as one byte sequence.
pub open spec fn concat_chunks(cs: Seq<Seq<u8>>) -> Seq<u8>
    decreases cs.len(),
{
    if cs.len() == 0 {
        Seq::empty()
    } else {
        cs[0] + concat_chunks(cs.skip(1))
    }
}

/// Tee correctness: when every chunk forwarded to the client is observed and
/// the body then drains, the completed capture holds exactly the forwarded
/// bytes, in order — the entry enqueued is the response the client was sent.
pub proof fn lemma_capture_exact(e: EntryModel, cs: Seq<Seq<u8>>)
    ensures
        run_state(FlowModel::Streaming { entry: e }, chunk_events(cs).push(EventModel::BodyEnd))
            == (FlowModel::Completed {
            entry: EntryModel { body: e.body + concat_chunks(cs), ..e },
        }),
    decreases cs.len(),
{
    let tr = chunk_events(cs).push(EventModel::BodyEnd);
    let s0 = FlowModel::Streaming { entry: e };
    assert(run_state(s0, tr) == run_state(step_spec(s0, tr[0]).0, tr.skip(1)));
    if cs.len() == 0 {
        assert(tr[0] == EventModel::BodyEnd);
        assert(tr.skip(1) =~= Seq::<EventModel>::empty());
        assert(step_spec(s0, tr[0]).0 == (FlowModel::Completed { entry: e }));
        assert(run_state(FlowModel::Completed { entry: e }, Seq::<EventModel>::empty())
            == (FlowModel::Completed { entry: e }));
        assert(e.body + concat_chunks(cs) =~= e.body);
        assert((EntryModel { body: e.body + concat_chunks(cs), ..e }) =~= e);
    } else {
        assert(tr[0] == EventModel::BodyChunk(cs[0]));
        let e2 = EntryModel { body: e.body + cs[0], ..e };
        assert(step_spec(FlowModel::Streaming { entry: e }, tr[0]).0 == (FlowModel::Streaming {
            entry: e2,
        }));
        assert(tr.skip(1) =~= chunk_events(cs.skip(1)).push(EventModel::BodyEnd));
        lemma_capture_exact(e2, cs.skip(1));
        assert(e2.body + concat_chunks(cs.skip(1)) =~= e.body + concat_chunks(cs));
        assert((EntryModel { body: e2.body + concat_chunks(cs.skip(1)), ..e2 }) =~= (EntryModel {
            body: e.body + concat_chunks(cs),
            ..e
        }));
    }
}

/// The capture, when one exists, always holds a success status: a failed or
/// non-success fetch is never captured.
pub open spec fn capture_is_success(s: FlowModel) -> bool {
    &&& s is Streaming ==> is_success(s->Streaming_entry.status)
    &&& s is Completed ==> is_success(s->Completed_entry.status)
}

/// Every transition preserves the success of the capture.
pub proof fn lemma_capture_success_preserved(s: FlowModel, ev: EventModel)
    ensures
        capture_is_success(s) ==> capture_is_success(step_spec(s, ev).0),
{
}

/// From the start of a request, a completed capture always carries a
/// success status: an origin failure or error response is never cached.
pub proof fn lemma_only_success_completes(url: Seq<u8>, evs: Seq<EventModel>)
    ensures
        run_state(FlowModel::Start { url }, evs) matches FlowModel::Completed { entry }
            ==> is_success(entry.status),
{
    lemma_capture_success_run(FlowModel::Start { url }, evs);
}

proof fn lemma_capture_success_run(s: FlowModel, evs: Seq<EventModel>)
    requires
        capture_is_success(s),
    ensures
        capture_is_success(run_state(s, evs)),
    decreases evs.len(),
{
    if evs.len() > 0 {
        lemma_capture_success_preserved(s, evs[0]);
        lemma_capture_success_run(step_spec(s, evs[0]).0, evs.skip(1));
    }
}

/// Cache semantics end to end: when a fresh fetch streams the given chunks
/// to the client, drains cleanly, and the captured record is then committed,
/// a reader of that key observes exactly the response the client was sent —
/// same status, same headers, and a body that is the forwarded chunks in
/// order.
pub proof fn lemma_streamed_then_committed_is_served(
    e: EntryModel,
    cs: Seq<Seq<u8>>,
    index: Seq<(Seq<u8>, EntryModel)>,
)
    ensures
        ({
            let captured = EntryModel { body: e.body + concat_chunks(cs), ..e };
            &&& run_state(
                FlowModel::Streaming { entry: e },
                chunk_events(cs).push(EventModel::BodyEnd),
            ) == (FlowModel::Completed { entry: captured })
            &&& crate::cache::lookup(index.push((captured.url, captured)), e.url) == Some(captured)
        }),
{
    lemma_capture_exact(e, cs);
    let captured = EntryModel { body: e.body + concat_chunks(cs), ..e };
    crate::cache::lemma_commit_publishes(index, captured);
}

} // verus!
