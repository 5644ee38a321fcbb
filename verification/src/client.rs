use vstd::prelude::*;

use crate::common::{Request, Response, SENTINEL_ID};
use crate::net::{FrameBuffer, PollOutcome};
use crate::serialization::{
    spec_decode_response, spec_encode_request, BincodeSerializer,
};

verus! {

/// The next id for a client's monotonically increasing request counter: it
/// wraps before reaching the reserved sentinel, so no real call ever
/// carries the sentinel id.
pub fn next_request_id(current: u32) -> (r: u32)
    requires
        current != SENTINEL_ID,
    ensures
        r as int == (current as int + 1) % (u32::MAX as int - 1),
        r != SENTINEL_ID,
{
    (current + 1) % (u32::MAX - 1)
}

/// What became of one submitted `(request, action)` pair.
pub enum SubmitOutcome<C> {
    /// Framed, queued for write, and recorded in the pending-call table.
    Accepted,
    /// The pair was the reserved shutdown command: the loop stops accepting
    /// new submissions and exits once every pending call is answered.
    ShutdownObserved,
    /// Not accepted: the pair is handed back untouched.  This is every
    /// submission after shutdown was observed, a real call under the
    /// reserved sentinel id, and a request too long for the frame length
    /// field.
    Rejected(Request, C),
}

/// What became of one inbound frame payload.
pub enum ProcessOutcome<C> {
    /// The response matched a pending call: the entry left the table and
    /// its completion action is handed out to be invoked, exactly once,
    /// with exactly this response.
    Completed(Request, C, Response),
    /// A response under the sentinel id: the peer could not decode
    /// something we sent.  No pending call is touched.
    ServerSideFailure(Response),
    /// A response whose id matches no pending call: dropped silently.
    Unmatched(Response),
    /// The payload did not decode as a response at all.
    MalformedResponse,
}

/// First-match lookup in the pending-call table.
pub open spec fn spec_pending_lookup<C>(entries: Seq<(u32, Request, C)>, id: u32) -> Option<
    (Request, C),
>
    decreases entries.len(),
{
    if entries.len() == 0 {
        None
    } else if entries.first().0 == id {
        Some((entries.first().1, entries.first().2))
    } else {
        spec_pending_lookup(entries.drop_first(), id)
    }
}

proof fn lemma_pending_found<C>(entries: Seq<(u32, Request, C)>, id: u32, i: int)
    requires
        0 <= i < entries.len(),
        entries[i].0 == id,
        forall|j: int| 0 <= j < i ==> (#[trigger] entries[j]).0 != id,
    ensures
        spec_pending_lookup(entries, id) == Some((entries[i].1, entries[i].2)),
    decreases i,
{
    if i > 0 {
        lemma_pending_found(entries.drop_first(), id, i - 1);
    }
}

proof fn lemma_pending_none<C>(entries: Seq<(u32, Request, C)>, id: u32)
    requires
        forall|j: int| 0 <= j < entries.len() ==> (#[trigger] entries[j]).0 != id,
    ensures
        spec_pending_lookup(entries, id) is None,
    decreases entries.len(),
{
    if entries.len() > 0 {
        lemma_pending_none(entries.drop_first(), id);
    }
}

proof fn lemma_pending_none_inv<C>(entries: Seq<(u32, Request, C)>, id: u32)
    requires
        spec_pending_lookup(entries, id) is None,
    ensures
        forall|j: int| 0 <= j < entries.len() ==> (#[trigger] entries[j]).0 != id,
    decreases entries.len(),
{
    if entries.len() > 0 {
        lemma_pending_none_inv(entries.drop_first(), id);
        assert forall|j: int| 0 <= j < entries.len() implies (#[trigger] entries[j]).0 != id by {
            if j > 0 {
                assert(entries[j] == entries.drop_first()[j - 1]);
            }
        }
    }
}

proof fn lemma_pending_push_other<C>(entries: Seq<(u32, Request, C)>, e: (u32, Request, C), id: u32)
    requires
        id != e.0,
    ensures
        spec_pending_lookup(entries.push(e), id) == spec_pending_lookup(entries, id),
    decreases entries.len(),
{
    reveal_with_fuel(spec_pending_lookup, 2);
    if entries.len() == 0 {
        assert(entries.push(e).first() == e);
        assert(entries.push(e).drop_first() =~= Seq::<(u32, Request, C)>::empty());
    } else {
        assert(entries.push(e).first() == entries.first());
        assert(entries.push(e).drop_first() =~= entries.drop_first().push(e));
        lemma_pending_push_other(entries.drop_first(), e, id);
    }
}

proof fn lemma_pending_remove_other<C>(entries: Seq<(u32, Request, C)>, i: int, id: u32)
    requires
        0 <= i < entries.len(),
        id != entries[i].0,
    ensures
        spec_pending_lookup(entries.take(i) + entries.skip(i + 1), id) == spec_pending_lookup(
            entries,
            id,
        ),
    decreases i,
{
    reveal_with_fuel(spec_pending_lookup, 2);
    let removed = entries.take(i) + entries.skip(i + 1);
    if i == 0 {
        assert(removed =~= entries.drop_first());
    } else {
        assert(removed.first() == entries.first());
        assert(removed.drop_first() =~= entries.drop_first().take(i - 1) + entries.drop_first().skip(
            i,
        ));
        lemma_pending_remove_other(entries.drop_first(), i - 1, id);
    }
}

/// The correlation law: in a well-formed pending-call table, the entry that
/// a response's id selects — the one `process` removes and hands out — holds
/// exactly the request that was submitted under that id.  However responses
/// are reordered in flight, a completion action therefore receives exactly
/// the response whose id matches its own request's id.
pub proof fn lemma_completion_matches_request<C>(entries: Seq<(u32, Request, C)>, id: u32)
    requires
        forall|i: int| 0 <= i < entries.len() ==> (#[trigger] entries[i]).1.id == entries[i].0,
        spec_pending_lookup(entries, id) is Some,
    ensures
        (spec_pending_lookup(entries, id)->Some_0).0.id == id,
    decreases entries.len(),
{
    if entries.len() > 0 {
        if entries.first().0 == id {
            assert(entries[0].1.id == entries[0].0);
        } else {
            assert forall|i: int|
                0 <= i < entries.drop_first().len() implies (#[trigger] entries.drop_first()[i]).1.id
                == entries.drop_first()[i].0 by {
                assert(entries.drop_first()[i] == entries[i + 1]);
            }
            lemma_completion_matches_request(entries.drop_first(), id);
        }
    }
}

/// The client-side connection core, owned by one network loop.
///
/// It holds the framing engine for the one outbound connection and the
/// pending-call table mapping each outstanding request id to its original
/// request and its completion action of type `C`.  The loop feeds it
/// submissions from the application and frame payloads from the transport;
/// it hands back, for each matched response, the one action to invoke.  A
/// pending call whose response never arrives stays in the table for ever:
/// no timeout exists.
pub struct ClientPackages<C> {
    frames: FrameBuffer,
    request_map: Vec<(u32, Request, C)>,
    stopping: bool,
}

impl<C> ClientPackages<C> {
    pub closed spec fn read_bytes(&self) -> Seq<u8> {
        self.frames.read_bytes()
    }

    pub closed spec fn write_bytes(&self) -> Seq<u8> {
        self.frames.write_bytes()
    }

    /// The pending-call table, in submission order.
    pub closed spec fn pending(&self) -> Seq<(u32, Request, C)> {
        self.request_map@
    }

    /// Whether the reserved shutdown command has been observed.
    pub closed spec fn is_stopping(&self) -> bool {
        self.stopping
    }

    pub open spec fn has_pending(&self, id: u32) -> bool {
        spec_pending_lookup(self.pending(), id) is Some
    }

    /// No id is pending twice, the sentinel id is never pending, and every
    /// entry sits in the table under its own request's id.
    pub open spec fn wf(&self) -> bool {
        &&& forall|i: int, j: int|
            0 <= i < j < self.pending().len() ==> (#[trigger] self.pending()[i]).0 != (
            #[trigger] self.pending()[j]).0
        &&& forall|i: int|
            0 <= i < self.pending().len() ==> (#[trigger] self.pending()[i]).0 != SENTINEL_ID
        &&& forall|i: int|
            0 <= i < self.pending().len() ==> (#[trigger] self.pending()[i]).1.id == self.pending()[i].0
    }

    pub fn new() -> (r: Self)
        ensures
            r.wf(),
            !r.is_stopping(),
            r.pending() == Seq::<(u32, Request, C)>::empty(),
            r.read_bytes() == Seq::<u8>::empty(),
            r.write_bytes() == Seq::<u8>::empty(),
    {
        ClientPackages { frames: FrameBuffer::new(), request_map: Vec::new(), stopping: false }
    }

    /// Accepts one delivery of bytes from the transport.
    pub fn push_bytes(&mut self, chunk: &[u8])
        ensures
            final(self).read_bytes() == old(self).read_bytes() + chunk@,
            final(self).write_bytes() == old(self).write_bytes(),
            final(self).pending() == old(self).pending(),
            final(self).is_stopping() == old(self).is_stopping(),
    {
        self.frames.push_bytes(chunk);
    }

    /// The bytes waiting to go out on the transport.
    pub fn pending_write(&self) -> (r: &Vec<u8>)
        ensures
            r@ == self.write_bytes(),
    {
        self.frames.pending_write()
    }

    /// Drops the first `n` queued bytes once the transport accepted them.
    pub fn take_written(&mut self, n: usize)
        requires
            n <= old(self).write_bytes().len(),
        ensures
            final(self).read_bytes() == old(self).read_bytes(),
            final(self).write_bytes() == old(self).write_bytes().skip(n as int),
            final(self).pending() == old(self).pending(),
            final(self).is_stopping() == old(self).is_stopping(),
    {
        self.frames.take_written(n);
    }

    /// One read-side poll of the framing engine.
    pub fn poll_response(&mut self, eof: bool) -> (r: PollOutcome)
        ensures
            final(self).write_bytes() == old(self).write_bytes(),
            final(self).pending() == old(self).pending(),
            final(self).is_stopping() == old(self).is_stopping(),
            match r {
                PollOutcome::Frame(p) => crate::net::spec_has_frame(old(self).read_bytes()) && p@
                    == crate::net::spec_first_payload(old(self).read_bytes()) && final(self).read_bytes() == crate::net::spec_after_frame(old(self).read_bytes()),
                PollOutcome::NotReady => !crate::net::spec_has_frame(old(self).read_bytes()) && !(
                eof && old(self).read_bytes().len() < 4) && final(self).read_bytes() == old(self).read_bytes(),
                PollOutcome::Closed => eof && old(self).read_bytes().len() < 4 && final(self).read_bytes() == old(self).read_bytes(),
            },
    {
        self.frames.poll_frame(eof)
    }

    /// Number of calls still awaiting their response.
    pub fn pending_count(&self) -> (r: usize)
        ensures
            r == self.pending().len(),
    {
        self.request_map.len()
    }

    /// Whether an id is in the pending-call table.
    pub fn has_pending_id(&self, id: u32) -> (r: bool)
        ensures
            r == self.has_pending(id),
    {
        let mut i: usize = 0;
        while i < self.request_map.len()
            invariant
                i <= self.request_map@.len(),
                forall|j: int| 0 <= j < i ==> (#[trigger] self.request_map@[j]).0 != id,
            decreases self.request_map@.len() - i,
        {
            if self.request_map[i].0 == id {
                proof {
                    lemma_pending_found(self.request_map@, id, i as int);
                }
                return true;
            }
            i = i + 1;
        }
        proof {
            lemma_pending_none(self.request_map@, id);
        }
        false
    }

    /// The loop exits once shutdown was observed and every call submitted
    /// before it has been answered.
    pub fn should_exit(&self) -> (r: bool)
        ensures
            r == (self.is_stopping() && self.pending().len() == 0),
    {
        self.stopping && self.request_map.len() == 0
    }

    /// Takes one newly submitted `(request, action)` pair into the loop.
    ///
    /// The reserved shutdown command (sentinel id, reserved name) flips the
    /// loop into its stopping state.  After that, and for any real call
    /// under the sentinel id or too long for the frame length field, the
    /// pair is handed back untouched.  An accepted request is encoded,
    /// framed, queued for write and recorded in the pending-call table
    /// under its id.
    pub fn receive_submission(&mut self, serializer: &BincodeSerializer, request: Request, action: C) -> (r:
        SubmitOutcome<C>)
        requires
            old(self).wf(),
            !old(self).has_pending(request.id),
        ensures
            final(self).wf(),
            final(self).read_bytes() == old(self).read_bytes(),
            match r {
                SubmitOutcome::ShutdownObserved => {
                    &&& request@.id == SENTINEL_ID && request@.name == "stop"@
                    &&& !old(self).is_stopping()
                    &&& final(self).is_stopping()
                    &&& final(self).pending() == old(self).pending()
                    &&& final(self).write_bytes() == old(self).write_bytes()
                },
                SubmitOutcome::Accepted => {
                    &&& !old(self).is_stopping()
                    &&& request@.id != SENTINEL_ID
                    &&& spec_encode_request(request@).len() <= u32::MAX
                    &&& !final(self).is_stopping()
                    &&& final(self).pending() == old(self).pending().push(
                        (request.id, request, action),
                    )
                    &&& final(self).write_bytes() == old(self).write_bytes() + crate::net::spec_frame(
                        spec_encode_request(request@),
                    )
                    &&& final(self).has_pending(request.id)
                    &&& forall|id: u32|
                        id != request.id ==> spec_pending_lookup(final(self).pending(), id)
                            == spec_pending_lookup(#[trigger] old(self).pending(), id)
                },
                SubmitOutcome::Rejected(req_back, action_back) => {
                    &&& req_back == request && action_back == action
                    &&& final(self).pending() == old(self).pending()
                    &&& final(self).write_bytes() == old(self).write_bytes()
                    &&& final(self).is_stopping() == old(self).is_stopping()
                    &&& (old(self).is_stopping() || (request@.id == SENTINEL_ID && request@.name != "stop"@) || spec_encode_request(request@).len() > u32::MAX)
                },
            },
    {
        let stop_name: String = "stop".to_owned();
        if request.id == SENTINEL_ID && request.name == stop_name && !self.stopping {
            self.stopping = true;
            return SubmitOutcome::ShutdownObserved;
        }
        if self.stopping || request.id == SENTINEL_ID {
            return SubmitOutcome::Rejected(request, action);
        }
        let encoded = serializer.serialize_request(&request);
        let ghost entries = self.request_map@;
        if !self.frames.write_frame(encoded.as_slice()) {
            return SubmitOutcome::Rejected(request, action);
        }
        let id = request.id;
        self.request_map.push((id, request, action));
        proof {
            let e = final(self).pending().last();
            assert(final(self).pending() =~= entries.push(e));
            lemma_pending_none_inv(entries, id);
            lemma_pending_found(final(self).pending(), id, entries.len() as int);
            assert forall|other: u32| other != id implies spec_pending_lookup(
                final(self).pending(),
                other,
            ) == spec_pending_lookup(entries, other) by {
                lemma_pending_push_other(entries, e, other);
            }
            assert forall|a: int, b: int|
                0 <= a < b < final(self).pending().len() implies (#[trigger] final(self).pending()[a]).0 != (#[trigger] final(self).pending()[b]).0 by {
                if b < entries.len() {
                    assert(final(self).pending()[a] == entries[a]);
                    assert(final(self).pending()[b] == entries[b]);
                } else {
                    assert(final(self).pending()[a] == entries[a]);
                    assert(final(self).pending()[b] == e);
                }
            }
        }
        SubmitOutcome::Accepted
    }

    /// Demultiplexes one inbound frame payload.
    ///
    /// The entry whose id the response carries — and no other — leaves the
    /// pending-call table, and its completion action comes back with the
    /// response, to be invoked exactly once.  A sentinel-id response and a
    /// response matching no pending id touch nothing.
    pub fn process(&mut self, serializer: &BincodeSerializer, package: &[u8]) -> (r: ProcessOutcome<
        C,
    >)
        requires
            old(self).wf(),
        ensures
            final(self).wf(),
            final(self).read_bytes() == old(self).read_bytes(),
            final(self).write_bytes() == old(self).write_bytes(),
            final(self).is_stopping() == old(self).is_stopping(),
            match r {
                ProcessOutcome::MalformedResponse => spec_decode_response(package@) is None && final(self).pending() == old(self).pending(),
                ProcessOutcome::ServerSideFailure(response) => {
                    &&& spec_decode_response(package@) == Some(response@)
                    &&& response@.id == SENTINEL_ID
                    &&& final(self).pending() == old(self).pending()
                },
                ProcessOutcome::Unmatched(response) => {
                    &&& spec_decode_response(package@) == Some(response@)
                    &&& response@.id != SENTINEL_ID
                    &&& !old(self).has_pending(response.id)
                    &&& final(self).pending() == old(self).pending()
                },
                ProcessOutcome::Completed(request, action, response) => {
                    &&& spec_decode_response(package@) == Some(response@)
                    &&& response@.id != SENTINEL_ID
                    &&& response.id == request.id
                    &&& spec_pending_lookup(old(self).pending(), response.id) == Some(
                        (request, action),
                    )
                    &&& !final(self).has_pending(response.id)
                    &&& forall|id: u32|
                        id != response.id ==> spec_pending_lookup(final(self).pending(), id)
                            == spec_pending_lookup(#[trigger] old(self).pending(), id)
                },
            },
    {
        let response = match serializer.deserialize_response(package) {
            Ok(response) => response,
            Err(_) => {
                return ProcessOutcome::MalformedResponse;
            },
        };
        if response.id == SENTINEL_ID {
            return ProcessOutcome::ServerSideFailure(response);
        }
        let id = response.id;
        let ghost entries = self.request_map@;
        let mut i: usize = 0;
        while i < self.request_map.len()
            invariant
                i <= entries.len(),
                *self == *old(self),
                old(self).wf(),
                entries == self.request_map@,
                spec_decode_response(package@) == Some(response@),
                id == response.id,
                response@.id != SENTINEL_ID,
                forall|j: int| 0 <= j < i ==> (#[trigger] entries[j]).0 != id,
            decreases entries.len() - i,
        {
            if self.request_map[i].0 == id {
                proof {
                    lemma_pending_found(entries, id, i as int);
                    assert(entries == old(self).pending());
                    assert forall|a: int, b: int|
                        0 <= a < b < entries.len() implies (#[trigger] entries[a]).0 != (
                    #[trigger] entries[b]).0 by {
                        assert((old(self).pending()[a]).0 != (old(self).pending()[b]).0);
                    }
                }
                let entry = self.request_map.remove(i);
                proof {
                    let ii = i as int;
                    assert(final(self).pending() =~= entries.take(ii) + entries.skip(ii + 1));
                    assert forall|other: u32| other != id implies spec_pending_lookup(
                        final(self).pending(),
                        other,
                    ) == spec_pending_lookup(entries, other) by {
                        lemma_pending_remove_other(entries, ii, other);
                    }
                    assert forall|j: int|
                        0 <= j < final(self).pending().len() implies (#[trigger] final(
                    self).pending()[j]).0 != id by {
                        if j < ii {
                            assert(final(self).pending()[j] == entries[j]);
                        } else {
                            assert(final(self).pending()[j] == entries[j + 1]);
                            assert(entries[ii].0 != entries[j + 1].0);
                        }
                    }
                    lemma_pending_none(final(self).pending(), id);
                    assert forall|a: int, b: int|
                        0 <= a < b < final(self).pending().len() implies (#[trigger] final(
                    self).pending()[a]).0 != (#[trigger] final(self).pending()[b]).0 by {
                        let aa = if a < ii { a } else { a + 1 };
                        let bb = if b < ii { b } else { b + 1 };
                        assert(final(self).pending()[a] == entries[aa]);
                        assert(final(self).pending()[b] == entries[bb]);
                        assert(entries[aa].0 != entries[bb].0);
                    }
                }
                return ProcessOutcome::Completed(entry.1, entry.2, response);
            }
            i = i + 1;
        }
        proof {
            lemma_pending_none(entries, id);
        }
        ProcessOutcome::Unmatched(response)
    }
}

} // verus!
