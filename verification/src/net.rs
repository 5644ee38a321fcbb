use vstd::prelude::*;
use vstd::slice::{slice_subrange, slice_to_vec};

use crate::common::Response;
use crate::error::Error;
use crate::serialization::{spec_encode_response, BincodeSerializer};
use crate::server::{spec_served_response, Handler, Processes};

verus! {

// ---------------------------------------------------------------------------
// The wire format of one frame: a 4-byte big-endian length prefix (the
// payload byte count, excluding the prefix itself) followed by exactly that
// many payload bytes.
// ---------------------------------------------------------------------------
pub open spec fn spec_u32_to_be_bytes(x: u32) -> Seq<u8> {
    seq![
        ((x >> 24) & 0xff) as u8,
        ((x >> 16) & 0xff) as u8,
        ((x >> 8) & 0xff) as u8,
        (x & 0xff) as u8,
    ]
}

pub open spec fn spec_u32_from_be_bytes(s: Seq<u8>) -> u32
    recommends
        s.len() == 4,
{
    ((s[0] as u32) << 24) | ((s[1] as u32) << 16) | ((s[2] as u32) << 8) | (s[3] as u32)
}

pub proof fn lemma_u32_be_round_trip(x: u32)
    ensures
        spec_u32_to_be_bytes(x).len() == 4,
        spec_u32_from_be_bytes(spec_u32_to_be_bytes(x)) == x,
{
    assert(((((x >> 24) & 0xff) as u8 as u32) << 24) | ((((x >> 16) & 0xff) as u8 as u32) << 16)
        | ((((x >> 8) & 0xff) as u8 as u32) << 8) | ((x & 0xff) as u8 as u32) == x)
        by (bit_vector);
}

pub open spec fn spec_frame(payload: Seq<u8>) -> Seq<u8> {
    spec_u32_to_be_bytes(payload.len() as u32) + payload
}

/// The payload length that the first four buffered bytes announce.
pub open spec fn spec_frame_len(b: Seq<u8>) -> int
    recommends
        b.len() >= 4,
{
    spec_u32_from_be_bytes(b.take(4)) as int
}

/// True when the buffer holds at least one complete frame.
pub open spec fn spec_has_frame(b: Seq<u8>) -> bool {
    b.len() >= 4 && b.len() >= 4 + spec_frame_len(b)
}

/// The payload of the first complete frame in the buffer.
pub open spec fn spec_first_payload(b: Seq<u8>) -> Seq<u8>
    recommends
        spec_has_frame(b),
{
    b.subrange(4, 4 + spec_frame_len(b))
}

/// The bytes that remain once the first complete frame is removed.
pub open spec fn spec_after_frame(b: Seq<u8>) -> Seq<u8>
    recommends
        spec_has_frame(b),
{
    b.skip(4 + spec_frame_len(b))
}

/// Every complete frame's payload in the buffer, in arrival order.
pub open spec fn spec_frames(b: Seq<u8>) -> Seq<Seq<u8>>
    decreases b.len(),
{
    if spec_has_frame(b) {
        seq![spec_first_payload(b)] + spec_frames(spec_after_frame(b))
    } else {
        Seq::empty()
    }
}

pub open spec fn spec_concat_frames(payloads: Seq<Seq<u8>>) -> Seq<u8>
    decreases payloads.len(),
{
    if payloads.len() == 0 {
        Seq::empty()
    } else {
        spec_frame(payloads.first()) + spec_concat_frames(payloads.drop_first())
    }
}

/// De-framing reconstructs exactly the framed payload sequence, in order.
///
/// However a framed byte stream is fragmented into deliveries, the read
/// buffer accumulates their concatenation (`push_bytes` appends), so this
/// law covers every fragmentation of the delivery, one byte at a time
/// included, as well as several frames arriving in one delivery.
pub proof fn lemma_frames_round_trip(payloads: Seq<Seq<u8>>)
    requires
        forall|i: int| 0 <= i < payloads.len() ==> (#[trigger] payloads[i]).len() <= u32::MAX,
    ensures
        spec_frames(spec_concat_frames(payloads)) == payloads,
    decreases payloads.len(),
{
    if payloads.len() == 0 {
        assert(!spec_has_frame(Seq::empty()));
    } else {
        let first = payloads.first();
        let rest = payloads.drop_first();
        let b = spec_concat_frames(payloads);
        lemma_u32_be_round_trip(first.len() as u32);
        assert(b.take(4) =~= spec_u32_to_be_bytes(first.len() as u32));
        assert(spec_frame_len(b) == first.len());
        assert(spec_has_frame(b));
        assert(spec_first_payload(b) =~= first);
        assert(spec_after_frame(b) =~= spec_concat_frames(rest));
        lemma_frames_round_trip(rest);
        assert(seq![first] + rest =~~= payloads);
    }
}

/// The outcome of one read-side poll: a complete frame's payload, or not
/// ready (more bytes must arrive first), or closed (end of stream reached
/// with no frame pending).
pub enum PollOutcome {
    Frame(Vec<u8>),
    NotReady,
    Closed,
}

/// The framing engine's buffers for one duplex byte stream.
///
/// Bytes read from the transport accumulate in the read buffer until they
/// form complete frames; outbound frames accumulate in the write buffer
/// until the transport accepts them.  The engine never touches a socket: the
/// surrounding event loop feeds `push_bytes` and drains `pending_write`.
pub struct FrameBuffer {
    read_buffer: Vec<u8>,
    write_buffer: Vec<u8>,
}

impl FrameBuffer {
    pub closed spec fn read_bytes(&self) -> Seq<u8> {
        self.read_buffer@
    }

    pub closed spec fn write_bytes(&self) -> Seq<u8> {
        self.write_buffer@
    }

    pub fn new() -> (r: Self)
        ensures
            r.read_bytes() == Seq::<u8>::empty(),
            r.write_bytes() == Seq::<u8>::empty(),
    {
        FrameBuffer { read_buffer: Vec::new(), write_buffer: Vec::new() }
    }

    /// Accepts one delivery of bytes from the transport.
    pub fn push_bytes(&mut self, chunk: &[u8])
        ensures
            final(self).read_bytes() == old(self).read_bytes() + chunk@,
            final(self).write_bytes() == old(self).write_bytes(),
    {
        self.read_buffer.extend_from_slice(chunk);
        proof {
            assert(final(self).read_bytes() =~= old(self).read_bytes() + chunk@);
        }
    }

    /// One read-side poll.  When at least one complete frame is buffered its
    /// payload is removed and returned; with fewer than four bytes buffered
    /// the stream counts as closed once the transport reports end of stream;
    /// otherwise the caller must retry when more bytes have arrived.
    pub fn poll_frame(&mut self, eof: bool) -> (r: PollOutcome)
        ensures
            final(self).write_bytes() == old(self).write_bytes(),
            match r {
                PollOutcome::Frame(p) => spec_has_frame(old(self).read_bytes()) && p@
                    == spec_first_payload(old(self).read_bytes()) && final(self).read_bytes()
                    == spec_after_frame(old(self).read_bytes()),
                PollOutcome::NotReady => !spec_has_frame(old(self).read_bytes()) && !(eof && old(
                    self,
                ).read_bytes().len() < 4) && *final(self) == *old(self),
                PollOutcome::Closed => eof && old(self).read_bytes().len() < 4 && *final(self) == *old(self),
            },
    {
        let buffered = self.read_buffer.len();
        if buffered < 4 {
            if eof {
                PollOutcome::Closed
            } else {
                PollOutcome::NotReady
            }
        } else {
            let header = slice_subrange(self.read_buffer.as_slice(), 0, 4);
            let flen = u32_from_be_bytes(header) as usize;
            proof {
                assert(self.read_buffer@.take(4) =~= self.read_buffer@.subrange(0, 4));
            }
            if buffered - 4 < flen {
                PollOutcome::NotReady
            } else {
                let total = 4 + flen;
                let payload = slice_to_vec(slice_subrange(self.read_buffer.as_slice(), 4, total));
                let rest = slice_to_vec(
                    slice_subrange(self.read_buffer.as_slice(), total, buffered),
                );
                proof {
                    assert(rest@ =~= old(self).read_bytes().skip(4 + spec_frame_len(
                        old(self).read_bytes(),
                    )));
                }
                self.read_buffer = rest;
                PollOutcome::Frame(payload)
            }
        }
    }

    /// Queues one outbound payload, prefixed with its 4-byte length.  Fails,
    /// queueing nothing, only on a payload too long for the length field.
    pub fn write_frame(&mut self, payload: &[u8]) -> (ok: bool)
        ensures
            final(self).read_bytes() == old(self).read_bytes(),
            ok == (payload@.len() <= u32::MAX),
            ok ==> final(self).write_bytes() == old(self).write_bytes() + spec_frame(payload@),
            !ok ==> *final(self) == *old(self),
    {
        if payload.len() <= (u32::MAX as usize) {
            let header = u32_to_be_bytes(payload.len() as u32);
            self.write_buffer.extend_from_slice(header.as_slice());
            self.write_buffer.extend_from_slice(payload);
            proof {
                assert(final(self).write_bytes() =~= old(self).write_bytes() + spec_frame(
                    payload@,
                ));
            }
            true
        } else {
            proof {
                assert(usize::MAX >= u32::MAX);
            }
            false
        }
    }

    /// The bytes waiting to go out on the transport.
    pub fn pending_write(&self) -> (r: &Vec<u8>)
        ensures
            r@ == self.write_bytes(),
    {
        &self.write_buffer
    }

    /// Drops the first `n` queued bytes once the transport has accepted
    /// them; a partial write leaves the remainder queued.
    pub fn take_written(&mut self, n: usize)
        requires
            n <= old(self).write_bytes().len(),
        ensures
            final(self).read_bytes() == old(self).read_bytes(),
            final(self).write_bytes() == old(self).write_bytes().skip(n as int),
    {
        let rest = self.write_buffer.split_off(n);
        self.write_buffer = rest;
    }
}

/// The outcome of one pass of a server connection's state machine.
pub enum ServerStep {
    /// One frame was consumed and its response was queued for write.  The
    /// queueing is skipped only for a response too long for the length
    /// field, which leaves the peer unanswered rather than corrupting the
    /// stream.
    Answered(Response),
    NotReady,
    Closed,
}

/// One server-side connection unit: the framing engine together with the
/// per-frame decode, dispatch and respond step of the connection state
/// machine.  Each accepted connection owns one; all of a server's units
/// share one registry.
pub struct ServerPackages {
    frames: FrameBuffer,
}

impl ServerPackages {
    pub closed spec fn read_bytes(&self) -> Seq<u8> {
        self.frames.read_bytes()
    }

    pub closed spec fn write_bytes(&self) -> Seq<u8> {
        self.frames.write_bytes()
    }

    pub fn new() -> (r: Self)
        ensures
            r.read_bytes() == Seq::<u8>::empty(),
            r.write_bytes() == Seq::<u8>::empty(),
    {
        ServerPackages { frames: FrameBuffer::new() }
    }

    /// Accepts one delivery of bytes from the transport.
    pub fn push_bytes(&mut self, chunk: &[u8])
        ensures
            final(self).read_bytes() == old(self).read_bytes() + chunk@,
            final(self).write_bytes() == old(self).write_bytes(),
    {
        self.frames.push_bytes(chunk);
    }

    /// The bytes waiting to go out on the transport.
    pub fn pending_write(&self) -> (r: &Vec<u8>)
        ensures
            r@ == self.write_bytes(),
    {
        self.frames.pending_write()
    }

    /// Drops the first `n` queued bytes once the transport accepted them.
    pub fn take_written(&mut self, n: usize)
        requires
            n <= old(self).write_bytes().len(),
        ensures
            final(self).read_bytes() == old(self).read_bytes(),
            final(self).write_bytes() == old(self).write_bytes().skip(n as int),
    {
        self.frames.take_written(n);
    }

    /// Answers one inbound frame payload: decode, dispatch, build the
    /// response that `spec_served_response` owes.  Registrations under other
    /// names are untouched; a dispatched name stays registered.
    pub fn process<H: Handler>(processes: &mut Processes<H>, package: &[u8]) -> (r: Response)
        ensures
            r@ == spec_served_response(*old(processes), package@),
            forall|n: Seq<char>|
                final(processes).handler_for(n) is Some <==> #[trigger] old(
                    processes,
                ).handler_for(n) is Some,
    {
        let serializer = *processes.get_serializer();
        match serializer.deserialize_request(package) {
            Ok(request) => {
                let ghost reqv = request@;
                let outcome = processes.execute_function(request.name.as_str(), &request.params);
                proof {
                    assert(request.params.deep_view() == reqv.params);
                }
                match outcome {
                    Ok(result) => Response::from(request, result),
                    Err(err) => Response::err(request, err),
                }
            },
            Err(_) => Response::err_unknow_request(Error::ParamDeserializeFail),
        }
    }

    /// One pass of the connection state machine: wait for a complete frame,
    /// then decode, dispatch and queue the response; report closure only at
    /// end of stream with no frame pending.
    pub fn poll_step<H: Handler>(&mut self, processes: &mut Processes<H>, eof: bool) -> (r:
        ServerStep)
        ensures
            forall|n: Seq<char>|
                final(processes).handler_for(n) is Some <==> #[trigger] old(
                    processes,
                ).handler_for(n) is Some,
            match r {
                ServerStep::Answered(response) => {
                    let served = spec_served_response(
                        *old(processes),
                        spec_first_payload(old(self).read_bytes()),
                    );
                    &&& spec_has_frame(old(self).read_bytes())
                    &&& response@ == served
                    &&& final(self).read_bytes() == spec_after_frame(old(self).read_bytes())
                    &&& spec_encode_response(served).len() <= u32::MAX ==> final(self).write_bytes()
                        == old(self).write_bytes() + spec_frame(spec_encode_response(served))
                    &&& spec_encode_response(served).len() > u32::MAX ==> final(self).write_bytes()
                        == old(self).write_bytes()
                },
                ServerStep::NotReady => !spec_has_frame(old(self).read_bytes()) && !(eof && old(
                    self,
                ).read_bytes().len() < 4) && *final(self) == *old(self) && *final(processes)
                    == *old(processes),
                ServerStep::Closed => eof && old(self).read_bytes().len() < 4 && *final(self)
                    == *old(self) && *final(processes) == *old(processes),
            },
    {
        match self.frames.poll_frame(eof) {
            PollOutcome::Frame(payload) => {
                let response = Self::process(processes, payload.as_slice());
                let serializer = BincodeSerializer::new();
                let encoded = serializer.serialize_response(&response);
                let _ = self.frames.write_frame(encoded.as_slice());
                ServerStep::Answered(response)
            },
            PollOutcome::NotReady => ServerStep::NotReady,
            PollOutcome::Closed => ServerStep::Closed,
        }
    }
}

fn u32_to_be_bytes(x: u32) -> (r: Vec<u8>)
    ensures
        r@ == spec_u32_to_be_bytes(x),
{
    proof {
        assert((x >> 24) & 0xff < 256 && (x >> 16) & 0xff < 256 && (x >> 8) & 0xff < 256 && x
            & 0xff < 256) by (bit_vector);
    }
    let mut r: Vec<u8> = Vec::new();
    r.push(((x >> 24) & 0xff) as u8);
    r.push(((x >> 16) & 0xff) as u8);
    r.push(((x >> 8) & 0xff) as u8);
    r.push((x & 0xff) as u8);
    proof {
        assert(r@ =~= spec_u32_to_be_bytes(x));
    }
    r
}

fn u32_from_be_bytes(s: &[u8]) -> (x: u32)
    requires
        s@.len() == 4,
    ensures
        x == spec_u32_from_be_bytes(s@),
{
    let b0 = s[0];
    let b1 = s[1];
    let b2 = s[2];
    let b3 = s[3];
    ((b0 as u32) << 24) | ((b1 as u32) << 16) | ((b2 as u32) << 8) | (b3 as u32)
}

} // verus!
