use vstd::prelude::*;
use vstd::bytes::{
    lemma_auto_spec_u32_to_from_le_bytes, lemma_auto_spec_u64_to_from_le_bytes,
    spec_u32_from_le_bytes, spec_u32_to_le_bytes, spec_u64_from_le_bytes, spec_u64_to_le_bytes,
    u32_from_le_bytes, u64_from_le_bytes, u64_to_le_bytes,
};
use vstd::slice::{slice_subrange, slice_to_vec};
use vstd::std_specs::vec::spec_vec_len;
use vstd::utf8::{
    decode_utf8, encode_utf8, encode_utf8_decode_utf8, encode_utf8_valid_utf8, valid_utf8,
};

use crate::common::{Request, RequestView, Response, ResponseView};
use crate::error::Error;

verus! {

// ---------------------------------------------------------------------------
// The wire shape of an envelope, as a specification.
//
// Every integer is little-endian and fixed width.  A blob is its 64-bit
// length followed by its bytes; a name is the blob of its UTF-8 encoding; a
// request is id, name, parameter count, parameters; a response is id, name,
// then a tagged result (tag 0: a blob; tag 1: a tagged error kind).
// ---------------------------------------------------------------------------
pub open spec fn spec_encode_blob(b: Seq<u8>) -> Seq<u8> {
    spec_u64_to_le_bytes(b.len() as u64) + b
}

pub open spec fn spec_encode_blobs(bs: Seq<Seq<u8>>) -> Seq<u8>
    decreases bs.len(),
{
    if bs.len() == 0 {
        Seq::empty()
    } else {
        spec_encode_blob(bs.first()) + spec_encode_blobs(bs.drop_first())
    }
}

pub open spec fn spec_encode_name(name: Seq<char>) -> Seq<u8> {
    spec_encode_blob(encode_utf8(name))
}

pub open spec fn spec_encode_request(r: RequestView) -> Seq<u8> {
    spec_u32_to_le_bytes(r.id) + spec_encode_name(r.name) + spec_u64_to_le_bytes(
        r.params.len() as u64,
    ) + spec_encode_blobs(r.params)
}

pub open spec fn spec_encode_error(e: Error) -> Seq<u8> {
    match e {
        Error::FunctionNotFound => spec_u32_to_le_bytes(0),
        Error::ParamDeserializeFail => spec_u32_to_le_bytes(1),
    }
}

pub open spec fn spec_encode_result(r: Result<Seq<u8>, Error>) -> Seq<u8> {
    match r {
        Ok(blob) => spec_u32_to_le_bytes(0) + spec_encode_blob(blob),
        Err(e) => spec_u32_to_le_bytes(1) + spec_encode_error(e),
    }
}

pub open spec fn spec_encode_response(r: ResponseView) -> Seq<u8> {
    spec_u32_to_le_bytes(r.id) + spec_encode_name(r.name) + spec_encode_result(r.result)
}

// ---------------------------------------------------------------------------
// The decoders, as prefix parsers: each yields the value and the bytes that
// follow it, or nothing when the input is truncated or malformed.
// ---------------------------------------------------------------------------
pub open spec fn spec_take_u32(b: Seq<u8>) -> Option<(u32, Seq<u8>)> {
    if b.len() >= 4 {
        Some((spec_u32_from_le_bytes(b.take(4)), b.skip(4)))
    } else {
        None
    }
}

pub open spec fn spec_take_u64(b: Seq<u8>) -> Option<(u64, Seq<u8>)> {
    if b.len() >= 8 {
        Some((spec_u64_from_le_bytes(b.take(8)), b.skip(8)))
    } else {
        None
    }
}

pub open spec fn spec_take_blob(b: Seq<u8>) -> Option<(Seq<u8>, Seq<u8>)> {
    match spec_take_u64(b) {
        Some((n, rest)) => if rest.len() >= n {
            Some((rest.take(n as int), rest.skip(n as int)))
        } else {
            None
        },
        None => None,
    }
}

pub open spec fn spec_take_name(b: Seq<u8>) -> Option<(Seq<char>, Seq<u8>)> {
    match spec_take_blob(b) {
        Some((bytes, rest)) => if valid_utf8(bytes) {
            Some((decode_utf8(bytes), rest))
        } else {
            None
        },
        None => None,
    }
}

pub open spec fn spec_take_blobs(b: Seq<u8>, n: nat) -> Option<(Seq<Seq<u8>>, Seq<u8>)>
    decreases n,
{
    if n == 0 {
        Some((Seq::empty(), b))
    } else {
        match spec_take_blob(b) {
            Some((blob, rest)) => match spec_take_blobs(rest, (n - 1) as nat) {
                Some((blobs, rest2)) => Some((seq![blob] + blobs, rest2)),
                None => None,
            },
            None => None,
        }
    }
}

pub open spec fn spec_take_error(b: Seq<u8>) -> Option<(Error, Seq<u8>)> {
    match spec_take_u32(b) {
        Some((tag, rest)) => if tag == 0 {
            Some((Error::FunctionNotFound, rest))
        } else if tag == 1 {
            Some((Error::ParamDeserializeFail, rest))
        } else {
            None
        },
        None => None,
    }
}

pub open spec fn spec_take_result(b: Seq<u8>) -> Option<(Result<Seq<u8>, Error>, Seq<u8>)> {
    match spec_take_u32(b) {
        Some((tag, rest)) => if tag == 0 {
            match spec_take_blob(rest) {
                Some((blob, rest2)) => Some((Ok(blob), rest2)),
                None => None,
            }
        } else if tag == 1 {
            match spec_take_error(rest) {
                Some((e, rest2)) => Some((Err(e), rest2)),
                None => None,
            }
        } else {
            None
        },
        None => None,
    }
}

/// A request decodes only when the whole input is consumed: a frame carries
/// exactly one envelope, so trailing bytes are malformed input.
pub open spec fn spec_decode_request(b: Seq<u8>) -> Option<RequestView> {
    match spec_take_u32(b) {
        Some((id, r1)) => match spec_take_name(r1) {
            Some((name, r2)) => match spec_take_u64(r2) {
                Some((count, r3)) => match spec_take_blobs(r3, count as nat) {
                    Some((params, r4)) => if r4.len() == 0 {
                        Some(RequestView { id, name, params })
                    } else {
                        None
                    },
                    None => None,
                },
                None => None,
            },
            None => None,
        },
        None => None,
    }
}

pub open spec fn spec_decode_response(b: Seq<u8>) -> Option<ResponseView> {
    match spec_take_u32(b) {
        Some((id, r1)) => match spec_take_name(r1) {
            Some((name, r2)) => match spec_take_result(r2) {
                Some((result, r3)) => if r3.len() == 0 {
                    Some(ResponseView { id, name, result })
                } else {
                    None
                },
                None => None,
            },
            None => None,
        },
        None => None,
    }
}

/// The machine bounds under which a request view can travel the wire: every
/// length must fit in its 64-bit length field.  Every `Request` value
/// satisfies them.
pub open spec fn spec_request_wf(r: RequestView) -> bool {
    &&& encode_utf8(r.name).len() <= u64::MAX
    &&& r.params.len() <= u64::MAX
    &&& forall|i: int| 0 <= i < r.params.len() ==> (#[trigger] r.params[i]).len() <= u64::MAX
}

pub open spec fn spec_response_wf(r: ResponseView) -> bool {
    &&& encode_utf8(r.name).len() <= u64::MAX
    &&& (r.result matches Ok(blob) ==> blob.len() <= u64::MAX)
}

// ---------------------------------------------------------------------------
// Round trips: decoding an encoded envelope yields the envelope back.
// ---------------------------------------------------------------------------
proof fn lemma_take_u32_of_encode(v: u32, rest: Seq<u8>)
    ensures
        spec_take_u32(spec_u32_to_le_bytes(v) + rest) == Some((v, rest)),
{
    lemma_auto_spec_u32_to_from_le_bytes();
    let b = spec_u32_to_le_bytes(v) + rest;
    assert(b.take(4) =~= spec_u32_to_le_bytes(v));
    assert(b.skip(4) =~= rest);
}

proof fn lemma_take_u64_of_encode(v: u64, rest: Seq<u8>)
    ensures
        spec_take_u64(spec_u64_to_le_bytes(v) + rest) == Some((v, rest)),
{
    lemma_auto_spec_u64_to_from_le_bytes();
    let b = spec_u64_to_le_bytes(v) + rest;
    assert(b.take(8) =~= spec_u64_to_le_bytes(v));
    assert(b.skip(8) =~= rest);
}

proof fn lemma_take_blob_of_encode(blob: Seq<u8>, rest: Seq<u8>)
    requires
        blob.len() <= u64::MAX,
    ensures
        spec_take_blob(spec_encode_blob(blob) + rest) == Some((blob, rest)),
{
    lemma_auto_spec_u64_to_from_le_bytes();
    let b = spec_encode_blob(blob) + rest;
    assert(b =~= spec_u64_to_le_bytes(blob.len() as u64) + (blob + rest));
    lemma_take_u64_of_encode(blob.len() as u64, blob + rest);
    let n = blob.len() as u64;
    assert((blob + rest).take(n as int) =~= blob);
    assert((blob + rest).skip(n as int) =~= rest);
}

proof fn lemma_take_name_of_encode(name: Seq<char>, rest: Seq<u8>)
    requires
        encode_utf8(name).len() <= u64::MAX,
    ensures
        spec_take_name(spec_encode_name(name) + rest) == Some((name, rest)),
{
    lemma_take_blob_of_encode(encode_utf8(name), rest);
    encode_utf8_valid_utf8(name);
    encode_utf8_decode_utf8(name);
}

proof fn lemma_take_blobs_of_encode(bs: Seq<Seq<u8>>, rest: Seq<u8>)
    requires
        forall|i: int| 0 <= i < bs.len() ==> (#[trigger] bs[i]).len() <= u64::MAX,
    ensures
        spec_take_blobs(spec_encode_blobs(bs) + rest, bs.len()) == Some((bs, rest)),
    decreases bs.len(),
{
    if bs.len() == 0 {
        assert(spec_encode_blobs(bs) + rest =~= rest);
    } else {
        let b = spec_encode_blobs(bs) + rest;
        assert(b =~= spec_encode_blob(bs.first()) + (spec_encode_blobs(bs.drop_first()) + rest));
        lemma_take_blob_of_encode(bs.first(), spec_encode_blobs(bs.drop_first()) + rest);
        lemma_take_blobs_of_encode(bs.drop_first(), rest);
        assert(seq![bs.first()] + bs.drop_first() =~= bs);
    }
}

proof fn lemma_take_error_of_encode(e: Error, rest: Seq<u8>)
    ensures
        spec_take_error(spec_encode_error(e) + rest) == Some((e, rest)),
{
    match e {
        Error::FunctionNotFound => lemma_take_u32_of_encode(0, rest),
        Error::ParamDeserializeFail => lemma_take_u32_of_encode(1, rest),
    }
}

proof fn lemma_take_result_of_encode(r: Result<Seq<u8>, Error>, rest: Seq<u8>)
    requires
        r matches Ok(blob) ==> blob.len() <= u64::MAX,
    ensures
        spec_take_result(spec_encode_result(r) + rest) == Some((r, rest)),
{
    match r {
        Ok(blob) => {
            let b = spec_encode_result(r) + rest;
            assert(b =~= spec_u32_to_le_bytes(0) + (spec_encode_blob(blob) + rest));
            lemma_take_u32_of_encode(0, spec_encode_blob(blob) + rest);
            lemma_take_blob_of_encode(blob, rest);
        },
        Err(e) => {
            let b = spec_encode_result(r) + rest;
            assert(b =~= spec_u32_to_le_bytes(1) + (spec_encode_error(e) + rest));
            lemma_take_u32_of_encode(1, spec_encode_error(e) + rest);
            lemma_take_error_of_encode(e, rest);
        },
    }
}

/// Decoding the encoding of any request yields that request.
pub proof fn lemma_request_round_trip(r: RequestView)
    requires
        spec_request_wf(r),
    ensures
        spec_decode_request(spec_encode_request(r)) == Some(r),
{
    let b = spec_encode_request(r);
    let tail1 = spec_encode_name(r.name) + (spec_u64_to_le_bytes(r.params.len() as u64)
        + spec_encode_blobs(r.params));
    assert(b =~= spec_u32_to_le_bytes(r.id) + tail1);
    lemma_take_u32_of_encode(r.id, tail1);
    let tail2 = spec_u64_to_le_bytes(r.params.len() as u64) + spec_encode_blobs(r.params);
    lemma_take_name_of_encode(r.name, tail2);
    lemma_take_u64_of_encode(r.params.len() as u64, spec_encode_blobs(r.params));
    assert(spec_encode_blobs(r.params) =~= spec_encode_blobs(r.params) + Seq::<u8>::empty());
    lemma_take_blobs_of_encode(r.params, Seq::<u8>::empty());
    assert(spec_decode_request(b) == Some(RequestView { id: r.id, name: r.name, params: r.params }));
    assert(RequestView { id: r.id, name: r.name, params: r.params } =~= r);
}

/// Decoding the encoding of any response yields that response.
pub proof fn lemma_response_round_trip(r: ResponseView)
    requires
        spec_response_wf(r),
    ensures
        spec_decode_response(spec_encode_response(r)) == Some(r),
{
    let b = spec_encode_response(r);
    let tail1 = spec_encode_name(r.name) + spec_encode_result(r.result);
    assert(b =~= spec_u32_to_le_bytes(r.id) + tail1);
    lemma_take_u32_of_encode(r.id, tail1);
    lemma_take_name_of_encode(r.name, spec_encode_result(r.result));
    assert(spec_encode_result(r.result) =~= spec_encode_result(r.result) + Seq::<u8>::empty());
    lemma_take_result_of_encode(r.result, Seq::<u8>::empty());
    assert(spec_decode_response(b) == Some(
        ResponseView { id: r.id, name: r.name, result: r.result },
    ));
    assert(ResponseView { id: r.id, name: r.name, result: r.result } =~= r);
}

// ---------------------------------------------------------------------------
// Trusted boundary: the calls into std and bincode that the codec rests on.
// ---------------------------------------------------------------------------
/// Relies on `String::from_utf8`: when the bytes are valid UTF-8 it returns
/// the string of the characters they encode, otherwise an error.
#[verifier::external_body]
fn string_from_utf8(bytes: Vec<u8>) -> (r: Option<String>)
    ensures
        match r {
            Some(s) => valid_utf8(bytes@) && s@ == decode_utf8(bytes@),
            None => !valid_utf8(bytes@),
        },
{
    String::from_utf8(bytes).ok()
}

/// Relies on `bincode::serialize`, whose fixed-width integer encoding writes
/// a `u32` as its four little-endian bytes; writing into a fresh vector
/// cannot fail.
#[verifier::external_body]
fn bincode_encode_u32(v: u32) -> (r: Vec<u8>)
    ensures
        r@ == spec_u32_to_le_bytes(v),
{
    bincode::serialize(&v).unwrap()
}

/// Relies on `bincode::deserialize`, whose fixed-width integer encoding reads
/// a `u32` from the first four little-endian bytes, permits trailing bytes,
/// and fails on shorter input.
#[verifier::external_body]
fn bincode_decode_u32(b: &[u8]) -> (r: Option<u32>)
    ensures
        r == if b@.len() >= 4 {
            Some(spec_u32_from_le_bytes(b@.take(4)))
        } else {
            None::<u32>
        },
{
    bincode::deserialize(b).ok()
}

// ---------------------------------------------------------------------------
// The executable codec.
// ---------------------------------------------------------------------------
/// The reference codec: a fixed self-describing binary encoding, stateless
/// and freely shared.  Envelopes use the little-endian fixed-width layout of
/// the spec functions above; `u32` values use the same layout through
/// bincode itself.
#[derive(Clone, Copy)]
pub struct BincodeSerializer;

fn take_u32<'a>(b: &'a [u8]) -> (r: Option<(u32, &'a [u8])>)
    ensures
        match r {
            Some((v, rest)) => spec_take_u32(b@) == Some((v, rest@)),
            None => spec_take_u32(b@) is None,
        },
{
    if b.len() >= 4 {
        let v = u32_from_le_bytes(slice_subrange(b, 0, 4));
        let rest = slice_subrange(b, 4, b.len());
        proof {
            assert(b@.take(4) =~= b@.subrange(0, 4));
            assert(b@.skip(4) =~= b@.subrange(4, b@.len() as int));
        }
        Some((v, rest))
    } else {
        None
    }
}

fn take_u64<'a>(b: &'a [u8]) -> (r: Option<(u64, &'a [u8])>)
    ensures
        match r {
            Some((v, rest)) => spec_take_u64(b@) == Some((v, rest@)),
            None => spec_take_u64(b@) is None,
        },
{
    if b.len() >= 8 {
        let v = u64_from_le_bytes(slice_subrange(b, 0, 8));
        let rest = slice_subrange(b, 8, b.len());
        proof {
            assert(b@.take(8) =~= b@.subrange(0, 8));
            assert(b@.skip(8) =~= b@.subrange(8, b@.len() as int));
        }
        Some((v, rest))
    } else {
        None
    }
}

fn take_blob<'a>(b: &'a [u8]) -> (r: Option<(Vec<u8>, &'a [u8])>)
    ensures
        match r {
            Some((blob, rest)) => spec_take_blob(b@) == Some((blob@, rest@)),
            None => spec_take_blob(b@) is None,
        },
{
    match take_u64(b) {
        Some((n, rest)) => {
            if n <= rest.len() as u64 {
                let nn = n as usize;
                let blob = slice_to_vec(slice_subrange(rest, 0, nn));
                let rest2 = slice_subrange(rest, nn, rest.len());
                proof {
                    assert(rest@.take(n as int) =~= rest@.subrange(0, nn as int));
                    assert(rest@.skip(n as int) =~= rest@.subrange(nn as int, rest@.len() as int));
                }
                Some((blob, rest2))
            } else {
                None
            }
        },
        None => None,
    }
}

fn take_name<'a>(b: &'a [u8]) -> (r: Option<(String, &'a [u8])>)
    ensures
        match r {
            Some((name, rest)) => spec_take_name(b@) == Some((name@, rest@)),
            None => spec_take_name(b@) is None,
        },
{
    match take_blob(b) {
        Some((bytes, rest)) => match string_from_utf8(bytes) {
            Some(s) => Some((s, rest)),
            None => None,
        },
        None => None,
    }
}

fn take_blobs<'a>(b: &'a [u8], n: u64) -> (r: Option<(Vec<Vec<u8>>, &'a [u8])>)
    ensures
        match r {
            Some((blobs, rest)) => spec_take_blobs(b@, n as nat) == Some((blobs.deep_view(), rest@)),
            None => spec_take_blobs(b@, n as nat) is None,
        },
{
    let mut acc: Vec<Vec<u8>> = Vec::new();
    let mut cur: &[u8] = b;
    let mut i: u64 = 0;
    loop
        invariant
            i <= n,
            match spec_take_blobs(cur@, (n - i) as nat) {
                Some((tail, rest)) => spec_take_blobs(b@, n as nat) == Some(
                    (acc.deep_view() + tail, rest),
                ),
                None => spec_take_blobs(b@, n as nat) is None,
            },
        decreases n - i,
    {
        if i == n {
            proof {
                let tail = spec_take_blobs(cur@, 0)->Some_0.0;
                assert(acc.deep_view() + tail =~~= acc.deep_view());
            }
            return Some((acc, cur));
        }
        match take_blob(cur) {
            Some((blob, rest)) => {
                proof {
                    let k = (n - i) as nat;
                    assert(spec_take_blobs(cur@, k) == (
                        match spec_take_blobs(rest@, (k - 1) as nat) {
                            Some((blobs, rest2)) => Some((seq![blob@] + blobs, rest2)),
                            None => None::<(Seq<Seq<u8>>, Seq<u8>)>,
                        }
                    ));
                }
                let ghost old_acc = acc.deep_view();
                acc.push(blob);
                proof {
                    assert(acc.deep_view() =~~= old_acc + seq![blob@]);
                    if spec_take_blobs(rest@, (n - i - 1) as nat) is Some {
                        let (tail2, rest2) = spec_take_blobs(rest@, (n - i - 1) as nat)->Some_0;
                        assert(old_acc + (seq![blob@] + tail2) =~~= (old_acc + seq![blob@])
                            + tail2);
                    }
                }
                cur = rest;
                i = i + 1;
            },
            None => {
                return None;
            },
        }
    }
}

impl BincodeSerializer {
    pub fn new() -> (r: Self) {
        BincodeSerializer
    }

    /// Encodes a `u32` value, through bincode's own fixed-width layout.
    pub fn serialize_u32(&self, v: u32) -> (r: Vec<u8>)
        ensures
            r@ == spec_u32_to_le_bytes(v),
            r@.len() == 4,
    {
        proof {
            lemma_auto_spec_u32_to_from_le_bytes();
        }
        bincode_encode_u32(v)
    }

    /// Decodes a `u32` value, through bincode's own fixed-width layout:
    /// succeeds exactly on inputs of at least four bytes, reading the first
    /// four and permitting trailing bytes, as bincode does.
    pub fn deserialize_u32(&self, b: &[u8]) -> (r: Result<u32, Error>)
        ensures
            match r {
                Ok(v) => b@.len() >= 4 && v == spec_u32_from_le_bytes(b@.take(4)),
                Err(e) => b@.len() < 4 && e == Error::ParamDeserializeFail,
            },
    {
        match bincode_decode_u32(b) {
            Some(v) => Ok(v),
            None => Err(Error::ParamDeserializeFail),
        }
    }

    /// Round trip for `u32` values: decoding an encoded value yields it back.
    pub proof fn lemma_u32_round_trip(v: u32)
        ensures
            spec_u32_to_le_bytes(v).len() == 4,
            spec_u32_from_le_bytes(spec_u32_to_le_bytes(v).take(4)) == v,
    {
        lemma_auto_spec_u32_to_from_le_bytes();
        assert(spec_u32_to_le_bytes(v).take(4) =~= spec_u32_to_le_bytes(v));
    }

    fn encode_u32_into(&self, out: &mut Vec<u8>, v: u32)
        ensures
            final(out)@ == old(out)@ + spec_u32_to_le_bytes(v),
    {
        let mut b = self.serialize_u32(v);
        out.append(&mut b);
    }

    fn encode_u64_into(&self, out: &mut Vec<u8>, v: u64)
        ensures
            final(out)@ == old(out)@ + spec_u64_to_le_bytes(v),
    {
        let mut b = u64_to_le_bytes(v);
        out.append(&mut b);
    }

    fn encode_blob_into(&self, out: &mut Vec<u8>, blob: &[u8])
        ensures
            final(out)@ == old(out)@ + spec_encode_blob(blob@),
    {
        self.encode_u64_into(out, blob.len() as u64);
        out.extend_from_slice(blob);
        proof {
            assert(final(out)@ =~= old(out)@ + spec_encode_blob(blob@));
        }
    }

    fn encode_name_into(&self, out: &mut Vec<u8>, name: &String)
        ensures
            final(out)@ == old(out)@ + spec_encode_name(name@),
            encode_utf8(name@).len() <= u64::MAX,
    {
        let bytes: &[u8] = name.as_str().as_bytes();
        let n = bytes.len();
        proof {
            assert(encode_utf8(name@).len() == n);
        }
        self.encode_blob_into(out, bytes);
    }

    /// Encodes a request.  The result always decodes back to the request:
    /// the round trip is part of the contract.
    pub fn serialize_request(&self, request: &Request) -> (out: Vec<u8>)
        ensures
            out@ == spec_encode_request(request@),
            spec_decode_request(out@) == Some(request@),
    {
        let mut out: Vec<u8> = Vec::new();
        self.encode_u32_into(&mut out, request.id);
        self.encode_name_into(&mut out, &request.name);
        self.encode_u64_into(&mut out, request.params.len() as u64);
        let mut i: usize = 0;
        let ghost prefix = out@;
        while i < request.params.len()
            invariant
                i <= request.params.len(),
                out@ == prefix + spec_encode_blobs(request@.params.take(i as int)),
            decreases request.params.len() - i,
        {
            let ghost before = out@;
            self.encode_blob_into(&mut out, request.params[i].as_slice());
            proof {
                lemma_encode_blobs_snoc(request@.params, i as int);
            }
            i = i + 1;
        }
        proof {
            assert(request@.params.take(request.params.len() as int) =~= request@.params);
            assert(out@ =~= spec_encode_request(request@));
            assert forall|j: int| 0 <= j < request@.params.len() implies (
            #[trigger] request@.params[j]).len() <= u64::MAX by {
                let v = request.params@[j];
                assert(spec_vec_len(&v) == v@.len());
                assert(request@.params[j] =~= v@);
            }
            assert(spec_request_wf(request@));
            lemma_request_round_trip(request@);
        }
        out
    }

    /// Decodes a request: succeeds exactly on byte sequences that are the
    /// encoding of some request, and yields that request.
    pub fn deserialize_request(&self, bytes: &[u8]) -> (r: Result<Request, Error>)
        ensures
            match r {
                Ok(request) => spec_decode_request(bytes@) == Some(request@),
                Err(e) => spec_decode_request(bytes@) is None && e == Error::ParamDeserializeFail,
            },
    {
        match take_u32(bytes) {
            Some((id, r1)) => match take_name(r1) {
                Some((name, r2)) => match take_u64(r2) {
                    Some((count, r3)) => match take_blobs(r3, count) {
                        Some((params, r4)) => {
                            if r4.len() == 0 {
                                let request = Request { id, name, params };
                                proof {
                                    assert(r4@ =~= Seq::<u8>::empty());
                                    assert(spec_decode_request(bytes@) == Some(request@));
                                }
                                Ok(request)
                            } else {
                                Err(Error::ParamDeserializeFail)
                            }
                        },
                        None => Err(Error::ParamDeserializeFail),
                    },
                    None => Err(Error::ParamDeserializeFail),
                },
                None => Err(Error::ParamDeserializeFail),
            },
            None => Err(Error::ParamDeserializeFail),
        }
    }

    /// Encodes a response.  The result always decodes back to the response.
    pub fn serialize_response(&self, response: &Response) -> (out: Vec<u8>)
        ensures
            out@ == spec_encode_response(response@),
            spec_decode_response(out@) == Some(response@),
    {
        let mut out: Vec<u8> = Vec::new();
        self.encode_u32_into(&mut out, response.id);
        self.encode_name_into(&mut out, &response.name);
        match &response.result {
            Ok(blob) => {
                self.encode_u32_into(&mut out, 0);
                self.encode_blob_into(&mut out, blob.as_slice());
            },
            Err(e) => {
                self.encode_u32_into(&mut out, 1);
                match e {
                    Error::FunctionNotFound => self.encode_u32_into(&mut out, 0),
                    Error::ParamDeserializeFail => self.encode_u32_into(&mut out, 1),
                }
            },
        }
        proof {
            assert(out@ =~= spec_encode_response(response@));
            if response@.result matches Ok(blob) {
                let v = response.result->Ok_0;
                assert(spec_vec_len(&v) == v@.len());
            }
            assert(spec_response_wf(response@));
            lemma_response_round_trip(response@);
        }
        out
    }

    /// Decodes a response: succeeds exactly on byte sequences that are the
    /// encoding of some response, and yields that response.
    pub fn deserialize_response(&self, bytes: &[u8]) -> (r: Result<Response, Error>)
        ensures
            match r {
                Ok(response) => spec_decode_response(bytes@) == Some(response@),
                Err(e) => spec_decode_response(bytes@) is None && e == Error::ParamDeserializeFail,
            },
    {
        match take_u32(bytes) {
            Some((id, r1)) => match take_name(r1) {
                Some((name, r2)) => match take_u32(r2) {
                    Some((tag, r3)) => {
                        if tag == 0 {
                            match take_blob(r3) {
                                Some((blob, r4)) => {
                                    if r4.len() == 0 {
                                        let response = Response { id, name, result: Ok(blob) };
                                        proof {
                                            assert(r4@ =~= Seq::<u8>::empty());
                                            assert(spec_decode_response(bytes@) == Some(
                                                response@,
                                            ));
                                        }
                                        Ok(response)
                                    } else {
                                        Err(Error::ParamDeserializeFail)
                                    }
                                },
                                None => Err(Error::ParamDeserializeFail),
                            }
                        } else if tag == 1 {
                            match take_u32(r3) {
                                Some((etag, r4)) => {
                                    if r4.len() == 0 && etag <= 1 {
                                        let e = if etag == 0 {
                                            Error::FunctionNotFound
                                        } else {
                                            Error::ParamDeserializeFail
                                        };
                                        let response = Response { id, name, result: Err(e) };
                                        proof {
                                            assert(r4@ =~= Seq::<u8>::empty());
                                            assert(spec_decode_response(bytes@) == Some(
                                                response@,
                                            ));
                                        }
                                        Ok(response)
                                    } else {
                                        Err(Error::ParamDeserializeFail)
                                    }
                                },
                                None => Err(Error::ParamDeserializeFail),
                            }
                        } else {
                            Err(Error::ParamDeserializeFail)
                        }
                    },
                    None => Err(Error::ParamDeserializeFail),
                },
                None => Err(Error::ParamDeserializeFail),
            },
            None => Err(Error::ParamDeserializeFail),
        }
    }
}

proof fn lemma_encode_blobs_snoc(bs: Seq<Seq<u8>>, i: int)
    requires
        0 <= i < bs.len(),
    ensures
        spec_encode_blobs(bs.take(i + 1)) == spec_encode_blobs(bs.take(i)) + spec_encode_blob(
            bs[i],
        ),
    decreases i,
{
    if i == 0 {
        assert(bs.take(1).first() == bs[0]);
        assert(bs.take(1).drop_first() =~= Seq::<Seq<u8>>::empty());
        assert(bs.take(0) =~= Seq::<Seq<u8>>::empty());
        assert(spec_encode_blobs(bs.take(1)) =~= spec_encode_blobs(bs.take(0)) + spec_encode_blob(
            bs[0],
        ));
    } else {
        lemma_encode_blobs_snoc(bs.drop_first(), i - 1);
        assert(bs.take(i + 1).first() == bs[0]);
        assert(bs.take(i + 1).drop_first() =~= bs.drop_first().take(i));
        assert(bs.take(i).first() == bs[0]);
        assert(bs.take(i).drop_first() =~= bs.drop_first().take(i - 1));
        assert(bs.drop_first()[i - 1] == bs[i]);
        assert(spec_encode_blob(bs[0]) + (spec_encode_blobs(bs.drop_first().take(i - 1))
            + spec_encode_blob(bs[i])) =~= (spec_encode_blob(bs[0]) + spec_encode_blobs(
            bs.drop_first().take(i - 1),
        )) + spec_encode_blob(bs[i]));
    }
}

} // verus!
