use vstd::prelude::*;
use vstd::slice::slice_to_vec;

use crate::error::Error;

verus! {

/// The reserved sentinel id.  It is never assigned to a real call; it marks
/// the client's shutdown command and responses that describe an inbound
/// request that could not be decoded.
pub const SENTINEL_ID: u32 = 0xFFFF_FFFF;

/// One remote call as it crosses the wire: a client-assigned id, the name of
/// the function to invoke, and one pre-encoded byte blob per argument.
#[derive(Debug, PartialEq, Eq)]
pub struct Request {
    pub id: u32,
    pub name: String,
    pub params: Vec<Vec<u8>>,
}

/// The mathematical shape of a `Request`.
#[verifier::ext_equal]
pub ghost struct RequestView {
    pub id: u32,
    pub name: Seq<char>,
    pub params: Seq<Seq<u8>>,
}

impl View for Request {
    type V = RequestView;

    open spec fn view(&self) -> RequestView {
        RequestView { id: self.id, name: self.name@, params: self.params.deep_view() }
    }
}

impl Clone for Request {
    fn clone(&self) -> (r: Self)
        ensures
            r@ == self@,
    {
        let mut params: Vec<Vec<u8>> = Vec::new();
        let mut i: usize = 0;
        while i < self.params.len()
            invariant
                i <= self.params.len(),
                params.len() == i,
                forall|j: int| 0 <= j < i ==> params@[j]@ == self.params@[j]@,
            decreases self.params.len() - i,
        {
            params.push(slice_to_vec(self.params[i].as_slice()));
            i += 1;
        }
        proof {
            assert(params.deep_view() =~= self.params.deep_view());
        }
        Request { id: self.id, name: self.name.clone(), params }
    }
}

/// The answer to one `Request`: the echoed id and name, and either the
/// encoded return value or the error that prevented one.
#[derive(Debug, PartialEq, Eq)]
pub struct Response {
    pub id: u32,
    pub name: String,
    pub result: Result<Vec<u8>, Error>,
}

/// The mathematical shape of a `Response`.
#[verifier::ext_equal]
pub ghost struct ResponseView {
    pub id: u32,
    pub name: Seq<char>,
    pub result: Result<Seq<u8>, Error>,
}

impl View for Response {
    type V = ResponseView;

    open spec fn view(&self) -> ResponseView {
        ResponseView {
            id: self.id,
            name: self.name@,
            result: match self.result {
                Ok(blob) => Ok(blob@),
                Err(e) => Err(e),
            },
        }
    }
}

impl Clone for Response {
    fn clone(&self) -> (r: Self)
        ensures
            r@ == self@,
    {
        Response {
            id: self.id,
            name: self.name.clone(),
            result: match &self.result {
                Ok(blob) => Ok(slice_to_vec(blob.as_slice())),
                Err(e) => Err(*e),
            },
        }
    }
}

impl Response {
    /// The error answer to a decodable request: echoes its id and name.
    pub fn err(request: Request, error: Error) -> (r: Response)
        ensures
            r@.id == request@.id,
            r@.name == request@.name,
            r@.result == Err::<Seq<u8>, Error>(error),
    {
        Response { id: request.id, name: request.name, result: Err(error) }
    }

    /// The answer to an inbound payload that did not decode as a request:
    /// carries the sentinel id, since no real id is known.
    pub fn err_unknow_request(error: Error) -> (r: Response)
        ensures
            r@.id == SENTINEL_ID,
            r@.name == Seq::<char>::empty(),
            r@.result == Err::<Seq<u8>, Error>(error),
    {
        Response { id: SENTINEL_ID, name: String::new(), result: Err(error) }
    }

    /// The successful answer to a request: echoes its id and name and carries
    /// the encoded return value.
    pub fn from(request: Request, result: Vec<u8>) -> (r: Response)
        ensures
            r@.id == request@.id,
            r@.name == request@.name,
            r@.result == Ok::<Seq<u8>, Error>(result@),
    {
        Response { id: request.id, name: request.name, result: Ok(result) }
    }
}

} // verus!
