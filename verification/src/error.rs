use vstd::prelude::*;

verus! {

/// The error kinds that travel inside a `Response` envelope.
///
/// `FunctionNotFound` reports a registry miss; `ParamDeserializeFail` reports
/// that an envelope or a parameter could not be decoded.  Transport failures
/// never reach an envelope: they abort the connection that saw them.
#[derive(Clone, Copy, Debug, PartialEq, Eq, Structural)]
pub enum Error {
    FunctionNotFound,
    ParamDeserializeFail,
}

} // verus!
