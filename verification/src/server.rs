use vstd::prelude::*;
use vstd::bytes::{spec_u32_from_le_bytes, spec_u32_to_le_bytes};

use crate::common::{ResponseView, SENTINEL_ID};
use crate::error::Error;
use crate::serialization::{spec_decode_request, BincodeSerializer};

verus! {

/// How an executable dispatch result relates to a specification-level one.
pub open spec fn result_matches(r: Result<Vec<u8>, Error>, s: Result<Seq<u8>, Error>) -> bool {
    match (r, s) {
        (Ok(blob), Ok(sblob)) => blob@ == sblob,
        (Err(e), Err(se)) => e == se,
        _ => false,
    }
}

/// A registered function body.
///
/// A handler receives the ordered raw parameter blobs and the active codec;
/// it decodes each parameter itself, computes, and re-encodes its return
/// value.  `response_spec` is the handler's own statement of that answer; a
/// verified implementation proves `call` against it, and the registry's
/// dispatch contract then carries it to every caller.  A decode or encode
/// failure inside the handler surfaces as `ParamDeserializeFail`.
pub trait Handler: Sized {
    /// The answer this handler gives to one ordered parameter list.  A
    /// verified handler overrides this with its actual answer and proves
    /// `call` against it; a handler outside the verifier's reach keeps the
    /// default, an unspecified value of which nothing can be concluded.
    open spec fn response_spec(&self, params: Seq<Seq<u8>>) -> Result<Seq<u8>, Error> {
        vstd::pervasive::arbitrary()
    }

    /// Executes the handler once on one ordered parameter list.
    fn call(&mut self, serializer: &BincodeSerializer, params: &Vec<Vec<u8>>) -> (r: Result<
        Vec<u8>,
        Error,
    >)
        ensures
            result_matches(r, old(self).response_spec(params.deep_view())),
    ;
}

/// First-match lookup through the registration entries.
pub open spec fn spec_lookup<H>(entries: Seq<(String, H)>, name: Seq<char>) -> Option<H>
    decreases entries.len(),
{
    if entries.len() == 0 {
        None
    } else if entries.first().0@ == name {
        Some(entries.first().1)
    } else {
        spec_lookup(entries.drop_first(), name)
    }
}

proof fn lemma_lookup_found<H>(entries: Seq<(String, H)>, name: Seq<char>, i: int)
    requires
        0 <= i < entries.len(),
        entries[i].0@ == name,
        forall|j: int| 0 <= j < i ==> (#[trigger] entries[j]).0@ != name,
    ensures
        spec_lookup(entries, name) == Some(entries[i].1),
    decreases i,
{
    if i > 0 {
        lemma_lookup_found(entries.drop_first(), name, i - 1);
    }
}

proof fn lemma_lookup_none<H>(entries: Seq<(String, H)>, name: Seq<char>)
    requires
        forall|j: int| 0 <= j < entries.len() ==> (#[trigger] entries[j]).0@ != name,
    ensures
        spec_lookup(entries, name) is None,
    decreases entries.len(),
{
    if entries.len() > 0 {
        lemma_lookup_none(entries.drop_first(), name);
    }
}

proof fn lemma_lookup_update_other<H>(entries: Seq<(String, H)>, i: int, e: (String, H), n: Seq<
    char,
>)
    requires
        0 <= i < entries.len(),
        entries[i].0@ == e.0@,
        n != e.0@,
    ensures
        spec_lookup(entries.update(i, e), n) == spec_lookup(entries, n),
    decreases i,
{
    if i == 0 {
        assert(entries.update(0, e).drop_first() =~= entries.drop_first());
    } else {
        assert(entries.update(i, e).drop_first() =~= entries.drop_first().update(i - 1, e));
        lemma_lookup_update_other(entries.drop_first(), i - 1, e, n);
    }
}

proof fn lemma_lookup_push_other<H>(entries: Seq<(String, H)>, e: (String, H), n: Seq<char>)
    requires
        n != e.0@,
    ensures
        spec_lookup(entries.push(e), n) == spec_lookup(entries, n),
    decreases entries.len(),
{
    reveal_with_fuel(spec_lookup, 2);
    if entries.len() == 0 {
        assert(entries.push(e).first() == e);
        assert(entries.push(e).drop_first() =~= Seq::<(String, H)>::empty());
    } else {
        assert(entries.push(e).first() == entries.first());
        assert(entries.push(e).drop_first() =~= entries.drop_first().push(e));
        lemma_lookup_push_other(entries.drop_first(), e, n);
    }
}

/// The function registry: the name-to-handler table that a server's
/// connections share, together with the codec handed to each handler.
///
/// Lookup and mutation happen within one `&mut` borrow per operation, so a
/// shared registry is serialized by whatever lock or message queue carries
/// that borrow; handler execution itself blocks only its own caller.
pub struct Processes<H> {
    function_map: Vec<(String, H)>,
    serializer: BincodeSerializer,
}

impl<H: Handler> Processes<H> {
    /// The handler registered under a name, if any.
    pub closed spec fn handler_for(&self, name: Seq<char>) -> Option<H> {
        spec_lookup(self.function_map@, name)
    }

    pub fn new(serializer: BincodeSerializer) -> (r: Self)
        ensures
            forall|n: Seq<char>| #[trigger] r.handler_for(n) is None,
    {
        let r = Processes { function_map: Vec::new(), serializer };
        proof {
            assert forall|n: Seq<char>| #[trigger] r.handler_for(n) is None by {
                assert(r.function_map@.len() == 0);
            }
        }
        r
    }

    /// Registers a handler under a name, unconditionally replacing any prior
    /// handler under that name.
    pub fn insert_function(&mut self, name: String, function: H)
        ensures
            final(self).handler_for(name@) == Some(function),
            forall|n: Seq<char>|
                n != name@ ==> #[trigger] final(self).handler_for(n) == old(self).handler_for(n),
    {
        let ghost entries = self.function_map@;
        let mut i: usize = 0;
        while i < self.function_map.len()
            invariant
                i <= entries.len(),
                *self == *old(self),
                entries == self.function_map@,
                forall|j: int| 0 <= j < i ==> (#[trigger] entries[j]).0@ != name@,
            decreases entries.len() - i,
        {
            if self.function_map[i].0 == name {
                let _ = self.function_map.remove(i);
                self.function_map.insert(i, (name, function));
                proof {
                    let e = (name, function);
                    assert(self.function_map@ =~= entries.update(i as int, e));
                    lemma_lookup_found(self.function_map@, name@, i as int);
                    assert forall|n: Seq<char>| n != name@ implies #[trigger] final(self).handler_for(n) == old(self).handler_for(n) by {
                        lemma_lookup_update_other(entries, i as int, e, n);
                    }
                }
                return ;
            }
            i = i + 1;
        }
        self.function_map.push((name, function));
        proof {
            let e = (name, function);
            lemma_lookup_found(self.function_map@, name@, entries.len() as int);
            assert forall|n: Seq<char>| n != name@ implies #[trigger] final(self).handler_for(n)
                == old(self).handler_for(n) by {
                lemma_lookup_push_other(entries, e, n);
            }
        }
    }

    /// Dispatches one call: `FunctionNotFound` exactly when no handler is
    /// registered under the name; otherwise the registered handler runs once
    /// and its own answer is returned.  Registered names survive a dispatch.
    pub fn execute_function(&mut self, name: &str, params: &Vec<Vec<u8>>) -> (r: Result<
        Vec<u8>,
        Error,
    >)
        ensures
            old(self).handler_for(name@) is None ==> r == Err::<Vec<u8>, Error>(
                Error::FunctionNotFound,
            ) && *final(self) == *old(self),
            old(self).handler_for(name@) matches Some(h) ==> result_matches(
                r,
                h.response_spec(params.deep_view()),
            ) && final(self).handler_for(name@) is Some,
            forall|n: Seq<char>|
                n != name@ ==> #[trigger] final(self).handler_for(n) == old(self).handler_for(n),
    {
        let key: String = name.to_owned();
        let ghost entries = self.function_map@;
        let mut i: usize = 0;
        while i < self.function_map.len()
            invariant
                i <= entries.len(),
                *self == *old(self),
                entries == self.function_map@,
                key@ == name@,
                forall|j: int| 0 <= j < i ==> (#[trigger] entries[j]).0@ != name@,
            decreases entries.len() - i,
        {
            if self.function_map[i].0 == key {
                proof {
                    lemma_lookup_found(entries, name@, i as int);
                }
                let mut entry = self.function_map.remove(i);
                let r = entry.1.call(&self.serializer, params);
                self.function_map.insert(i, entry);
                proof {
                    let e = self.function_map@[i as int];
                    assert(self.function_map@ =~= entries.update(i as int, e));
                    lemma_lookup_found(self.function_map@, name@, i as int);
                    assert forall|n: Seq<char>| n != name@ implies #[trigger] final(self).handler_for(n) == old(self).handler_for(n) by {
                        lemma_lookup_update_other(entries, i as int, e, n);
                    }
                }
                return r;
            }
            i = i + 1;
        }
        proof {
            lemma_lookup_none(entries, name@);
        }
        Err(Error::FunctionNotFound)
    }

    /// The codec handed to every handler.
    pub fn get_serializer(&self) -> &BincodeSerializer {
        &self.serializer
    }
}

/// The dispatch law: a decodable request is answered under its own id and
/// name, around the registered handler's own answer — the handler that a
/// registration placed under that name — or `FunctionNotFound` when no
/// registration placed one there.  `ParamDeserializeFail` under the
/// sentinel id is reserved for payloads that decode as no request at all.
pub proof fn lemma_dispatch_answer<H: Handler>(p: Processes<H>, package: Seq<u8>)
    requires
        spec_decode_request(package) is Some,
    ensures
        ({
            let req = spec_decode_request(package)->Some_0;
            let served = spec_served_response(p, package);
            &&& served.id == req.id
            &&& served.name == req.name
            &&& (p.handler_for(req.name) matches Some(h) ==> served.result == h.response_spec(
                req.params,
            ))
            &&& (p.handler_for(req.name) is None ==> served.result == Err::<Seq<u8>, Error>(
                Error::FunctionNotFound,
            ))
        }),
{
}

/// The one answer a registry owes to one inbound frame payload.
///
/// A payload that does not decode as a request earns the synthetic
/// `ParamDeserializeFail` response under the sentinel id, and never aborts
/// the connection; a decodable request earns its id and name back, around
/// either the registered handler's own answer or `FunctionNotFound`.
pub open spec fn spec_served_response<H: Handler>(p: Processes<H>, package: Seq<u8>) -> ResponseView {
    match spec_decode_request(package) {
        None => (ResponseView {
            id: SENTINEL_ID,
            name: Seq::empty(),
            result: Err(Error::ParamDeserializeFail),
        }),
        Some(req) => (ResponseView {
            id: req.id,
            name: req.name,
            result: match p.handler_for(req.name) {
                None => Err(Error::FunctionNotFound),
                Some(h) => h.response_spec(req.params),
            },
        }),
    }
}

/// The summing handler of the examples: decodes two `u32` parameters and
/// answers with the encoding of their wrapping sum; any parameter list it
/// cannot decode is answered with `ParamDeserializeFail` instead.
pub struct AddHandler;

impl Handler for AddHandler {
    open spec fn response_spec(&self, params: Seq<Seq<u8>>) -> Result<Seq<u8>, Error> {
        if params.len() == 2 && params[0].len() >= 4 && params[1].len() >= 4 {
            Ok(
                spec_u32_to_le_bytes(
                    spec_u32_from_le_bytes(params[0].take(4)).wrapping_add(
                        spec_u32_from_le_bytes(params[1].take(4)),
                    ),
                ),
            )
        } else {
            Err(Error::ParamDeserializeFail)
        }
    }

    fn call(&mut self, serializer: &BincodeSerializer, params: &Vec<Vec<u8>>) -> (r: Result<
        Vec<u8>,
        Error,
    >)
        ensures
            result_matches(r, old(self).response_spec(params.deep_view())),
    {
        proof {
            assert(params.deep_view().len() == params@.len());
            if params@.len() == 2 {
                assert(params.deep_view()[0] =~= params@[0]@);
                assert(params.deep_view()[1] =~= params@[1]@);
            }
        }
        if params.len() == 2 {
            match serializer.deserialize_u32(params[0].as_slice()) {
                Ok(a) => match serializer.deserialize_u32(params[1].as_slice()) {
                    Ok(b) => Ok(serializer.serialize_u32(a.wrapping_add(b))),
                    Err(e) => Err(e),
                },
                Err(e) => Err(e),
            }
        } else {
            Err(Error::ParamDeserializeFail)
        }
    }
}

} // verus!
