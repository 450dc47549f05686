//! What is known of the messages that scenarios exchange.
//!
//! Messages are known by the fully qualified name (FQN) of their type. A
//! type is either a regular message or a request, which is answered by a
//! response. Non-serializable messages are predefined and injected by key;
//! their serialized form is what the registry holds.
use core::marker::PhantomData;
use vstd::prelude::*;
use vstd::string::*;

use crate::json::{str_eq, Json, JsonValue};

verus! {

/// A regular message of type `M`, known by the FQN of `M`.
pub struct Regular<M> {
    fqn: String,
    message: PhantomData<M>,
}

/// A request of type `Rq`, known by the FQN of `Rq`.
pub struct Request<Rq> {
    fqn: String,
    request: PhantomData<Rq>,
}

/// The response to a request of type `Rq`.
pub struct Response<Rq>(PhantomData<Rq>);

impl<M> Regular<M> {
    pub closed spec fn fqn(&self) -> Seq<char> {
        self.fqn@
    }

    /// The message type `M`, whose FQN is `fqn`.
    pub fn with_fqn(fqn: &str) -> (r: Self)
        ensures
            r.fqn() == fqn@,
    {
        Regular { fqn: String::from_str(fqn), message: PhantomData }
    }
}

impl<Rq> Request<Rq> {
    pub closed spec fn fqn(&self) -> Seq<char> {
        self.fqn@
    }

    /// The request type `Rq`, whose FQN is `fqn`.
    pub fn with_fqn(fqn: &str) -> (r: Self)
        ensures
            r.fqn() == fqn@,
    {
        Request { fqn: String::from_str(fqn), request: PhantomData }
    }
}

impl<Rq> Response<Rq> {
    pub fn new() -> Self {
        Response(PhantomData)
    }
}

/// A predefined message, injected by `key`; `value` is its serialized form.
#[derive(Debug)]
pub struct Injected {
    pub key: String,
    pub value: JsonValue,
}

/// A message type that is known by name only, for scenarios that are built
/// but not run.
#[derive(Debug)]
pub struct Mock {
    fqn: String,
    is_request: bool,
}

impl Mock {
    pub closed spec fn fqn(&self) -> Seq<char> {
        self.fqn@
    }

    pub closed spec fn is_request(&self) -> bool {
        self.is_request
    }

    pub fn new(fqn: &str, is_request: bool) -> (r: Self)
        ensures
            r.fqn() == fqn@,
            r.is_request() == is_request,
    {
        Mock { fqn: String::from_str(fqn), is_request }
    }

    pub fn regular(fqn: &str) -> (r: Self)
        ensures
            r.fqn() == fqn@,
            !r.is_request(),
    {
        Self::new(fqn, false)
    }

    pub fn request(fqn: &str) -> (r: Self)
        ensures
            r.fqn() == fqn@,
            r.is_request(),
    {
        Self::new(fqn, true)
    }
}

/// The kind of a known message type.
#[derive(Debug, Clone, Copy, PartialEq, Eq, Structural)]
pub enum MarshallerKind {
    /// Sent as is.
    Regular,
    /// Sent as a request, and answered by a response.
    Request,
}

/// The known message types, by FQN, and the predefined messages, by key.
#[derive(Debug)]
pub struct MarshallingRegistry {
    values: Vec<(String, JsonValue)>,
    marshallers: Vec<(String, MarshallerKind)>,
}

/// The last entry of `entries` with the key `key`.
pub open spec fn last_kind(entries: Seq<(String, MarshallerKind)>, key: Seq<char>) -> Option<MarshallerKind>
    decreases entries.len(),
{
    if entries.len() == 0 {
        None
    } else if entries.last().0@ == key {
        Some(entries.last().1)
    } else {
        last_kind(entries.drop_last(), key)
    }
}

/// The last entry of `entries` with the key `key`.
pub open spec fn last_value(entries: Seq<(String, JsonValue)>, key: Seq<char>) -> Option<Json>
    decreases entries.len(),
{
    if entries.len() == 0 {
        None
    } else if entries.last().0@ == key {
        Some(entries.last().1@)
    } else {
        last_value(entries.drop_last(), key)
    }
}

/// Registers itself to a [MarshallingRegistry].
pub trait RegisterMarshaller: Sized {
    /// Whether `self` can be added to `marshalling`.
    spec fn fits(&self, marshalling: &MarshallingRegistry) -> bool;

    /// Whether `after` is `before` with `self` added.
    spec fn adds(&self, before: MarshallingRegistry, after: MarshallingRegistry) -> bool;

    /// Adds `self` to `marshalling`.
    fn register(self, marshalling: &mut MarshallingRegistry)
        requires
            self.fits(old(marshalling)),
        ensures
            self.adds(*old(marshalling), *final(marshalling)),
    ;
}

impl MarshallingRegistry {
    /// The kind of the message type with the FQN `fqn`, if it is known.
    pub closed spec fn kind_of(&self, fqn: Seq<char>) -> Option<MarshallerKind> {
        last_kind(self.marshallers@, fqn)
    }

    /// The serialized form of the predefined message under `key`, if any.
    pub closed spec fn value_of(&self, key: Seq<char>) -> Option<Json> {
        last_value(self.values@, key)
    }

    /// An empty registry.
    pub fn new() -> (r: Self)
        ensures
            forall|f: Seq<char>| r.kind_of(f) is None,
            forall|k: Seq<char>| r.value_of(k) is None,
    {
        MarshallingRegistry { values: Vec::new(), marshallers: Vec::new() }
    }

    /// Adds `marshaller` to the registry.
    pub fn with<R: RegisterMarshaller>(self, marshaller: R) -> (r: Self)
        requires
            marshaller.fits(&self),
        ensures
            marshaller.adds(self, r),
    {
        let mut s = self;
        marshaller.register(&mut s);
        s
    }

    /// Makes the message type `fqn` known as `kind`, in place of what was
    /// known under that name.
    pub fn insert_marshaller(&mut self, fqn: String, kind: MarshallerKind)
        ensures
            forall|f: Seq<char>|
                final(self).kind_of(f) == if f == fqn@ {
                    Some(kind)
                } else {
                    old(self).kind_of(f)
                },
            forall|k: Seq<char>| final(self).value_of(k) == old(self).value_of(k),
    {
        let ghost before = self.marshallers@;
        let ghost f = fqn@;
        self.marshallers.push((fqn, kind));
        assert(self.marshallers@.drop_last() =~= before);
    }

    /// Stores the predefined message `value` under `key`, in place of what
    /// was stored under that key.
    pub fn insert_value(&mut self, key: String, value: JsonValue)
        ensures
            forall|k: Seq<char>|
                final(self).value_of(k) == if k == key@ {
                    Some(value@)
                } else {
                    old(self).value_of(k)
                },
            forall|f: Seq<char>| final(self).kind_of(f) == old(self).kind_of(f),
    {
        let ghost before = self.values@;
        self.values.push((key, value));
        assert(self.values@.drop_last() =~= before);
    }

    /// The kind of the message type with the FQN `fqn`, if it is known.
    pub fn resolve(&self, fqn: &str) -> (r: Option<MarshallerKind>)
        ensures
            r == self.kind_of(fqn@),
    {
        let mut i = self.marshallers.len();
        assert(self.marshallers@.take(i as int) =~= self.marshallers@);
        while i > 0
            invariant
                i <= self.marshallers@.len(),
                last_kind(self.marshallers@, fqn@) == last_kind(
                    self.marshallers@.take(i as int),
                    fqn@,
                ),
            decreases i,
        {
            i = i - 1;
            assert(self.marshallers@.take(i + 1).drop_last() =~= self.marshallers@.take(i as int));
            if str_eq(self.marshallers[i].0.as_str(), fqn) {
                return Some(self.marshallers[i].1);
            }
        }
        None
    }

    /// The serialized form of the predefined message under `key`, if any.
    pub fn value(&self, key: &str) -> (r: Option<&JsonValue>)
        ensures
            match r {
                Some(v) => self.value_of(key@) == Some(v@),
                None => self.value_of(key@) is None,
            },
    {
        let mut i = self.values.len();
        assert(self.values@.take(i as int) =~= self.values@);
        while i > 0
            invariant
                i <= self.values@.len(),
                last_value(self.values@, key@) == last_value(self.values@.take(i as int), key@),
            decreases i,
        {
            i = i - 1;
            assert(self.values@.take(i + 1).drop_last() =~= self.values@.take(i as int));
            if str_eq(self.values[i].0.as_str(), key) {
                return Some(&self.values[i].1);
            }
        }
        None
    }
}

impl RegisterMarshaller for Mock {
    /// A mock's FQN must not be known yet.
    open spec fn fits(&self, marshalling: &MarshallingRegistry) -> bool {
        marshalling.kind_of(self.fqn()) is None
    }

    /// The FQN of the mock becomes known, as a request or a regular
    /// message.
    open spec fn adds(&self, before: MarshallingRegistry, after: MarshallingRegistry) -> bool {
        &&& forall|f: Seq<char>|
            after.kind_of(f) == if f == self.fqn() {
                Some(
                    if self.is_request() {
                        MarshallerKind::Request
                    } else {
                        MarshallerKind::Regular
                    },
                )
            } else {
                before.kind_of(f)
            }
        &&& forall|k: Seq<char>| after.value_of(k) == before.value_of(k)
    }

    fn register(self, marshalling: &mut MarshallingRegistry) {
        let kind = if self.is_request {
            MarshallerKind::Request
        } else {
            MarshallerKind::Regular
        };
        marshalling.insert_marshaller(self.fqn, kind);
    }
}

impl RegisterMarshaller for Injected {
    open spec fn fits(&self, marshalling: &MarshallingRegistry) -> bool {
        true
    }

    /// The value is stored under the key.
    open spec fn adds(&self, before: MarshallingRegistry, after: MarshallingRegistry) -> bool {
        &&& forall|k: Seq<char>|
            after.value_of(k) == if k == self.key@ {
                Some(self.value@)
            } else {
                before.value_of(k)
            }
        &&& forall|f: Seq<char>| after.kind_of(f) == before.kind_of(f)
    }

    fn register(self, marshalling: &mut MarshallingRegistry) {
        marshalling.insert_value(self.key, self.value);
    }
}

impl<M> RegisterMarshaller for Regular<M> {
    open spec fn fits(&self, marshalling: &MarshallingRegistry) -> bool {
        true
    }

    /// `M` becomes known as a regular message, under its FQN.
    open spec fn adds(&self, before: MarshallingRegistry, after: MarshallingRegistry) -> bool {
        &&& forall|f: Seq<char>|
            after.kind_of(f) == if f == self.fqn() {
                Some(MarshallerKind::Regular)
            } else {
                before.kind_of(f)
            }
        &&& forall|k: Seq<char>| after.value_of(k) == before.value_of(k)
    }

    fn register(self, marshalling: &mut MarshallingRegistry) {
        marshalling.insert_marshaller(self.fqn, MarshallerKind::Regular);
    }
}

impl<Rq> RegisterMarshaller for Request<Rq> {
    open spec fn fits(&self, marshalling: &MarshallingRegistry) -> bool {
        true
    }

    /// `Rq` becomes known as a request, under its FQN.
    open spec fn adds(&self, before: MarshallingRegistry, after: MarshallingRegistry) -> bool {
        &&& forall|f: Seq<char>|
            after.kind_of(f) == if f == self.fqn() {
                Some(MarshallerKind::Request)
            } else {
                before.kind_of(f)
            }
        &&& forall|k: Seq<char>| after.value_of(k) == before.value_of(k)
    }

    fn register(self, marshalling: &mut MarshallingRegistry) {
        marshalling.insert_marshaller(self.fqn, MarshallerKind::Request);
    }
}

} // verus!
