//! The payload of a node: bytes, opaque to the engine.

use vstd::prelude::*;

verus! {

/// An encoded payload. The engine stores and returns the bytes and never
/// looks inside them.
#[derive(Debug)]
pub struct Value(Vec<u8>);

impl View for Value {
    type V = Seq<u8>;

    closed spec fn view(&self) -> Seq<u8> {
        self.0@
    }
}

impl Value {
    /// A payload made of the given bytes.
    pub fn from_bytes(bytes: Vec<u8>) -> (res: Value)
        ensures
            res@ == bytes@,
    {
        Value(bytes)
    }

    /// The bytes of the payload.
    pub fn as_bytes(&self) -> (res: &Vec<u8>)
        ensures
            res@ == self@,
    {
        &self.0
    }

    /// Encodes a typed value.
    ///
    /// Calls `rkyv::to_bytes` with `rancor::Error` and copies what it wrote
    /// with `AlignedVec::into_vec`; `None` where the encoder reports an
    /// error. What the bytes are is up to the encoder and to `T`'s own
    /// `Serialize` impl, so nothing is claimed of them.
    #[verifier::external_body]
    pub fn serialize<T>(value: &T) -> (res: Option<Value>) where
        T: for <'a>rkyv::Serialize<
            rkyv::api::high::HighSerializer<
                rkyv::util::AlignedVec,
                rkyv::ser::allocator::ArenaHandle<'a>,
                rancor::Error,
            >,
        >,
     {
        match rkyv::to_bytes::<rancor::Error>(value) {
            Ok(bytes) => Some(Value(bytes.into_vec())),
            Err(_) => None,
        }
    }

    /// Reads the payload as an archived `T`, in place.
    ///
    /// Calls `rkyv::access` with `rancor::Error`, which checks the bytes
    /// against `T` before it hands out a reference; `None` where the check
    /// fails. The check goes by `T`'s own `CheckBytes` impl and by where the
    /// bytes lie in memory, so nothing is claimed of the outcome.
    #[verifier::external_body]
    pub fn deserialize<T>(&self) -> (res: Option<&T>) where
        T: rkyv::Portable + for <'a>rkyv::bytecheck::CheckBytes<
            rkyv::api::high::HighValidator<'a, rancor::Error>,
        >,
     {
        rkyv::access::<T, rancor::Error>(&self.0).ok()
    }

    /// Whether the payload has no bytes.
    pub fn is_empty(&self) -> (res: bool)
        ensures
            res == (self@.len() == 0),
    {
        self.0.len() == 0
    }

    /// The number of bytes of the payload.
    pub fn len(&self) -> (res: usize)
        ensures
            res == self@.len(),
    {
        self.0.len()
    }
}

} // verus!
