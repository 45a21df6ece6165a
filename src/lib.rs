//! Binary decoding and encoding driven by the shape of a type.
//!
//! Every decodable type states, as a spec function over its model (`DeepView`), what it
//! decodes from a byte sequence; every encodable type states the bytes it writes.
//!
//! - [`Parsable`] and [`Deparsable`] are the two operations. A decode step returns the value
//!   and the unconsumed suffix of the source, or the failure and the suffix at the place it
//!   was reported; a context value is handed down to nested decodes.
//! - `primitives` and `endian` hold the fixed-width integers. Bare integers are read and
//!   written least significant byte first on every host; [`LE`] and [`BE`] fix the order
//!   explicitly.
//! - `collections` holds tuples (up to eight elements), fixed arrays, `Option` (which swallows
//!   the inner failure and rewinds), `Box`, and `Vec` as a greedy sequence. A greedy sequence
//!   also stops at an item that decodes without consuming anything, which would otherwise
//!   repeat forever.
//! - `var` holds the length-prefixed byte runs (borrowed, copy-on-write and owned), the
//!   length-prefixed item sequence, the sequence that must consume its whole source, the
//!   sequence counted by its context, and [`Never`].
//! - `schema` describes records and tagged unions at run time (fields with shapes, context
//!   modes and checks; variants with optional discriminants) and decodes and encodes them.
//!   Where a discriminant is declared and the selected variant's fields fail, the next
//!   variant declaring the same discriminant is tried.
pub mod bytes;
pub mod collections;
pub mod endian;
pub mod error;
pub mod primitives;
pub mod schema;
pub mod var;

use vstd::prelude::*;

pub use crate::bytes::{try_split_array, try_split_at};
pub use crate::endian::{BE, LE};
pub use crate::error::Error;
pub use crate::var::{
    ConsumingVec, Counted, Length, Never, VarBytes, VarBytesCow, VarBytesOwned, VarStructs,
};

verus! {

/// The result of one decode step: the value and the unconsumed rest of the source, or the
/// failure and the source as it stood where the failure was reported.
pub type PResult<'a, O> = Result<(O, &'a [u8]), (Error, &'a [u8])>;

/// The model of a decode step: the value's model and how many bytes it consumed, or the
/// failure and how many bytes lie before the position at which it was reported.
pub type SpecResult<V> = Result<(V, nat), (Error, nat)>;

/// `r` is what decoding `src` gave, and `spec` is what the model says it gives.
pub open spec fn read_matches<'a, O: DeepView>(
    r: PResult<'a, O>,
    src: Seq<u8>,
    spec: SpecResult<O::V>,
) -> bool {
    match (r, spec) {
        (Ok((v, rest)), Ok((m, n))) => v.deep_view() == m && n <= src.len() && rest@ == src.skip(
            n as int,
        ),
        (Err((e, rest)), Err((f, n))) => e == f && n <= src.len() && rest@ == src.skip(n as int),
        _ => false,
    }
}

/// `r` is what encoding gave, `before` and `after` the sink around it, and `spec` the bytes
/// that the model says are written (`None`: the value cannot be encoded).
pub open spec fn write_matches(
    r: Result<(), Error>,
    before: Seq<u8>,
    after: Seq<u8>,
    spec: Option<Seq<u8>>,
) -> bool {
    match spec {
        Some(b) => r is Ok && after == before + b,
        None => r == Err::<(), Error>(Error::InvalidInput),
    }
}

/// Skipping `a` elements and then `b` more is skipping `a + b`.
pub proof fn lemma_skip_skip(s: Seq<u8>, a: int, b: int)
    requires
        0 <= a,
        0 <= b,
        a + b <= s.len(),
    ensures
        s.skip(a).skip(b) == s.skip(a + b),
{
    assert(s.skip(a).skip(b) =~= s.skip(a + b));
}

/// A type that can be decoded from a byte source, given a context value.
pub trait Parsable<'a, Ctx>: Sized + DeepView {
    /// What decoding `src` with `context` gives, over the model of the type.
    spec fn spec_read(src: Seq<u8>, context: Ctx) -> SpecResult<Self::V>;

    /// Decodes a value from the front of `source`.
    fn read(source: &'a [u8], context: Ctx) -> (r: PResult<'a, Self>)
        ensures
            read_matches(r, source@, Self::spec_read(source@, context)),
    ;
}

/// A type whose values can be encoded as bytes.
pub trait Deparsable: DeepView {
    /// The bytes that encode `v`, or `None` where no encoding exists.
    spec fn spec_write(v: Self::V) -> Option<Seq<u8>>;

    /// Appends the encoding of `self` to `out`.
    fn write(&self, out: &mut Vec<u8>) -> (r: Result<(), Error>)
        ensures
            write_matches(r, old(out)@, final(out)@, Self::spec_write(self.deep_view())),
    ;
}

/// A type whose encoding decodes back to the same value, whatever bytes follow it.
pub trait RoundTrip<'a, Ctx>: Parsable<'a, Ctx> + Deparsable {
    /// Whether `v` has an encoding that decodes back to `v` with context `context`.
    spec fn round_trips(v: Self::V, context: Ctx) -> bool;

    /// Encoding a value that round-trips and decoding the bytes, followed by anything, gives
    /// the value back and consumes exactly its encoding.
    proof fn lemma_round_trip(v: Self::V, context: Ctx, rest: Seq<u8>)
        requires
            Self::round_trips(v, context),
        ensures
            Self::spec_write(v) matches Some(b) && Self::spec_read(b + rest, context) == Ok::<
                (Self::V, nat),
                (Error, nat),
            >((v, b.len())),
    ;
}

} // verus!
