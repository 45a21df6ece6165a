use vstd::prelude::*;

use crate::bytes::{lemma_pow256_positive, pow256, try_split_at};
use crate::collections::{
    lemma_count_round_trip, lemma_read_count_len, read_count, read_greedy, spec_greedy, spec_read_count, spec_write_all,
    write_all,
};
use crate::primitives::{
    lemma_prim_round_trip, read_prim, spec_read_prim, spec_write_prim, write_prim, Unsigned,
};
use crate::{read_matches, Deparsable, Error, PResult, Parsable, RoundTrip, SpecResult};

verus! {

/// A value that states how many bytes or items follow it.
pub trait Length: Sized + Copy + DeepView {
    /// The number of bytes or items that `v` announces.
    spec fn count_of(v: Self::V) -> nat;

    /// The largest count that a value can announce.
    spec fn max_count() -> nat;

    /// The value that announces `n`.
    spec fn model_of(n: nat) -> Self::V;

    /// What decoding a length from `src` gives.
    spec fn spec_read_length(src: Seq<u8>) -> SpecResult<Self::V>;

    /// The bytes that encode the length `v`.
    spec fn spec_write_length(v: Self::V) -> Seq<u8>;

    /// Every value announces a count that fits, and is the value that announces it.
    proof fn lemma_length(v: Self::V)
        ensures
            Self::count_of(v) <= Self::max_count(),
            Self::model_of(Self::count_of(v)) == v,
    ;

    /// The value that announces `n` announces `n`, and decodes back from its bytes.
    proof fn lemma_length_round_trip(n: nat, rest: Seq<u8>)
        requires
            n <= Self::max_count(),
        ensures
            Self::count_of(Self::model_of(n)) == n,
            Self::spec_read_length(Self::spec_write_length(Self::model_of(n)) + rest) == Ok::<
                (Self::V, nat),
                (Error, nat),
            >((Self::model_of(n), Self::spec_write_length(Self::model_of(n)).len())),
    ;

    /// Decodes a length from the front of `source`.
    fn read_length<'a>(source: &'a [u8]) -> (r: PResult<'a, Self>)
        ensures
            read_matches(r, source@, Self::spec_read_length(source@)),
    ;

    /// Appends the encoding of the length.
    fn write_length(&self, out: &mut Vec<u8>)
        ensures
            final(out)@ == old(out)@ + Self::spec_write_length(self.deep_view()),
    ;

    /// The count that the value announces.
    fn count(&self) -> (n: u64)
        ensures
            n == Self::count_of(self.deep_view()),
    ;

    /// The value that announces `n`, or `None` where `n` is too large.
    fn from_count(n: u64) -> (r: Option<Self>)
        ensures
            r is Some <==> n <= Self::max_count(),
            r matches Some(l) ==> l.deep_view() == Self::model_of(n as nat),
    ;
}

/// An unsigned primitive counts as its own value, written least significant byte first.
impl<T: Unsigned> Length for T {
    open spec fn count_of(v: T::V) -> nat {
        T::bits(v)
    }

    open spec fn max_count() -> nat {
        (pow256(T::width()) - 1) as nat
    }

    open spec fn model_of(n: nat) -> T::V {
        T::from_bits(n)
    }

    open spec fn spec_read_length(src: Seq<u8>) -> SpecResult<T::V> {
        spec_read_prim::<T>(src, false)
    }

    open spec fn spec_write_length(v: T::V) -> Seq<u8> {
        spec_write_prim::<T>(v, false)
    }

    proof fn lemma_length(v: T::V) {
        T::lemma_model(v);
    }

    proof fn lemma_length_round_trip(n: nat, rest: Seq<u8>) {
        lemma_pow256_positive(T::width());
        T::lemma_from_bits(n);
        lemma_prim_round_trip::<T>(T::from_bits(n), false, rest);
    }

    fn read_length<'a>(source: &'a [u8]) -> (r: PResult<'a, T>) {
        read_prim::<T>(source, false)
    }

    fn write_length(&self, out: &mut Vec<u8>) {
        proof {
            T::lemma_model(*self);
        }
        write_prim::<T>(*self, false, out);
    }

    fn count(&self) -> (n: u64) {
        proof {
            T::lemma_model(*self);
        }
        self.to_u64()
    }

    fn from_count(n: u64) -> (r: Option<T>) {
        if n <= T::max_u64() {
            let l = T::from_u64(n);
            proof {
                T::lemma_model(l);
            }
            Some(l)
        } else {
            None
        }
    }
}

/// What decoding a length prefix and then that many bytes gives.
pub open spec fn spec_read_var_bytes<L: Length>(src: Seq<u8>) -> SpecResult<Seq<u8>> {
    match L::spec_read_length(src) {
        Err(e) => Err(e),
        Ok((l, k)) => {
            let n = L::count_of(l);
            if k + n <= src.len() {
                Ok((src.subrange(k as int, (k + n) as int), k + n))
            } else {
                Err((Error::NotEnoughBytes, k))
            }
        },
    }
}

/// The bytes that encode `payload` behind its length, or `None` where the length type
/// cannot count that many.
pub open spec fn spec_write_var_bytes<L: Length>(payload: Seq<u8>) -> Option<Seq<u8>> {
    if payload.len() <= L::max_count() {
        Some(L::spec_write_length(L::model_of(payload.len())) + payload)
    } else {
        None
    }
}

/// A run of bytes behind a length prefix, borrowed from the source.
#[derive(Debug)]
pub struct VarBytes<'a, L: Length> {
    length: L,
    slice: &'a [u8],
}

impl<'a, L: Length> VarBytes<'a, L> {
    #[verifier::type_invariant]
    spec fn length_matches(self) -> bool {
        &&& self.slice@.len() <= L::max_count()
        &&& self.length.deep_view() == L::model_of(self.slice@.len())
    }

    /// Wraps `slice`, deriving its length; `None` where the length type cannot count it.
    pub fn new(slice: &'a [u8]) -> (r: Option<Self>)
        ensures
            r is Some <==> slice@.len() <= L::max_count(),
            r matches Some(v) ==> v.deep_view() == slice@,
    {
        if slice.len() as u64 <= u64::MAX {
            match L::from_count(slice.len() as u64) {
                Some(length) => Some(VarBytes { length, slice }),
                None => None,
            }
        } else {
            None
        }
    }

    /// The bytes.
    pub fn as_ref(&self) -> (r: &'a [u8])
        ensures
            r@ == self.deep_view(),
    {
        self.slice
    }

    /// The length value that stands before the bytes.
    pub fn length(&self) -> (r: L)
        ensures
            r.deep_view() == L::model_of(self.deep_view().len()),
    {
        proof {
            use_type_invariant(self);
        }
        self.length
    }
}

impl<'a, L: Length> DeepView for VarBytes<'a, L> {
    type V = Seq<u8>;

    closed spec fn deep_view(&self) -> Seq<u8> {
        self.slice@
    }
}

impl<'a, Ctx, L: Length> Parsable<'a, Ctx> for VarBytes<'a, L> {
    open spec fn spec_read(src: Seq<u8>, context: Ctx) -> SpecResult<Seq<u8>> {
        spec_read_var_bytes::<L>(src)
    }

    fn read(source: &'a [u8], context: Ctx) -> (r: PResult<'a, VarBytes<'a, L>>) {
        let (length, rest) = match L::read_length(source) {
            Ok(x) => x,
            Err(e) => {
                return Err(e);
            },
        };
        let n = length.count();
        proof {
            L::lemma_length(length.deep_view());
        }
        if n > rest.len() as u64 {
            return Err((Error::NotEnoughBytes, rest));
        }
        match try_split_at(rest, n as usize) {
            Some((slice, tail)) => {
                proof {
                    assert(slice@ =~= source@.subrange(
                        (source@.len() - rest@.len()) as int,
                        (source@.len() - rest@.len() + n) as int,
                    ));
                    assert(tail@ =~= source@.skip((source@.len() - tail@.len()) as int));
                }
                Ok((VarBytes { length, slice }, tail))
            },
            None => Err((Error::NotEnoughBytes, rest)),
        }
    }
}

impl<'a, L: Length> Deparsable for VarBytes<'a, L> {
    open spec fn spec_write(v: Seq<u8>) -> Option<Seq<u8>> {
        spec_write_var_bytes::<L>(v)
    }

    fn write(&self, out: &mut Vec<u8>) -> (r: Result<(), Error>) {
        proof {
            use_type_invariant(self);
        }
        let ghost start = out@;
        self.length.write_length(out);
        crate::bytes::push_all(out, self.slice);
        assert(out@ =~= start + Self::spec_write(self.deep_view())->Some_0);
        Ok(())
    }
}

/// A run of bytes behind a length prefix, borrowed from the source until the owner asks for
/// its own copy.
#[derive(Debug)]
pub struct VarBytesCow<'a, L: Length> {
    length: L,
    bytes: std::borrow::Cow<'a, [u8]>,
}

impl<'a, L: Length> VarBytesCow<'a, L> {
    #[verifier::type_invariant]
    spec fn length_matches(self) -> bool {
        &&& self.bytes@.len() <= L::max_count()
        &&& self.length.deep_view() == L::model_of(self.bytes@.len())
    }

    /// Wraps `bytes`, deriving its length; `None` where the length type cannot count it.
    pub fn new(bytes: std::borrow::Cow<'a, [u8]>) -> (r: Option<Self>)
        ensures
            r is Some <==> bytes@.len() <= L::max_count(),
            r matches Some(v) ==> v.deep_view() == bytes@,
    {
        let n = match &bytes {
            std::borrow::Cow::Borrowed(b) => b.len(),
            std::borrow::Cow::Owned(v) => v.len(),
        };
        if n as u64 <= u64::MAX {
            match L::from_count(n as u64) {
                Some(length) => Some(VarBytesCow { length, bytes }),
                None => None,
            }
        } else {
            None
        }
    }

    /// The bytes.
    pub fn as_ref(&self) -> (r: &[u8])
        ensures
            r@ == self.deep_view(),
    {
        match &self.bytes {
            std::borrow::Cow::Borrowed(b) => b,
            std::borrow::Cow::Owned(v) => v.as_slice(),
        }
    }

    /// The length value that stands before the bytes.
    pub fn length(&self) -> (r: L)
        ensures
            r.deep_view() == L::model_of(self.deep_view().len()),
    {
        proof {
            use_type_invariant(self);
        }
        self.length
    }

    /// The same bytes in a copy of their own.
    pub fn into_owned(self) -> (r: VarBytesOwned<L>)
        ensures
            r.deep_view() == self.deep_view(),
    {
        proof {
            use_type_invariant(&self);
        }
        let length = self.length;
        let bytes = match self.bytes {
            std::borrow::Cow::Borrowed(b) => vstd::slice::slice_to_vec(b),
            std::borrow::Cow::Owned(v) => v,
        };
        VarBytesOwned { length, bytes }
    }
}

impl<'a, L: Length> DeepView for VarBytesCow<'a, L> {
    type V = Seq<u8>;

    closed spec fn deep_view(&self) -> Seq<u8> {
        self.bytes@
    }
}

impl<'a, Ctx, L: Length> Parsable<'a, Ctx> for VarBytesCow<'a, L> {
    open spec fn spec_read(src: Seq<u8>, context: Ctx) -> SpecResult<Seq<u8>> {
        spec_read_var_bytes::<L>(src)
    }

    fn read(source: &'a [u8], context: Ctx) -> (r: PResult<'a, VarBytesCow<'a, L>>) {
        match <VarBytes<'a, L> as Parsable<'a, Ctx>>::read(source, context) {
            Ok((v, rest)) => {
                proof {
                    use_type_invariant(&v);
                }
                let VarBytes { length, slice } = v;
                Ok((VarBytesCow { length, bytes: std::borrow::Cow::Borrowed(slice) }, rest))
            },
            Err(e) => Err(e),
        }
    }
}

impl<'a, L: Length> Deparsable for VarBytesCow<'a, L> {
    open spec fn spec_write(v: Seq<u8>) -> Option<Seq<u8>> {
        spec_write_var_bytes::<L>(v)
    }

    fn write(&self, out: &mut Vec<u8>) -> (r: Result<(), Error>) {
        proof {
            use_type_invariant(self);
        }
        let ghost start = out@;
        self.length.write_length(out);
        crate::bytes::push_all(out, self.as_ref());
        assert(out@ =~= start + Self::spec_write(self.deep_view())->Some_0);
        Ok(())
    }
}

/// A run of bytes behind a length prefix, copied out of the source.
#[derive(Debug)]
pub struct VarBytesOwned<L: Length> {
    length: L,
    bytes: Vec<u8>,
}

impl<L: Length> VarBytesOwned<L> {
    #[verifier::type_invariant]
    spec fn length_matches(self) -> bool {
        &&& self.bytes@.len() <= L::max_count()
        &&& self.length.deep_view() == L::model_of(self.bytes@.len())
    }

    /// Wraps `bytes`, deriving its length; `None` where the length type cannot count it.
    pub fn new(bytes: Vec<u8>) -> (r: Option<Self>)
        ensures
            r is Some <==> bytes@.len() <= L::max_count(),
            r matches Some(v) ==> v.deep_view() == bytes@,
    {
        if bytes.len() as u64 <= u64::MAX {
            match L::from_count(bytes.len() as u64) {
                Some(length) => Some(VarBytesOwned { length, bytes }),
                None => None,
            }
        } else {
            None
        }
    }

    /// The bytes.
    pub fn as_ref(&self) -> (r: &[u8])
        ensures
            r@ == self.deep_view(),
    {
        self.bytes.as_slice()
    }

    /// The length value that stands before the bytes.
    pub fn length(&self) -> (r: L)
        ensures
            r.deep_view() == L::model_of(self.deep_view().len()),
    {
        proof {
            use_type_invariant(self);
        }
        self.length
    }

    /// The bytes, without their length.
    pub fn into_vec(self) -> (r: Vec<u8>)
        ensures
            r@ == self.deep_view(),
    {
        self.bytes
    }
}

impl<L: Length> DeepView for VarBytesOwned<L> {
    type V = Seq<u8>;

    closed spec fn deep_view(&self) -> Seq<u8> {
        self.bytes@
    }
}

impl<'a, Ctx, L: Length> Parsable<'a, Ctx> for VarBytesOwned<L> {
    open spec fn spec_read(src: Seq<u8>, context: Ctx) -> SpecResult<Seq<u8>> {
        spec_read_var_bytes::<L>(src)
    }

    fn read(source: &'a [u8], context: Ctx) -> (r: PResult<'a, VarBytesOwned<L>>) {
        match <VarBytes<'a, L> as Parsable<'a, Ctx>>::read(source, context) {
            Ok((v, rest)) => {
                proof {
                    use_type_invariant(&v);
                }
                let VarBytes { length, slice } = v;
                Ok((VarBytesOwned { length, bytes: vstd::slice::slice_to_vec(slice) }, rest))
            },
            Err(e) => Err(e),
        }
    }
}

impl<L: Length> Deparsable for VarBytesOwned<L> {
    open spec fn spec_write(v: Seq<u8>) -> Option<Seq<u8>> {
        spec_write_var_bytes::<L>(v)
    }

    fn write(&self, out: &mut Vec<u8>) -> (r: Result<(), Error>) {
        proof {
            use_type_invariant(self);
        }
        let ghost start = out@;
        self.length.write_length(out);
        crate::bytes::push_all(out, self.bytes.as_slice());
        assert(out@ =~= start + Self::spec_write(self.deep_view())->Some_0);
        Ok(())
    }
}

impl<'a, Ctx, L: Length> RoundTrip<'a, Ctx> for VarBytes<'a, L> {
    open spec fn round_trips(v: Seq<u8>, context: Ctx) -> bool {
        v.len() <= L::max_count()
    }

    proof fn lemma_round_trip(v: Seq<u8>, context: Ctx, rest: Seq<u8>) {
        lemma_var_bytes_round_trip::<L>(v, rest);
    }
}

impl<'a, Ctx, L: Length> RoundTrip<'a, Ctx> for VarBytesCow<'a, L> {
    open spec fn round_trips(v: Seq<u8>, context: Ctx) -> bool {
        v.len() <= L::max_count()
    }

    proof fn lemma_round_trip(v: Seq<u8>, context: Ctx, rest: Seq<u8>) {
        lemma_var_bytes_round_trip::<L>(v, rest);
    }
}

impl<'a, Ctx, L: Length> RoundTrip<'a, Ctx> for VarBytesOwned<L> {
    open spec fn round_trips(v: Seq<u8>, context: Ctx) -> bool {
        v.len() <= L::max_count()
    }

    proof fn lemma_round_trip(v: Seq<u8>, context: Ctx, rest: Seq<u8>) {
        lemma_var_bytes_round_trip::<L>(v, rest);
    }
}

/// Encoding a payload that its length type can count and decoding the bytes, followed by
/// anything, gives the payload back.
pub proof fn lemma_var_bytes_round_trip<L: Length>(payload: Seq<u8>, rest: Seq<u8>)
    requires
        payload.len() <= L::max_count(),
    ensures
        spec_write_var_bytes::<L>(payload) matches Some(b) && spec_read_var_bytes::<L>(b + rest)
            == Ok::<(Seq<u8>, nat), (Error, nat)>((payload, b.len())),
{
    let header = L::spec_write_length(L::model_of(payload.len()));
    L::lemma_length_round_trip(payload.len(), payload + rest);
    let (h, p) = (header.len() as int, payload.len() as int);
    assert(header + payload + rest =~= header + (payload + rest));
    assert((header + payload + rest).subrange(h, h + p) =~= payload);
}

/// A length prefix, then that many bytes: decoding what was encoded from a payload gives the
/// payload back; where fewer bytes than announced follow the prefix, decoding fails with
/// `NotEnoughBytes` reported right after the prefix.
pub proof fn lemma_length_prefix<L: Length>(payload: Seq<u8>, rest: Seq<u8>)
    requires
        payload.len() <= L::max_count(),
    ensures
        spec_write_var_bytes::<L>(payload) matches Some(b) && {
            let header = L::spec_write_length(L::model_of(payload.len()));
            &&& b == header + payload
            &&& spec_read_var_bytes::<L>(b + rest) == Ok::<(Seq<u8>, nat), (Error, nat)>(
                (payload, b.len()),
            )
            &&& spec_read_var_bytes::<L>(b) == Ok::<(Seq<u8>, nat), (Error, nat)>(
                (payload, b.len()),
            )
            &&& forall|k: int|
                0 <= k < payload.len() ==> #[trigger] spec_read_var_bytes::<L>(
                    header + payload.take(k),
                ) == Err::<(Seq<u8>, nat), (Error, nat)>((Error::NotEnoughBytes, header.len()))
        },
{
    let header = L::spec_write_length(L::model_of(payload.len()));
    lemma_var_bytes_round_trip::<L>(payload, rest);
    lemma_var_bytes_round_trip::<L>(payload, Seq::empty());
    assert(header + payload + Seq::<u8>::empty() =~= header + payload);
    assert forall|k: int| 0 <= k < payload.len() implies #[trigger] spec_read_var_bytes::<L>(
        header + payload.take(k),
    ) == Err::<(Seq<u8>, nat), (Error, nat)>((Error::NotEnoughBytes, header.len())) by {
        L::lemma_length_round_trip(payload.len(), payload.take(k));
    }
}

/// What decoding a length prefix and then that many items gives.
pub open spec fn spec_read_var_structs<'a, Ctx, L: Length, T: Parsable<'a, Ctx>>(
    src: Seq<u8>,
    context: Ctx,
) -> SpecResult<Seq<T::V>> {
    match L::spec_read_length(src) {
        Err(e) => Err(e),
        Ok((l, k)) => match spec_read_count::<Ctx, T>(src.skip(k as int), context, L::count_of(l)) {
            Ok((vs, m)) => Ok((vs, k + m)),
            Err((e, m)) => Err((e, k + m)),
        },
    }
}

/// Items behind a length prefix that counts them.
#[derive(Debug)]
pub struct VarStructs<L: Length, T> {
    length: L,
    vec: Vec<T>,
}

impl<L: Length, T> VarStructs<L, T> {
    #[verifier::type_invariant]
    spec fn length_matches(self) -> bool {
        &&& self.vec@.len() <= L::max_count()
        &&& self.length.deep_view() == L::model_of(self.vec@.len())
    }
}

impl<L: Length, T: DeepView> DeepView for VarStructs<L, T> {
    type V = Seq<T::V>;

    closed spec fn deep_view(&self) -> Seq<T::V> {
        self.vec.deep_view()
    }
}

impl<L: Length, T: DeepView> VarStructs<L, T> {
    /// Wraps `vec`, deriving its length; `None` where the length type cannot count it.
    pub fn new(vec: Vec<T>) -> (r: Option<Self>)
        ensures
            r is Some <==> vec@.len() <= L::max_count(),
            r matches Some(v) ==> v.deep_view() == vec.deep_view(),
    {
        if vec.len() as u64 <= u64::MAX {
            match L::from_count(vec.len() as u64) {
                Some(length) => Some(VarStructs { length, vec }),
                None => None,
            }
        } else {
            None
        }
    }

    /// The items.
    pub fn as_ref(&self) -> (r: &[T])
        ensures
            r.deep_view() == self.deep_view(),
    {
        let s = self.vec.as_slice();
        assert(s.deep_view() =~= self.deep_view());
        s
    }

    /// The length value that stands before the items.
    pub fn length(&self) -> (r: L)
        ensures
            r.deep_view() == L::model_of(self.deep_view().len()),
    {
        proof {
            use_type_invariant(self);
        }
        self.length
    }
}

/// The length is read without context; the items with the ambient one. A failing item
/// fails the whole.
impl<'a, Ctx: Copy, L: Length, T: Parsable<'a, Ctx>> Parsable<'a, Ctx> for VarStructs<L, T> {
    open spec fn spec_read(src: Seq<u8>, context: Ctx) -> SpecResult<Seq<T::V>> {
        spec_read_var_structs::<Ctx, L, T>(src, context)
    }

    fn read(source: &'a [u8], context: Ctx) -> (r: PResult<'a, VarStructs<L, T>>) {
        let (length, rest) = match L::read_length(source) {
            Ok(x) => x,
            Err(e) => {
                return Err(e);
            },
        };
        let n = length.count();
        let ghost k = (source@.len() - rest@.len()) as nat;
        proof {
            L::lemma_length(length.deep_view());
            lemma_read_count_len::<Ctx, T>(rest@, context, n as nat);
        }
        match read_count::<Ctx, T>(rest, context, n) {
            Ok((vec, tail)) => {
                proof {
                    crate::lemma_skip_skip(source@, k as int, rest@.len() - tail@.len());
                }
                Ok((VarStructs { length, vec }, tail))
            },
            Err((e, tail)) => {
                proof {
                    crate::lemma_skip_skip(source@, k as int, rest@.len() - tail@.len());
                }
                Err((e, tail))
            },
        }
    }
}

impl<L: Length, T: Deparsable> Deparsable for VarStructs<L, T> {
    open spec fn spec_write(v: Seq<T::V>) -> Option<Seq<u8>> {
        if v.len() <= L::max_count() {
            match spec_write_all::<T>(v) {
                Some(b) => Some(L::spec_write_length(L::model_of(v.len())) + b),
                None => None,
            }
        } else {
            None
        }
    }

    fn write(&self, out: &mut Vec<u8>) -> (r: Result<(), Error>) {
        proof {
            use_type_invariant(self);
        }
        let ghost start = out@;
        self.length.write_length(out);
        let s = self.vec.as_slice();
        assert(s.deep_view() =~= self.deep_view());
        match write_all(s, out) {
            Ok(()) => {
                assert(out@ =~= start + Self::spec_write(self.deep_view())->Some_0);
                Ok(())
            },
            Err(e) => Err(e),
        }
    }
}

/// What decoding items greedily gives when they must use up the whole source: bytes left
/// over give `InvalidInput` where the items stopped.
pub open spec fn spec_read_consuming<'a, Ctx, T: Parsable<'a, Ctx>>(
    src: Seq<u8>,
    context: Ctx,
) -> SpecResult<Seq<T::V>> {
    let (vs, n) = spec_greedy::<Ctx, T>(src, context);
    if n == src.len() {
        Ok((vs, n))
    } else {
        Err((Error::InvalidInput, n))
    }
}

/// Items decoded greedily, which must use up the whole source.
#[derive(Debug, Clone)]
pub struct ConsumingVec<T>(Vec<T>);

impl<T: DeepView> DeepView for ConsumingVec<T> {
    type V = Seq<T::V>;

    closed spec fn deep_view(&self) -> Seq<T::V> {
        self.0.deep_view()
    }
}

impl<T: DeepView> ConsumingVec<T> {
    pub fn new(vec: Vec<T>) -> (r: Self)
        ensures
            r.deep_view() == vec.deep_view(),
    {
        ConsumingVec(vec)
    }

    /// The items.
    pub fn as_ref(&self) -> (r: &[T])
        ensures
            r.deep_view() == self.deep_view(),
    {
        let s = self.0.as_slice();
        assert(s.deep_view() =~= self.deep_view());
        s
    }
}

impl<'a, Ctx: Copy, T: Parsable<'a, Ctx>> Parsable<'a, Ctx> for ConsumingVec<T> {
    open spec fn spec_read(src: Seq<u8>, context: Ctx) -> SpecResult<Seq<T::V>> {
        spec_read_consuming::<Ctx, T>(src, context)
    }

    fn read(source: &'a [u8], context: Ctx) -> (r: PResult<'a, ConsumingVec<T>>) {
        let (v, rest) = read_greedy::<Ctx, T>(source, context);
        if rest.len() != 0 {
            return Err((Error::InvalidInput, rest));
        }
        Ok((ConsumingVec(v), rest))
    }
}

impl<T: Deparsable> Deparsable for ConsumingVec<T> {
    open spec fn spec_write(v: Seq<T::V>) -> Option<Seq<u8>> {
        spec_write_all::<T>(v)
    }

    fn write(&self, out: &mut Vec<u8>) -> (r: Result<(), Error>) {
        let s = self.0.as_slice();
        assert(s.deep_view() =~= self.deep_view());
        write_all(s, out)
    }
}

/// As many items as the context value says, which usually comes from an earlier field.
#[derive(Debug, Clone)]
pub struct Counted<T>(Vec<T>);

impl<T: DeepView> DeepView for Counted<T> {
    type V = Seq<T::V>;

    closed spec fn deep_view(&self) -> Seq<T::V> {
        self.0.deep_view()
    }
}

impl<T: DeepView> Counted<T> {
    pub fn new(vec: Vec<T>) -> (r: Self)
        ensures
            r.deep_view() == vec.deep_view(),
    {
        Counted(vec)
    }

    /// The items.
    pub fn as_ref(&self) -> (r: &[T])
        ensures
            r.deep_view() == self.deep_view(),
    {
        let s = self.0.as_slice();
        assert(s.deep_view() =~= self.deep_view());
        s
    }
}

/// The items are read without context; a failing item fails the whole.
impl<'a, T: Parsable<'a, ()>> Parsable<'a, u64> for Counted<T> {
    open spec fn spec_read(src: Seq<u8>, context: u64) -> SpecResult<Seq<T::V>> {
        spec_read_count::<(), T>(src, (), context as nat)
    }

    fn read(source: &'a [u8], context: u64) -> (r: PResult<'a, Counted<T>>) {
        match read_count::<(), T>(source, (), context) {
            Ok((v, rest)) => Ok((Counted(v), rest)),
            Err(e) => Err(e),
        }
    }
}

impl<T: Deparsable> Deparsable for Counted<T> {
    open spec fn spec_write(v: Seq<T::V>) -> Option<Seq<u8>> {
        spec_write_all::<T>(v)
    }

    fn write(&self, out: &mut Vec<u8>) -> (r: Result<(), Error>) {
        let s = self.0.as_slice();
        assert(s.deep_view() =~= self.deep_view());
        write_all(s, out)
    }
}

/// A type that never decodes and cannot be encoded.
#[derive(Debug, Clone, Copy, PartialEq, Eq, Structural)]
pub struct Never;

impl DeepView for Never {
    type V = ();

    open spec fn deep_view(&self) -> () {
        ()
    }
}

impl<'a, Ctx> Parsable<'a, Ctx> for Never {
    open spec fn spec_read(src: Seq<u8>, context: Ctx) -> SpecResult<()> {
        Err((Error::InvalidInput, 0))
    }

    fn read(source: &'a [u8], context: Ctx) -> (r: PResult<'a, Never>) {
        assert(source@ =~= source@.skip(0));
        Err((Error::InvalidInput, source))
    }
}

impl Deparsable for Never {
    open spec fn spec_write(v: ()) -> Option<Seq<u8>> {
        None
    }

    fn write(&self, out: &mut Vec<u8>) -> (r: Result<(), Error>) {
        Err(Error::InvalidInput)
    }
}

impl<'a, Ctx: Copy, L: Length, T: RoundTrip<'a, Ctx>> RoundTrip<'a, Ctx> for VarStructs<L, T> {
    open spec fn round_trips(v: Seq<T::V>, context: Ctx) -> bool {
        &&& v.len() <= L::max_count()
        &&& forall|i: int| 0 <= i < v.len() ==> T::round_trips(#[trigger] v[i], context)
    }

    proof fn lemma_round_trip(v: Seq<T::V>, context: Ctx, rest: Seq<u8>) {
        lemma_count_round_trip::<Ctx, T>(v, context, rest);
        let items = spec_write_all::<T>(v)->Some_0;
        let header = L::spec_write_length(L::model_of(v.len()));
        L::lemma_length_round_trip(v.len(), items + rest);
        assert(header + items + rest =~= header + (items + rest));
        assert((header + (items + rest)).skip(header.len() as int) =~= items + rest);
    }
}

impl<'a, T: RoundTrip<'a, ()>> RoundTrip<'a, u64> for Counted<T> {
    open spec fn round_trips(v: Seq<T::V>, context: u64) -> bool {
        &&& v.len() == context
        &&& forall|i: int| 0 <= i < v.len() ==> T::round_trips(#[trigger] v[i], ())
    }

    proof fn lemma_round_trip(v: Seq<T::V>, context: u64, rest: Seq<u8>) {
        lemma_count_round_trip::<(), T>(v, (), rest);
    }
}

impl<'a, Ctx> RoundTrip<'a, Ctx> for Never {
    open spec fn round_trips(v: (), context: Ctx) -> bool {
        false
    }

    proof fn lemma_round_trip(v: (), context: Ctx, rest: Seq<u8>) {
    }
}

} // verus!
