use vstd::prelude::*;

use crate::bytes::{
    push_all, try_split_array,
    bytes_of, lemma_bytes_of_nat, lemma_nat_of_bound, lemma_number_round_trip, lemma_pow256_eight,
    nat_of, pow256, read_uint, write_uint,
};
use crate::{read_matches, Deparsable, Error, PResult, Parsable, RoundTrip, SpecResult};

verus! {

/// A fixed-width integer, read from and written as `width()` bytes.
pub trait Primitive: Sized + Copy + DeepView<V = Self> {
    /// The number of bytes of the encoding.
    spec fn width() -> nat;

    /// The value whose bits, read as an unsigned number, are `u`.
    spec fn from_bits(u: nat) -> Self;

    /// The bits of `self`, read as an unsigned number.
    spec fn bits(self) -> nat;

    /// The width is between one and eight bytes, the model is the value itself, and the
    /// bits fit the width and give the value back.
    proof fn lemma_model(x: Self)
        ensures
            1 <= Self::width() <= 8,
            x.deep_view() == x,
            x.bits() < pow256(Self::width()),
            Self::from_bits(x.bits()) == x,
    ;

    /// Bits that fit the width survive a trip through the value.
    proof fn lemma_from_bits(u: nat)
        requires
            u < pow256(Self::width()),
        ensures
            Self::from_bits(u).bits() == u,
    ;

    /// The width, in bytes.
    fn byte_width() -> (n: usize)
        ensures
            n == Self::width(),
    ;

    /// The value with the given bits.
    fn from_u64(u: u64) -> (x: Self)
        requires
            u < pow256(Self::width()),
        ensures
            x == Self::from_bits(u as nat),
    ;

    /// The bits of the value.
    fn to_u64(&self) -> (u: u64)
        ensures
            u == self.bits(),
    ;
}

/// What decoding a primitive in the given byte order gives: the first `width()` bytes, or
/// `NotEnoughBytes` at the start when fewer remain.
pub open spec fn spec_read_prim<T: Primitive>(src: Seq<u8>, big: bool) -> SpecResult<T> {
    if src.len() >= T::width() {
        Ok((T::from_bits(nat_of(src.take(T::width() as int), big)), T::width()))
    } else {
        Err((Error::NotEnoughBytes, 0))
    }
}

/// The bytes that encode a primitive in the given byte order.
pub open spec fn spec_write_prim<T: Primitive>(x: T, big: bool) -> Seq<u8> {
    bytes_of(x.bits(), T::width(), big)
}

/// Decodes a primitive from the front of `source` in the given byte order.
pub fn read_prim<'a, T: Primitive>(source: &'a [u8], big: bool) -> (r: PResult<'a, T>)
    ensures
        read_matches(r, source@, spec_read_prim::<T>(source@, big)),
{
    let w = T::byte_width();
    if source.len() >= w {
        proof {
            T::lemma_model(T::from_bits(0));
        }
        let u = read_uint(source, w, big);
        proof {
            lemma_nat_of_bound(source@.take(w as int), big);
        }
        let x = T::from_u64(u);
        let rest = vstd::slice::slice_subrange(source, w, source.len());
        proof {
            T::lemma_model(x);
            assert(rest@ =~= source@.skip(w as int));
        }
        Ok((x, rest))
    } else {
        proof {
            assert(source@ =~= source@.skip(0));
        }
        Err((Error::NotEnoughBytes, source))
    }
}

/// Appends the encoding of a primitive in the given byte order.
pub fn write_prim<T: Primitive>(x: T, big: bool, out: &mut Vec<u8>)
    ensures
        final(out)@ == old(out)@ + spec_write_prim(x, big),
{
    let u = x.to_u64();
    write_uint(u, T::byte_width(), big, out);
}

/// Spelling a primitive and decoding it back gives the primitive, and the bytes spelt.
pub proof fn lemma_prim_round_trip<T: Primitive>(x: T, big: bool, rest: Seq<u8>)
    ensures
        spec_write_prim(x, big).len() == T::width(),
        spec_read_prim::<T>(spec_write_prim(x, big) + rest, big) == Ok::<(T, nat), (Error, nat)>(
            (x, T::width()),
        ),
{
    T::lemma_model(x);
    lemma_number_round_trip(x.bits(), T::width(), big);
    let b = spec_write_prim(x, big);
    assert((b + rest).take(T::width() as int) =~= b);
}

/// Decoding a primitive and spelling it again gives the bytes that were read.
pub proof fn lemma_prim_bytes_kept<T: Primitive>(src: Seq<u8>, big: bool)
    requires
        src.len() >= T::width(),
    ensures
        spec_read_prim::<T>(src, big) matches Ok((x, n)) && spec_write_prim(x, big) == src.take(
            n as int,
        ),
{
    let b = src.take(T::width() as int);
    T::lemma_model(T::from_bits(0));
    lemma_nat_of_bound(b, big);
    T::lemma_from_bits(nat_of(b, big));
    lemma_bytes_of_nat(b, big);
}

/// A primitive without a sign, which can count the items that follow it.
pub trait Unsigned: Primitive {
    /// The largest value, as a `u64`.
    fn max_u64() -> (m: u64)
        ensures
            m + 1 == pow256(Self::width()),
    ;
}

impl Unsigned for u8 {
    fn max_u64() -> (m: u64) {
        proof {
            lemma_pow256_eight();
        }
        0xff
    }
}

impl Unsigned for u16 {
    fn max_u64() -> (m: u64) {
        proof {
            lemma_pow256_eight();
        }
        0xffff
    }
}

impl Unsigned for u32 {
    fn max_u64() -> (m: u64) {
        proof {
            lemma_pow256_eight();
        }
        0xffff_ffff
    }
}

impl Unsigned for u64 {
    fn max_u64() -> (m: u64) {
        proof {
            lemma_pow256_eight();
        }
        0xffff_ffff_ffff_ffff
    }
}

/// Decoding a primitive from fewer bytes than its width fails with `NotEnoughBytes`
/// reported at the start of the attempt.
pub proof fn lemma_truncation<T: Primitive>(src: Seq<u8>, big: bool)
    requires
        src.len() < T::width(),
    ensures
        spec_read_prim::<T>(src, big) == Err::<(T, nat), (Error, nat)>((Error::NotEnoughBytes, 0)),
{
}

impl Primitive for u8 {
    open spec fn width() -> nat {
        1
    }

    open spec fn from_bits(u: nat) -> u8 {
        u as u8
    }

    open spec fn bits(self) -> nat {
        self as nat
    }

    proof fn lemma_model(x: u8) {
        lemma_pow256_eight();
    }

    proof fn lemma_from_bits(u: nat) {
        lemma_pow256_eight();
    }

    fn byte_width() -> (n: usize) {
        1
    }

    fn from_u64(u: u64) -> (x: u8) {
        proof {
            lemma_pow256_eight();
        }
        u as u8
    }

    fn to_u64(&self) -> (u: u64) {
        *self as u64
    }
}

impl Primitive for i8 {
    open spec fn width() -> nat {
        1
    }

    open spec fn from_bits(u: nat) -> i8 {
        (u as u8) as i8
    }

    open spec fn bits(self) -> nat {
        (self as u8) as nat
    }

    proof fn lemma_model(x: i8) {
        lemma_pow256_eight();
        assert(((x as u8) as i8) == x) by (bit_vector);
    }

    proof fn lemma_from_bits(u: nat) {
        lemma_pow256_eight();
        let v = u as u8;
        assert(((v as i8) as u8) == v) by (bit_vector);
    }

    fn byte_width() -> (n: usize) {
        1
    }

    fn from_u64(u: u64) -> (x: i8) {
        proof {
            lemma_pow256_eight();
        }
        (u as u8) as i8
    }

    fn to_u64(&self) -> (u: u64) {
        (*self as u8) as u64
    }
}

impl Primitive for u16 {
    open spec fn width() -> nat {
        2
    }

    open spec fn from_bits(u: nat) -> u16 {
        u as u16
    }

    open spec fn bits(self) -> nat {
        self as nat
    }

    proof fn lemma_model(x: u16) {
        lemma_pow256_eight();
    }

    proof fn lemma_from_bits(u: nat) {
        lemma_pow256_eight();
    }

    fn byte_width() -> (n: usize) {
        2
    }

    fn from_u64(u: u64) -> (x: u16) {
        proof {
            lemma_pow256_eight();
        }
        u as u16
    }

    fn to_u64(&self) -> (u: u64) {
        *self as u64
    }
}

impl Primitive for i16 {
    open spec fn width() -> nat {
        2
    }

    open spec fn from_bits(u: nat) -> i16 {
        (u as u16) as i16
    }

    open spec fn bits(self) -> nat {
        (self as u16) as nat
    }

    proof fn lemma_model(x: i16) {
        lemma_pow256_eight();
        assert(((x as u16) as i16) == x) by (bit_vector);
    }

    proof fn lemma_from_bits(u: nat) {
        lemma_pow256_eight();
        let v = u as u16;
        assert(((v as i16) as u16) == v) by (bit_vector);
    }

    fn byte_width() -> (n: usize) {
        2
    }

    fn from_u64(u: u64) -> (x: i16) {
        proof {
            lemma_pow256_eight();
        }
        (u as u16) as i16
    }

    fn to_u64(&self) -> (u: u64) {
        (*self as u16) as u64
    }
}

impl Primitive for u32 {
    open spec fn width() -> nat {
        4
    }

    open spec fn from_bits(u: nat) -> u32 {
        u as u32
    }

    open spec fn bits(self) -> nat {
        self as nat
    }

    proof fn lemma_model(x: u32) {
        lemma_pow256_eight();
    }

    proof fn lemma_from_bits(u: nat) {
        lemma_pow256_eight();
    }

    fn byte_width() -> (n: usize) {
        4
    }

    fn from_u64(u: u64) -> (x: u32) {
        proof {
            lemma_pow256_eight();
        }
        u as u32
    }

    fn to_u64(&self) -> (u: u64) {
        *self as u64
    }
}

impl Primitive for i32 {
    open spec fn width() -> nat {
        4
    }

    open spec fn from_bits(u: nat) -> i32 {
        (u as u32) as i32
    }

    open spec fn bits(self) -> nat {
        (self as u32) as nat
    }

    proof fn lemma_model(x: i32) {
        lemma_pow256_eight();
        assert(((x as u32) as i32) == x) by (bit_vector);
    }

    proof fn lemma_from_bits(u: nat) {
        lemma_pow256_eight();
        let v = u as u32;
        assert(((v as i32) as u32) == v) by (bit_vector);
    }

    fn byte_width() -> (n: usize) {
        4
    }

    fn from_u64(u: u64) -> (x: i32) {
        proof {
            lemma_pow256_eight();
        }
        (u as u32) as i32
    }

    fn to_u64(&self) -> (u: u64) {
        (*self as u32) as u64
    }
}

impl Primitive for u64 {
    open spec fn width() -> nat {
        8
    }

    open spec fn from_bits(u: nat) -> u64 {
        u as u64
    }

    open spec fn bits(self) -> nat {
        self as nat
    }

    proof fn lemma_model(x: u64) {
        lemma_pow256_eight();
    }

    proof fn lemma_from_bits(u: nat) {
        lemma_pow256_eight();
    }

    fn byte_width() -> (n: usize) {
        8
    }

    fn from_u64(u: u64) -> (x: u64) {
        proof {
            lemma_pow256_eight();
        }
        u as u64
    }

    fn to_u64(&self) -> (u: u64) {
        *self as u64
    }
}

impl Primitive for i64 {
    open spec fn width() -> nat {
        8
    }

    open spec fn from_bits(u: nat) -> i64 {
        (u as u64) as i64
    }

    open spec fn bits(self) -> nat {
        (self as u64) as nat
    }

    proof fn lemma_model(x: i64) {
        lemma_pow256_eight();
        assert(((x as u64) as i64) == x) by (bit_vector);
    }

    proof fn lemma_from_bits(u: nat) {
        lemma_pow256_eight();
        let v = u as u64;
        assert(((v as i64) as u64) == v) by (bit_vector);
    }

    fn byte_width() -> (n: usize) {
        8
    }

    fn from_u64(u: u64) -> (x: i64) {
        proof {
            lemma_pow256_eight();
        }
        (u as u64) as i64
    }

    fn to_u64(&self) -> (u: u64) {
        (*self as u64) as u64
    }
}

impl<'a> Parsable<'a, ()> for u8 {
    open spec fn spec_read(src: Seq<u8>, context: ()) -> SpecResult<u8> {
        spec_read_prim::<u8>(src, false)
    }

    fn read(source: &'a [u8], context: ()) -> (r: PResult<'a, u8>) {
        read_prim(source, false)
    }
}

impl Deparsable for u8 {
    open spec fn spec_write(v: u8) -> Option<Seq<u8>> {
        Some(spec_write_prim(v, false))
    }

    fn write(&self, out: &mut Vec<u8>) -> (r: Result<(), Error>) {
        write_prim(*self, false, out);
        Ok(())
    }
}

impl<'a> Parsable<'a, ()> for i8 {
    open spec fn spec_read(src: Seq<u8>, context: ()) -> SpecResult<i8> {
        spec_read_prim::<i8>(src, false)
    }

    fn read(source: &'a [u8], context: ()) -> (r: PResult<'a, i8>) {
        read_prim(source, false)
    }
}

impl Deparsable for i8 {
    open spec fn spec_write(v: i8) -> Option<Seq<u8>> {
        Some(spec_write_prim(v, false))
    }

    fn write(&self, out: &mut Vec<u8>) -> (r: Result<(), Error>) {
        write_prim(*self, false, out);
        Ok(())
    }
}

impl<'a> Parsable<'a, ()> for u16 {
    open spec fn spec_read(src: Seq<u8>, context: ()) -> SpecResult<u16> {
        spec_read_prim::<u16>(src, false)
    }

    fn read(source: &'a [u8], context: ()) -> (r: PResult<'a, u16>) {
        read_prim(source, false)
    }
}

impl Deparsable for u16 {
    open spec fn spec_write(v: u16) -> Option<Seq<u8>> {
        Some(spec_write_prim(v, false))
    }

    fn write(&self, out: &mut Vec<u8>) -> (r: Result<(), Error>) {
        write_prim(*self, false, out);
        Ok(())
    }
}

impl<'a> Parsable<'a, ()> for i16 {
    open spec fn spec_read(src: Seq<u8>, context: ()) -> SpecResult<i16> {
        spec_read_prim::<i16>(src, false)
    }

    fn read(source: &'a [u8], context: ()) -> (r: PResult<'a, i16>) {
        read_prim(source, false)
    }
}

impl Deparsable for i16 {
    open spec fn spec_write(v: i16) -> Option<Seq<u8>> {
        Some(spec_write_prim(v, false))
    }

    fn write(&self, out: &mut Vec<u8>) -> (r: Result<(), Error>) {
        write_prim(*self, false, out);
        Ok(())
    }
}

impl<'a> Parsable<'a, ()> for u32 {
    open spec fn spec_read(src: Seq<u8>, context: ()) -> SpecResult<u32> {
        spec_read_prim::<u32>(src, false)
    }

    fn read(source: &'a [u8], context: ()) -> (r: PResult<'a, u32>) {
        read_prim(source, false)
    }
}

impl Deparsable for u32 {
    open spec fn spec_write(v: u32) -> Option<Seq<u8>> {
        Some(spec_write_prim(v, false))
    }

    fn write(&self, out: &mut Vec<u8>) -> (r: Result<(), Error>) {
        write_prim(*self, false, out);
        Ok(())
    }
}

impl<'a> Parsable<'a, ()> for i32 {
    open spec fn spec_read(src: Seq<u8>, context: ()) -> SpecResult<i32> {
        spec_read_prim::<i32>(src, false)
    }

    fn read(source: &'a [u8], context: ()) -> (r: PResult<'a, i32>) {
        read_prim(source, false)
    }
}

impl Deparsable for i32 {
    open spec fn spec_write(v: i32) -> Option<Seq<u8>> {
        Some(spec_write_prim(v, false))
    }

    fn write(&self, out: &mut Vec<u8>) -> (r: Result<(), Error>) {
        write_prim(*self, false, out);
        Ok(())
    }
}

impl<'a> Parsable<'a, ()> for u64 {
    open spec fn spec_read(src: Seq<u8>, context: ()) -> SpecResult<u64> {
        spec_read_prim::<u64>(src, false)
    }

    fn read(source: &'a [u8], context: ()) -> (r: PResult<'a, u64>) {
        read_prim(source, false)
    }
}

impl Deparsable for u64 {
    open spec fn spec_write(v: u64) -> Option<Seq<u8>> {
        Some(spec_write_prim(v, false))
    }

    fn write(&self, out: &mut Vec<u8>) -> (r: Result<(), Error>) {
        write_prim(*self, false, out);
        Ok(())
    }
}

impl<'a> Parsable<'a, ()> for i64 {
    open spec fn spec_read(src: Seq<u8>, context: ()) -> SpecResult<i64> {
        spec_read_prim::<i64>(src, false)
    }

    fn read(source: &'a [u8], context: ()) -> (r: PResult<'a, i64>) {
        read_prim(source, false)
    }
}

impl Deparsable for i64 {
    open spec fn spec_write(v: i64) -> Option<Seq<u8>> {
        Some(spec_write_prim(v, false))
    }

    fn write(&self, out: &mut Vec<u8>) -> (r: Result<(), Error>) {
        write_prim(*self, false, out);
        Ok(())
    }
}

/// The empty value: decodes from nothing and encodes as nothing.
impl<'a, Ctx> Parsable<'a, Ctx> for () {
    open spec fn spec_read(src: Seq<u8>, context: Ctx) -> SpecResult<()> {
        Ok(((), 0))
    }

    fn read(source: &'a [u8], context: Ctx) -> (r: PResult<'a, ()>) {
        assert(source@ =~= source@.skip(0));
        Ok(((), source))
    }
}

impl Deparsable for () {
    open spec fn spec_write(v: ()) -> Option<Seq<u8>> {
        Some(Seq::empty())
    }

    fn write(&self, out: &mut Vec<u8>) -> (r: Result<(), Error>) {
        assert(out@ =~= out@ + Seq::<u8>::empty());
        Ok(())
    }
}

/// All the remaining bytes, borrowed from the source. It never fails and leaves nothing,
/// so it only makes sense as the last field of a composite.
impl<'a> Parsable<'a, ()> for &'a [u8] {
    open spec fn spec_read(src: Seq<u8>, context: ()) -> SpecResult<Seq<u8>> {
        Ok((src, src.len()))
    }

    fn read(source: &'a [u8], context: ()) -> (r: PResult<'a, &'a [u8]>) {
        let rest = vstd::slice::slice_subrange(source, source.len(), source.len());
        assert(rest@ =~= source@.skip(source@.len() as int));
        assert(source.deep_view() =~= source@);
        Ok((source, rest))
    }
}

impl<'a> Deparsable for &'a [u8] {
    open spec fn spec_write(v: Seq<u8>) -> Option<Seq<u8>> {
        Some(v)
    }

    fn write(&self, out: &mut Vec<u8>) -> (r: Result<(), Error>) {
        assert(self.deep_view() =~= self@);
        push_all(out, *self);
        Ok(())
    }
}

/// Exactly `N` bytes, borrowed from the source.
impl<'a, const N: usize> Parsable<'a, ()> for &'a [u8; N] {
    open spec fn spec_read(src: Seq<u8>, context: ()) -> SpecResult<Seq<u8>> {
        if src.len() >= N {
            Ok((src.take(N as int), N as nat))
        } else {
            Err((Error::NotEnoughBytes, 0))
        }
    }

    fn read(source: &'a [u8], context: ()) -> (r: PResult<'a, &'a [u8; N]>) {
        match try_split_array::<u8, N>(source) {
            Some((head, rest)) => {
                assert(head.deep_view() =~= head@);
                Ok((head, rest))
            },
            None => {
                assert(source@ =~= source@.skip(0));
                Err((Error::NotEnoughBytes, source))
            },
        }
    }
}

impl<'a, const N: usize> Deparsable for &'a [u8; N] {
    open spec fn spec_write(v: Seq<u8>) -> Option<Seq<u8>> {
        Some(v)
    }

    fn write(&self, out: &mut Vec<u8>) -> (r: Result<(), Error>) {
        let s = vstd::array::array_as_slice(*self);
        assert(self.deep_view() =~= s@);
        push_all(out, s);
        Ok(())
    }
}

impl<'a> RoundTrip<'a, ()> for u8 {
    open spec fn round_trips(v: u8, context: ()) -> bool {
        true
    }

    proof fn lemma_round_trip(v: u8, context: (), rest: Seq<u8>) {
        lemma_prim_round_trip::<u8>(v, false, rest);
    }
}

impl<'a> RoundTrip<'a, ()> for i8 {
    open spec fn round_trips(v: i8, context: ()) -> bool {
        true
    }

    proof fn lemma_round_trip(v: i8, context: (), rest: Seq<u8>) {
        lemma_prim_round_trip::<i8>(v, false, rest);
    }
}

impl<'a> RoundTrip<'a, ()> for u16 {
    open spec fn round_trips(v: u16, context: ()) -> bool {
        true
    }

    proof fn lemma_round_trip(v: u16, context: (), rest: Seq<u8>) {
        lemma_prim_round_trip::<u16>(v, false, rest);
    }
}

impl<'a> RoundTrip<'a, ()> for i16 {
    open spec fn round_trips(v: i16, context: ()) -> bool {
        true
    }

    proof fn lemma_round_trip(v: i16, context: (), rest: Seq<u8>) {
        lemma_prim_round_trip::<i16>(v, false, rest);
    }
}

impl<'a> RoundTrip<'a, ()> for u32 {
    open spec fn round_trips(v: u32, context: ()) -> bool {
        true
    }

    proof fn lemma_round_trip(v: u32, context: (), rest: Seq<u8>) {
        lemma_prim_round_trip::<u32>(v, false, rest);
    }
}

impl<'a> RoundTrip<'a, ()> for i32 {
    open spec fn round_trips(v: i32, context: ()) -> bool {
        true
    }

    proof fn lemma_round_trip(v: i32, context: (), rest: Seq<u8>) {
        lemma_prim_round_trip::<i32>(v, false, rest);
    }
}

impl<'a> RoundTrip<'a, ()> for u64 {
    open spec fn round_trips(v: u64, context: ()) -> bool {
        true
    }

    proof fn lemma_round_trip(v: u64, context: (), rest: Seq<u8>) {
        lemma_prim_round_trip::<u64>(v, false, rest);
    }
}

impl<'a> RoundTrip<'a, ()> for i64 {
    open spec fn round_trips(v: i64, context: ()) -> bool {
        true
    }

    proof fn lemma_round_trip(v: i64, context: (), rest: Seq<u8>) {
        lemma_prim_round_trip::<i64>(v, false, rest);
    }
}

impl<'a, Ctx> RoundTrip<'a, Ctx> for () {
    open spec fn round_trips(v: (), context: Ctx) -> bool {
        true
    }

    proof fn lemma_round_trip(v: (), context: Ctx, rest: Seq<u8>) {
        assert(Seq::<u8>::empty() + rest =~= rest);
    }
}

impl<'a, const N: usize> RoundTrip<'a, ()> for &'a [u8; N] {
    open spec fn round_trips(v: Seq<u8>, context: ()) -> bool {
        v.len() == N
    }

    proof fn lemma_round_trip(v: Seq<u8>, context: (), rest: Seq<u8>) {
        assert((v + rest).take(N as int) =~= v);
    }
}

} // verus!
