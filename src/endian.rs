use vstd::prelude::*;

use crate::primitives::{
    lemma_prim_round_trip, read_prim, spec_read_prim, spec_write_prim, write_prim, Primitive,
};
use crate::{Deparsable, Error, PResult, Parsable, RoundTrip, SpecResult};

verus! {

/// A primitive that is read and written least significant byte first.
#[derive(Debug, Clone, Copy)]
pub struct LE<T>(pub T);

/// A primitive that is read and written most significant byte first.
#[derive(Debug, Clone, Copy)]
pub struct BE<T>(pub T);

impl<T: DeepView> DeepView for LE<T> {
    type V = T::V;

    open spec fn deep_view(&self) -> T::V {
        self.0.deep_view()
    }
}

impl<T: DeepView> DeepView for BE<T> {
    type V = T::V;

    open spec fn deep_view(&self) -> T::V {
        self.0.deep_view()
    }
}

impl<T> LE<T> {
    /// The wrapped value.
    pub fn as_ref(&self) -> (r: &T)
        ensures
            *r == self.0,
    {
        &self.0
    }

    /// The wrapped value, for change.
    pub fn as_mut(&mut self) -> (r: &mut T)
        ensures
            *r == old(self).0,
            final(self).0 == *final(r),
    {
        &mut self.0
    }
}

impl<T> BE<T> {
    /// The wrapped value.
    pub fn as_ref(&self) -> (r: &T)
        ensures
            *r == self.0,
    {
        &self.0
    }

    /// The wrapped value, for change.
    pub fn as_mut(&mut self) -> (r: &mut T)
        ensures
            *r == old(self).0,
            final(self).0 == *final(r),
    {
        &mut self.0
    }
}

impl<'a, T: Primitive> Parsable<'a, ()> for LE<T> {
    open spec fn spec_read(src: Seq<u8>, context: ()) -> SpecResult<T> {
        spec_read_prim::<T>(src, false)
    }

    fn read(source: &'a [u8], context: ()) -> (r: PResult<'a, LE<T>>) {
        match read_prim::<T>(source, false) {
            Ok((x, rest)) => Ok((LE(x), rest)),
            Err(e) => Err(e),
        }
    }
}

impl<'a, T: Primitive> Parsable<'a, ()> for BE<T> {
    open spec fn spec_read(src: Seq<u8>, context: ()) -> SpecResult<T> {
        spec_read_prim::<T>(src, true)
    }

    fn read(source: &'a [u8], context: ()) -> (r: PResult<'a, BE<T>>) {
        match read_prim::<T>(source, true) {
            Ok((x, rest)) => Ok((BE(x), rest)),
            Err(e) => Err(e),
        }
    }
}

impl<T: Primitive> Deparsable for LE<T> {
    open spec fn spec_write(v: T) -> Option<Seq<u8>> {
        Some(spec_write_prim(v, false))
    }

    fn write(&self, out: &mut Vec<u8>) -> (r: Result<(), Error>) {
        proof {
            T::lemma_model(self.0);
        }
        write_prim(self.0, false, out);
        Ok(())
    }
}

impl<T: Primitive> Deparsable for BE<T> {
    open spec fn spec_write(v: T) -> Option<Seq<u8>> {
        Some(spec_write_prim(v, true))
    }

    fn write(&self, out: &mut Vec<u8>) -> (r: Result<(), Error>) {
        proof {
            T::lemma_model(self.0);
        }
        write_prim(self.0, true, out);
        Ok(())
    }
}

impl<'a, T: Primitive> RoundTrip<'a, ()> for LE<T> {
    open spec fn round_trips(v: T, context: ()) -> bool {
        true
    }

    proof fn lemma_round_trip(v: T, context: (), rest: Seq<u8>) {
        lemma_prim_round_trip::<T>(v, false, rest);
    }
}

impl<'a, T: Primitive> RoundTrip<'a, ()> for BE<T> {
    open spec fn round_trips(v: T, context: ()) -> bool {
        true
    }

    proof fn lemma_round_trip(v: T, context: (), rest: Seq<u8>) {
        lemma_prim_round_trip::<T>(v, true, rest);
    }
}

} // verus!
