use vstd::prelude::*;

use crate::{
    lemma_skip_skip, read_matches, write_matches, Deparsable, Error, PResult, Parsable, RoundTrip,
    SpecResult,
};

verus! {

/// The bytes that encode each of `vs` in order, or `None` where one of them has none.
pub open spec fn spec_write_all<T: Deparsable>(vs: Seq<T::V>) -> Option<Seq<u8>>
    decreases vs.len(),
{
    if vs.len() == 0 {
        Some(Seq::empty())
    } else {
        match (spec_write_all::<T>(vs.drop_last()), T::spec_write(vs.last())) {
            (Some(a), Some(b)) => Some(a + b),
            _ => None,
        }
    }
}

proof fn lemma_write_all_none<T: Deparsable>(vs: Seq<T::V>, i: int)
    requires
        0 <= i <= vs.len(),
        spec_write_all::<T>(vs.take(i)) is None,
    ensures
        spec_write_all::<T>(vs) is None,
    decreases vs.len() - i,
{
    if i < vs.len() {
        assert(vs.take(i + 1).drop_last() =~= vs.take(i));
        lemma_write_all_none::<T>(vs, i + 1);
    } else {
        assert(vs.take(i) =~= vs);
    }
}

/// Appends the encoding of each item in order.
pub fn write_all<T: Deparsable>(items: &[T], out: &mut Vec<u8>) -> (r: Result<(), Error>)
    ensures
        write_matches(r, old(out)@, final(out)@, spec_write_all::<T>(items.deep_view())),
{
    let ghost start = out@;
    let ghost vs = items.deep_view();
    let mut i: usize = 0;
    while i < items.len()
        invariant
            i <= items@.len(),
            vs == items.deep_view(),
            vs.len() == items@.len(),
            spec_write_all::<T>(vs.take(i as int)) matches Some(b) && out@ == start + b,
        decreases items@.len() - i,
    {
        assert(vs.take(i + 1).drop_last() =~= vs.take(i as int));
        assert(vs.take(i + 1).last() == items@[i as int].deep_view());
        match items[i].write(out) {
            Ok(()) => {},
            Err(e) => {
                proof {
                    lemma_write_all_none::<T>(vs, i + 1);
                }
                return Err(e);
            },
        }
        assert(out@ =~= start + spec_write_all::<T>(vs.take(i + 1))->Some_0);
        i += 1;
    }
    assert(vs.take(i as int) =~= vs);
    Ok(())
}

/// What decoding exactly `count` items one after another gives; the first failure is
/// passed on.
pub open spec fn spec_read_count<'a, Ctx, T: Parsable<'a, Ctx>>(
    src: Seq<u8>,
    context: Ctx,
    count: nat,
) -> SpecResult<Seq<T::V>>
    decreases count,
{
    if count == 0 {
        Ok((Seq::empty(), 0))
    } else {
        match spec_read_count::<Ctx, T>(src, context, (count - 1) as nat) {
            Err(e) => Err(e),
            Ok((vs, n)) => match T::spec_read(src.skip(n as int), context) {
                Ok((v, m)) => Ok((vs.push(v), n + m)),
                Err((e, m)) => Err((e, n + m)),
            },
        }
    }
}

proof fn lemma_read_count_err<'a, Ctx, T: Parsable<'a, Ctx>>(
    src: Seq<u8>,
    context: Ctx,
    i: nat,
    count: nat,
)
    requires
        i <= count,
        spec_read_count::<Ctx, T>(src, context, i) is Err,
    ensures
        spec_read_count::<Ctx, T>(src, context, count) == spec_read_count::<Ctx, T>(
            src,
            context,
            i,
        ),
    decreases count - i,
{
    if i < count {
        lemma_read_count_err::<Ctx, T>(src, context, i, (count - 1) as nat);
    }
}

pub proof fn lemma_read_count_len<'a, Ctx, T: Parsable<'a, Ctx>>(
    src: Seq<u8>,
    context: Ctx,
    count: nat,
)
    ensures
        spec_read_count::<Ctx, T>(src, context, count) matches Ok((vs, _)) ==> vs.len() == count,
    decreases count,
{
    if count > 0 {
        lemma_read_count_len::<Ctx, T>(src, context, (count - 1) as nat);
    }
}

/// Decodes exactly `count` items one after another.
pub fn read_count<'a, Ctx: Copy, T: Parsable<'a, Ctx>>(
    source: &'a [u8],
    context: Ctx,
    count: u64,
) -> (r: PResult<'a, Vec<T>>)
    ensures
        read_matches(r, source@, spec_read_count::<Ctx, T>(source@, context, count as nat)),
{
    let mut v: Vec<T> = Vec::new();
    let mut rest = source;
    let mut i: u64 = 0;
    assert(source@ =~= source@.skip(0));
    assert(v.deep_view() =~= Seq::<T::V>::empty());
    while i < count
        invariant
            i <= count,
            rest@.len() <= source@.len(),
            rest@ == source@.skip(source@.len() - rest@.len()),
            spec_read_count::<Ctx, T>(source@, context, i as nat) == Ok::<
                (Seq<T::V>, nat),
                (Error, nat),
            >((v.deep_view(), (source@.len() - rest@.len()) as nat)),
        decreases count - i,
    {
        let ghost n = (source@.len() - rest@.len()) as nat;
        match T::read(rest, context) {
            Ok((e, tail)) => {
                let ghost m = (rest@.len() - tail@.len()) as nat;
                proof {
                    lemma_skip_skip(source@, n as int, m as int);
                }
                v.push(e);
                rest = tail;
                let ghost done = spec_read_count::<Ctx, T>(source@, context, i as nat)->Ok_0.0;
                assert(v.deep_view() =~= done.push(e.deep_view()));
            },
            Err((e, tail)) => {
                let ghost m = (rest@.len() - tail@.len()) as nat;
                proof {
                    lemma_skip_skip(source@, n as int, m as int);
                    lemma_read_count_err::<Ctx, T>(source@, context, (i + 1) as nat, count as nat);
                }
                return Err((e, tail));
            },
        }
        i += 1;
    }
    Ok((v, rest))
}

/// What greedy decoding gives: items are taken one after another until one fails or
/// consumes nothing; that item is not kept, and the whole never fails.
pub open spec fn spec_greedy<'a, Ctx, T: Parsable<'a, Ctx>>(src: Seq<u8>, context: Ctx) -> (
    Seq<T::V>,
    nat,
)
    decreases src.len(),
{
    match T::spec_read(src, context) {
        Ok((v, n)) => if 0 < n <= src.len() {
            let (vs, m) = spec_greedy::<Ctx, T>(src.skip(n as int), context);
            (seq![v] + vs, n + m)
        } else {
            (Seq::empty(), 0)
        },
        Err(_) => (Seq::empty(), 0),
    }
}

/// Decodes items one after another until one fails or consumes nothing.
pub fn read_greedy<'a, Ctx: Copy, T: Parsable<'a, Ctx>>(source: &'a [u8], context: Ctx) -> (r: (
    Vec<T>,
    &'a [u8],
))
    ensures
        spec_greedy::<Ctx, T>(source@, context) == (
            r.0.deep_view(),
            (source@.len() - r.1@.len()) as nat,
        ),
        r.1@.len() <= source@.len(),
        r.1@ == source@.skip(source@.len() - r.1@.len()),
{
    let mut v: Vec<T> = Vec::new();
    let mut rest = source;
    assert(source@ =~= source@.skip(0));
    assert(v.deep_view() + spec_greedy::<Ctx, T>(rest@, context).0 =~= spec_greedy::<Ctx, T>(
        rest@,
        context,
    ).0);
    loop
        invariant
            rest@.len() <= source@.len(),
            rest@ == source@.skip(source@.len() - rest@.len()),
            spec_greedy::<Ctx, T>(source@, context).0 == v.deep_view() + spec_greedy::<Ctx, T>(
                rest@,
                context,
            ).0,
            spec_greedy::<Ctx, T>(source@, context).1 == (source@.len() - rest@.len())
                + spec_greedy::<Ctx, T>(rest@, context).1,
        decreases rest@.len(),
    {
        match T::read(rest, context) {
            Ok((e, tail)) => {
                if tail.len() < rest.len() {
                    let ghost n = (source@.len() - rest@.len()) as nat;
                    let ghost m = (rest@.len() - tail@.len()) as nat;
                    proof {
                        lemma_skip_skip(source@, n as int, m as int);
                    }
                    let ghost old_v = v.deep_view();
                    v.push(e);
                    assert(v.deep_view() =~= old_v.push(e.deep_view()));
                    assert(old_v + spec_greedy::<Ctx, T>(rest@, context).0 =~= v.deep_view()
                        + spec_greedy::<Ctx, T>(tail@, context).0);
                    rest = tail;
                } else {
                    let ghost left = spec_greedy::<Ctx, T>(rest@, context).0;
                    assert(v.deep_view() + left =~= v.deep_view());
                    return (v, rest);
                }
            },
            Err(_) => {
                assert(v.deep_view() + spec_greedy::<Ctx, T>(rest@, context).0 =~= v.deep_view());
                return (v, rest);
            },
        }
    }
}


/// Relies on `<[T; N]>::try_from(Vec<T>)`: the vector's items as an array when it holds
/// exactly `N` of them.
#[verifier::external_body]
fn vec_into_array<T, const N: usize>(v: Vec<T>) -> (r: Option<[T; N]>)
    ensures
        r is Some <==> v@.len() == N,
        r matches Some(a) ==> a@ == v@,
{
    v.try_into().ok()
}

/// Exactly `N` items one after another; the first failure is passed on.
impl<'a, Ctx: Copy, T: Parsable<'a, Ctx>, const N: usize> Parsable<'a, Ctx> for [T; N] {
    open spec fn spec_read(src: Seq<u8>, context: Ctx) -> SpecResult<Seq<T::V>> {
        spec_read_count::<Ctx, T>(src, context, N as nat)
    }

    fn read(source: &'a [u8], context: Ctx) -> (r: PResult<'a, [T; N]>) {
        match read_count::<Ctx, T>(source, context, N as u64) {
            Ok((v, rest)) => {
                proof {
                    lemma_read_count_len::<Ctx, T>(source@, context, N as nat);
                }
                let ghost items = v.deep_view();
                match vec_into_array::<T, N>(v) {
                    Some(a) => {
                        assert(a.deep_view() =~= items);
                        Ok((a, rest))
                    },
                    None => Err((Error::InvalidInput, rest)),
                }
            },
            Err(e) => Err(e),
        }
    }
}

impl<T: Deparsable, const N: usize> Deparsable for [T; N] {
    open spec fn spec_write(v: Seq<T::V>) -> Option<Seq<u8>> {
        spec_write_all::<T>(v)
    }

    fn write(&self, out: &mut Vec<u8>) -> (r: Result<(), Error>) {
        let s = vstd::array::array_as_slice(self);
        assert(s.deep_view() =~= self.deep_view());
        write_all(s, out)
    }
}

/// Greedy: items are decoded until one fails or consumes nothing. Never fails.
impl<'a, Ctx: Copy, T: Parsable<'a, Ctx>> Parsable<'a, Ctx> for Vec<T> {
    open spec fn spec_read(src: Seq<u8>, context: Ctx) -> SpecResult<Seq<T::V>> {
        Ok(spec_greedy::<Ctx, T>(src, context))
    }

    fn read(source: &'a [u8], context: Ctx) -> (r: PResult<'a, Vec<T>>) {
        let (v, rest) = read_greedy::<Ctx, T>(source, context);
        Ok((v, rest))
    }
}

impl<T: Deparsable> Deparsable for Vec<T> {
    open spec fn spec_write(v: Seq<T::V>) -> Option<Seq<u8>> {
        spec_write_all::<T>(v)
    }

    fn write(&self, out: &mut Vec<u8>) -> (r: Result<(), Error>) {
        let s = self.as_slice();
        assert(s.deep_view() =~= self.deep_view());
        write_all(s, out)
    }
}

/// An inner value where one decodes; otherwise `None`, with the failure swallowed and the
/// source left where it was. Never fails.
impl<'a, Ctx, T: Parsable<'a, Ctx>> Parsable<'a, Ctx> for Option<T> {
    open spec fn spec_read(src: Seq<u8>, context: Ctx) -> SpecResult<Option<T::V>> {
        match T::spec_read(src, context) {
            Ok((v, n)) => Ok((Some(v), n)),
            Err(_) => Ok((None, 0)),
        }
    }

    fn read(source: &'a [u8], context: Ctx) -> (r: PResult<'a, Option<T>>) {
        match T::read(source, context) {
            Ok((v, rest)) => Ok((Some(v), rest)),
            Err(_) => {
                assert(source@ =~= source@.skip(0));
                Ok((None, source))
            },
        }
    }
}

impl<T: Deparsable> Deparsable for Option<T> {
    open spec fn spec_write(v: Option<T::V>) -> Option<Seq<u8>> {
        match v {
            Some(x) => T::spec_write(x),
            None => Some(Seq::empty()),
        }
    }

    fn write(&self, out: &mut Vec<u8>) -> (r: Result<(), Error>) {
        match self {
            Some(x) => x.write(out),
            None => {
                assert(out@ =~= out@ + Seq::<u8>::empty());
                Ok(())
            },
        }
    }
}

/// The inner value, moved to the heap.
impl<'a, Ctx, T: Parsable<'a, Ctx>> Parsable<'a, Ctx> for Box<T> {
    open spec fn spec_read(src: Seq<u8>, context: Ctx) -> SpecResult<T::V> {
        T::spec_read(src, context)
    }

    fn read(source: &'a [u8], context: Ctx) -> (r: PResult<'a, Box<T>>) {
        match T::read(source, context) {
            Ok((v, rest)) => Ok((Box::new(v), rest)),
            Err(e) => Err(e),
        }
    }
}

impl<T: Deparsable> Deparsable for Box<T> {
    open spec fn spec_write(v: T::V) -> Option<Seq<u8>> {
        T::spec_write(v)
    }

    fn write(&self, out: &mut Vec<u8>) -> (r: Result<(), Error>) {
        (**self).write(out)
    }
}

/// A single element: decoded as the element itself.
impl<'a, Ctx: Copy, A: Parsable<'a, Ctx>> Parsable<'a, Ctx> for (A,) {
    open spec fn spec_read(src: Seq<u8>, context: Ctx) -> SpecResult<(A::V,)> {
        match A::spec_read(src, context) {
            Ok((a, n)) => Ok(((a,), n)),
            Err(e) => Err(e),
        }
    }

    fn read(source: &'a [u8], context: Ctx) -> (r: PResult<'a, (A,)>) {
        match A::read(source, context) {
            Ok((a, rest)) => Ok(((a,), rest)),
            Err(e) => Err(e),
        }
    }
}

/// A pair: the first element, then the second from where the first stopped; the first
/// failure is passed on, at the position where it was reported.
impl<'a, Ctx: Copy, A: Parsable<'a, Ctx>, B: Parsable<'a, Ctx>> Parsable<'a, Ctx> for (A, B) {
    open spec fn spec_read(src: Seq<u8>, context: Ctx) -> SpecResult<(A::V, B::V)> {
        match A::spec_read(src, context) {
            Err(e) => Err(e),
            Ok((a, n)) => match B::spec_read(src.skip(n as int), context) {
                Err((e, m)) => Err((e, n + m)),
                Ok((b, m)) => Ok(((a, b), n + m)),
            },
        }
    }

    fn read(source: &'a [u8], context: Ctx) -> (r: PResult<'a, (A, B)>) {
        let (a, rest) = match A::read(source, context) {
            Ok(x) => x,
            Err(e) => {
                return Err(e);
            },
        };
        let ghost n = (source@.len() - rest@.len()) as nat;
        match B::read(rest, context) {
            Ok((b, tail)) => {
                proof {
                    lemma_skip_skip(source@, n as int, rest@.len() - tail@.len());
                }
                Ok(((a, b), tail))
            },
            Err((e, tail)) => {
                proof {
                    lemma_skip_skip(source@, n as int, rest@.len() - tail@.len());
                }
                Err((e, tail))
            },
        }
    }
}

/// Three elements: the first, then the others as a pair.
impl<
    'a,
    Ctx: Copy,
    A: Parsable<'a, Ctx>,
    B: Parsable<'a, Ctx>,
    C: Parsable<'a, Ctx>,
> Parsable<'a, Ctx> for (A, B, C) {
    open spec fn spec_read(src: Seq<u8>, context: Ctx) -> SpecResult<(A::V, B::V, C::V)> {
        match <(A, (B, C)) as Parsable<'a, Ctx>>::spec_read(src, context) {
            Ok(((a, (b, c)), n)) => Ok(((a, b, c), n)),
            Err(e) => Err(e),
        }
    }

    fn read(source: &'a [u8], context: Ctx) -> (r: PResult<'a, (A, B, C)>) {
        match <(A, (B, C)) as Parsable<'a, Ctx>>::read(source, context) {
            Ok(((a, (b, c)), rest)) => Ok(((a, b, c), rest)),
            Err(e) => Err(e),
        }
    }
}

/// Four elements: the first, then the others as a triple.
impl<
    'a,
    Ctx: Copy,
    A: Parsable<'a, Ctx>,
    B: Parsable<'a, Ctx>,
    C: Parsable<'a, Ctx>,
    D: Parsable<'a, Ctx>,
> Parsable<'a, Ctx> for (A, B, C, D) {
    open spec fn spec_read(src: Seq<u8>, context: Ctx) -> SpecResult<(A::V, B::V, C::V, D::V)> {
        match <(A, (B, C, D)) as Parsable<'a, Ctx>>::spec_read(src, context) {
            Ok(((a, (b, c, d)), n)) => Ok(((a, b, c, d), n)),
            Err(e) => Err(e),
        }
    }

    fn read(source: &'a [u8], context: Ctx) -> (r: PResult<'a, (A, B, C, D)>) {
        match <(A, (B, C, D)) as Parsable<'a, Ctx>>::read(source, context) {
            Ok(((a, (b, c, d)), rest)) => Ok(((a, b, c, d), rest)),
            Err(e) => Err(e),
        }
    }
}

/// Five elements: the first, then the others as a tuple of four.
impl<
    'a,
    Ctx: Copy,
    A: Parsable<'a, Ctx>,
    B: Parsable<'a, Ctx>,
    C: Parsable<'a, Ctx>,
    D: Parsable<'a, Ctx>,
    E: Parsable<'a, Ctx>,
> Parsable<'a, Ctx> for (A, B, C, D, E) {
    open spec fn spec_read(src: Seq<u8>, context: Ctx) -> SpecResult<
        (A::V, B::V, C::V, D::V, E::V),
    > {
        match <(A, (B, C, D, E)) as Parsable<'a, Ctx>>::spec_read(src, context) {
            Ok(((a, (b, c, d, e)), n)) => Ok(((a, b, c, d, e), n)),
            Err(e) => Err(e),
        }
    }

    fn read(source: &'a [u8], context: Ctx) -> (r: PResult<'a, (A, B, C, D, E)>) {
        match <(A, (B, C, D, E)) as Parsable<'a, Ctx>>::read(source, context) {
            Ok(((a, (b, c, d, e)), rest)) => Ok(((a, b, c, d, e), rest)),
            Err(e) => Err(e),
        }
    }
}

/// Six elements: the first, then the others as a tuple of five.
impl<
    'a,
    Ctx: Copy,
    A: Parsable<'a, Ctx>,
    B: Parsable<'a, Ctx>,
    C: Parsable<'a, Ctx>,
    D: Parsable<'a, Ctx>,
    E: Parsable<'a, Ctx>,
    F: Parsable<'a, Ctx>,
> Parsable<'a, Ctx> for (A, B, C, D, E, F) {
    open spec fn spec_read(src: Seq<u8>, context: Ctx) -> SpecResult<
        (A::V, B::V, C::V, D::V, E::V, F::V),
    > {
        match <(A, (B, C, D, E, F)) as Parsable<'a, Ctx>>::spec_read(src, context) {
            Ok(((a, (b, c, d, e, f)), n)) => Ok(((a, b, c, d, e, f), n)),
            Err(e) => Err(e),
        }
    }

    fn read(source: &'a [u8], context: Ctx) -> (r: PResult<'a, (A, B, C, D, E, F)>) {
        match <(A, (B, C, D, E, F)) as Parsable<'a, Ctx>>::read(source, context) {
            Ok(((a, (b, c, d, e, f)), rest)) => Ok(((a, b, c, d, e, f), rest)),
            Err(e) => Err(e),
        }
    }
}

/// Seven elements: the first, then the others as a tuple of six.
impl<
    'a,
    Ctx: Copy,
    A: Parsable<'a, Ctx>,
    B: Parsable<'a, Ctx>,
    C: Parsable<'a, Ctx>,
    D: Parsable<'a, Ctx>,
    E: Parsable<'a, Ctx>,
    F: Parsable<'a, Ctx>,
    G: Parsable<'a, Ctx>,
> Parsable<'a, Ctx> for (A, B, C, D, E, F, G) {
    open spec fn spec_read(src: Seq<u8>, context: Ctx) -> SpecResult<
        (A::V, B::V, C::V, D::V, E::V, F::V, G::V),
    > {
        match <(A, (B, C, D, E, F, G)) as Parsable<'a, Ctx>>::spec_read(src, context) {
            Ok(((a, (b, c, d, e, f, g)), n)) => Ok(((a, b, c, d, e, f, g), n)),
            Err(e) => Err(e),
        }
    }

    fn read(source: &'a [u8], context: Ctx) -> (r: PResult<'a, (A, B, C, D, E, F, G)>) {
        match <(A, (B, C, D, E, F, G)) as Parsable<'a, Ctx>>::read(source, context) {
            Ok(((a, (b, c, d, e, f, g)), rest)) => Ok(((a, b, c, d, e, f, g), rest)),
            Err(e) => Err(e),
        }
    }
}

/// Eight elements: the first, then the others as a tuple of seven.
impl<
    'a,
    Ctx: Copy,
    A: Parsable<'a, Ctx>,
    B: Parsable<'a, Ctx>,
    C: Parsable<'a, Ctx>,
    D: Parsable<'a, Ctx>,
    E: Parsable<'a, Ctx>,
    F: Parsable<'a, Ctx>,
    G: Parsable<'a, Ctx>,
    H: Parsable<'a, Ctx>,
> Parsable<'a, Ctx> for (A, B, C, D, E, F, G, H) {
    open spec fn spec_read(src: Seq<u8>, context: Ctx) -> SpecResult<
        (A::V, B::V, C::V, D::V, E::V, F::V, G::V, H::V),
    > {
        match <(A, (B, C, D, E, F, G, H)) as Parsable<'a, Ctx>>::spec_read(src, context) {
            Ok(((a, (b, c, d, e, f, g, h)), n)) => Ok(((a, b, c, d, e, f, g, h), n)),
            Err(e) => Err(e),
        }
    }

    fn read(source: &'a [u8], context: Ctx) -> (r: PResult<'a, (A, B, C, D, E, F, G, H)>) {
        match <(A, (B, C, D, E, F, G, H)) as Parsable<'a, Ctx>>::read(source, context) {
            Ok(((a, (b, c, d, e, f, g, h)), rest)) => Ok(((a, b, c, d, e, f, g, h), rest)),
            Err(e) => Err(e),
        }
    }
}

/// Tuples encode their elements in order; an element without encoding fails the whole.
impl<A: Deparsable> Deparsable for (A,) {
    open spec fn spec_write(v: (A::V,)) -> Option<Seq<u8>> {
        match (A::spec_write(v.0),) {
            (Some(w0),) => Some(w0),
            _ => None,
        }
    }

    fn write(&self, out: &mut Vec<u8>) -> (r: Result<(), Error>) {
        let ghost start = out@;
        match self.0.write(out) {
            Ok(()) => {},
            Err(e) => {
                return Err(e);
            },
        }
        assert(out@ =~= start + Self::spec_write(self.deep_view())->Some_0);
        Ok(())
    }
}

impl<A: Deparsable, B: Deparsable> Deparsable for (A, B) {
    open spec fn spec_write(v: (A::V, B::V)) -> Option<Seq<u8>> {
        match (A::spec_write(v.0), B::spec_write(v.1)) {
            (Some(w0), Some(w1)) => Some(w0 + w1),
            _ => None,
        }
    }

    fn write(&self, out: &mut Vec<u8>) -> (r: Result<(), Error>) {
        let ghost start = out@;
        match self.0.write(out) {
            Ok(()) => {},
            Err(e) => {
                return Err(e);
            },
        }
        match self.1.write(out) {
            Ok(()) => {},
            Err(e) => {
                return Err(e);
            },
        }
        assert(out@ =~= start + Self::spec_write(self.deep_view())->Some_0);
        Ok(())
    }
}

impl<A: Deparsable, B: Deparsable, C: Deparsable> Deparsable for (A, B, C) {
    open spec fn spec_write(v: (A::V, B::V, C::V)) -> Option<Seq<u8>> {
        match (A::spec_write(v.0), B::spec_write(v.1), C::spec_write(v.2)) {
            (Some(w0), Some(w1), Some(w2)) => Some(w0 + w1 + w2),
            _ => None,
        }
    }

    fn write(&self, out: &mut Vec<u8>) -> (r: Result<(), Error>) {
        let ghost start = out@;
        match self.0.write(out) {
            Ok(()) => {},
            Err(e) => {
                return Err(e);
            },
        }
        match self.1.write(out) {
            Ok(()) => {},
            Err(e) => {
                return Err(e);
            },
        }
        match self.2.write(out) {
            Ok(()) => {},
            Err(e) => {
                return Err(e);
            },
        }
        assert(out@ =~= start + Self::spec_write(self.deep_view())->Some_0);
        Ok(())
    }
}

impl<A: Deparsable, B: Deparsable, C: Deparsable, D: Deparsable> Deparsable for (A, B, C, D) {
    open spec fn spec_write(v: (A::V, B::V, C::V, D::V)) -> Option<Seq<u8>> {
        match (A::spec_write(v.0), B::spec_write(v.1), C::spec_write(v.2), D::spec_write(v.3)) {
            (Some(w0), Some(w1), Some(w2), Some(w3)) => Some(w0 + w1 + w2 + w3),
            _ => None,
        }
    }

    fn write(&self, out: &mut Vec<u8>) -> (r: Result<(), Error>) {
        let ghost start = out@;
        match self.0.write(out) {
            Ok(()) => {},
            Err(e) => {
                return Err(e);
            },
        }
        match self.1.write(out) {
            Ok(()) => {},
            Err(e) => {
                return Err(e);
            },
        }
        match self.2.write(out) {
            Ok(()) => {},
            Err(e) => {
                return Err(e);
            },
        }
        match self.3.write(out) {
            Ok(()) => {},
            Err(e) => {
                return Err(e);
            },
        }
        assert(out@ =~= start + Self::spec_write(self.deep_view())->Some_0);
        Ok(())
    }
}

impl<
    A: Deparsable,
    B: Deparsable,
    C: Deparsable,
    D: Deparsable,
    E: Deparsable,
> Deparsable for (A, B, C, D, E) {
    open spec fn spec_write(v: (A::V, B::V, C::V, D::V, E::V)) -> Option<Seq<u8>> {
        match (
            A::spec_write(v.0),
            B::spec_write(v.1),
            C::spec_write(v.2),
            D::spec_write(v.3),
            E::spec_write(v.4),
        ) {
            (Some(w0), Some(w1), Some(w2), Some(w3), Some(w4)) => Some(w0 + w1 + w2 + w3 + w4),
            _ => None,
        }
    }

    fn write(&self, out: &mut Vec<u8>) -> (r: Result<(), Error>) {
        let ghost start = out@;
        match self.0.write(out) {
            Ok(()) => {},
            Err(e) => {
                return Err(e);
            },
        }
        match self.1.write(out) {
            Ok(()) => {},
            Err(e) => {
                return Err(e);
            },
        }
        match self.2.write(out) {
            Ok(()) => {},
            Err(e) => {
                return Err(e);
            },
        }
        match self.3.write(out) {
            Ok(()) => {},
            Err(e) => {
                return Err(e);
            },
        }
        match self.4.write(out) {
            Ok(()) => {},
            Err(e) => {
                return Err(e);
            },
        }
        assert(out@ =~= start + Self::spec_write(self.deep_view())->Some_0);
        Ok(())
    }
}

impl<
    A: Deparsable,
    B: Deparsable,
    C: Deparsable,
    D: Deparsable,
    E: Deparsable,
    F: Deparsable,
> Deparsable for (A, B, C, D, E, F) {
    open spec fn spec_write(v: (A::V, B::V, C::V, D::V, E::V, F::V)) -> Option<Seq<u8>> {
        match (
            A::spec_write(v.0),
            B::spec_write(v.1),
            C::spec_write(v.2),
            D::spec_write(v.3),
            E::spec_write(v.4),
            F::spec_write(v.5),
        ) {
            (
                Some(w0),
                Some(w1),
                Some(w2),
                Some(w3),
                Some(w4),
                Some(w5),
            ) => Some(w0 + w1 + w2 + w3 + w4 + w5),
            _ => None,
        }
    }

    fn write(&self, out: &mut Vec<u8>) -> (r: Result<(), Error>) {
        let ghost start = out@;
        match self.0.write(out) {
            Ok(()) => {},
            Err(e) => {
                return Err(e);
            },
        }
        match self.1.write(out) {
            Ok(()) => {},
            Err(e) => {
                return Err(e);
            },
        }
        match self.2.write(out) {
            Ok(()) => {},
            Err(e) => {
                return Err(e);
            },
        }
        match self.3.write(out) {
            Ok(()) => {},
            Err(e) => {
                return Err(e);
            },
        }
        match self.4.write(out) {
            Ok(()) => {},
            Err(e) => {
                return Err(e);
            },
        }
        match self.5.write(out) {
            Ok(()) => {},
            Err(e) => {
                return Err(e);
            },
        }
        assert(out@ =~= start + Self::spec_write(self.deep_view())->Some_0);
        Ok(())
    }
}

impl<
    A: Deparsable,
    B: Deparsable,
    C: Deparsable,
    D: Deparsable,
    E: Deparsable,
    F: Deparsable,
    G: Deparsable,
> Deparsable for (A, B, C, D, E, F, G) {
    open spec fn spec_write(v: (A::V, B::V, C::V, D::V, E::V, F::V, G::V)) -> Option<Seq<u8>> {
        match (
            A::spec_write(v.0),
            B::spec_write(v.1),
            C::spec_write(v.2),
            D::spec_write(v.3),
            E::spec_write(v.4),
            F::spec_write(v.5),
            G::spec_write(v.6),
        ) {
            (
                Some(w0),
                Some(w1),
                Some(w2),
                Some(w3),
                Some(w4),
                Some(w5),
                Some(w6),
            ) => Some(w0 + w1 + w2 + w3 + w4 + w5 + w6),
            _ => None,
        }
    }

    fn write(&self, out: &mut Vec<u8>) -> (r: Result<(), Error>) {
        let ghost start = out@;
        match self.0.write(out) {
            Ok(()) => {},
            Err(e) => {
                return Err(e);
            },
        }
        match self.1.write(out) {
            Ok(()) => {},
            Err(e) => {
                return Err(e);
            },
        }
        match self.2.write(out) {
            Ok(()) => {},
            Err(e) => {
                return Err(e);
            },
        }
        match self.3.write(out) {
            Ok(()) => {},
            Err(e) => {
                return Err(e);
            },
        }
        match self.4.write(out) {
            Ok(()) => {},
            Err(e) => {
                return Err(e);
            },
        }
        match self.5.write(out) {
            Ok(()) => {},
            Err(e) => {
                return Err(e);
            },
        }
        match self.6.write(out) {
            Ok(()) => {},
            Err(e) => {
                return Err(e);
            },
        }
        assert(out@ =~= start + Self::spec_write(self.deep_view())->Some_0);
        Ok(())
    }
}

impl<
    A: Deparsable,
    B: Deparsable,
    C: Deparsable,
    D: Deparsable,
    E: Deparsable,
    F: Deparsable,
    G: Deparsable,
    H: Deparsable,
> Deparsable for (A, B, C, D, E, F, G, H) {
    open spec fn spec_write(v: (A::V, B::V, C::V, D::V, E::V, F::V, G::V, H::V)) -> Option<
        Seq<u8>,
    > {
        match (
            A::spec_write(v.0),
            B::spec_write(v.1),
            C::spec_write(v.2),
            D::spec_write(v.3),
            E::spec_write(v.4),
            F::spec_write(v.5),
            G::spec_write(v.6),
            H::spec_write(v.7),
        ) {
            (
                Some(w0),
                Some(w1),
                Some(w2),
                Some(w3),
                Some(w4),
                Some(w5),
                Some(w6),
                Some(w7),
            ) => Some(w0 + w1 + w2 + w3 + w4 + w5 + w6 + w7),
            _ => None,
        }
    }

    fn write(&self, out: &mut Vec<u8>) -> (r: Result<(), Error>) {
        let ghost start = out@;
        match self.0.write(out) {
            Ok(()) => {},
            Err(e) => {
                return Err(e);
            },
        }
        match self.1.write(out) {
            Ok(()) => {},
            Err(e) => {
                return Err(e);
            },
        }
        match self.2.write(out) {
            Ok(()) => {},
            Err(e) => {
                return Err(e);
            },
        }
        match self.3.write(out) {
            Ok(()) => {},
            Err(e) => {
                return Err(e);
            },
        }
        match self.4.write(out) {
            Ok(()) => {},
            Err(e) => {
                return Err(e);
            },
        }
        match self.5.write(out) {
            Ok(()) => {},
            Err(e) => {
                return Err(e);
            },
        }
        match self.6.write(out) {
            Ok(()) => {},
            Err(e) => {
                return Err(e);
            },
        }
        match self.7.write(out) {
            Ok(()) => {},
            Err(e) => {
                return Err(e);
            },
        }
        assert(out@ =~= start + Self::spec_write(self.deep_view())->Some_0);
        Ok(())
    }
}

/// Encoding items that each round-trip and decoding as many items from the bytes, followed
/// by anything, gives the items back.
pub proof fn lemma_count_round_trip<'a, Ctx, T: RoundTrip<'a, Ctx>>(
    vs: Seq<T::V>,
    context: Ctx,
    rest: Seq<u8>,
)
    requires
        forall|i: int| 0 <= i < vs.len() ==> T::round_trips(#[trigger] vs[i], context),
    ensures
        spec_write_all::<T>(vs) matches Some(b) && spec_read_count::<Ctx, T>(
            b + rest,
            context,
            vs.len(),
        ) == Ok::<(Seq<T::V>, nat), (Error, nat)>((vs, b.len())),
    decreases vs.len(),
{
    if vs.len() > 0 {
        let dl = vs.drop_last();
        T::lemma_round_trip(vs.last(), context, rest);
        let bl = T::spec_write(vs.last())->Some_0;
        assert forall|i: int| 0 <= i < dl.len() implies T::round_trips(#[trigger] dl[i], context) by {
            assert(dl[i] == vs[i]);
        }
        lemma_count_round_trip::<Ctx, T>(dl, context, bl + rest);
        let bd = spec_write_all::<T>(dl)->Some_0;
        assert(bd + bl + rest =~= bd + (bl + rest));
        assert((bd + (bl + rest)).skip(bd.len() as int) =~= bl + rest);
        assert(dl.push(vs.last()) =~= vs);
    } else {
        assert(vs =~= Seq::<T::V>::empty());
    }
}

impl<'a, Ctx: Copy, T: RoundTrip<'a, Ctx>, const N: usize> RoundTrip<'a, Ctx> for [T; N] {
    open spec fn round_trips(v: Seq<T::V>, context: Ctx) -> bool {
        &&& v.len() == N
        &&& forall|i: int| 0 <= i < v.len() ==> T::round_trips(#[trigger] v[i], context)
    }

    proof fn lemma_round_trip(v: Seq<T::V>, context: Ctx, rest: Seq<u8>) {
        lemma_count_round_trip::<Ctx, T>(v, context, rest);
    }
}

impl<'a, Ctx, T: RoundTrip<'a, Ctx>> RoundTrip<'a, Ctx> for Box<T> {
    open spec fn round_trips(v: T::V, context: Ctx) -> bool {
        T::round_trips(v, context)
    }

    proof fn lemma_round_trip(v: T::V, context: Ctx, rest: Seq<u8>) {
        T::lemma_round_trip(v, context, rest);
    }
}

impl<'a, Ctx: Copy, A: RoundTrip<'a, Ctx>> RoundTrip<'a, Ctx> for (A,) {
    open spec fn round_trips(v: (A::V,), context: Ctx) -> bool {
        A::round_trips(v.0, context)
    }

    proof fn lemma_round_trip(v: (A::V,), context: Ctx, rest: Seq<u8>) {
        A::lemma_round_trip(v.0, context, rest);
    }
}

impl<'a, Ctx: Copy, A: RoundTrip<'a, Ctx>, B: RoundTrip<'a, Ctx>> RoundTrip<'a, Ctx> for (A, B) {
    open spec fn round_trips(v: (A::V, B::V), context: Ctx) -> bool {
        A::round_trips(v.0, context) && B::round_trips(v.1, context)
    }

    proof fn lemma_round_trip(v: (A::V, B::V), context: Ctx, rest: Seq<u8>) {
        let wb = B::spec_write(v.1)->Some_0;
        A::lemma_round_trip(v.0, context, wb + rest);
        B::lemma_round_trip(v.1, context, rest);
        let wa = A::spec_write(v.0)->Some_0;
        assert(wa + wb + rest =~= wa + (wb + rest));
        assert((wa + (wb + rest)).skip(wa.len() as int) =~= wb + rest);
    }
}

impl<
    'a,
    Ctx: Copy,
    A: RoundTrip<'a, Ctx>,
    B: RoundTrip<'a, Ctx>,
    C: RoundTrip<'a, Ctx>,
> RoundTrip<'a, Ctx> for (A, B, C) {
    open spec fn round_trips(v: (A::V, B::V, C::V), context: Ctx) -> bool {
        A::round_trips(v.0, context)
        && B::round_trips(v.1, context)
        && C::round_trips(v.2, context)
    }

    proof fn lemma_round_trip(v: (A::V, B::V, C::V), context: Ctx, rest: Seq<u8>) {
        let inner = (v.1, v.2);
        <(A, (B, C)) as RoundTrip<'a, Ctx>>::lemma_round_trip((v.0, inner), context, rest);
        let w0 = A::spec_write(v.0)->Some_0;
        let w1 = B::spec_write(v.1)->Some_0;
        let w2 = C::spec_write(v.2)->Some_0;
        assert(w0 + w1 + w2 =~= w0 + (w1 + w2));
    }
}

impl<
    'a,
    Ctx: Copy,
    A: RoundTrip<'a, Ctx>,
    B: RoundTrip<'a, Ctx>,
    C: RoundTrip<'a, Ctx>,
    D: RoundTrip<'a, Ctx>,
> RoundTrip<'a, Ctx> for (A, B, C, D) {
    open spec fn round_trips(v: (A::V, B::V, C::V, D::V), context: Ctx) -> bool {
        A::round_trips(v.0, context)
        && B::round_trips(v.1, context)
        && C::round_trips(v.2, context)
        && D::round_trips(v.3, context)
    }

    proof fn lemma_round_trip(v: (A::V, B::V, C::V, D::V), context: Ctx, rest: Seq<u8>) {
        let inner = (v.1, v.2, v.3);
        <(A, (B, C, D)) as RoundTrip<'a, Ctx>>::lemma_round_trip((v.0, inner), context, rest);
        let w0 = A::spec_write(v.0)->Some_0;
        let w1 = B::spec_write(v.1)->Some_0;
        let w2 = C::spec_write(v.2)->Some_0;
        let w3 = D::spec_write(v.3)->Some_0;
        assert(w0 + w1 + w2 + w3 =~= w0 + (w1 + w2 + w3));
    }
}

impl<
    'a,
    Ctx: Copy,
    A: RoundTrip<'a, Ctx>,
    B: RoundTrip<'a, Ctx>,
    C: RoundTrip<'a, Ctx>,
    D: RoundTrip<'a, Ctx>,
    E: RoundTrip<'a, Ctx>,
> RoundTrip<'a, Ctx> for (A, B, C, D, E) {
    open spec fn round_trips(v: (A::V, B::V, C::V, D::V, E::V), context: Ctx) -> bool {
        A::round_trips(v.0, context)
        && B::round_trips(v.1, context)
        && C::round_trips(v.2, context)
        && D::round_trips(v.3, context)
        && E::round_trips(v.4, context)
    }

    proof fn lemma_round_trip(v: (A::V, B::V, C::V, D::V, E::V), context: Ctx, rest: Seq<u8>) {
        let inner = (v.1, v.2, v.3, v.4);
        <(A, (B, C, D, E)) as RoundTrip<'a, Ctx>>::lemma_round_trip((v.0, inner), context, rest);
        let w0 = A::spec_write(v.0)->Some_0;
        let w1 = B::spec_write(v.1)->Some_0;
        let w2 = C::spec_write(v.2)->Some_0;
        let w3 = D::spec_write(v.3)->Some_0;
        let w4 = E::spec_write(v.4)->Some_0;
        assert(w0 + w1 + w2 + w3 + w4 =~= w0 + (w1 + w2 + w3 + w4));
    }
}

impl<
    'a,
    Ctx: Copy,
    A: RoundTrip<'a, Ctx>,
    B: RoundTrip<'a, Ctx>,
    C: RoundTrip<'a, Ctx>,
    D: RoundTrip<'a, Ctx>,
    E: RoundTrip<'a, Ctx>,
    F: RoundTrip<'a, Ctx>,
> RoundTrip<'a, Ctx> for (A, B, C, D, E, F) {
    open spec fn round_trips(v: (A::V, B::V, C::V, D::V, E::V, F::V), context: Ctx) -> bool {
        A::round_trips(v.0, context)
        && B::round_trips(v.1, context)
        && C::round_trips(v.2, context)
        && D::round_trips(v.3, context)
        && E::round_trips(v.4, context)
        && F::round_trips(v.5, context)
    }

    proof fn lemma_round_trip(v: (A::V, B::V, C::V, D::V, E::V, F::V), context: Ctx, rest: Seq<u8>) {
        let inner = (v.1, v.2, v.3, v.4, v.5);
        <(A, (B, C, D, E, F)) as RoundTrip<'a, Ctx>>::lemma_round_trip((v.0, inner), context, rest);
        let w0 = A::spec_write(v.0)->Some_0;
        let w1 = B::spec_write(v.1)->Some_0;
        let w2 = C::spec_write(v.2)->Some_0;
        let w3 = D::spec_write(v.3)->Some_0;
        let w4 = E::spec_write(v.4)->Some_0;
        let w5 = F::spec_write(v.5)->Some_0;
        assert(w0 + w1 + w2 + w3 + w4 + w5 =~= w0 + (w1 + w2 + w3 + w4 + w5));
    }
}

impl<
    'a,
    Ctx: Copy,
    A: RoundTrip<'a, Ctx>,
    B: RoundTrip<'a, Ctx>,
    C: RoundTrip<'a, Ctx>,
    D: RoundTrip<'a, Ctx>,
    E: RoundTrip<'a, Ctx>,
    F: RoundTrip<'a, Ctx>,
    G: RoundTrip<'a, Ctx>,
> RoundTrip<'a, Ctx> for (A, B, C, D, E, F, G) {
    open spec fn round_trips(v: (A::V, B::V, C::V, D::V, E::V, F::V, G::V), context: Ctx) -> bool {
        A::round_trips(v.0, context)
        && B::round_trips(v.1, context)
        && C::round_trips(v.2, context)
        && D::round_trips(v.3, context)
        && E::round_trips(v.4, context)
        && F::round_trips(v.5, context)
        && G::round_trips(v.6, context)
    }

    proof fn lemma_round_trip(v: (A::V, B::V, C::V, D::V, E::V, F::V, G::V), context: Ctx, rest: Seq<u8>) {
        let inner = (v.1, v.2, v.3, v.4, v.5, v.6);
        <(A, (B, C, D, E, F, G)) as RoundTrip<'a, Ctx>>::lemma_round_trip((v.0, inner), context, rest);
        let w0 = A::spec_write(v.0)->Some_0;
        let w1 = B::spec_write(v.1)->Some_0;
        let w2 = C::spec_write(v.2)->Some_0;
        let w3 = D::spec_write(v.3)->Some_0;
        let w4 = E::spec_write(v.4)->Some_0;
        let w5 = F::spec_write(v.5)->Some_0;
        let w6 = G::spec_write(v.6)->Some_0;
        assert(w0 + w1 + w2 + w3 + w4 + w5 + w6 =~= w0 + (w1 + w2 + w3 + w4 + w5 + w6));
    }
}

impl<
    'a,
    Ctx: Copy,
    A: RoundTrip<'a, Ctx>,
    B: RoundTrip<'a, Ctx>,
    C: RoundTrip<'a, Ctx>,
    D: RoundTrip<'a, Ctx>,
    E: RoundTrip<'a, Ctx>,
    F: RoundTrip<'a, Ctx>,
    G: RoundTrip<'a, Ctx>,
    H: RoundTrip<'a, Ctx>,
> RoundTrip<'a, Ctx> for (A, B, C, D, E, F, G, H) {
    open spec fn round_trips(v: (A::V, B::V, C::V, D::V, E::V, F::V, G::V, H::V), context: Ctx) -> bool {
        A::round_trips(v.0, context)
        && B::round_trips(v.1, context)
        && C::round_trips(v.2, context)
        && D::round_trips(v.3, context)
        && E::round_trips(v.4, context)
        && F::round_trips(v.5, context)
        && G::round_trips(v.6, context)
        && H::round_trips(v.7, context)
    }

    proof fn lemma_round_trip(v: (A::V, B::V, C::V, D::V, E::V, F::V, G::V, H::V), context: Ctx, rest: Seq<u8>) {
        let inner = (v.1, v.2, v.3, v.4, v.5, v.6, v.7);
        <(A, (B, C, D, E, F, G, H)) as RoundTrip<'a, Ctx>>::lemma_round_trip((v.0, inner), context, rest);
        let w0 = A::spec_write(v.0)->Some_0;
        let w1 = B::spec_write(v.1)->Some_0;
        let w2 = C::spec_write(v.2)->Some_0;
        let w3 = D::spec_write(v.3)->Some_0;
        let w4 = E::spec_write(v.4)->Some_0;
        let w5 = F::spec_write(v.5)->Some_0;
        let w6 = G::spec_write(v.6)->Some_0;
        let w7 = H::spec_write(v.7)->Some_0;
        assert(w0 + w1 + w2 + w3 + w4 + w5 + w6 + w7 =~= w0 + (w1 + w2 + w3 + w4 + w5 + w6 + w7));
    }
}

/// Decoding an optional value never fails; where the inner value does not decode, the
/// result is `None` and nothing is consumed.
pub proof fn lemma_option_swallows<'a, Ctx, T: Parsable<'a, Ctx>>(src: Seq<u8>, context: Ctx)
    ensures
        Option::<T>::spec_read(src, context) is Ok,
        T::spec_read(src, context) is Err ==> Option::<T>::spec_read(src, context) == Ok::<
            (Option<T::V>, nat),
            (Error, nat),
        >((None, 0)),
{
}

/// Greedy decoding never fails, and stops where the next item does not decode from what is
/// left: it fails there, or would consume nothing (or, in the model, more than remains).
pub proof fn lemma_greedy_total<'a, Ctx: Copy, T: Parsable<'a, Ctx>>(src: Seq<u8>, context: Ctx)
    ensures
        Vec::<T>::spec_read(src, context) matches Ok((vs, n)) && n <= src.len() && (
        T::spec_read(src.skip(n as int), context) matches Ok((_, m)) ==> m == 0 || m > src.len()
            - n),
    decreases src.len(),
{
    match T::spec_read(src, context) {
        Ok((v, n)) => {
            if 0 < n <= src.len() {
                lemma_greedy_total::<Ctx, T>(src.skip(n as int), context);
                let m = spec_greedy::<Ctx, T>(src.skip(n as int), context).1;
                assert(src.skip(n as int).skip(m as int) =~= src.skip((n + m) as int));
            } else {
                assert(src.skip(0) =~= src);
            }
        },
        Err(_) => {
            assert(src.skip(0) =~= src);
        },
    }
}

} // verus!
