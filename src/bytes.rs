use vstd::prelude::*;

verus! {

/// `256` raised to the power `n`.
pub open spec fn pow256(n: nat) -> nat
    decreases n,
{
    if n == 0 {
        1
    } else {
        256 * pow256((n - 1) as nat)
    }
}

/// The number that `b` spells out, least significant byte first.
pub open spec fn le_nat(b: Seq<u8>) -> nat
    decreases b.len(),
{
    if b.len() == 0 {
        0
    } else {
        b[0] as nat + 256 * le_nat(b.drop_first())
    }
}

/// The number that `b` spells out, most significant byte first.
pub open spec fn be_nat(b: Seq<u8>) -> nat
    decreases b.len(),
{
    if b.len() == 0 {
        0
    } else {
        be_nat(b.drop_last()) * 256 + b.last() as nat
    }
}

/// The `n` bytes that spell `x`, least significant first.
pub open spec fn le_bytes(x: nat, n: nat) -> Seq<u8>
    decreases n,
{
    if n == 0 {
        Seq::empty()
    } else {
        seq![(x % 256) as u8] + le_bytes(x / 256, (n - 1) as nat)
    }
}

/// The `n` bytes that spell `x`, most significant first.
pub open spec fn be_bytes(x: nat, n: nat) -> Seq<u8>
    decreases n,
{
    if n == 0 {
        Seq::empty()
    } else {
        be_bytes(x / 256, (n - 1) as nat).push((x % 256) as u8)
    }
}

/// The number spelt by `b` in the given byte order.
pub open spec fn nat_of(b: Seq<u8>, big: bool) -> nat {
    if big {
        be_nat(b)
    } else {
        le_nat(b)
    }
}

/// The `n` bytes that spell `x` in the given byte order.
pub open spec fn bytes_of(x: nat, n: nat, big: bool) -> Seq<u8> {
    if big {
        be_bytes(x, n)
    } else {
        le_bytes(x, n)
    }
}

pub proof fn lemma_pow256_positive(n: nat)
    ensures
        pow256(n) >= 1,
    decreases n,
{
    if n > 0 {
        lemma_pow256_positive((n - 1) as nat);
    }
}

pub proof fn lemma_pow256_monotonic(m: nat, n: nat)
    requires
        m <= n,
    ensures
        pow256(m) <= pow256(n),
    decreases n,
{
    if m < n {
        lemma_pow256_monotonic(m, (n - 1) as nat);
        lemma_pow256_positive((n - 1) as nat);
    }
}

pub proof fn lemma_pow256_eight()
    ensures
        pow256(8) == 0x1_0000_0000_0000_0000,
        pow256(4) == 0x1_0000_0000,
        pow256(2) == 0x1_0000,
        pow256(1) == 0x100,
{
    reveal_with_fuel(pow256, 9);
}

pub proof fn lemma_le_nat_bound(b: Seq<u8>)
    ensures
        le_nat(b) < pow256(b.len()),
    decreases b.len(),
{
    if b.len() > 0 {
        let r = le_nat(b.drop_first());
        lemma_le_nat_bound(b.drop_first());
        let p = pow256((b.len() - 1) as nat);
        assert((b[0] as nat) + 256 * r < 256 * p) by (nonlinear_arith)
            requires
                r < p,
                b[0] < 256,
        ;
    }
}

pub proof fn lemma_be_nat_bound(b: Seq<u8>)
    ensures
        be_nat(b) < pow256(b.len()),
    decreases b.len(),
{
    if b.len() > 0 {
        let r = be_nat(b.drop_last());
        lemma_be_nat_bound(b.drop_last());
        let p = pow256((b.len() - 1) as nat);
        assert(r * 256 + (b.last() as nat) < 256 * p) by (nonlinear_arith)
            requires
                r < p,
                b.last() < 256,
        ;
    }
}

pub proof fn lemma_nat_of_bound(b: Seq<u8>, big: bool)
    ensures
        nat_of(b, big) < pow256(b.len()),
{
    if big {
        lemma_be_nat_bound(b);
    } else {
        lemma_le_nat_bound(b);
    }
}

pub proof fn lemma_le_bytes_len(x: nat, n: nat)
    ensures
        le_bytes(x, n).len() == n,
    decreases n,
{
    if n > 0 {
        lemma_le_bytes_len(x / 256, (n - 1) as nat);
    }
}

pub proof fn lemma_be_bytes_len(x: nat, n: nat)
    ensures
        be_bytes(x, n).len() == n,
    decreases n,
{
    if n > 0 {
        lemma_be_bytes_len(x / 256, (n - 1) as nat);
    }
}

pub proof fn lemma_bytes_of_len(x: nat, n: nat, big: bool)
    ensures
        bytes_of(x, n, big).len() == n,
{
    if big {
        lemma_be_bytes_len(x, n);
    } else {
        lemma_le_bytes_len(x, n);
    }
}

/// Spelling a number that fits and reading it back gives the number.
pub proof fn lemma_le_round_trip(x: nat, n: nat)
    requires
        x < pow256(n),
    ensures
        le_nat(le_bytes(x, n)) == x,
    decreases n,
{
    if n > 0 {
        let p = pow256((n - 1) as nat);
        assert(x / 256 < p) by (nonlinear_arith)
            requires
                x < 256 * p,
        ;
        lemma_le_round_trip(x / 256, (n - 1) as nat);
        let s = le_bytes(x, n);
        assert(s.drop_first() =~= le_bytes(x / 256, (n - 1) as nat));
        assert(x == x % 256 + 256 * (x / 256)) by (nonlinear_arith);
    }
}

pub proof fn lemma_be_round_trip(x: nat, n: nat)
    requires
        x < pow256(n),
    ensures
        be_nat(be_bytes(x, n)) == x,
    decreases n,
{
    if n > 0 {
        let p = pow256((n - 1) as nat);
        assert(x / 256 < p) by (nonlinear_arith)
            requires
                x < 256 * p,
        ;
        lemma_be_round_trip(x / 256, (n - 1) as nat);
        let s = be_bytes(x, n);
        assert(s.drop_last() =~= be_bytes(x / 256, (n - 1) as nat));
        assert(x == (x / 256) * 256 + x % 256) by (nonlinear_arith);
    }
}

pub proof fn lemma_number_round_trip(x: nat, n: nat, big: bool)
    requires
        x < pow256(n),
    ensures
        nat_of(bytes_of(x, n, big), big) == x,
        bytes_of(x, n, big).len() == n,
{
    lemma_bytes_of_len(x, n, big);
    if big {
        lemma_be_round_trip(x, n);
    } else {
        lemma_le_round_trip(x, n);
    }
}

/// Reading bytes as a number and spelling it again gives the same bytes.
pub proof fn lemma_le_bytes_of_nat(b: Seq<u8>)
    ensures
        le_bytes(le_nat(b), b.len()) == b,
    decreases b.len(),
{
    if b.len() > 0 {
        let r = le_nat(b.drop_first());
        let x = le_nat(b);
        assert(x % 256 == b[0] as nat && x / 256 == r) by (nonlinear_arith)
            requires
                x == b[0] as nat + 256 * r,
                b[0] < 256,
        ;
        lemma_le_bytes_of_nat(b.drop_first());
        assert(le_bytes(x, b.len()) =~= b);
    }
}

pub proof fn lemma_be_bytes_of_nat(b: Seq<u8>)
    ensures
        be_bytes(be_nat(b), b.len()) == b,
    decreases b.len(),
{
    if b.len() > 0 {
        let r = be_nat(b.drop_last());
        let x = be_nat(b);
        assert(x % 256 == b.last() as nat && x / 256 == r) by (nonlinear_arith)
            requires
                x == r * 256 + b.last() as nat,
                b.last() < 256,
        ;
        lemma_be_bytes_of_nat(b.drop_last());
        assert(be_bytes(x, b.len()) =~= b);
    }
}

pub proof fn lemma_bytes_of_nat(b: Seq<u8>, big: bool)
    ensures
        bytes_of(nat_of(b, big), b.len(), big) == b,
{
    if big {
        lemma_be_bytes_of_nat(b);
    } else {
        lemma_le_bytes_of_nat(b);
    }
}

/// The number spelt least significant first by `b[start..start + n]`.
fn read_le(b: &[u8], start: usize, n: usize) -> (x: u64)
    requires
        start + n <= b@.len(),
        n <= 8,
    ensures
        x == le_nat(b@.subrange(start as int, start + n)),
    decreases n,
{
    if n == 0 {
        0
    } else {
        // The slice's length bounds `start + n`, so the call below does not overflow.
        let _ = b.len();
        let r = read_le(b, start + 1, n - 1);
        proof {
            let s = b@.subrange(start as int, start + n);
            assert(s.drop_first() =~= b@.subrange(start + 1, start + n));
            lemma_le_nat_bound(s.drop_first());
            lemma_pow256_monotonic((n - 1) as nat, 7);
            lemma_pow256_eight();
            reveal_with_fuel(pow256, 8);
            assert(b[start as int] + 256 * r < 0x1_0000_0000_0000_0000) by (nonlinear_arith)
                requires
                    r < 0x100_0000_0000_0000,
                    b[start as int] < 256,
            ;
        }
        b[start] as u64 + 256 * r
    }
}

/// The number spelt most significant first by `b[start..start + n]`.
fn read_be(b: &[u8], start: usize, n: usize) -> (x: u64)
    requires
        start + n <= b@.len(),
        n <= 8,
    ensures
        x == be_nat(b@.subrange(start as int, start + n)),
    decreases n,
{
    if n == 0 {
        0
    } else {
        // The slice's length bounds `start + n`, so the index below does not overflow.
        let _ = b.len();
        let r = read_be(b, start, n - 1);
        proof {
            let s = b@.subrange(start as int, start + n);
            assert(s.drop_last() =~= b@.subrange(start as int, start + n - 1));
            lemma_be_nat_bound(s.drop_last());
            lemma_pow256_monotonic((n - 1) as nat, 7);
            reveal_with_fuel(pow256, 8);
            assert(r * 256 + b[start + n - 1] < 0x1_0000_0000_0000_0000) by (nonlinear_arith)
                requires
                    r < 0x100_0000_0000_0000,
                    b[start + n - 1] < 256,
            ;
        }
        r * 256 + b[start + n - 1] as u64
    }
}

/// The number spelt by the first `n` bytes of `b` in the given byte order.
pub fn read_uint(b: &[u8], n: usize, big: bool) -> (x: u64)
    requires
        n <= b@.len(),
        n <= 8,
    ensures
        x == nat_of(b@.take(n as int), big),
{
    assert(b@.take(n as int) =~= b@.subrange(0, n as int));
    if big {
        read_be(b, 0, n)
    } else {
        read_le(b, 0, n)
    }
}

fn write_le(x: u64, n: usize, out: &mut Vec<u8>)
    ensures
        final(out)@ == old(out)@ + le_bytes(x as nat, n as nat),
    decreases n,
{
    if n > 0 {
        out.push((x % 256) as u8);
        write_le(x / 256, n - 1, out);
        assert(final(out)@ =~= old(out)@ + le_bytes(x as nat, n as nat));
    }
}

fn write_be(x: u64, n: usize, out: &mut Vec<u8>)
    ensures
        final(out)@ == old(out)@ + be_bytes(x as nat, n as nat),
    decreases n,
{
    if n > 0 {
        write_be(x / 256, n - 1, out);
        out.push((x % 256) as u8);
        assert(final(out)@ =~= old(out)@ + be_bytes(x as nat, n as nat));
    }
}

/// Appends the `n` bytes that spell `x` in the given byte order.
pub fn write_uint(x: u64, n: usize, big: bool, out: &mut Vec<u8>)
    ensures
        final(out)@ == old(out)@ + bytes_of(x as nat, n as nat, big),
{
    if big {
        write_be(x, n, out);
    } else {
        write_le(x, n, out);
    }
}

/// Appends every byte of `b` to `out`.
pub fn push_all(out: &mut Vec<u8>, b: &[u8])
    ensures
        final(out)@ == old(out)@ + b@,
{
    let ghost start = out@;
    let mut i: usize = 0;
    while i < b.len()
        invariant
            i <= b@.len(),
            out@ == start + b@.take(i as int),
        decreases b@.len() - i,
    {
        out.push(b[i]);
        i += 1;
        assert(out@ =~= start + b@.take(i as int));
    }
    assert(b@.take(i as int) =~= b@);
}

/// Splits `input` after its first `at` elements, or gives `None` where it is shorter.
pub fn try_split_at<S>(input: &[S], at: usize) -> (r: Option<(&[S], &[S])>)
    ensures
        r is Some <==> at <= input@.len(),
        r matches Some((head, tail)) ==> head@ == input@.take(at as int) && tail@ == input@.skip(
            at as int,
        ),
{
    if at <= input.len() {
        let head = vstd::slice::slice_subrange(input, 0, at);
        let tail = vstd::slice::slice_subrange(input, at, input.len());
        assert(head@ =~= input@.take(at as int));
        assert(tail@ =~= input@.skip(at as int));
        Some((head, tail))
    } else {
        None
    }
}

/// Relies on `<[S]>::split_first_chunk`: the first `N` elements as an array and the rest, or
/// `None` where fewer than `N` remain.
#[verifier::external_body]
fn split_first_chunk<S, const N: usize>(input: &[S]) -> (r: Option<(&[S; N], &[S])>)
    ensures
        r is Some <==> N <= input@.len(),
        r matches Some((head, tail)) ==> head@ == input@.take(N as int) && tail@ == input@.skip(
            N as int,
        ),
{
    input.split_first_chunk::<N>()
}

/// Splits the first `N` elements of `input` off as an array, or gives `None` where fewer
/// remain.
pub fn try_split_array<S, const N: usize>(input: &[S]) -> (r: Option<(&[S; N], &[S])>)
    ensures
        r is Some <==> N <= input@.len(),
        r matches Some((head, tail)) ==> head@ == input@.take(N as int) && tail@ == input@.skip(
            N as int,
        ),
{
    split_first_chunk::<S, N>(input)
}

} // verus!
