//! Little-endian integers.

use vstd::prelude::*;

verus! {

/// The `n` low bytes of `x`, the lowest first.
pub open spec fn le_bytes(x: nat, n: nat) -> Seq<u8>
    decreases n,
{
    if n == 0 {
        Seq::empty()
    } else {
        seq![(x % 256) as u8] + le_bytes(x / 256, (n - 1) as nat)
    }
}

/// The number whose bytes, the lowest first, are `s`.
pub open spec fn le_value(s: Seq<u8>) -> nat
    decreases s.len(),
{
    if s.len() == 0 {
        0
    } else {
        s[0] as nat + 256 * le_value(s.skip(1))
    }
}

/// The number of values that `n` bytes can hold.
pub open spec fn byte_range(n: nat) -> nat
    decreases n,
{
    if n == 0 {
        1
    } else {
        256 * byte_range((n - 1) as nat)
    }
}

/// Appends the `n` low bytes of `x`.
pub fn write_le(out: &mut Vec<u8>, x: u64, n: usize)
    ensures
        final(out)@ == old(out)@ + le_bytes(x as nat, n as nat),
{
    let mut rest: u64 = x;
    let mut left: usize = n;
    assert(out@ + le_bytes(x as nat, n as nat) == old(out)@ + le_bytes(x as nat, n as nat));
    while left > 0
        invariant
            out@ + le_bytes(rest as nat, left as nat) == old(out)@ + le_bytes(x as nat, n as nat),
        decreases left,
    {
        let ghost before = out@;
        out.push((rest % 256) as u8);
        assert(before + le_bytes(rest as nat, left as nat) =~= out@ + le_bytes(
            (rest / 256) as nat,
            (left - 1) as nat,
        ));
        rest = rest / 256;
        left = left - 1;
    }
    assert(out@ + Seq::<u8>::empty() =~= out@);
}

/// Reads a little-endian number of at most eight bytes.
pub fn read_le(s: &[u8]) -> (x: u64)
    requires
        s@.len() <= 8,
    ensures
        x == le_value(s@),
{
    let mut x: u64 = 0;
    let mut i: usize = s.len();
    assert(s@.skip(s@.len() as int) =~= Seq::<u8>::empty());
    while i > 0
        invariant
            s@.len() <= 8,
            i <= s@.len(),
            x == le_value(s@.skip(i as int)),
        decreases i,
    {
        i = i - 1;
        proof {
            let tail = s@.skip(i as int);
            assert(tail.skip(1) =~= s@.skip(i + 1));
            value_is_below_range(tail);
            lemma_range_monotonic(tail.len(), 8);
            field_ranges();
        }
        x = s[i] as u64 + 256 * x;
    }
    assert(s@.skip(0) =~= s@);
    x
}

proof fn lemma_range_monotonic(a: nat, b: nat)
    requires
        a <= b,
    ensures
        0 < byte_range(a) <= byte_range(b),
    decreases b,
{
    if a < b {
        lemma_range_monotonic(a, (b - 1) as nat);
    } else if a > 0 {
        lemma_range_monotonic((a - 1) as nat, (b - 1) as nat);
    }
}

/// Two bytes hold every `u16`, four every `u32`, eight every `u64`.
pub proof fn field_ranges()
    ensures
        byte_range(2) == 0x1_0000,
        byte_range(4) == 0x1_0000_0000,
        byte_range(8) == 0x1_0000_0000_0000_0000,
{
    reveal_with_fuel(byte_range, 9);
}

/// A number of `n` bytes is below `byte_range(n)`.
pub proof fn value_is_below_range(s: Seq<u8>)
    ensures
        le_value(s) < byte_range(s.len()),
    decreases s.len(),
{
    if s.len() > 0 {
        value_is_below_range(s.skip(1));
    }
}

/// `le_bytes(x, n)` has `n` bytes.
pub proof fn bytes_have_length(x: nat, n: nat)
    ensures
        le_bytes(x, n).len() == n,
    decreases n,
{
    if n > 0 {
        bytes_have_length(x / 256, (n - 1) as nat);
    }
}

/// Reading gives back what was written, for every number that fits.
pub proof fn reading_undoes_writing(x: nat, n: nat)
    requires
        x < byte_range(n),
    ensures
        le_value(le_bytes(x, n)) == x,
    decreases n,
{
    if n > 0 {
        reading_undoes_writing(x / 256, (n - 1) as nat);
        assert(le_bytes(x, n).skip(1) =~= le_bytes(x / 256, (n - 1) as nat));
    }
}

/// The value of two, four and eight bytes, written out.
pub proof fn value_in_numbers(s: Seq<u8>)
    ensures
        s.len() == 2 ==> le_value(s) == s[0] + 0x100 * s[1],
        s.len() == 4 ==> le_value(s) == s[0] + 0x100 * s[1] + 0x1_0000 * s[2] + 0x100_0000 * s[3],
        s.len() == 8 ==> le_value(s) == s[0] + 0x100 * s[1] + 0x1_0000 * s[2] + 0x100_0000 * s[3]
            + 0x1_0000_0000 * s[4] + 0x100_0000_0000 * s[5] + 0x1_0000_0000_0000 * s[6]
            + 0x100_0000_0000_0000 * s[7],
{
    reveal_with_fuel(le_value, 9);
}

/// Writing keeps the low bytes of a number and drops the high ones.
pub proof fn high_bytes_are_dropped(x: nat, n: nat)
    ensures
        le_bytes(x, n).len() == n,
        le_value(le_bytes(x, n)) == x % byte_range(n),
    decreases n,
{
    bytes_have_length(x, n);
    lemma_range_monotonic(n, n);
    if n == 0 {
        assert(x % 1 == 0);
    } else {
        let below = (n - 1) as nat;
        high_bytes_are_dropped(x / 256, below);
        lemma_range_monotonic(below, below);
        assert(le_bytes(x, n).skip(1) =~= le_bytes(x / 256, below));
        vstd::arithmetic::div_mod::lemma_mod_breakdown(x as int, 256, byte_range(below) as int);
    }
}

/// A byte behind the others counts as many times as they have values, and each byte
/// multiplies the number of values by 256.
pub proof fn last_byte_counts_most(s: Seq<u8>, b: u8)
    ensures
        le_value(Seq::empty()) == 0,
        le_value(s.push(b)) == le_value(s) + byte_range(s.len()) * b,
        byte_range(0) == 1,
        byte_range(s.len() + 1) == 256 * byte_range(s.len()),
    decreases s.len(),
{
    if s.len() == 0 {
        assert(s.push(b).skip(1) =~= Seq::<u8>::empty());
        assert(le_value(s.push(b).skip(1)) == 0);
        assert(byte_range(s.len()) * b == b) by (nonlinear_arith)
            requires
                byte_range(s.len()) == 1,
        ;
    } else {
        last_byte_counts_most(s.skip(1), b);
        assert(s.push(b).skip(1) =~= s.skip(1).push(b));
        let range = byte_range((s.len() - 1) as nat);
        assert(byte_range(s.len()) * b == 256 * (range * b)) by (nonlinear_arith)
            requires
                byte_range(s.len()) == 256 * range,
        ;
    }
}

} // verus!
