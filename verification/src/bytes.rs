//! Little-endian encoding of unsigned integers.
use vstd::prelude::*;

verus! {

/// The integer whose little-endian digits in base 256 are `s`.
pub open spec fn le_value(s: Seq<u8>) -> nat
    decreases s.len(),
{
    if s.len() == 0 {
        0
    } else {
        s[0] as nat + 256 * le_value(s.drop_first())
    }
}

/// The `n` lowest digits in base 256 of `x`, lowest first.
pub open spec fn le_bytes(x: nat, n: nat) -> Seq<u8>
    decreases n,
{
    if n == 0 {
        Seq::empty()
    } else {
        seq![(x % 256) as u8] + le_bytes(x / 256, (n - 1) as nat)
    }
}

/// How many integers `n` bytes can tell apart.
pub open spec fn byte_span(n: nat) -> nat
    decreases n,
{
    if n == 0 {
        1
    } else {
        256 * byte_span((n - 1) as nat)
    }
}

/// The spans of four, seven and eight bytes.
pub proof fn lemma_byte_span_values()
    ensures
        byte_span(4) == 0x1_0000_0000,
        byte_span(7) == 0x100_0000_0000_0000,
        byte_span(8) == 0x1_0000_0000_0000_0000,
{
    reveal_with_fuel(byte_span, 9);
}

/// A larger number of bytes has a larger span.
pub proof fn lemma_byte_span_monotone(m: nat, n: nat)
    requires
        m <= n,
    ensures
        byte_span(m) <= byte_span(n),
        1 <= byte_span(m),
    decreases n,
{
    if n > 0 {
        if m < n {
            lemma_byte_span_monotone(m, (n - 1) as nat);
        } else {
            lemma_byte_span_monotone((m - 1) as nat, (n - 1) as nat);
        }
    }
}

/// Digits give a value within their span.
pub proof fn lemma_le_value_bound(s: Seq<u8>)
    ensures
        le_value(s) < byte_span(s.len()),
    decreases s.len(),
{
    if s.len() > 0 {
        lemma_le_value_bound(s.drop_first());
    }
}

/// Encoding yields as many digits as asked for.
pub proof fn lemma_le_bytes_len(x: nat, n: nat)
    ensures
        le_bytes(x, n).len() == n,
    decreases n,
{
    if n > 0 {
        lemma_le_bytes_len(x / 256, (n - 1) as nat);
    }
}

/// Decoding what was encoded gives the integer back, whenever the digits
/// suffice for it.
pub proof fn lemma_le_round_trip(x: nat, n: nat)
    requires
        x < byte_span(n),
    ensures
        le_value(le_bytes(x, n)) == x,
        le_bytes(x, n).len() == n,
    decreases n,
{
    lemma_le_bytes_len(x, n);
    if n > 0 {
        lemma_le_round_trip(x / 256, (n - 1) as nat);
        assert(le_bytes(x, n).drop_first() =~= le_bytes(x / 256, (n - 1) as nat));
    }
}

/// Encoding what was decoded gives the digits back: no two strings of one
/// length stand for the same integer.
pub proof fn lemma_le_digits_unique(s: Seq<u8>)
    ensures
        le_bytes(le_value(s), s.len()) == s,
    decreases s.len(),
{
    if s.len() > 0 {
        lemma_le_digits_unique(s.drop_first());
        assert(s =~= seq![s[0]] + s.drop_first());
    }
}

/// Encodes `x` into `n` bytes, lowest digit first.
pub fn encode_le(x: u64, n: usize) -> (digits: Vec<u8>)
    ensures
        digits@ == le_bytes(x as nat, n as nat),
{
    let mut digits: Vec<u8> = Vec::new();
    let mut rest: u64 = x;
    let mut done: usize = 0;
    while done < n
        invariant
            done <= n,
            digits@ + le_bytes(rest as nat, (n - done) as nat) == le_bytes(x as nat, n as nat),
        decreases n - done,
    {
        let ghost before = digits@;
        digits.push((rest % 256) as u8);
        proof {
            let tail = le_bytes((rest / 256) as nat, (n - done - 1) as nat);
            assert(digits@ + tail =~= before + le_bytes(rest as nat, (n - done) as nat));
        }
        rest = rest / 256;
        done = done + 1;
    }
    assert(digits@ + le_bytes(rest as nat, 0) =~= digits@);
    digits
}

/// Decodes the `n` bytes of `s` that start at `at`.
pub fn decode_le(s: &[u8], at: usize, n: usize) -> (value: u64)
    requires
        n <= 8,
        at + n <= s@.len(),
    ensures
        value == le_value(s@.subrange(at as int, at + n)),
        value < byte_span(n as nat),
{
    let mut value: u64 = 0;
    let mut left: usize = n;
    assert(s@.subrange(at + n, at + n).len() == 0);
    while left > 0
        invariant
            n <= 8,
            left <= n,
            at + n <= s.len(),
            value == le_value(s@.subrange(at + left, at + n)),
        decreases left,
    {
        let ghost high = s@.subrange(at + left, at + n);
        let ghost all = s@.subrange(at + left - 1, at + n);
        proof {
            lemma_le_value_bound(high);
            lemma_byte_span_monotone(high.len(), 7);
            lemma_byte_span_values();
            assert(all.drop_first() =~= high);
        }
        value = value * 256 + s[at + left - 1] as u64;
        left = left - 1;
    }
    proof {
        lemma_le_value_bound(s@.subrange(at as int, at + n));
    }
    value
}

} // verus!
