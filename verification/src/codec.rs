//! The bit-packed codec model: a sequence of 64-bit words read as one
//! continuous bit stream of fixed-width unsigned integers, together with
//! the word-level lemmas about reading and writing one such integer.

use vstd::prelude::*;

verus! {

/// The low `b` bits set, for `1 <= b <= 63`.
pub open spec fn mask(b: u64) -> u64
    recommends
        1 <= b <= 63,
{
    ((1u64 << b) - 1) as u64
}

/// Number of 64-bit words needed to hold `vol` items of `b` bits each.
pub open spec fn word_count(b: int, vol: int) -> int {
    (b * vol + 63) / 64
}

/// The `b`-bit value stored for item `i` in the packed word sequence:
/// read at bit offset `i * b`, spanning into the next word when the
/// item's bit range crosses a word boundary.
pub open spec fn idx_at(data: Seq<u64>, b: u64, i: int) -> u64
    recommends
        1 <= b <= 63,
{
    let off = i * (b as int);
    let w = off / 64;
    let r = (off % 64) as u64;
    if r + b <= 64 {
        (data[w] >> r) & mask(b)
    } else {
        ((data[w] >> r) | (data[w + 1] << ((64 - r) as u64))) & mask(b)
    }
}

/// Write `len` bits of `v` into `x` at bit position `s`, preserving all
/// other bits of `x` (read-modify-write with complementary masks).
pub open spec fn write_low(x: u64, v: u64, s: u64, len: u64) -> u64
    recommends
        1 <= len <= 63,
        s + len <= 64,
{
    (x & !(mask(len) << s)) | ((v & mask(len)) << s)
}

/// The bits past position `b * vol` of the stream are all zero: only the
/// last word can hold such bits when `b * vol` is not a multiple of 64.
pub open spec fn tail_zero(data: Seq<u64>, b: u64, vol: int) -> bool {
    (b as int * vol) % 64 != 0 ==> data[data.len() - 1] >> (((b as int * vol) % 64) as u64) == 0
}

/// Writing bits `[s, s+l)` of a word leaves any disjoint range `[t, t+m)`
/// of the same word unchanged.
pub proof fn lemma_write_preserves(x: u64, v: u64, s: u64, l: u64, t: u64, m: u64)
    by (bit_vector)
    requires
        1 <= l <= 63,
        s + l <= 64,
        1 <= m <= 63,
        t + m <= 64,
        s + l <= t || t + m <= s,
    ensures
        (write_low(x, v, s, l) >> t) & mask(m) == (x >> t) & mask(m),
{
}

/// Writing bits `[s, s+l)` of a word whose bits at and above `t` were zero
/// keeps the bits at and above `t` zero, provided the write stays below `t`.
pub proof fn lemma_write_preserves_high_zero(x: u64, v: u64, s: u64, l: u64, t: u64)
    by (bit_vector)
    requires
        1 <= l <= 63,
        s + l <= t,
        t < 64,
        x >> t == 0,
    ensures
        write_low(x, v, s, l) >> t == 0,
{
}

/// Reading back the range just written returns the value written, for a
/// value that fits in the range.
pub proof fn lemma_write_reads_back(x: u64, v: u64, s: u64, l: u64)
    by (bit_vector)
    requires
        1 <= l <= 63,
        s + l <= 64,
        v < (1u64 << l),
    ensures
        (write_low(x, v, s, l) >> s) & mask(l) == v,
{
}

/// Reading back a value written across a word boundary: the low
/// `64 - r` bits go to word `x`, the remaining bits to word `y`.
pub proof fn lemma_write_span_reads_back(x: u64, y: u64, v: u64, r: u64, b: u64)
    by (bit_vector)
    requires
        1 <= b <= 63,
        r < 64,
        r + b > 64,
        v < (1u64 << b),
    ensures
        ({
            let l1 = (64 - r) as u64;
            let l2 = (b - l1) as u64;
            let x2 = write_low(x, v, r, l1);
            let y2 = write_low(y, (v >> l1), 0, l2);
            ((x2 >> r) | (y2 << l1)) & mask(b) == v
        }),
{
}

/// Writing a value equal to what the range already holds changes nothing.
pub proof fn lemma_write_same_single(x: u64, v: u64, s: u64, l: u64)
    by (bit_vector)
    requires
        1 <= l <= 63,
        s + l <= 64,
        (x >> s) & mask(l) == v,
        v < (1u64 << l),
    ensures
        write_low(x, v, s, l) == x,
{
}

/// Writing across a word boundary a value equal to what the two ranges
/// already hold changes neither word.
pub proof fn lemma_write_same_span(x: u64, y: u64, v: u64, r: u64, b: u64)
    by (bit_vector)
    requires
        1 <= b <= 63,
        r < 64,
        r + b > 64,
        v < (1u64 << b),
        ((x >> r) | (y << ((64 - r) as u64))) & mask(b) == v,
    ensures
        write_low(x, v, r, (64 - r) as u64) == x,
        write_low(y, (v >> ((64 - r) as u64)), 0, (b - (64 - r)) as u64) == y,
{
}

/// A masked extraction is below the width's capacity.
pub proof fn lemma_extract_bound(x: u64, b: u64)
    by (bit_vector)
    requires
        1 <= b <= 63,
    ensures
        x & mask(b) < (1u64 << b),
{
}

/// Extracting any range of an all-zero word pair yields zero.
pub proof fn lemma_zero_extract(r: u64, b: u64)
    by (bit_vector)
    requires
        r < 64,
    ensures
        (0u64 >> r) & mask(b) == 0,
        ((0u64 >> r) | (0u64 << ((64 - r) as u64))) & mask(b) == 0,
        (0u64 >> r) == 0,
{
}

/// The executable mask computation agrees with `mask` and cannot
/// underflow.
pub proof fn lemma_mask_val(b: u64)
    by (bit_vector)
    requires
        1 <= b <= 63,
    ensures
        (1u64 << b) >= 2,
        mask(b) == (1u64 << b) - 1,
        mask(b) >= 1,
{
}

/// Shifting by zero changes nothing.
pub proof fn lemma_shr_zero(x: u64)
    by (bit_vector)
    ensures
        x >> 0u64 == x,
{
}

/// A write at bit position zero, with the shifts by zero folded away.
pub proof fn lemma_write_low_zero_shift(x: u64, v: u64, l: u64)
    by (bit_vector)
    requires
        1 <= l <= 63,
    ensures
        write_low(x, v, 0, l) == (x & !mask(l)) | (v & mask(l)),
{
}

/// Two distinct items occupy disjoint ranges of the bit stream.
pub proof fn lemma_ranges_disjoint(b: u64, i: int, j: int)
    requires
        1 <= b <= 63,
        0 <= i,
        0 <= j,
        i != j,
    ensures
        i * (b as int) + b <= j * (b as int) || j * (b as int) + b <= i * (b as int),
{
    if i < j {
        assert(i * (b as int) + b <= j * (b as int)) by (nonlinear_arith)
            requires 0 <= i, i < j, 1 <= b,
        ;
    } else {
        assert(j * (b as int) + b <= i * (b as int)) by (nonlinear_arith)
            requires 0 <= j, j < i, 1 <= b,
        ;
    }
}

/// A wider width can address at least as many values.
pub proof fn lemma_shift_monotonic(a: u64, b: u64)
    by (bit_vector)
    requires
        a <= b <= 63,
    ensures
        (1u64 << a) <= (1u64 << b),
        (1u64 << b) <= 0x8000_0000_0000_0000u64,
{
}

/// A width whose capacity stays below the physical palette bound leaves
/// room to widen by one bit.
pub proof fn lemma_capacity_bound(b: u64)
    by (bit_vector)
    requires
        b <= 63,
        (1u64 << b) < 0x1000_0000_0000_0000u64,
    ensures
        b < 60,
{
}

/// A width of at most 31 bits addresses at most `2^31` values, so the
/// palette capacity fits a 32-bit `usize` as well.
pub proof fn lemma_shift_small(b: u64)
    by (bit_vector)
    requires
        b <= 31,
    ensures
        (1u64 << b) <= 0x8000_0000u64,
{
}

/// A width of at most 59 bits keeps the palette capacity below the
/// physical bound on a vector of 64-bit words.
pub proof fn lemma_shift_fits(b: u64)
    by (bit_vector)
    requires
        b <= 59,
    ensures
        (1u64 << b) < 0x1000_0000_0000_0000u64,
{
}

/// One extra bit of width exactly doubles the addressable values.
pub proof fn lemma_shift_double(b: u64)
    by (bit_vector)
    requires
        b <= 62,
    ensures
        (1u64 << (b + 1)) == 2 * (1u64 << b),
{
}

/// Replacing a word with one that agrees on the bits a spanning read takes
/// from it leaves the spanning read unchanged (low word of the pair).
pub proof fn lemma_span_low_congruence(x1: u64, x2: u64, y: u64, r: u64, b: u64)
    by (bit_vector)
    requires
        1 <= b <= 63,
        r < 64,
        r + b > 64,
        (x1 >> r) & mask((64 - r) as u64) == (x2 >> r) & mask((64 - r) as u64),
    ensures
        ((x1 >> r) | (y << ((64 - r) as u64))) & mask(b) == ((x2 >> r) | (y << ((64 - r) as u64)))
            & mask(b),
{
}

/// Replacing a word with one that agrees on the bits a spanning read takes
/// from it leaves the spanning read unchanged (high word of the pair).
pub proof fn lemma_span_high_congruence(x: u64, y1: u64, y2: u64, r: u64, b: u64)
    by (bit_vector)
    requires
        1 <= b <= 63,
        r < 64,
        r + b > 64,
        y1 & mask((r + b - 64) as u64) == y2 & mask((r + b - 64) as u64),
    ensures
        ((x >> r) | (y1 << ((64 - r) as u64))) & mask(b) == ((x >> r) | (y2 << ((64 - r) as u64)))
            & mask(b),
{
}

/// A word whose low `n` bits are each zero has a zero low-bits mask.
pub proof fn lemma_low_zero(x: u64, n: u64)
    requires
        n <= 63,
        forall|t: u64| t < n ==> (x >> t) & 1u64 == 0u64,
    ensures
        x & mask(n) == 0,
    decreases n,
{
    if n == 0 {
        assert(x & mask(0) == 0) by (bit_vector);
    } else {
        lemma_low_zero(x, (n - 1) as u64);
        assert((x >> ((n - 1) as u64)) & 1u64 == 0u64);
        assert(x & mask((n - 1) as u64) == 0 && (x >> ((n - 1) as u64)) & 1u64 == 0u64 ==> x
            & mask(n) == 0) by (bit_vector)
            requires
                1 <= n <= 63,
        ;
    }
}

/// A word all of whose bits are zero is zero.
pub proof fn lemma_all_bits_zero(x: u64)
    requires
        forall|t: u64| t < 64 ==> (x >> t) & 1u64 == 0u64,
    ensures
        x == 0,
{
    lemma_low_zero(x, 63);
    assert((x >> 63u64) & 1u64 == 0u64);
    assert(x & mask(63) == 0 && (x >> 63u64) & 1u64 == 0u64 ==> x == 0) by (bit_vector);
}

/// A nonzero word has at least one set bit.
pub proof fn lemma_nonzero_has_set_bit(x: u64)
    requires
        x != 0,
    ensures
        exists|t: u64| t < 64 && (x >> t) & 1u64 == 1u64,
{
    if forall|t: u64| t < 64 ==> (x >> t) & 1u64 != 1u64 {
        assert forall|t: u64| t < 64 implies (x >> t) & 1u64 == 0u64 by {
            assert((x >> t) & 1u64 == 0u64 || (x >> t) & 1u64 == 1u64) by (bit_vector);
        }
        lemma_all_bits_zero(x);
        assert(false);
    }
}

/// Every bit of a zero one-word extraction is zero.
pub proof fn lemma_extract_zero_bit_single(x: u64, r: u64, b: u64, t: u64)
    by (bit_vector)
    requires
        1 <= b <= 63,
        r + b <= 64,
        t < b,
        (x >> r) & mask(b) == 0,
    ensures
        (x >> ((r + t) as u64)) & 1u64 == 0u64,
{
}

/// Every low-word bit of a zero two-word extraction is zero.
pub proof fn lemma_extract_zero_bit_span_low(x: u64, y: u64, r: u64, b: u64, t: u64)
    by (bit_vector)
    requires
        1 <= b <= 63,
        r < 64,
        r + b > 64,
        t < b,
        r + t < 64,
        ((x >> r) | (y << ((64 - r) as u64))) & mask(b) == 0,
    ensures
        (x >> ((r + t) as u64)) & 1u64 == 0u64,
{
}

/// Every high-word bit of a zero two-word extraction is zero.
pub proof fn lemma_extract_zero_bit_span_high(x: u64, y: u64, r: u64, b: u64, t: u64)
    by (bit_vector)
    requires
        1 <= b <= 63,
        r < 64,
        r + b > 64,
        t < b,
        r + t >= 64,
        ((x >> r) | (y << ((64 - r) as u64))) & mask(b) == 0,
    ensures
        (y >> ((r + t - 64) as u64)) & 1u64 == 0u64,
{
}

/// A word whose bits at and above `rt` are zero has each such bit zero.
pub proof fn lemma_high_zero_bit(x: u64, rt: u64, t: u64)
    by (bit_vector)
    requires
        rt <= t < 64,
        x >> rt == 0,
    ensures
        (x >> t) & 1u64 == 0u64,
{
}

} // verus!
