//! Packed bit-vector primitives.
//!
//! A byte buffer is read as a sequence of bits, bit `i` living in byte
//! `i / 8` at position `i % 8`, least-significant bit first. Besides the
//! single-bit accessors, [`count_zeros`] counts the clear bits of an
//! arbitrary, possibly unaligned bit window `[offset, offset + len)`.

use vstd::prelude::*;

verus! {

/// Bit `i` of `byte`, least-significant bit first.
pub open spec fn bit_of(byte: u8, i: int) -> bool
    recommends
        0 <= i < 8,
{
    (byte >> (i as u8)) & 1 == 1
}

/// Bit `i` of the packed buffer `data`: bit `i % 8` of byte `i / 8`.
pub open spec fn spec_get_bit(data: Seq<u8>, i: int) -> bool
    recommends
        0 <= i < 8 * data.len(),
{
    bit_of(data[i / 8], i % 8)
}

/// Number of set bits among positions `[offset, offset + len)` of `data`.
pub open spec fn count_ones_window(data: Seq<u8>, offset: int, len: int) -> int
    decreases len,
{
    if len <= 0 {
        0
    } else {
        count_ones_window(data, offset, len - 1) + if spec_get_bit(data, offset + len - 1) {
            1int
        } else {
            0int
        }
    }
}

/// Number of clear bits among positions `[offset, offset + len)` of `data`.
pub open spec fn count_zeros_window(data: Seq<u8>, offset: int, len: int) -> int {
    len - count_ones_window(data, offset, len)
}

/// Every bit window splits into zero bits and one bits.
pub proof fn lemma_zeros_ones_partition(data: Seq<u8>, offset: int, len: int)
    ensures
        count_zeros_window(data, offset, len) + count_ones_window(data, offset, len) == len,
{
}

/// A window's one-count lies between `0` and its length.
pub proof fn lemma_window_bounds(data: Seq<u8>, offset: int, len: int)
    requires
        0 <= len,
    ensures
        0 <= count_ones_window(data, offset, len) <= len,
    decreases len,
{
    if len > 0 {
        lemma_window_bounds(data, offset, len - 1);
    }
}

/// Adjacent windows add up.
pub proof fn lemma_window_split(data: Seq<u8>, offset: int, n1: int, n2: int)
    requires
        0 <= n1,
        0 <= n2,
    ensures
        count_ones_window(data, offset, n1 + n2) == count_ones_window(data, offset, n1)
            + count_ones_window(data, offset + n1, n2),
    decreases n2,
{
    if n2 > 0 {
        lemma_window_split(data, offset, n1, n2 - 1);
    }
}

/// Number of set bits of `byte` among positions `[lo, hi)`.
spec fn count_bits_range(byte: u8, lo: int, hi: int) -> int
    decreases hi - lo,
{
    if hi <= lo {
        0
    } else {
        count_bits_range(byte, lo, hi - 1) + if bit_of(byte, hi - 1) {
            1int
        } else {
            0int
        }
    }
}

proof fn lemma_range_split(byte: u8, lo: int, mid: int, hi: int)
    requires
        lo <= mid <= hi,
    ensures
        count_bits_range(byte, lo, hi) == count_bits_range(byte, lo, mid) + count_bits_range(
            byte,
            mid,
            hi,
        ),
    decreases hi - mid,
{
    if hi > mid {
        lemma_range_split(byte, lo, mid, hi - 1);
    }
}

proof fn lemma_range_zero(byte: u8, lo: int, hi: int)
    requires
        forall|j: int| lo <= j < hi ==> !bit_of(byte, j),
    ensures
        count_bits_range(byte, lo, hi) == 0,
    decreases hi - lo,
{
    if hi > lo {
        lemma_range_zero(byte, lo, hi - 1);
    }
}

/// The unrolled eight-term bit sum of a byte equals its bit range count.
proof fn lemma_popsum_is_range(b: u8)
    ensures
        count_bits_range(b, 0, 8) == (b & 1) + ((b >> 1u8) & 1) + ((b >> 2u8) & 1) + ((b >> 3u8)
            & 1) + ((b >> 4u8) & 1) + ((b >> 5u8) & 1) + ((b >> 6u8) & 1) + ((b >> 7u8) & 1),
{
    assert((b >> 0u8) == b) by (bit_vector);
    assert((b & 1) <= 1 && ((b >> 1u8) & 1) <= 1 && ((b >> 2u8) & 1) <= 1 && ((b >> 3u8) & 1) <= 1
        && ((b >> 4u8) & 1) <= 1 && ((b >> 5u8) & 1) <= 1 && ((b >> 6u8) & 1) <= 1 && ((b >> 7u8)
        & 1) <= 1) by (bit_vector);
    assert(count_bits_range(b, 0, 0) == 0);
    assert(count_bits_range(b, 0, 1) == count_bits_range(b, 0, 0) + if bit_of(b, 0) {
        1int
    } else {
        0int
    });
    assert(count_bits_range(b, 0, 2) == count_bits_range(b, 0, 1) + if bit_of(b, 1) {
        1int
    } else {
        0int
    });
    assert(count_bits_range(b, 0, 3) == count_bits_range(b, 0, 2) + if bit_of(b, 2) {
        1int
    } else {
        0int
    });
    assert(count_bits_range(b, 0, 4) == count_bits_range(b, 0, 3) + if bit_of(b, 3) {
        1int
    } else {
        0int
    });
    assert(count_bits_range(b, 0, 5) == count_bits_range(b, 0, 4) + if bit_of(b, 4) {
        1int
    } else {
        0int
    });
    assert(count_bits_range(b, 0, 6) == count_bits_range(b, 0, 5) + if bit_of(b, 5) {
        1int
    } else {
        0int
    });
    assert(count_bits_range(b, 0, 7) == count_bits_range(b, 0, 6) + if bit_of(b, 6) {
        1int
    } else {
        0int
    });
    assert(count_bits_range(b, 0, 8) == count_bits_range(b, 0, 7) + if bit_of(b, 7) {
        1int
    } else {
        0int
    });
}

/// Sum of the eight bits of `byte`.
fn popcount8(b: u8) -> (r: u8)
    ensures
        r == count_bits_range(b, 0, 8),
        r <= 8,
{
    proof {
        lemma_popsum_is_range(b);
        assert((b & 1) <= 1 && ((b >> 1u8) & 1) <= 1 && ((b >> 2u8) & 1) <= 1 && ((b >> 3u8) & 1)
            <= 1 && ((b >> 4u8) & 1) <= 1 && ((b >> 5u8) & 1) <= 1 && ((b >> 6u8) & 1) <= 1 && ((b
            >> 7u8) & 1) <= 1) by (bit_vector);
    }
    (b & 1) + ((b >> 1u8) & 1) + ((b >> 2u8) & 1) + ((b >> 3u8) & 1) + ((b >> 4u8) & 1) + ((b
        >> 5u8) & 1) + ((b >> 6u8) & 1) + ((b >> 7u8) & 1)
}

/// Shifting right by `o` moves the bit range `[o, o + n)` down to `[0, n)`.
proof fn lemma_shift_right_range(b: u8, o: u8, n: int)
    requires
        o < 8,
        0 <= n,
        o + n <= 8,
    ensures
        count_bits_range(b >> o, 0, n) == count_bits_range(b, o as int, o + n),
    decreases n,
{
    if n > 0 {
        lemma_shift_right_range(b, o, n - 1);
        let k = (n - 1) as u8;
        assert(o + k < 8 ==> (((b >> o) >> k) & 1) == ((b >> ((o + k) as u8)) & 1)) by (bit_vector);
        assert(k as int == n - 1);
        assert(((o + k) as u8) as int == o + n - 1);
        assert(bit_of(b >> o, n - 1) == bit_of(b, o + n - 1));
    }
}

/// The bits of `b >> o` at positions `8 - o` and above are clear.
proof fn lemma_shift_right_high_zero(b: u8, o: u8)
    requires
        o < 8,
    ensures
        count_bits_range(b >> o, 8 - o, 8) == 0,
{
    assert(forall|j: u8| 8 - o <= j < 8 ==> (((b >> o) >> j) & 1) == 0) by (bit_vector)
        requires
            o < 8,
    ;
    assert forall|j: int| 8 - o <= j < 8 implies !bit_of(b >> o, j) by {
        let ju = j as u8;
        assert((((b >> o) >> ju) & 1) == 0);
    };
    lemma_range_zero(b >> o, 8 - o, 8);
}

/// A byte shifted right by `o` has exactly the set bits of `[o, 8)`.
proof fn lemma_shift_right_pop(b: u8, o: u8)
    requires
        o < 8,
    ensures
        count_bits_range(b >> o, 0, 8) == count_bits_range(b, o as int, 8),
{
    lemma_range_split(b >> o, 0, 8 - o, 8);
    lemma_shift_right_high_zero(b, o);
    lemma_shift_right_range(b, o, 8 - o);
}

/// Shifting left by `sh` moves the bit range `[0, n)` up to `[sh, sh + n)`.
proof fn lemma_shift_left_range(b: u8, sh: u8, n: int)
    requires
        sh < 8,
        0 <= n,
        sh + n <= 8,
    ensures
        count_bits_range(b << sh, sh as int, sh + n) == count_bits_range(b, 0, n),
    decreases n,
{
    if n > 0 {
        lemma_shift_left_range(b, sh, n - 1);
        let k = (n - 1) as u8;
        assert(sh + k < 8 ==> (((b << sh) >> ((sh + k) as u8)) & 1) == ((b >> k) & 1))
            by (bit_vector);
        assert(k as int == n - 1);
        assert(((sh + k) as u8) as int == sh + n - 1);
        assert(bit_of(b << sh, sh + n - 1) == bit_of(b, n - 1));
    }
}

/// The bits of `b << sh` below position `sh` are clear.
proof fn lemma_shift_left_low_zero(b: u8, sh: u8)
    requires
        sh < 8,
    ensures
        count_bits_range(b << sh, 0, sh as int) == 0,
{
    assert(forall|j: u8| j < sh ==> (((b << sh) >> j) & 1) == 0) by (bit_vector)
        requires
            sh < 8,
    ;
    assert forall|j: int| 0 <= j < sh implies !bit_of(b << sh, j) by {
        let ju = j as u8;
        assert((((b << sh) >> ju) & 1) == 0);
    };
    lemma_range_zero(b << sh, 0, sh as int);
}

/// A byte shifted left by `sh` has exactly the set bits of `[0, 8 - sh)`.
proof fn lemma_shift_left_pop(b: u8, sh: u8)
    requires
        sh < 8,
    ensures
        count_bits_range(b << sh, 0, 8) == count_bits_range(b, 0, 8 - sh),
{
    lemma_range_split(b << sh, 0, sh as int, 8);
    lemma_shift_left_low_zero(b, sh);
    lemma_shift_left_range(b, sh, 8 - sh);
}

/// A window inside byte `k` counts that byte's bit range.
proof fn lemma_window_is_byte_range(data: Seq<u8>, k: int, o: int, n: int)
    requires
        0 <= k < data.len(),
        0 <= o,
        0 <= n,
        o + n <= 8,
    ensures
        count_ones_window(data, 8 * k + o, n) == count_bits_range(data[k], o, o + n),
    decreases n,
{
    if n > 0 {
        lemma_window_is_byte_range(data, k, o, n - 1);
        let i = 8 * k + o + n - 1;
        assert(i / 8 == k && i % 8 == o + n - 1) by {
            assert(i == 8 * k + (o + n - 1) && 0 <= o + n - 1 < 8);
        };
        assert(spec_get_bit(data, i) == bit_of(data[k], o + n - 1));
    }
}

/// Returns whether bit at position `i` in `byte` is set or not.
#[inline]
pub fn is_set(byte: u8, i: usize) -> (r: bool)
    requires
        i < 8,
    ensures
        r == bit_of(byte, i as int),
{
    (byte >> (i as u8)) & 1 == 1
}

/// Sets bit at position `i` in `byte` to `value`, returning the new byte.
#[inline]
pub fn set(byte: u8, i: usize, value: bool) -> (r: u8)
    requires
        i < 8,
    ensures
        bit_of(r, i as int) == value,
        forall|j: int| 0 <= j < 8 && j != i ==> bit_of(r, j) == bit_of(byte, j),
{
    let iu: u8 = i as u8;
    let r: u8 = if value {
        byte | (1u8 << iu)
    } else {
        byte & !(1u8 << iu)
    };
    proof {
        assert(iu < 8 ==> (((byte | (1u8 << iu)) >> iu) & 1) == 1) by (bit_vector);
        assert(iu < 8 ==> (((byte & !(1u8 << iu)) >> iu) & 1) == 0) by (bit_vector);
        assert(forall|j: u8|
            j < 8 && j != iu ==> (((byte | (1u8 << iu)) >> j) & 1) == ((byte >> j) & 1))
            by (bit_vector)
            requires
                iu < 8,
        ;
        assert(forall|j: u8|
            j < 8 && j != iu ==> (((byte & !(1u8 << iu)) >> j) & 1) == ((byte >> j) & 1))
            by (bit_vector)
            requires
                iu < 8,
        ;
        assert forall|j: int| 0 <= j < 8 && j != i implies bit_of(r, j) == bit_of(byte, j) by {
            let ju = j as u8;
            assert(ju < 8 && ju != iu);
            assert(((r >> ju) & 1) == ((byte >> ju) & 1));
        };
    }
    r
}

/// Returns whether bit at position `i` in `data` is set or not.
#[inline]
pub fn get_bit(data: &Vec<u8>, i: usize) -> (r: bool)
    requires
        i / 8 < data@.len(),
    ensures
        r == spec_get_bit(data@, i as int),
{
    is_set(data[i / 8], i % 8)
}

/// Sets bit at position `i` in `data` to `value`; every other bit is kept.
#[inline]
pub fn set_bit(data: &mut Vec<u8>, i: usize, value: bool)
    requires
        i / 8 < old(data)@.len(),
    ensures
        final(data)@.len() == old(data)@.len(),
        spec_get_bit(final(data)@, i as int) == value,
        forall|j: int|
            0 <= j < 8 * final(data)@.len() && j != i ==> spec_get_bit(final(data)@, j)
                == spec_get_bit(old(data)@, j),
{
    let byte: u8 = data[i / 8];
    data[i / 8] = set(byte, i % 8, value);
    proof {
        assert forall|j: int|
            0 <= j < 8 * data@.len() && j != i implies spec_get_bit(data@, j) == spec_get_bit(
            old(data)@,
            j,
        ) by {
            if j / 8 == i / 8 {
                assert(j % 8 != i % 8) by {
                    assert(j == 8 * (j / 8) + j % 8 && i == 8 * (i / 8) + i % 8);
                };
            } else {
                assert(data@[j / 8] == old(data)@[j / 8]);
            }
        };
    }
}

/// Number of zero bits within the bit window `[offset, offset + len)` of
/// `data`.
///
/// A window inside a single byte is handled by shifting away the bits on
/// either side; otherwise the partial leading byte, the partial trailing
/// byte and the fully covered bytes in between are counted separately.
pub fn count_zeros(data: &Vec<u8>, offset: usize, len: usize) -> (r: usize)
    requires
        offset + len <= 8 * data@.len(),
        offset + len <= usize::MAX,
    ensures
        r == count_zeros_window(data@, offset as int, len as int),
{
    if len == 0 {
        return 0;
    }
    let start: usize = offset / 8;
    let o: usize = offset % 8;
    let total: usize = offset + len;
    let end: usize = total / 8 + if total % 8 != 0 {
        1
    } else {
        0
    };
    proof {
        assert(offset == 8 * start + o);
        assert(total == 8 * (total / 8) + total % 8);
        assert(end <= data@.len());
        lemma_window_bounds(data@, offset as int, len as int);
    }
    if o + len < 8 {
        // The whole window lives inside byte `start`.
        let shifted: u8 = data[start] >> (o as u8);
        let byte: u8 = shifted << ((8 - len) as u8);
        let sc: u8 = popcount8(byte);
        proof {
            lemma_window_is_byte_range(data@, start as int, o as int, len as int);
            lemma_shift_right_range(data@[start as int], o as u8, len as int);
            lemma_shift_left_pop(shifted, (8 - len) as u8);
        }
        return len - (sc as usize);
    }
    let mut set_count: usize = 0;
    let mut lo: usize = start;
    let mut hi: usize = end;
    if o != 0 {
        let t: u8 = popcount8(data[lo] >> (o as u8));
        set_count = t as usize;
        lo = lo + 1;
        proof {
            lemma_shift_right_pop(data@[start as int], o as u8);
            lemma_window_is_byte_range(data@, start as int, o as int, 8 - o as int);
            assert(set_count == count_ones_window(data@, offset as int, 8 * lo - offset));
        }
    }
    let e: usize = total % 8;
    if e != 0 {
        let t: u8 = popcount8(data[hi - 1] << ((8 - e) as u8));
        set_count = set_count + (t as usize);
        hi = hi - 1;
        proof {
            lemma_shift_left_pop(data@[hi as int], (8 - e) as u8);
            lemma_window_is_byte_range(data@, hi as int, 0, e as int);
            assert(8 * hi == total - e);
            assert(count_ones_window(data@, 8 * hi as int, total - 8 * hi) == count_bits_range(
                data@[hi as int],
                0,
                e as int,
            ));
        }
    }
    proof {
        lemma_window_bounds(data@, offset as int, 8 * lo - offset);
        lemma_window_bounds(data@, 8 * hi as int, total - 8 * hi);
    }
    while lo < hi
        invariant
            start <= lo <= hi <= end <= data@.len(),
            offset <= 8 * lo,
            8 * hi <= total,
            total == offset + len,
            total <= usize::MAX,
            set_count == count_ones_window(data@, offset as int, 8 * lo - offset)
                + count_ones_window(data@, 8 * hi as int, total - 8 * hi),
            set_count <= (8 * lo - offset) + (total - 8 * hi),
        decreases hi - lo,
    {
        let t: u8 = popcount8(data[lo]);
        proof {
            lemma_window_is_byte_range(data@, lo as int, 0, 8);
            lemma_window_split(data@, offset as int, 8 * lo - offset, 8);
            lemma_window_bounds(data@, 8 * hi as int, total - 8 * hi);
            lemma_window_bounds(data@, offset as int, 8 * lo - offset);
        }
        set_count = set_count + (t as usize);
        lo = lo + 1;
    }
    proof {
        lemma_window_split(data@, offset as int, 8 * lo - offset, total - 8 * lo);
        lemma_window_bounds(data@, offset as int, len as int);
    }
    len - set_count
}

} // verus!
