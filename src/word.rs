//! A 256-bit word held as two 128-bit halves, with the bit operations the
//! tick bitmap needs and the most/least significant bit scans.
use vstd::prelude::*;

verus! {

/// Whether bit `i` (0 = least significant) of `x` is set.
pub open spec fn bit_of(x: u128, i: u128) -> bool {
    (x >> i) & 1u128 == 1u128
}

proof fn lemma_bit_and(a: u128, b: u128, i: u128)
    by (bit_vector)
    requires
        i < 128,
    ensures
        ((a & b) >> i) & 1u128 == 1u128 <==> ((a >> i) & 1u128 == 1u128 && (b >> i) & 1u128
            == 1u128),
{
}

proof fn lemma_bit_xor(a: u128, b: u128, i: u128)
    by (bit_vector)
    requires
        i < 128,
    ensures
        ((a ^ b) >> i) & 1u128 == 1u128 <==> ((a >> i) & 1u128 == 1u128) != ((b >> i) & 1u128
            == 1u128),
{
}

proof fn lemma_bit_zero(i: u128)
    by (bit_vector)
    requires
        i < 128,
    ensures
        (0u128 >> i) & 1u128 != 1u128,
{
}

proof fn lemma_bit_max(i: u128)
    by (bit_vector)
    requires
        i < 128,
    ensures
        (0xffff_ffff_ffff_ffff_ffff_ffff_ffff_ffffu128 >> i) & 1u128 == 1u128,
{
}

proof fn lemma_bit_single(p: u128, i: u128)
    by (bit_vector)
    requires
        p < 128,
        i < 128,
    ensures
        ((1u128 << p) >> i) & 1u128 == 1u128 <==> i == p,
{
}

proof fn lemma_low_mask_fits(p: u128)
    by (bit_vector)
    requires
        p < 128,
    ensures
        1u128 <= (1u128 << p),
        (1u128 << p) - 1u128 <= 0xffff_ffff_ffff_ffff_ffff_ffff_ffff_ffffu128 - (1u128 << p),
{
}

proof fn lemma_bit_low_mask(p: u128, i: u128)
    by (bit_vector)
    requires
        p < 128,
        i < 128,
    ensures
        ((((((1u128 << p) - 1u128) as u128) + (1u128 << p)) as u128) >> i) & 1u128 == 1u128 <==> i
            <= p,
{
}

proof fn lemma_bit_high_mask(p: u128, i: u128)
    by (bit_vector)
    requires
        p < 128,
        i < 128,
    ensures
        ((!(((1u128 << p) - 1u128) as u128)) >> i) & 1u128 == 1u128 <==> i >= p,
{
}

proof fn lemma_shift_64(x: u128, z: u128, a: u128)
    by (bit_vector)
    requires
        a < 64,
    ensures
        (x >> a) >> 64u128 == x >> (a + 64u128),
        (z << 64u128) << a == z << (a + 64u128),
{
}

proof fn lemma_shift_32(x: u128, z: u128, a: u128)
    by (bit_vector)
    requires
        a < 96,
    ensures
        (x >> a) >> 32u128 == x >> (a + 32u128),
        (z << 32u128) << a == z << (a + 32u128),
{
}

proof fn lemma_shift_16(x: u128, z: u128, a: u128)
    by (bit_vector)
    requires
        a < 112,
    ensures
        (x >> a) >> 16u128 == x >> (a + 16u128),
        (z << 16u128) << a == z << (a + 16u128),
{
}

proof fn lemma_shift_8(x: u128, z: u128, a: u128)
    by (bit_vector)
    requires
        a < 120,
    ensures
        (x >> a) >> 8u128 == x >> (a + 8u128),
        (z << 8u128) << a == z << (a + 8u128),
{
}

proof fn lemma_shift_4(x: u128, z: u128, a: u128)
    by (bit_vector)
    requires
        a < 124,
    ensures
        (x >> a) >> 4u128 == x >> (a + 4u128),
        (z << 4u128) << a == z << (a + 4u128),
{
}

proof fn lemma_shift_2(x: u128, z: u128, a: u128)
    by (bit_vector)
    requires
        a < 126,
    ensures
        (x >> a) >> 2u128 == x >> (a + 2u128),
        (z << 2u128) << a == z << (a + 2u128),
{
}

#[verifier::rlimit(60)]
proof fn lemma_shift_1(x: u128, z: u128, a: u128)
    by (bit_vector)
    requires
        a < 127,
    ensures
        (x >> a) >> 1u128 == x >> (a + 1u128),
        (z << 1u128) << a == z << (a + 1u128),
{
}

proof fn lemma_narrow_high_first(y: u128)
    by (bit_vector)
    requires
        y != 0,
    ensures
        y >> 0u128 == y,
        y >= (1u128 << 64u128) ==> (y >> 64u128 != 0 && (y >> 64u128) < (1u128 << 64u128)),
{
}

proof fn lemma_narrow_high(y: u128, k: u128)
    by (bit_vector)
    requires
        1 <= k <= 32,
        y != 0,
        y < (1u128 << (k + k)),
    ensures
        y >= (1u128 << k) ==> (y >> k != 0 && (y >> k) < (1u128 << k)),
{
}

proof fn lemma_narrow_low_first(y: u128)
    by (bit_vector)
    requires
        y != 0,
    ensures
        y >> 0u128 == y,
        y << 0u128 == y,
        1u128 <= (1u128 << 64u128),
        y & (((1u128 << 64u128) - 1u128) as u128) == 0 ==> ((y >> 64u128) & (((1u128 << 64u128)
            - 1u128) as u128) != 0 && (y >> 64u128) << 64u128 == y),
{
}

proof fn lemma_narrow_low(y: u128, k: u128)
    by (bit_vector)
    requires
        1 <= k <= 32,
        y & (((1u128 << (k + k)) - 1u128) as u128) != 0,
    ensures
        1u128 <= (1u128 << k),
        y & (((1u128 << k) - 1u128) as u128) == 0 ==> ((y >> k) & (((1u128 << k) - 1u128) as u128)
            != 0 && (y >> k) << k == y),
{
}

proof fn lemma_top_bit(x: u128, r: u128, j: u128)
    by (bit_vector)
    requires
        r < 128,
        x >> r == 1u128,
    ensures
        (x >> r) & 1u128 == 1u128,
        r < j < 128 ==> (x >> j) & 1u128 != 1u128,
{
}

proof fn lemma_bottom_bit(x: u128, r: u128, j: u128)
    by (bit_vector)
    requires
        r < 128,
        (x >> r) << r == x,
        j < r,
    ensures
        (x >> j) & 1u128 != 1u128,
{
}

proof fn lemma_last_window(y: u128)
    by (bit_vector)
    ensures
        y < (1u128 << 1u128) && y != 0 ==> y == 1u128,
        y & (((1u128 << 1u128) - 1u128) as u128) != 0 ==> y & 1u128 == 1u128,
{
}

/// Index of the highest set bit of a nonzero `u128`: the window that holds it
/// is halved seven times, from 128 bits down to one.
fn msb128(x: u128) -> (r: u128)
    requires
        x != 0,
    ensures
        r < 128,
        x >> r == 1u128,
{
    let mut y: u128 = x;
    let mut r: u128 = 0;
    proof {
        lemma_narrow_high_first(y);
    }
    if y >= (1u128 << 64u128) {
        proof {
            lemma_shift_64(x, 0, r);
        }
        y = y >> 64u128;
        r = r + 64;
    }
    assert(y == x >> r && y != 0 && y < (1u128 << 64u128) && r <= 64);
    proof {
        lemma_narrow_high(y, 32);
    }
    if y >= (1u128 << 32u128) {
        proof {
            lemma_shift_32(x, 0, r);
        }
        y = y >> 32u128;
        r = r + 32;
    }
    assert(y == x >> r && y != 0 && y < (1u128 << 32u128) && r <= 96);
    proof {
        lemma_narrow_high(y, 16);
    }
    if y >= (1u128 << 16u128) {
        proof {
            lemma_shift_16(x, 0, r);
        }
        y = y >> 16u128;
        r = r + 16;
    }
    assert(y == x >> r && y != 0 && y < (1u128 << 16u128) && r <= 112);
    proof {
        lemma_narrow_high(y, 8);
    }
    if y >= (1u128 << 8u128) {
        proof {
            lemma_shift_8(x, 0, r);
        }
        y = y >> 8u128;
        r = r + 8;
    }
    assert(y == x >> r && y != 0 && y < (1u128 << 8u128) && r <= 120);
    proof {
        lemma_narrow_high(y, 4);
    }
    if y >= (1u128 << 4u128) {
        proof {
            lemma_shift_4(x, 0, r);
        }
        y = y >> 4u128;
        r = r + 4;
    }
    assert(y == x >> r && y != 0 && y < (1u128 << 4u128) && r <= 124);
    proof {
        lemma_narrow_high(y, 2);
    }
    if y >= (1u128 << 2u128) {
        proof {
            lemma_shift_2(x, 0, r);
        }
        y = y >> 2u128;
        r = r + 2;
    }
    assert(y == x >> r && y != 0 && y < (1u128 << 2u128) && r <= 126);
    proof {
        lemma_narrow_high(y, 1);
    }
    if y >= (1u128 << 1u128) {
        proof {
            lemma_shift_1(x, 0, r);
        }
        y = y >> 1u128;
        r = r + 1;
    }
    assert(y == x >> r && y != 0 && y < (1u128 << 1u128) && r <= 127);
    proof {
        lemma_last_window(y);
    }
    r
}

/// Index of the lowest set bit of a nonzero `u128`: while the lower half of
/// the window is empty the window moves up past it, halving each time.
fn lsb128(x: u128) -> (r: u128)
    requires
        x != 0,
    ensures
        r < 128,
        (x >> r) & 1u128 == 1u128,
        (x >> r) << r == x,
{
    let mut y: u128 = x;
    let mut r: u128 = 0;
    proof {
        lemma_narrow_low_first(y);
    }
    if y & ((1u128 << 64u128) - 1) == 0 {
        proof {
            lemma_shift_64(x, y >> 64u128, r);
        }
        y = y >> 64u128;
        r = r + 64;
    }
    assert(y == x >> r && y << r == x && y & (((1u128 << 64u128) - 1u128) as u128) != 0 && r <= 64);
    proof {
        lemma_narrow_low(y, 32);
    }
    if y & ((1u128 << 32u128) - 1) == 0 {
        proof {
            lemma_shift_32(x, y >> 32u128, r);
        }
        y = y >> 32u128;
        r = r + 32;
    }
    assert(y == x >> r && y << r == x && y & (((1u128 << 32u128) - 1u128) as u128) != 0 && r <= 96);
    proof {
        lemma_narrow_low(y, 16);
    }
    if y & ((1u128 << 16u128) - 1) == 0 {
        proof {
            lemma_shift_16(x, y >> 16u128, r);
        }
        y = y >> 16u128;
        r = r + 16;
    }
    assert(y == x >> r && y << r == x && y & (((1u128 << 16u128) - 1u128) as u128) != 0 && r <= 112);
    proof {
        lemma_narrow_low(y, 8);
    }
    if y & ((1u128 << 8u128) - 1) == 0 {
        proof {
            lemma_shift_8(x, y >> 8u128, r);
        }
        y = y >> 8u128;
        r = r + 8;
    }
    assert(y == x >> r && y << r == x && y & (((1u128 << 8u128) - 1u128) as u128) != 0 && r <= 120);
    proof {
        lemma_narrow_low(y, 4);
    }
    if y & ((1u128 << 4u128) - 1) == 0 {
        proof {
            lemma_shift_4(x, y >> 4u128, r);
        }
        y = y >> 4u128;
        r = r + 4;
    }
    assert(y == x >> r && y << r == x && y & (((1u128 << 4u128) - 1u128) as u128) != 0 && r <= 124);
    proof {
        lemma_narrow_low(y, 2);
    }
    if y & ((1u128 << 2u128) - 1) == 0 {
        proof {
            lemma_shift_2(x, y >> 2u128, r);
        }
        y = y >> 2u128;
        r = r + 2;
    }
    assert(y == x >> r && y << r == x && y & (((1u128 << 2u128) - 1u128) as u128) != 0 && r <= 126);
    proof {
        lemma_narrow_low(y, 1);
    }
    if y & ((1u128 << 1u128) - 1) == 0 {
        proof {
            lemma_shift_1(x, y >> 1u128, r);
        }
        y = y >> 1u128;
        r = r + 1;
    }
    assert(y == x >> r && y << r == x && y & (((1u128 << 1u128) - 1u128) as u128) != 0 && r <= 127);
    proof {
        lemma_last_window(y);
    }
    r
}

/// A 256-bit unsigned word: bit `i` of the word is bit `i` of `lo` for
/// `i < 128`, and bit `i - 128` of `hi` above that.
#[derive(Clone, Copy, Debug, PartialEq, Eq, Structural)]
pub struct Word {
    pub hi: u128,
    pub lo: u128,
}

impl Word {
    /// Whether bit `i` (0 = least significant) of the word is set.
    pub open spec fn has_bit(self, i: int) -> bool {
        if 0 <= i < 128 {
            bit_of(self.lo, i as u128)
        } else if 128 <= i < 256 {
            bit_of(self.hi, (i - 128) as u128)
        } else {
            false
        }
    }

    /// No bit of the word is set.
    pub open spec fn is_empty(self) -> bool {
        forall|i: int| 0 <= i < 256 ==> !#[trigger] self.has_bit(i)
    }

    /// The all-zero word has no bit set.
    pub proof fn lemma_zero_is_empty()
        ensures
            (Word { hi: 0, lo: 0 }).is_empty(),
    {
        let w = Word { hi: 0, lo: 0 };
        assert forall|i: int| 0 <= i < 256 implies !#[trigger] w.has_bit(i) by {
            if i < 128 {
                lemma_bit_zero(i as u128);
            } else {
                lemma_bit_zero((i - 128) as u128);
            }
        }
    }

    /// Whether bit `pos` is set.
    pub fn bit(&self, pos: u8) -> (r: bool)
        ensures
            r == self.has_bit(pos as int),
    {
        if pos < 128 {
            (self.lo >> (pos as u128)) & 1 == 1
        } else {
            (self.hi >> ((pos - 128) as u128)) & 1 == 1
        }
    }

    /// The word with every bit clear.
    pub fn zero() -> (w: Word)
        ensures
            w.is_empty(),
            w.hi == 0 && w.lo == 0,
    {
        proof {
            Word::lemma_zero_is_empty();
        }
        Word { hi: 0, lo: 0 }
    }

    /// Whether every bit of the word is clear.
    pub fn is_zero(&self) -> (r: bool)
        ensures
            r == (self.hi == 0 && self.lo == 0),
            r ==> self.is_empty(),
    {
        proof {
            Word::lemma_zero_is_empty();
        }
        self.hi == 0 && self.lo == 0
    }

    /// The word whose only set bit is `pos`.
    pub fn single(pos: u8) -> (w: Word)
        ensures
            forall|i: int| 0 <= i < 256 ==> (#[trigger] w.has_bit(i) <==> i == pos),
    {
        let w = if pos < 128 {
            Word { hi: 0, lo: 1u128 << (pos as u128) }
        } else {
            Word { hi: 1u128 << ((pos - 128) as u128), lo: 0 }
        };
        assert forall|i: int| 0 <= i < 256 implies (#[trigger] w.has_bit(i) <==> i == pos) by {
            if i < 128 {
                if pos < 128 {
                    lemma_bit_single(pos as u128, i as u128);
                } else {
                    lemma_bit_zero(i as u128);
                }
            } else {
                if pos < 128 {
                    lemma_bit_zero((i - 128) as u128);
                } else {
                    lemma_bit_single((pos - 128) as u128, (i - 128) as u128);
                }
            }
        }
        w
    }

    /// The word with bits `0..=pos` set and the others clear.
    pub fn at_or_below(pos: u8) -> (w: Word)
        ensures
            forall|i: int| 0 <= i < 256 ==> (#[trigger] w.has_bit(i) <==> i <= pos),
    {
        let w = if pos < 128 {
            let p = pos as u128;
            proof {
                lemma_low_mask_fits(p);
            }
            Word { hi: 0, lo: ((1u128 << p) - 1) + (1u128 << p) }
        } else {
            let p = (pos - 128) as u128;
            proof {
                lemma_low_mask_fits(p);
            }
            Word { hi: ((1u128 << p) - 1) + (1u128 << p), lo: u128::MAX }
        };
        assert forall|i: int| 0 <= i < 256 implies (#[trigger] w.has_bit(i) <==> i <= pos) by {
            if i < 128 {
                if pos < 128 {
                    lemma_bit_low_mask(pos as u128, i as u128);
                } else {
                    lemma_bit_max(i as u128);
                }
            } else {
                if pos < 128 {
                    lemma_bit_zero((i - 128) as u128);
                } else {
                    lemma_bit_low_mask((pos - 128) as u128, (i - 128) as u128);
                }
            }
        }
        w
    }

    /// The word with bits `pos..=255` set and the others clear.
    pub fn at_or_above(pos: u8) -> (w: Word)
        ensures
            forall|i: int| 0 <= i < 256 ==> (#[trigger] w.has_bit(i) <==> pos <= i),
    {
        let w = if pos < 128 {
            let p = pos as u128;
            proof {
                lemma_low_mask_fits(p);
            }
            Word { hi: u128::MAX, lo: !((1u128 << p) - 1) }
        } else {
            let p = (pos - 128) as u128;
            proof {
                lemma_low_mask_fits(p);
            }
            Word { hi: !((1u128 << p) - 1), lo: 0 }
        };
        assert forall|i: int| 0 <= i < 256 implies (#[trigger] w.has_bit(i) <==> pos <= i) by {
            if i < 128 {
                if pos < 128 {
                    lemma_bit_high_mask(pos as u128, i as u128);
                } else {
                    lemma_bit_zero(i as u128);
                }
            } else {
                if pos < 128 {
                    lemma_bit_max((i - 128) as u128);
                } else {
                    lemma_bit_high_mask((pos - 128) as u128, (i - 128) as u128);
                }
            }
        }
        w
    }

    /// Bitwise and.
    pub fn and(&self, other: &Word) -> (w: Word)
        ensures
            forall|i: int|
                0 <= i < 256 ==> (#[trigger] w.has_bit(i) <==> (self.has_bit(i) && other.has_bit(
                    i,
                ))),
    {
        let w = Word { hi: self.hi & other.hi, lo: self.lo & other.lo };
        assert forall|i: int| 0 <= i < 256 implies (#[trigger] w.has_bit(i) <==> (self.has_bit(i)
            && other.has_bit(i))) by {
            if i < 128 {
                lemma_bit_and(self.lo, other.lo, i as u128);
            } else {
                lemma_bit_and(self.hi, other.hi, (i - 128) as u128);
            }
        }
        w
    }

    /// Bitwise exclusive or.
    pub fn xor(&self, other: &Word) -> (w: Word)
        ensures
            forall|i: int|
                0 <= i < 256 ==> (#[trigger] w.has_bit(i) <==> (self.has_bit(i) != other.has_bit(
                    i,
                ))),
    {
        let w = Word { hi: self.hi ^ other.hi, lo: self.lo ^ other.lo };
        assert forall|i: int| 0 <= i < 256 implies (#[trigger] w.has_bit(i) <==> (self.has_bit(i)
            != other.has_bit(i))) by {
            if i < 128 {
                lemma_bit_xor(self.lo, other.lo, i as u128);
            } else {
                lemma_bit_xor(self.hi, other.hi, (i - 128) as u128);
            }
        }
        w
    }

    /// Index of the highest set bit of a nonzero word.
    pub fn most_significant_bit(&self) -> (r: u8)
        requires
            self.hi != 0 || self.lo != 0,
        ensures
            self.has_bit(r as int),
            forall|j: int| r < j < 256 ==> !#[trigger] self.has_bit(j),
    {
        if self.hi != 0 {
            let m = msb128(self.hi);
            proof {
                lemma_top_bit(self.hi, m, m);
                assert forall|j: int| m + 128 < j < 256 implies !#[trigger] self.has_bit(j) by {
                    lemma_top_bit(self.hi, m, (j - 128) as u128);
                }
            }
            (m + 128) as u8
        } else {
            let m = msb128(self.lo);
            proof {
                lemma_top_bit(self.lo, m, m);
                assert forall|j: int| m < j < 256 implies !#[trigger] self.has_bit(j) by {
                    if j < 128 {
                        lemma_top_bit(self.lo, m, j as u128);
                    } else {
                        lemma_bit_zero((j - 128) as u128);
                    }
                }
            }
            m as u8
        }
    }

    /// Index of the lowest set bit of a nonzero word.
    pub fn least_significant_bit(&self) -> (r: u8)
        requires
            self.hi != 0 || self.lo != 0,
        ensures
            self.has_bit(r as int),
            forall|j: int| 0 <= j < r ==> !#[trigger] self.has_bit(j),
    {
        if self.lo != 0 {
            let m = lsb128(self.lo);
            proof {
                assert forall|j: int| 0 <= j < m implies !#[trigger] self.has_bit(j) by {
                    lemma_bottom_bit(self.lo, m, j as u128);
                }
            }
            m as u8
        } else {
            let m = lsb128(self.hi);
            proof {
                assert forall|j: int| 0 <= j < m + 128 implies !#[trigger] self.has_bit(j) by {
                    if j < 128 {
                        lemma_bit_zero(j as u128);
                    } else {
                        lemma_bottom_bit(self.hi, m, (j - 128) as u128);
                    }
                }
            }
            (m + 128) as u8
        }
    }
}

} // verus!
