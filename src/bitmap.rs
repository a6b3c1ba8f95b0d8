//! The tick bitmap: one 256-bit word per word position, a set bit marking an
//! initialized compressed tick.
use std::collections::HashMap;
use vstd::prelude::*;
use vstd::arithmetic::div_mod::{lemma_fundamental_div_mod, lemma_fundamental_div_mod_converse};
use crate::error::TickError;
use crate::word::Word;

verus! {

broadcast use vstd::std_specs::hash::group_hash_axioms;

/// Floor division and the matching nonnegative remainder.
fn floor_div_mod(a: i32, b: i32) -> (res: (i32, i32))
    requires
        b > 0,
    ensures
        res.0 == a as int / b as int,
        res.1 == a as int % b as int,
{
    if a >= 0 {
        (a / b, a % b)
    } else {
        // a = -(k + 1) with k >= 0, so a = (-(k / b) - 1) * b + (b - 1 - k % b)
        let k: i32 = -(a + 1);
        let q: i32 = k / b;
        let m: i32 = k % b;
        proof {
            lemma_fundamental_div_mod(k as int, b as int);
            assert(a == (-q - 1) * b + (b - 1 - m)) by (nonlinear_arith)
                requires
                    k == b * q + m,
                    a == -(k + 1),
            ;
            lemma_fundamental_div_mod_converse(a as int, b as int, -q - 1, b - 1 - m);
        }
        (-q - 1, b - 1 - m)
    }
}

/// A compressed tick index lies in the range of `i32`.
pub open spec fn in_tick_range(c: int) -> bool {
    i32::MIN <= c <= i32::MAX
}

proof fn lemma_in_word(j: int, w: int)
    requires
        w * 256 <= j < w * 256 + 256,
    ensures
        j / 256 == w,
        j % 256 == j - w * 256,
{
    lemma_fundamental_div_mod_converse(j, 256, w, j - w * 256);
}

/// Initialized compressed ticks, as one 256-bit word per word position;
/// a word position never written reads as all zero.
pub struct TickBitmap {
    tick_bitmap: HashMap<i32, Word>,
}

impl TickBitmap {
    /// The word stored at word position `wp`; an absent word is all zero.
    pub closed spec fn word_at(self, wp: i32) -> Word {
        if self.tick_bitmap@.contains_key(wp) {
            self.tick_bitmap@[wp]
        } else {
            Word { hi: 0, lo: 0 }
        }
    }

    /// Whether the compressed tick `c` is marked initialized.
    pub closed spec fn is_initialized(self, c: int) -> bool {
        in_tick_range(c) && self.word_at((c / 256) as i32).has_bit(c % 256)
    }

    /// `self` is `prev` with the mark of compressed tick `c` toggled.
    pub open spec fn is_flip_of(self, prev: TickBitmap, c: int) -> bool {
        forall|j: int|
            #[trigger] self.is_initialized(j) == if j == c {
                !prev.is_initialized(j)
            } else {
                prev.is_initialized(j)
            }
    }

    /// Scanning down from compressed tick `j` to `lo`: the first initialized
    /// tick met, or `lo` unmarked when there is none.
    pub open spec fn scan_down(self, j: int, lo: int) -> (int, bool)
        decreases j - lo,
    {
        if self.is_initialized(j) {
            (j, true)
        } else if j <= lo {
            (lo, false)
        } else {
            self.scan_down(j - 1, lo)
        }
    }

    /// Scanning up from compressed tick `j` to `hi`: the first initialized
    /// tick met, or `hi` unmarked when there is none.
    pub open spec fn scan_up(self, j: int, hi: int) -> (int, bool)
        decreases hi - j,
    {
        if self.is_initialized(j) {
            (j, true)
        } else if j >= hi {
            (hi, false)
        } else {
            self.scan_up(j + 1, hi)
        }
    }

    /// The nearest initialized tick at or below `tick` (`lte`) or strictly
    /// above it, searched within one word of the compressed index, and
    /// whether one was found; when none is, the word's bottom (`lte`) or top.
    pub open spec fn next_initialized_spec(self, tick: int, spacing: int, lte: bool) -> (int, bool) {
        let c = tick / spacing;
        if lte {
            let found = self.scan_down(c, c - c % 256);
            (found.0 * spacing, found.1)
        } else {
            let found = self.scan_up(c + 1, (c + 1) - (c + 1) % 256 + 255);
            (found.0 * spacing, found.1)
        }
    }

    /// An empty bitmap.
    pub fn instantiate_bitmap() -> (b: TickBitmap)
        ensures
            forall|c: int| !#[trigger] b.is_initialized(c),
    {
        proof {
            Word::lemma_zero_is_empty();
        }
        TickBitmap { tick_bitmap: HashMap::new() }
    }

    /// Splits a compressed tick into its word position and its bit position
    /// within that word.
    pub fn position(tick: i32) -> (res: (i32, u8))
        ensures
            res.0 == tick as int / 256,
            res.1 == tick as int % 256,
            res.0 * 256 + res.1 == tick,
    {
        let (q, m) = floor_div_mod(tick, 256);
        proof {
            lemma_fundamental_div_mod(tick as int, 256);
        }
        (q, m as u8)
    }

    /// Whether the compressed tick `compressed` is marked initialized.
    pub fn is_initialized_at(&self, compressed: i32) -> (r: bool)
        ensures
            r == self.is_initialized(compressed as int),
    {
        let (wp, bp) = Self::position(compressed);
        let w = self.load_word(wp);
        proof {
            lemma_in_word(compressed as int, wp as int);
        }
        w.bit(bp)
    }

    fn load_word(&self, wp: i32) -> (w: Word)
        ensures
            w == self.word_at(wp),
    {
        match self.tick_bitmap.get(&wp) {
            Some(w) => *w,
            None => Word::zero(),
        }
    }

    proof fn lemma_scan_down_found(self, j: int, lo: int, n: int)
        requires
            lo <= n <= j,
            self.is_initialized(n),
            forall|k: int| n < k <= j ==> !#[trigger] self.is_initialized(k),
        ensures
            self.scan_down(j, lo) == (n, true),
        decreases j - n,
    {
        if j > n {
            self.lemma_scan_down_found(j - 1, lo, n);
        }
    }

    proof fn lemma_scan_down_none(self, j: int, lo: int)
        requires
            lo <= j,
            forall|k: int| lo <= k <= j ==> !#[trigger] self.is_initialized(k),
        ensures
            self.scan_down(j, lo) == (lo, false),
        decreases j - lo,
    {
        if j > lo {
            self.lemma_scan_down_none(j - 1, lo);
        }
    }

    proof fn lemma_scan_up_found(self, j: int, hi: int, n: int)
        requires
            j <= n <= hi,
            self.is_initialized(n),
            forall|k: int| j <= k < n ==> !#[trigger] self.is_initialized(k),
        ensures
            self.scan_up(j, hi) == (n, true),
        decreases n - j,
    {
        if j < n {
            self.lemma_scan_up_found(j + 1, hi, n);
        }
    }

    proof fn lemma_scan_up_none(self, j: int, hi: int)
        requires
            j <= hi,
            forall|k: int| j <= k <= hi ==> !#[trigger] self.is_initialized(k),
        ensures
            self.scan_up(j, hi) == (hi, false),
        decreases hi - j,
    {
        if j < hi {
            self.lemma_scan_up_none(j + 1, hi);
        }
    }

    /// Toggles the mark of `tick`, which must be a multiple of the spacing;
    /// a tick that is not is rejected and nothing changes.
    pub fn flip_tick(&mut self, tick: i32, tick_spacing: i32) -> (r: Result<(), TickError>)
        requires
            tick_spacing > 0,
        ensures
            tick as int % tick_spacing as int != 0 ==> r == Err::<(), TickError>(
                TickError::InvalidTickSpacing,
            ) && *final(self) == *old(self),
            tick as int % tick_spacing as int == 0 ==> r == Ok::<(), TickError>(())
                && final(self).is_flip_of(*old(self), tick as int / tick_spacing as int),
    {
        let (c, m) = floor_div_mod(tick, tick_spacing);
        if m != 0 {
            return Err(TickError::InvalidTickSpacing);
        }
        let (wp, bp) = Self::position(c);
        let mask = Word::single(bp);
        let w = self.load_word(wp);
        let nw = w.xor(&mask);
        let ghost prev = *self;
        self.tick_bitmap.insert(wp, nw);
        proof {
            assert forall|j: int|
                #[trigger] self.is_initialized(j) == if j == c {
                    !prev.is_initialized(j)
                } else {
                    prev.is_initialized(j)
                } by {
                if in_tick_range(j) {
                    lemma_fundamental_div_mod(j, 256);
                    if j / 256 == wp as int {
                        lemma_in_word(j, wp as int);
                        assert(self.word_at(wp) == nw);
                    } else {
                        assert(self.word_at((j / 256) as i32) == prev.word_at((j / 256) as i32));
                    }
                }
            }
        }
        Ok(())
    }

    proof fn lemma_scan_down_range(self, j: int, lo: int)
        requires
            lo <= j,
        ensures
            lo <= self.scan_down(j, lo).0 <= j,
        decreases j - lo,
    {
        if j > lo {
            self.lemma_scan_down_range(j - 1, lo);
        }
    }

    proof fn lemma_scan_up_range(self, j: int, hi: int)
        requires
            j <= hi,
        ensures
            j <= self.scan_up(j, hi).0 <= hi,
        decreases hi - j,
    {
        if j < hi {
            self.lemma_scan_up_range(j + 1, hi);
        }
    }

    /// A multiple of a positive spacing that fits `i32` has a factor that
    /// fits too.
    proof fn lemma_factor_fits(n: int, spacing: int)
        requires
            spacing > 0,
            i32::MIN <= n * spacing <= i32::MAX,
        ensures
            i32::MIN <= n <= i32::MAX,
    {
        if n > 0 {
            assert(n <= n * spacing) by (nonlinear_arith)
                requires
                    n > 0,
                    spacing > 0,
            ;
        } else {
            assert(n * spacing <= n) by (nonlinear_arith)
                requires
                    n <= 0,
                    spacing > 0,
            ;
        }
    }

    /// Searches for the nearest initialized tick within the word of `tick`'s
    /// compressed index: at or below it when `lte`, else strictly above it.
    /// Returns the tick found and `true`, or the word's bottom (`lte`) or top
    /// and `false` when the word holds none in that direction.
    pub fn next_initialized_tick_within_one_word(&self, tick: i32, tick_spacing: i32, lte: bool) -> (r: (i32, bool))
        requires
            tick_spacing > 0,
            i32::MIN <= self.next_initialized_spec(tick as int, tick_spacing as int, lte).0
                <= i32::MAX,
        ensures
            r.0 == self.next_initialized_spec(tick as int, tick_spacing as int, lte).0,
            r.1 == self.next_initialized_spec(tick as int, tick_spacing as int, lte).1,
    {
        let (compressed, _) = floor_div_mod(tick, tick_spacing);
        let ghost c = compressed as int;
        let ghost sp = tick_spacing as int;
        if lte {
            let (wp, bp) = Self::position(compressed);
            let w = self.load_word(wp);
            let masked = w.and(&Word::at_or_below(bp));
            let ghost lo = wp * 256;
            if !masked.is_zero() {
                let m = masked.most_significant_bit();
                let ghost n = c - (bp - m);
                proof {
                    lemma_in_word(n, wp as int);
                    assert forall|k: int| n < k <= c implies !#[trigger] self.is_initialized(k) by {
                        lemma_in_word(k, wp as int);
                        assert(!masked.has_bit(k - lo));
                    }
                    self.lemma_scan_down_found(c, lo, n);
                    Self::lemma_factor_fits(n, sp);
                }
                let n = compressed - (bp as i32 - m as i32);
                (n * tick_spacing, true)
            } else {
                let ghost n = c - bp;
                proof {
                    assert forall|k: int| lo <= k <= c implies !#[trigger] self.is_initialized(k) by {
                        lemma_in_word(k, wp as int);
                        assert(!masked.has_bit(k - lo));
                    }
                    self.lemma_scan_down_none(c, lo);
                    Self::lemma_factor_fits(n, sp);
                }
                let n = compressed - bp as i32;
                (n * tick_spacing, false)
            }
        } else {
            proof {
                let c1 = c + 1;
                let hi = c1 - c1 % 256 + 255;
                self.lemma_scan_up_range(c1, hi);
                Self::lemma_factor_fits(self.scan_up(c1, hi).0, sp);
            }
            let c1 = compressed + 1;
            let (wp, bp) = Self::position(c1);
            let w = self.load_word(wp);
            let masked = w.and(&Word::at_or_above(bp));
            let ghost hi = wp * 256 + 255;
            if !masked.is_zero() {
                let l = masked.least_significant_bit();
                let ghost n = c1 + (l - bp);
                proof {
                    lemma_in_word(n, wp as int);
                    assert forall|k: int| c1 <= k < n implies !#[trigger] self.is_initialized(k) by {
                        lemma_in_word(k, wp as int);
                        assert(!masked.has_bit(k - wp * 256));
                    }
                    self.lemma_scan_up_found(c1 as int, hi, n);
                    Self::lemma_factor_fits(n, sp);
                }
                let n = c1 + (l as i32 - bp as i32);
                (n * tick_spacing, true)
            } else {
                let ghost n = c1 + (255 - bp);
                proof {
                    assert forall|k: int| c1 <= k <= hi implies !#[trigger] self.is_initialized(k) by {
                        lemma_in_word(k, wp as int);
                        assert(!masked.has_bit(k - wp * 256));
                    }
                    self.lemma_scan_up_none(c1 as int, hi);
                    Self::lemma_factor_fits(n, sp);
                }
                let n = c1 + (255 - bp as i32);
                (n * tick_spacing, false)
            }
        }
    }
}

/// Flipping the same tick twice restores every mark of the bitmap.
pub proof fn lemma_flip_twice_restores(
    before: TickBitmap,
    between: TickBitmap,
    after: TickBitmap,
    c: int,
)
    requires
        between.is_flip_of(before, c),
        after.is_flip_of(between, c),
    ensures
        forall|j: int| #[trigger] after.is_initialized(j) == before.is_initialized(j),
{
    assert forall|j: int| #[trigger] after.is_initialized(j) == before.is_initialized(j) by {
        assert(between.is_initialized(j) == if j == c {
            !before.is_initialized(j)
        } else {
            before.is_initialized(j)
        });
    }
}

/// A search at or below a tick whose word holds no initialized tick reports
/// none, and the bottom of that word.
pub proof fn lemma_next_in_empty_word(bitmap: TickBitmap, tick: i32, tick_spacing: i32)
    requires
        tick_spacing > 0,
        forall|k: int|
            #![trigger bitmap.is_initialized(k)]
            (tick / tick_spacing) - (tick / tick_spacing) % 256 <= k < (tick / tick_spacing) - (tick
                / tick_spacing) % 256 + 256 ==> !bitmap.is_initialized(k),
    ensures
        bitmap.next_initialized_spec(tick as int, tick_spacing as int, true) == (((tick
            / tick_spacing) - (tick / tick_spacing) % 256) * tick_spacing, false),
{
    let c = tick as int / tick_spacing as int;
    bitmap.lemma_scan_down_none(c, c - c % 256);
}

/// Once the tick `t` is marked, a search at or below `t` finds `t` itself.
pub proof fn lemma_next_at_or_below_finds_flipped(
    before: TickBitmap,
    after: TickBitmap,
    t: i32,
    tick_spacing: i32,
)
    requires
        tick_spacing > 0,
        t % tick_spacing == 0,
        !before.is_initialized(t / tick_spacing),
        after.is_flip_of(before, t / tick_spacing),
    ensures
        after.next_initialized_spec(t as int, tick_spacing as int, true) == (t as int, true),
{
    let c = t as int / tick_spacing as int;
    lemma_fundamental_div_mod(t as int, tick_spacing as int);
    assert(after.is_initialized(c));
    assert(c * tick_spacing == t) by (nonlinear_arith)
        requires
            t == tick_spacing * c + 0,
    ;
}

/// Once the tick `t` is marked, a search strictly above the tick one spacing
/// below `t` finds `t`.
pub proof fn lemma_next_above_finds_flipped(
    before: TickBitmap,
    after: TickBitmap,
    t: i32,
    tick_spacing: i32,
)
    requires
        tick_spacing > 0,
        t % tick_spacing == 0,
        !before.is_initialized(t / tick_spacing),
        after.is_flip_of(before, t / tick_spacing),
    ensures
        after.next_initialized_spec(t - tick_spacing, tick_spacing as int, false) == (t as int, true),
{
    let c = t as int / tick_spacing as int;
    lemma_fundamental_div_mod(t as int, tick_spacing as int);
    assert(c * tick_spacing == t) by (nonlinear_arith)
        requires
            t == tick_spacing * c + 0,
    ;
    assert(t - tick_spacing == (c - 1) * tick_spacing) by (nonlinear_arith)
        requires
            c * tick_spacing == t,
    ;
    lemma_fundamental_div_mod_converse(t - tick_spacing, tick_spacing as int, c - 1, 0);
    assert(after.is_initialized(c));
}

} // verus!
