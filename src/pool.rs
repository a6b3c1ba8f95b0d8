//! The pool's liquidity state and its mint path: tick records, position
//! records and the tick bitmap, kept consistent with one another.
use vstd::prelude::*;
use crate::bitmap::{in_tick_range, TickBitmap};
use crate::error::TickError;
use crate::ledger::{Ledger, TicksInfo};

verus! {

pub const MIN_TICK: i32 = -887272;

pub const MAX_TICK: i32 = 887272;

/// Whether `[tick_lower, tick_upper)` is a valid position range.
pub open spec fn valid_range(tick_lower: i32, tick_upper: i32) -> bool {
    tick_lower < tick_upper && MIN_TICK <= tick_lower && tick_upper <= MAX_TICK
}

/// Liquidity state of one pool. The bitmap marks (at spacing one) exactly
/// the ticks with nonzero gross liquidity.
pub struct RadiswapV3 {
    liquidity: u128,
    ledger: Ledger,
    tick_bitmap: TickBitmap,
}

impl RadiswapV3 {
    /// The pool's total liquidity.
    pub closed spec fn liquidity_view(self) -> u128 {
        self.liquidity
    }

    /// The pool's tick and position records.
    pub closed spec fn ledger_view(self) -> Ledger {
        self.ledger
    }

    /// The pool's tick bitmap.
    pub closed spec fn bitmap_view(self) -> TickBitmap {
        self.tick_bitmap
    }

    /// The bitmap (at spacing one) marks exactly the ticks whose gross
    /// liquidity is nonzero.
    pub open spec fn marks_follow_liquidity(self) -> bool {
        forall|c: int| #[trigger]
            self.bitmap_view().is_initialized(c) == (in_tick_range(c) && self.ledger_view().tick_info(
                c as i32,
            ).liquidity != 0)
    }

    /// What a well-formed pool guarantees: its bitmap follows its tick
    /// liquidity, and no tick or position holds more than the total.
    pub proof fn lemma_wf_facts(self)
        requires
            self.wf(),
        ensures
            self.marks_follow_liquidity(),
            self.ledger_view().wf(),
            forall|t: i32| #[trigger] self.ledger_view().tick_info(t).liquidity <= self.liquidity_view(),
            forall|o: Seq<u8>, lo: i32, up: i32| #[trigger]
                self.ledger_view().position_of(o, lo, up) <= self.liquidity_view(),
    {
    }

    /// The ledger is well formed, a tick is marked exactly when its gross
    /// liquidity is nonzero, and no tick or position holds more than the
    /// pool's total liquidity.
    pub closed spec fn wf(self) -> bool {
        &&& self.ledger.wf()
        &&& forall|c: int| #[trigger]
            self.tick_bitmap.is_initialized(c) == (in_tick_range(c) && self.ledger.tick_info(
                c as i32,
            ).liquidity != 0)
        &&& forall|t: i32| #[trigger] self.ledger.tick_info(t).liquidity <= self.liquidity
        &&& forall|o: Seq<u8>, lo: i32, up: i32| #[trigger]
            self.ledger.position_of(o, lo, up) <= self.liquidity
    }

    /// A pool with no liquidity.
    pub fn new() -> (p: RadiswapV3)
        ensures
            p.wf(),
            p.liquidity_view() == 0,
            p.marks_follow_liquidity(),
            forall|c: int| !#[trigger] p.bitmap_view().is_initialized(c),
            forall|t: i32| #[trigger] p.ledger_view().tick_info(t) == (TicksInfo { initialized: false, liquidity: 0 }),
            forall|o: Seq<u8>, lo: i32, up: i32| #[trigger] p.ledger_view().position_of(o, lo, up) == 0,
    {
        RadiswapV3 { liquidity: 0, ledger: Ledger::new(), tick_bitmap: TickBitmap::instantiate_bitmap() }
    }

    /// The pool's total liquidity.
    pub fn liquidity(&self) -> (r: u128)
        ensures
            r == self.liquidity_view(),
    {
        self.liquidity
    }

    /// The tick and position records.
    pub fn ledger(&self) -> (r: &Ledger)
        ensures
            *r == self.ledger_view(),
    {
        &self.ledger
    }

    /// The tick bitmap.
    pub fn tick_bitmap(&self) -> (r: &TickBitmap)
        ensures
            *r == self.bitmap_view(),
    {
        &self.tick_bitmap
    }

    /// Marks or unmarks `tick` when its gross liquidity crossed zero.
    fn flip_if(&mut self, tick: i32, flipped: bool)
        ensures
            !flipped ==> *final(self) == *old(self),
            flipped ==> final(self).tick_bitmap.is_flip_of(old(self).tick_bitmap, tick as int),
            final(self).ledger == old(self).ledger,
            final(self).liquidity == old(self).liquidity,
    {
        if flipped {
            let r = self.tick_bitmap.flip_tick(tick, 1);
            assert(r is Ok);
        }
    }

    /// Adds `amount` of liquidity owned by `owner` over
    /// `[tick_lower, tick_upper)`: both ticks' gross liquidity grows by
    /// `amount`, a tick whose liquidity was zero gets marked in the bitmap,
    /// and the position and the pool's total liquidity grow by `amount`.
    /// An invalid range or a zero amount is rejected and changes nothing.
    pub fn mint(&mut self, owner: &Vec<u8>, tick_lower: i32, tick_upper: i32, amount: u128) -> (r: Result<(), TickError>)
        requires
            old(self).wf(),
            valid_range(tick_lower, tick_upper) && amount != 0 ==> old(self).liquidity_view() + amount
                <= u128::MAX,
        ensures
            final(self).wf(),
            final(self).marks_follow_liquidity(),
            !valid_range(tick_lower, tick_upper) ==> r == Err::<(), TickError>(TickError::TickRangeInvalid)
                && *final(self) == *old(self),
            valid_range(tick_lower, tick_upper) && amount == 0 ==> r == Err::<(), TickError>(
                TickError::ZeroLiquidityRequest,
            ) && *final(self) == *old(self),
            valid_range(tick_lower, tick_upper) && amount != 0 ==> {
                &&& r == Ok::<(), TickError>(())
                &&& final(self).liquidity_view() == old(self).liquidity_view() + amount
                &&& final(self).ledger_view().tick_info(tick_lower).liquidity == old(self).ledger_view().tick_info(
                    tick_lower,
                ).liquidity + amount
                &&& final(self).ledger_view().tick_info(tick_lower).initialized
                &&& final(self).ledger_view().tick_info(tick_upper).liquidity == old(self).ledger_view().tick_info(
                    tick_upper,
                ).liquidity + amount
                &&& final(self).ledger_view().tick_info(tick_upper).initialized
                &&& forall|t: i32|
                    t != tick_lower && t != tick_upper ==> #[trigger] final(self).ledger_view().tick_info(t)
                        == old(self).ledger_view().tick_info(t)
                &&& final(self).ledger_view().position_of(owner@, tick_lower, tick_upper)
                    == old(self).ledger_view().position_of(owner@, tick_lower, tick_upper) + amount
                &&& forall|o: Seq<u8>, lo: i32, up: i32|
                    !(o == owner@ && lo == tick_lower && up == tick_upper) ==> #[trigger] final(self).ledger_view().position_of(
                        o,
                        lo,
                        up,
                    ) == old(self).ledger_view().position_of(o, lo, up)
            },
    {
        if tick_lower >= tick_upper || tick_lower < MIN_TICK || tick_upper > MAX_TICK {
            return Err(TickError::TickRangeInvalid);
        }
        if amount == 0 {
            return Err(TickError::ZeroLiquidityRequest);
        }
        let ghost prev = *self;
        let flipped_lower = self.ledger.update_ticks(tick_lower, amount);
        let flipped_upper = self.ledger.update_ticks(tick_upper, amount);
        let ghost mid = *self;
        self.flip_if(tick_lower, flipped_lower);
        let ghost mid2 = *self;
        self.flip_if(tick_upper, flipped_upper);
        proof {
            assert forall|c: int| #[trigger]
                self.tick_bitmap.is_initialized(c) == (in_tick_range(c) && self.ledger.tick_info(
                    c as i32,
                ).liquidity != 0) by {
                assert(prev.tick_bitmap.is_initialized(c) == (in_tick_range(c)
                    && prev.ledger.tick_info(c as i32).liquidity != 0));
                if flipped_lower {
                    assert(mid2.tick_bitmap.is_initialized(c) == if c == tick_lower as int {
                        !mid.tick_bitmap.is_initialized(c)
                    } else {
                        mid.tick_bitmap.is_initialized(c)
                    });
                }
                if flipped_upper {
                    assert(self.tick_bitmap.is_initialized(c) == if c == tick_upper as int {
                        !mid2.tick_bitmap.is_initialized(c)
                    } else {
                        mid2.tick_bitmap.is_initialized(c)
                    });
                }
            }
        }
        self.ledger.update_position(owner, tick_lower, tick_upper, amount);
        self.liquidity = self.liquidity + amount;
        Ok(())
    }
}

} // verus!
