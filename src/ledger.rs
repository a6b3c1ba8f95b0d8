//! Per-tick and per-position liquidity bookkeeping.
use std::collections::HashMap;
use vstd::prelude::*;

verus! {

broadcast use vstd::std_specs::hash::group_hash_axioms;

/// The record of one tick: its gross liquidity and whether it is initialized.
#[derive(Clone, Copy, Debug, PartialEq, Eq, Structural)]
pub struct TicksInfo {
    pub initialized: bool,
    pub liquidity: u128,
}

/// A tick record after `delta` is added to its gross liquidity.
pub open spec fn tick_after_update(info: TicksInfo, delta: u128) -> TicksInfo {
    TicksInfo {
        initialized: info.liquidity + delta != 0,
        liquidity: (info.liquidity + delta) as u128,
    }
}

/// Whether a change of gross liquidity from `before` to `after` crosses
/// between zero and nonzero, in either direction.
pub open spec fn crosses_zero(before: int, after: int) -> bool {
    (after == 0) != (before == 0)
}

/// A fresh tick given a positive liquidity becomes initialized and reports a
/// flip; a second positive addition to it reports none.
pub proof fn lemma_fresh_tick_flips_once(first: u128, second: u128)
    requires
        first > 0,
        second > 0,
        first + second <= u128::MAX,
    ensures
        crosses_zero(0, first as int),
        tick_after_update(TicksInfo { initialized: false, liquidity: 0 }, first) == (TicksInfo {
            initialized: true,
            liquidity: first,
        }),
        !crosses_zero(first as int, first + second),
        tick_after_update(TicksInfo { initialized: true, liquidity: first }, second) == (TicksInfo {
            initialized: true,
            liquidity: (first + second) as u128,
        }),
{
}

/// The key of a position: its owner's identity and its tick range.
pub struct PositionKey {
    pub owner: Vec<u8>,
    pub tick_lower: i32,
    pub tick_upper: i32,
}

impl PositionKey {
    /// Whether this key is the one made of `owner`, `tick_lower` and `tick_upper`.
    pub open spec fn is(self, owner: Seq<u8>, tick_lower: i32, tick_upper: i32) -> bool {
        self.owner@ == owner && self.tick_lower == tick_lower && self.tick_upper == tick_upper
    }
}

/// Whether two byte strings are equal.
fn bytes_equal(a: &Vec<u8>, b: &Vec<u8>) -> (r: bool)
    ensures
        r == (a@ == b@),
{
    if a.len() != b.len() {
        return false;
    }
    let mut i: usize = 0;
    while i < a.len()
        invariant
            a@.len() == b@.len(),
            i <= a@.len(),
            forall|k: int| 0 <= k < i ==> a@[k] == b@[k],
        decreases a@.len() - i,
    {
        if a[i] != b[i] {
            return false;
        }
        i = i + 1;
    }
    assert(a@ =~= b@);
    true
}

/// Tick records keyed by raw tick, and position records keyed by owner and
/// tick range; absent records read as zero.
pub struct Ledger {
    ticks: HashMap<i32, TicksInfo>,
    position_keys: Vec<PositionKey>,
    position_liquidity: Vec<u128>,
}

impl Ledger {
    /// The record of `tick`; a tick never referenced is uninitialized with
    /// zero liquidity.
    pub closed spec fn tick_info(self, tick: i32) -> TicksInfo {
        if self.ticks@.contains_key(tick) {
            self.ticks@[tick]
        } else {
            TicksInfo { initialized: false, liquidity: 0 }
        }
    }

    closed spec fn holds_position(self, owner: Seq<u8>, tick_lower: i32, tick_upper: i32) -> bool {
        exists|i: int|
            0 <= i < self.position_keys@.len() && #[trigger] self.position_keys@[i].is(
                owner,
                tick_lower,
                tick_upper,
            )
    }

    /// The liquidity held under the position key; zero for a key never used.
    pub closed spec fn position_of(self, owner: Seq<u8>, tick_lower: i32, tick_upper: i32) -> u128 {
        if self.holds_position(owner, tick_lower, tick_upper) {
            self.position_liquidity@[choose|i: int|
                0 <= i < self.position_keys@.len() && #[trigger] self.position_keys@[i].is(
                    owner,
                    tick_lower,
                    tick_upper,
                )]
        } else {
            0
        }
    }

    /// Each tick record is initialized exactly when its liquidity is nonzero,
    /// and no position key is stored twice.
    pub closed spec fn wf(self) -> bool {
        &&& forall|t: i32| #[trigger]
            self.ticks@.contains_key(t) ==> self.ticks@[t].initialized == (self.ticks@[t].liquidity
                != 0)
        &&& self.position_keys@.len() == self.position_liquidity@.len()
        &&& forall|i: int, j: int|
            0 <= i < j < self.position_keys@.len() ==> !(#[trigger] self.position_keys@[i]).is(
                (#[trigger] self.position_keys@[j]).owner@,
                self.position_keys@[j].tick_lower,
                self.position_keys@[j].tick_upper,
            )
    }

    /// In a well-formed ledger a tick is initialized exactly when its gross
    /// liquidity is nonzero.
    pub proof fn lemma_tick_info_consistent(self, tick: i32)
        requires
            self.wf(),
        ensures
            self.tick_info(tick).initialized == (self.tick_info(tick).liquidity != 0),
    {
    }

    /// A ledger with no records.
    pub fn new() -> (l: Ledger)
        ensures
            l.wf(),
            forall|t: i32| #[trigger] l.tick_info(t) == (TicksInfo { initialized: false, liquidity: 0 }),
            forall|o: Seq<u8>, lo: i32, up: i32| #[trigger] l.position_of(o, lo, up) == 0,
    {
        Ledger { ticks: HashMap::new(), position_keys: Vec::new(), position_liquidity: Vec::new() }
    }

    /// The record of `tick`.
    pub fn tick(&self, tick: i32) -> (r: TicksInfo)
        ensures
            r == self.tick_info(tick),
    {
        match self.ticks.get(&tick) {
            Some(info) => *info,
            None => TicksInfo { initialized: false, liquidity: 0 },
        }
    }

    fn find_position(&self, owner: &Vec<u8>, tick_lower: i32, tick_upper: i32) -> (r: Option<usize>)
        requires
            self.wf(),
        ensures
            match r {
                Some(i) => i < self.position_keys@.len() && self.position_keys@[i as int].is(
                    owner@,
                    tick_lower,
                    tick_upper,
                ),
                None => !self.holds_position(owner@, tick_lower, tick_upper),
            },
    {
        let mut i: usize = 0;
        while i < self.position_keys.len()
            invariant
                i <= self.position_keys@.len(),
                forall|k: int|
                    0 <= k < i ==> !(#[trigger] self.position_keys@[k]).is(
                        owner@,
                        tick_lower,
                        tick_upper,
                    ),
            decreases self.position_keys@.len() - i,
        {
            let key = &self.position_keys[i];
            if key.tick_lower == tick_lower && key.tick_upper == tick_upper && bytes_equal(
                &key.owner,
                owner,
            ) {
                return Some(i);
            }
            i = i + 1;
        }
        None
    }

    proof fn lemma_position_at(self, i: int, owner: Seq<u8>, tick_lower: i32, tick_upper: i32)
        requires
            self.wf(),
            0 <= i < self.position_keys@.len(),
            self.position_keys@[i].is(owner, tick_lower, tick_upper),
        ensures
            self.position_of(owner, tick_lower, tick_upper) == self.position_liquidity@[i],
    {
        let j = choose|j: int|
            0 <= j < self.position_keys@.len() && #[trigger] self.position_keys@[j].is(
                owner,
                tick_lower,
                tick_upper,
            );
        if j < i {
            assert(!self.position_keys@[j].is(
                self.position_keys@[i].owner@,
                self.position_keys@[i].tick_lower,
                self.position_keys@[i].tick_upper,
            ));
        } else if i < j {
            assert(!self.position_keys@[i].is(
                self.position_keys@[j].owner@,
                self.position_keys@[j].tick_lower,
                self.position_keys@[j].tick_upper,
            ));
        }
    }

    /// The liquidity held under the position key.
    pub fn position(&self, owner: &Vec<u8>, tick_lower: i32, tick_upper: i32) -> (r: u128)
        requires
            self.wf(),
        ensures
            r == self.position_of(owner@, tick_lower, tick_upper),
    {
        match self.find_position(owner, tick_lower, tick_upper) {
            Some(i) => {
                proof {
                    self.lemma_position_at(i as int, owner@, tick_lower, tick_upper);
                }
                self.position_liquidity[i]
            },
            None => 0,
        }
    }

    /// Adds `liquidity_delta` to the gross liquidity of `tick`, creating its
    /// record if absent. Returns whether the tick crossed between zero and
    /// nonzero liquidity, in either direction.
    pub fn update_ticks(&mut self, tick: i32, liquidity_delta: u128) -> (flipped: bool)
        requires
            old(self).wf(),
            old(self).tick_info(tick).liquidity + liquidity_delta <= u128::MAX,
        ensures
            final(self).wf(),
            final(self).tick_info(tick) == tick_after_update(old(self).tick_info(tick), liquidity_delta),
            forall|t: i32| t != tick ==> #[trigger] final(self).tick_info(t) == old(self).tick_info(t),
            forall|o: Seq<u8>, lo: i32, up: i32| #[trigger]
                final(self).position_of(o, lo, up) == old(self).position_of(o, lo, up),
            flipped == crosses_zero(
                old(self).tick_info(tick).liquidity as int,
                old(self).tick_info(tick).liquidity + liquidity_delta,
            ),
    {
        let before = self.tick(tick).liquidity;
        let after = before + liquidity_delta;
        self.ticks.insert(tick, TicksInfo { initialized: after != 0, liquidity: after });
        (after == 0) != (before == 0)
    }

    /// Adds `liquidity_delta` to the liquidity of the position keyed by the
    /// owner and the tick range, creating its record if absent.
    pub fn update_position(
        &mut self,
        owner: &Vec<u8>,
        tick_lower: i32,
        tick_upper: i32,
        liquidity_delta: u128,
    )
        requires
            old(self).wf(),
            old(self).position_of(owner@, tick_lower, tick_upper) + liquidity_delta <= u128::MAX,
        ensures
            final(self).wf(),
            final(self).position_of(owner@, tick_lower, tick_upper) == old(self).position_of(
                owner@,
                tick_lower,
                tick_upper,
            ) + liquidity_delta,
            forall|o: Seq<u8>, lo: i32, up: i32|
                !(o == owner@ && lo == tick_lower && up == tick_upper) ==> #[trigger] final(self).position_of(
                    o,
                    lo,
                    up,
                ) == old(self).position_of(o, lo, up),
            forall|t: i32| #[trigger] final(self).tick_info(t) == old(self).tick_info(t),
    {
        let ghost prev = *self;
        match self.find_position(owner, tick_lower, tick_upper) {
            Some(i) => {
                proof {
                    prev.lemma_position_at(i as int, owner@, tick_lower, tick_upper);
                }
                let after = self.position_liquidity[i] + liquidity_delta;
                self.position_liquidity.set(i, after);
                proof {
                    self.lemma_position_at(i as int, owner@, tick_lower, tick_upper);
                    assert forall|o: Seq<u8>, lo: i32, up: i32|
                        !(o == owner@ && lo == tick_lower && up == tick_upper) implies #[trigger] self.position_of(
                        o,
                        lo,
                        up,
                    ) == prev.position_of(o, lo, up) by {
                        if prev.holds_position(o, lo, up) {
                            let j = choose|j: int|
                                0 <= j < prev.position_keys@.len() && #[trigger] prev.position_keys@[j].is(
                                    o,
                                    lo,
                                    up,
                                );
                            prev.lemma_position_at(j, o, lo, up);
                            self.lemma_position_at(j, o, lo, up);
                        }
                    }
                }
            },
            None => {
                let key = PositionKey {
                    owner: owner.clone(),
                    tick_lower,
                    tick_upper,
                };
                assert(key.owner@ =~= owner@);
                self.position_keys.push(key);
                self.position_liquidity.push(liquidity_delta);
                proof {
                    let n = prev.position_keys@.len() as int;
                    assert(self.position_keys@[n].is(owner@, tick_lower, tick_upper));
                    assert forall|i: int, j: int|
                        0 <= i < j < self.position_keys@.len() implies !(#[trigger] self.position_keys@[i]).is(
                        (#[trigger] self.position_keys@[j]).owner@,
                        self.position_keys@[j].tick_lower,
                        self.position_keys@[j].tick_upper,
                    ) by {
                        if j == n {
                            assert(self.position_keys@[i] == prev.position_keys@[i]);
                        }
                    }
                    self.lemma_position_at(n, owner@, tick_lower, tick_upper);
                    assert forall|o: Seq<u8>, lo: i32, up: i32|
                        !(o == owner@ && lo == tick_lower && up == tick_upper) implies #[trigger] self.position_of(
                        o,
                        lo,
                        up,
                    ) == prev.position_of(o, lo, up) by {
                        if prev.holds_position(o, lo, up) {
                            let j = choose|j: int|
                                0 <= j < prev.position_keys@.len() && #[trigger] prev.position_keys@[j].is(
                                    o,
                                    lo,
                                    up,
                                );
                            prev.lemma_position_at(j, o, lo, up);
                            assert(self.position_keys@[j] == prev.position_keys@[j]);
                            self.lemma_position_at(j, o, lo, up);
                        } else if self.holds_position(o, lo, up) {
                            let j = choose|j: int|
                                0 <= j < self.position_keys@.len() && #[trigger] self.position_keys@[j].is(
                                    o,
                                    lo,
                                    up,
                                );
                            if j < n {
                                assert(self.position_keys@[j] == prev.position_keys@[j]);
                            }
                        }
                    }
                }
            },
        }
    }
}

} // verus!
