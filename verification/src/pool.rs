//! The state of a pool, how each event changes it, and the book of known
//! pools keyed by pool address.

use vstd::prelude::*;
use crate::events::PoolUpdate;
use crate::primitives::{Address, U256};

verus! {

/// What is known of one pool: its address and tokens, its fee tier, and its
/// current square-root price, tick and in-range liquidity.
#[derive(Clone, Copy, Debug, PartialEq, Eq)]
pub struct PoolState {
    pub address: Address,
    pub token_0: Address,
    pub token_1: Address,
    pub fee: u32,
    pub sqrt_price_x96: U256,
    pub tick: i32,
    pub liquidity: u128,
}

/// The state after a swap: price, tick and liquidity replaced, the rest kept.
pub open spec fn swap_applied(s: PoolState, sqrt_price: U256, tick: i32, liquidity: u128) -> PoolState {
    PoolState { sqrt_price_x96: sqrt_price, tick: tick, liquidity: liquidity, ..s }
}

/// The current tick lies strictly inside the position's tick range.
pub open spec fn tick_strictly_inside(s: PoolState, tick_lower: i32, tick_upper: i32) -> bool {
    s.tick < tick_upper && s.tick > tick_lower
}

/// The state after a mint: an in-range position adds its amount to the
/// liquidity; `None` where that sum leaves `u128`.
pub open spec fn mint_applied(s: PoolState, tick_lower: i32, tick_upper: i32, amount: u128) -> Option<PoolState> {
    if tick_strictly_inside(s, tick_lower, tick_upper) {
        if s.liquidity + amount <= u128::MAX {
            Some(PoolState { liquidity: (s.liquidity + amount) as u128, ..s })
        } else {
            None
        }
    } else {
        Some(s)
    }
}

/// The state after a burn: an in-range position takes its amount from the
/// liquidity; `None` where the liquidity is smaller than the amount.
pub open spec fn burn_applied(s: PoolState, tick_lower: i32, tick_upper: i32, amount: u128) -> Option<PoolState> {
    if tick_strictly_inside(s, tick_lower, tick_upper) {
        if s.liquidity >= amount {
            Some(PoolState { liquidity: (s.liquidity - amount) as u128, ..s })
        } else {
            None
        }
    } else {
        Some(s)
    }
}

/// The state after any update; `None` where the liquidity would leave `u128`.
pub open spec fn update_applied(s: PoolState, u: PoolUpdate) -> Option<PoolState> {
    match u {
        PoolUpdate::Swap { sqrt_price, tick, liquidity } => Some(swap_applied(s, sqrt_price, tick, liquidity)),
        PoolUpdate::Mint { tick_lower, tick_upper, amount } => mint_applied(s, tick_lower, tick_upper, amount),
        PoolUpdate::Burn { tick_lower, tick_upper, amount } => burn_applied(s, tick_lower, tick_upper, amount),
    }
}

/// Whether an update applies to a pool's state without the liquidity leaving
/// `u128`.
pub fn update_applies(pool_state: &PoolState, update: &PoolUpdate) -> (r: bool)
    ensures
        r == (update_applied(*pool_state, *update) is Some),
        update is Swap ==> r,
        match *update {
            PoolUpdate::Mint { tick_lower, tick_upper, amount } => r == (pool_state.tick >= tick_upper
                || pool_state.tick <= tick_lower || pool_state.liquidity + amount <= u128::MAX),
            PoolUpdate::Burn { tick_lower, tick_upper, amount } => r == (pool_state.tick >= tick_upper
                || pool_state.tick <= tick_lower || pool_state.liquidity >= amount),
            PoolUpdate::Swap { .. } => r,
        },
{
    match update {
        PoolUpdate::Swap { .. } => true,
        PoolUpdate::Mint { tick_lower, tick_upper, amount } => {
            if pool_state.tick < *tick_upper && pool_state.tick > *tick_lower {
                pool_state.liquidity <= u128::MAX - *amount
            } else {
                true
            }
        },
        PoolUpdate::Burn { tick_lower, tick_upper, amount } => {
            if pool_state.tick < *tick_upper && pool_state.tick > *tick_lower {
                pool_state.liquidity >= *amount
            } else {
                true
            }
        },
    }
}

/// A swap sets the price, the tick and the liquidity.
pub fn apply_swap_update(pool_state: &mut PoolState, sqrt_price: U256, tick: i32, liquidity: u128)
    ensures
        *final(pool_state) == swap_applied(*old(pool_state), sqrt_price, tick, liquidity),
        final(pool_state).sqrt_price_x96 == sqrt_price,
        final(pool_state).tick == tick,
        final(pool_state).liquidity == liquidity,
        final(pool_state).address == old(pool_state).address,
        final(pool_state).token_0 == old(pool_state).token_0,
        final(pool_state).token_1 == old(pool_state).token_1,
        final(pool_state).fee == old(pool_state).fee,
{
    pool_state.sqrt_price_x96 = sqrt_price;
    pool_state.tick = tick;
    pool_state.liquidity = liquidity;
}

/// A mint whose range holds the current tick strictly inside adds its amount
/// to the liquidity.
pub fn apply_mint_update(pool_state: &mut PoolState, tick_lower: i32, tick_upper: i32, amount: u128)
    requires
        mint_applied(*old(pool_state), tick_lower, tick_upper, amount) is Some,
    ensures
        Some(*final(pool_state)) == mint_applied(*old(pool_state), tick_lower, tick_upper, amount),
        old(pool_state).tick >= tick_upper || old(pool_state).tick <= tick_lower ==> *final(pool_state)
            == *old(pool_state),
        tick_lower < old(pool_state).tick < tick_upper ==> final(pool_state).liquidity
            == old(pool_state).liquidity + amount,
        final(pool_state).sqrt_price_x96 == old(pool_state).sqrt_price_x96,
        final(pool_state).tick == old(pool_state).tick,
        final(pool_state).address == old(pool_state).address,
        final(pool_state).token_0 == old(pool_state).token_0,
        final(pool_state).token_1 == old(pool_state).token_1,
        final(pool_state).fee == old(pool_state).fee,
{
    if pool_state.tick < tick_upper && pool_state.tick > tick_lower {
        pool_state.liquidity = pool_state.liquidity + amount;
    }
}

/// A burn whose range holds the current tick strictly inside takes its
/// amount from the liquidity.
pub fn apply_burn_update(pool_state: &mut PoolState, tick_lower: i32, tick_upper: i32, amount: u128)
    requires
        burn_applied(*old(pool_state), tick_lower, tick_upper, amount) is Some,
    ensures
        Some(*final(pool_state)) == burn_applied(*old(pool_state), tick_lower, tick_upper, amount),
        old(pool_state).tick >= tick_upper || old(pool_state).tick <= tick_lower ==> *final(pool_state)
            == *old(pool_state),
        tick_lower < old(pool_state).tick < tick_upper ==> final(pool_state).liquidity
            == old(pool_state).liquidity - amount,
        final(pool_state).sqrt_price_x96 == old(pool_state).sqrt_price_x96,
        final(pool_state).tick == old(pool_state).tick,
        final(pool_state).address == old(pool_state).address,
        final(pool_state).token_0 == old(pool_state).token_0,
        final(pool_state).token_1 == old(pool_state).token_1,
        final(pool_state).fee == old(pool_state).fee,
{
    if pool_state.tick < tick_upper && pool_state.tick > tick_lower {
        pool_state.liquidity = pool_state.liquidity - amount;
    }
}

/// Applies any update to a pool's state.
pub fn apply_update(pool_state: &mut PoolState, update: &PoolUpdate)
    requires
        update_applied(*old(pool_state), *update) is Some,
    ensures
        Some(*final(pool_state)) == update_applied(*old(pool_state), *update),
{
    match update {
        PoolUpdate::Swap { sqrt_price, tick, liquidity } => apply_swap_update(pool_state, *sqrt_price, *tick, *liquidity),
        PoolUpdate::Mint { tick_lower, tick_upper, amount } => apply_mint_update(pool_state, *tick_lower, *tick_upper, *amount),
        PoolUpdate::Burn { tick_lower, tick_upper, amount } => apply_burn_update(pool_state, *tick_lower, *tick_upper, *amount),
    }
}

/// A swap sets the price, the tick and the liquidity to the event's values,
/// whatever they were, and keeps the pool's address, tokens and fee tier.
pub proof fn lemma_swap_sets_price_tick_liquidity(s: PoolState, sqrt_price: U256, tick: i32, liquidity: u128)
    ensures
        swap_applied(s, sqrt_price, tick, liquidity).sqrt_price_x96 == sqrt_price,
        swap_applied(s, sqrt_price, tick, liquidity).tick == tick,
        swap_applied(s, sqrt_price, tick, liquidity).liquidity == liquidity,
        swap_applied(s, sqrt_price, tick, liquidity).address == s.address,
        swap_applied(s, sqrt_price, tick, liquidity).token_0 == s.token_0,
        swap_applied(s, sqrt_price, tick, liquidity).token_1 == s.token_1,
        swap_applied(s, sqrt_price, tick, liquidity).fee == s.fee,
        update_applied(s, PoolUpdate::Swap { sqrt_price, tick, liquidity }) == Some(
            swap_applied(s, sqrt_price, tick, liquidity),
        ),
{
}

/// A mint or burn leaves the pool as it is unless `tick_lower < tick <
/// tick_upper`; inside that range a mint adds its amount to the liquidity and
/// a burn takes it away, nothing else changing.
pub proof fn lemma_position_changes_liquidity_only_strictly_inside(
    s: PoolState,
    tick_lower: i32,
    tick_upper: i32,
    amount: u128,
)
    ensures
        s.tick >= tick_upper || s.tick <= tick_lower ==> mint_applied(s, tick_lower, tick_upper, amount)
            == Some(s) && burn_applied(s, tick_lower, tick_upper, amount) == Some(s),
        tick_lower < s.tick < tick_upper && s.liquidity + amount <= u128::MAX ==> mint_applied(
            s,
            tick_lower,
            tick_upper,
            amount,
        ) == Some(PoolState { liquidity: (s.liquidity + amount) as u128, ..s }),
        tick_lower < s.tick < tick_upper && s.liquidity + amount > u128::MAX ==> mint_applied(
            s,
            tick_lower,
            tick_upper,
            amount,
        ) is None,
        tick_lower < s.tick < tick_upper && s.liquidity >= amount ==> burn_applied(
            s,
            tick_lower,
            tick_upper,
            amount,
        ) == Some(PoolState { liquidity: (s.liquidity - amount) as u128, ..s }),
        tick_lower < s.tick < tick_upper && s.liquidity < amount ==> burn_applied(
            s,
            tick_lower,
            tick_upper,
            amount,
        ) is None,
        update_applied(s, PoolUpdate::Mint { tick_lower, tick_upper, amount }) == mint_applied(
            s,
            tick_lower,
            tick_upper,
            amount,
        ),
        update_applied(s, PoolUpdate::Burn { tick_lower, tick_upper, amount }) == burn_applied(
            s,
            tick_lower,
            tick_upper,
            amount,
        ),
{
}

/// A pool matches a search exactly when both tokens and the fee tier are the
/// ones asked for.
pub proof fn lemma_pool_matches_exactly(s: PoolState, token_0: Address, token_1: Address, fee: u32)
    ensures
        pool_matches(s, token_0, token_1, fee) <==> (s.token_0 == token_0 && s.token_1 == token_1
            && s.fee == fee),
{
}

/// A burn of the amount that a mint with the same tick range added takes the
/// pool back to where it was before the mint.
pub proof fn lemma_burn_undoes_mint(s: PoolState, tick_lower: i32, tick_upper: i32, amount: u128)
    requires
        mint_applied(s, tick_lower, tick_upper, amount) is Some,
    ensures
        burn_applied(mint_applied(s, tick_lower, tick_upper, amount).unwrap(), tick_lower, tick_upper, amount)
            == Some(s),
{
}

/// Applying the same swap twice leaves the pool as applying it once.
pub proof fn lemma_swap_idempotent(s: PoolState, sqrt_price: U256, tick: i32, liquidity: u128)
    ensures
        swap_applied(swap_applied(s, sqrt_price, tick, liquidity), sqrt_price, tick, liquidity)
            == swap_applied(s, sqrt_price, tick, liquidity),
{
}

/// No update changes a pool's address, tokens or fee tier.
pub proof fn lemma_update_keeps_identity(s: PoolState, u: PoolUpdate)
    requires
        update_applied(s, u) is Some,
    ensures
        update_applied(s, u).unwrap().address == s.address,
        update_applied(s, u).unwrap().token_0 == s.token_0,
        update_applied(s, u).unwrap().token_1 == s.token_1,
        update_applied(s, u).unwrap().fee == s.fee,
{
}

/// A mint or burn whose tick range does not hold the current tick strictly
/// inside leaves the pool as it is.
pub proof fn lemma_out_of_range_position_changes_nothing(s: PoolState, tick_lower: i32, tick_upper: i32, amount: u128)
    requires
        !tick_strictly_inside(s, tick_lower, tick_upper),
    ensures
        mint_applied(s, tick_lower, tick_upper, amount) == Some(s),
        burn_applied(s, tick_lower, tick_upper, amount) == Some(s),
{
}

/// One pool of the book, under the address it is kept by.
#[derive(Clone, Copy, Debug, PartialEq, Eq)]
pub struct PoolEntry {
    pub key: Address,
    pub state: PoolState,
}

/// The map from pool address to pool state that a list of entries spells,
/// later entries written over earlier ones.
pub open spec fn entries_map(entries: Seq<PoolEntry>) -> Map<Address, PoolState>
    decreases entries.len(),
{
    if entries.len() == 0 {
        Map::empty()
    } else {
        entries_map(entries.drop_last()).insert(entries.last().key, entries.last().state)
    }
}

/// No address is the key of two entries.
pub open spec fn keys_unique(entries: Seq<PoolEntry>) -> bool {
    forall|i: int, j: int|
        0 <= i < entries.len() && 0 <= j < entries.len() && i != j ==> entries[i].key
            != entries[j].key
}

/// With distinct keys, the map holds every entry's state under its key.
pub proof fn lemma_entries_map_lookup(entries: Seq<PoolEntry>, i: int)
    requires
        keys_unique(entries),
        0 <= i < entries.len(),
    ensures
        entries_map(entries).contains_key(entries[i].key),
        entries_map(entries)[entries[i].key] == entries[i].state,
    decreases entries.len(),
{
    if i < entries.len() - 1 {
        lemma_entries_map_lookup(entries.drop_last(), i);
    }
}

/// The map's keys are the entries' keys.
pub proof fn lemma_entries_map_domain(entries: Seq<PoolEntry>, key: Address)
    ensures
        entries_map(entries).contains_key(key) <==> exists|i: int|
            0 <= i < entries.len() && (#[trigger] entries[i]).key == key,
    decreases entries.len(),
{
    if entries.len() > 0 {
        let rest = entries.drop_last();
        lemma_entries_map_domain(rest, key);
        if entries_map(rest).contains_key(key) {
            let i = choose|i: int| 0 <= i < rest.len() && (#[trigger] rest[i]).key == key;
            assert(entries[i] == rest[i]);
        }
        if exists|i: int| 0 <= i < entries.len() && (#[trigger] entries[i]).key == key {
            let i = choose|i: int| 0 <= i < entries.len() && (#[trigger] entries[i]).key == key;
            if i < entries.len() - 1 {
                assert(rest[i] == entries[i]);
            }
        }
    }
}

/// With distinct keys, writing a new state into one entry writes it into the
/// map under that entry's key.
pub proof fn lemma_entries_map_update(entries: Seq<PoolEntry>, i: int, state: PoolState)
    requires
        keys_unique(entries),
        0 <= i < entries.len(),
    ensures
        entries_map(entries.update(i, PoolEntry { key: entries[i].key, state: state }))
            =~= entries_map(entries).insert(entries[i].key, state),
    decreases entries.len(),
{
    let e = PoolEntry { key: entries[i].key, state: state };
    let updated = entries.update(i, e);
    if i == entries.len() - 1 {
        assert(updated.drop_last() =~= entries.drop_last());
    } else {
        let rest = entries.drop_last();
        lemma_entries_map_update(rest, i, state);
        assert(updated.drop_last() =~= rest.update(i, e));
        assert(updated.last() == entries.last());
    }
}

/// The pools known to the actor, keyed by pool address.
pub struct PoolBook {
    entries: Vec<PoolEntry>,
}

impl PoolBook {
    #[verifier::type_invariant]
    closed spec fn well_formed(&self) -> bool {
        keys_unique(self.entries@)
    }

    /// The pools as a map from address to state.
    pub closed spec fn pools(&self) -> Map<Address, PoolState> {
        entries_map(self.entries@)
    }
}

impl View for PoolBook {
    type V = Map<Address, PoolState>;

    open spec fn view(&self) -> Map<Address, PoolState> {
        self.pools()
    }
}

/// The pool's tokens and fee tier are the ones asked for.
pub open spec fn pool_matches(s: PoolState, token_0: Address, token_1: Address, fee: u32) -> bool {
    s.token_0 == token_0 && s.token_1 == token_1 && fee == s.fee
}

/// The book after one update to the pool kept under `key`: unchanged when no
/// pool is kept there; `None` where the pool's liquidity would leave `u128`.
pub open spec fn book_after_update(book: Map<Address, PoolState>, key: Address, update: PoolUpdate) -> Option<
    Map<Address, PoolState>,
> {
    if book.contains_key(key) {
        match update_applied(book[key], update) {
            Some(s) => Some(book.insert(key, s)),
            None => None,
        }
    } else {
        Some(book)
    }
}

impl PoolBook {
    /// A book without pools.
    pub fn new() -> (book: PoolBook)
        ensures
            book@ == Map::<Address, PoolState>::empty(),
    {
        PoolBook { entries: Vec::new() }
    }

    /// The index of the entry kept under `key`, if any.
    fn index_of(&self, key: &Address) -> (r: Option<usize>)
        ensures
            r matches Some(i) ==> i < self.entries@.len() && self.entries@[i as int].key == *key,
            r is None ==> forall|i: int| 0 <= i < self.entries@.len() ==> (#[trigger] self.entries@[i]).key != *key,
    {
        let n = self.entries.len();
        let mut i: usize = 0;
        while i < n
            invariant
                0 <= i <= n,
                n == self.entries@.len(),
                forall|j: int| 0 <= j < i ==> (#[trigger] self.entries@[j]).key != *key,
            decreases n - i,
        {
            if self.entries[i].key.equals(key) {
                return Some(i);
            }
            i = i + 1;
        }
        None
    }

    /// The number of pools.
    pub fn len(&self) -> (n: usize)
        ensures
            n == self@.len(),
    {
        proof {
            use_type_invariant(self);
            self.lemma_len();
        }
        self.entries.len()
    }

    proof fn lemma_len(&self)
        requires
            keys_unique(self.entries@),
        ensures
            self@.len() == self.entries@.len(),
            self@.dom().finite(),
    {
        lemma_entries_map_len(self.entries@);
    }

    /// The addresses under which pools are kept, each once.
    pub fn addresses(&self) -> (r: Vec<Address>)
        ensures
            forall|k: Address| self@.contains_key(k) <==> r@.contains(k),
            r@.no_duplicates(),
    {
        proof {
            use_type_invariant(self);
        }
        let n = self.entries.len();
        let mut r: Vec<Address> = Vec::new();
        let mut i: usize = 0;
        while i < n
            invariant
                0 <= i <= n,
                n == self.entries@.len(),
                keys_unique(self.entries@),
                r@.len() == i,
                forall|j: int| 0 <= j < i ==> r@[j] == (#[trigger] self.entries@[j]).key,
            decreases n - i,
        {
            r.push(self.entries[i].key);
            i = i + 1;
        }
        proof {
            assert forall|k: Address| self@.contains_key(k) <==> r@.contains(k) by {
                lemma_entries_map_domain(self.entries@, k);
                if r@.contains(k) {
                    let j = choose|j: int| 0 <= j < r@.len() && r@[j] == k;
                    assert(self.entries@[j].key == k);
                }
                if self@.contains_key(k) {
                    let j = choose|j: int| 0 <= j < self.entries@.len() && (#[trigger] self.entries@[j]).key == k;
                    assert(r@[j] == k);
                }
            }
            assert forall|a: int, b: int| 0 <= a < r@.len() && 0 <= b < r@.len() && a != b implies r@[a] != r@[b] by {
                assert(r@[a] == self.entries@[a].key);
                assert(r@[b] == self.entries@[b].key);
            }
        }
        r
    }

    /// The state of the pool kept under `key`.
    pub fn get(&self, key: &Address) -> (r: Option<PoolState>)
        ensures
            r == (if self@.contains_key(*key) { Some(self@[*key]) } else { None::<PoolState> }),
    {
        proof {
            use_type_invariant(self);
        }
        match self.index_of(key) {
            Some(i) => {
                proof {
                    lemma_entries_map_lookup(self.entries@, i as int);
                }
                Some(self.entries[i].state)
            },
            None => {
                proof {
                    lemma_entries_map_domain(self.entries@, *key);
                }
                None
            },
        }
    }

    /// Keeps `state` under `key`, in place of any pool kept there before.
    pub fn insert(&mut self, key: Address, state: PoolState)
        ensures
            final(self)@ == old(self)@.insert(key, state),
    {
        proof {
            use_type_invariant(&*self);
        }
        match self.index_of(&key) {
            Some(i) => {
                proof {
                    lemma_entries_map_update(self.entries@, i as int, state);
                }
                let ghost before = self.entries@;
                let mut entries = Vec::new();
                std::mem::swap(&mut entries, &mut self.entries);
                entries.set(i, PoolEntry { key, state });
                proof {
                    assert(entries@ =~= before.update(i as int, PoolEntry { key: before[i as int].key, state }));
                }
                self.entries = entries;
            },
            None => {
                let ghost before = self.entries@;
                let mut entries = Vec::new();
                std::mem::swap(&mut entries, &mut self.entries);
                entries.push(PoolEntry { key, state });
                proof {
                    assert(entries@.drop_last() =~= before);
                }
                self.entries = entries;
            },
        }
    }

    /// The address of a pool, among those known, with the given tokens and
    /// fee tier; `None` exactly when no known pool has them.
    pub fn find_pool(&self, token_0: &Address, token_1: &Address, fee: u32) -> (r: Option<Address>)
        ensures
            r matches Some(a) ==> exists|k: Address|
                #![trigger self@[k]]
                self@.contains_key(k) && pool_matches(self@[k], *token_0, *token_1, fee) && self@[k].address == a,
            r is None <==> !exists|k: Address|
                #![trigger self@[k]]
                self@.contains_key(k) && pool_matches(self@[k], *token_0, *token_1, fee),
            r matches Some(a) ==> exists|k: Address|
                #![trigger self@[k]]
                self@.contains_key(k) && self@[k].token_0 == *token_0 && self@[k].token_1 == *token_1
                    && self@[k].fee == fee && self@[k].address == a,
            r is None <==> forall|k: Address|
                #![trigger self@[k]]
                self@.contains_key(k) ==> !(self@[k].token_0 == *token_0 && self@[k].token_1
                    == *token_1 && self@[k].fee == fee),
    {
        proof {
            use_type_invariant(self);
        }
        let n = self.entries.len();
        let mut i: usize = 0;
        while i < n
            invariant
                0 <= i <= n,
                n == self.entries@.len(),
                keys_unique(self.entries@),
                forall|j: int|
                    0 <= j < i ==> !pool_matches((#[trigger] self.entries@[j]).state, *token_0, *token_1, fee),
            decreases n - i,
        {
            let state = &self.entries[i].state;
            if state.token_0.equals(token_0) && state.token_1.equals(token_1) && fee == state.fee {
                proof {
                    lemma_entries_map_lookup(self.entries@, i as int);
                    let k = self.entries@[i as int].key;
                    assert(self@.contains_key(k) && self@[k] == *state);
                    assert(pool_matches(self@[k], *token_0, *token_1, fee));
                }
                return Some(state.address);
            }
            i = i + 1;
        }
        proof {
            assert forall|k: Address| #![trigger self@[k]] self@.contains_key(k) implies !pool_matches(self@[k], *token_0, *token_1, fee) by {
                lemma_entries_map_domain(self.entries@, k);
                let j = choose|j: int| 0 <= j < self.entries@.len() && (#[trigger] self.entries@[j]).key == k;
                lemma_entries_map_lookup(self.entries@, j);
            }
        }
        None
    }

    /// A copy of the book.
    pub fn duplicate(&self) -> (copy: PoolBook)
        ensures
            copy@ == self@,
    {
        proof {
            use_type_invariant(self);
        }
        let n = self.entries.len();
        let mut entries: Vec<PoolEntry> = Vec::new();
        let mut i: usize = 0;
        while i < n
            invariant
                0 <= i <= n,
                n == self.entries@.len(),
                entries@ == self.entries@.take(i as int),
            decreases n - i,
        {
            entries.push(self.entries[i]);
            i = i + 1;
            assert(entries@ =~= self.entries@.take(i as int));
        }
        assert(entries@ =~= self.entries@);
        PoolBook { entries }
    }

    /// Applies one update to the pool kept under `key` where the pool's
    /// liquidity stays within `u128`, and tells whether it did; a key under
    /// which no pool is kept leaves the book unchanged.
    pub fn try_apply_update_at(&mut self, key: &Address, update: &PoolUpdate) -> (applied: bool)
        ensures
            applied == (book_after_update(old(self)@, *key, *update) is Some),
            applied ==> Some(final(self)@) == book_after_update(old(self)@, *key, *update),
            !applied ==> final(self)@ == old(self)@,
    {
        proof {
            use_type_invariant(&*self);
        }
        match self.index_of(key) {
            Some(i) => {
                proof {
                    lemma_entries_map_lookup(self.entries@, i as int);
                }
                if !update_applies(&self.entries[i].state, update) {
                    return false;
                }
            },
            None => {
                proof {
                    lemma_entries_map_domain(self.entries@, *key);
                }
            },
        }
        self.apply_update_at(key, update);
        true
    }

    /// Applies one update to the pool kept under `key`; a key under which no
    /// pool is kept leaves the book unchanged.
    pub fn apply_update_at(&mut self, key: &Address, update: &PoolUpdate)
        requires
            book_after_update(old(self)@, *key, *update) is Some,
        ensures
            Some(final(self)@) == book_after_update(old(self)@, *key, *update),
    {
        proof {
            use_type_invariant(&*self);
        }
        match self.index_of(key) {
            Some(i) => {
                proof {
                    lemma_entries_map_lookup(self.entries@, i as int);
                }
                let mut state = self.entries[i].state;
                apply_update(&mut state, update);
                proof {
                    lemma_entries_map_update(self.entries@, i as int, state);
                }
                let ghost before = self.entries@;
                let k = self.entries[i].key;
                let mut entries = Vec::new();
                std::mem::swap(&mut entries, &mut self.entries);
                entries.set(i, PoolEntry { key: k, state });
                proof {
                    assert(entries@ =~= before.update(i as int, PoolEntry { key: before[i as int].key, state }));
                }
                self.entries = entries;
            },
            None => {
                proof {
                    lemma_entries_map_domain(self.entries@, *key);
                }
            },
        }
    }
}

/// With distinct keys, the map has as many pools as there are entries.
pub proof fn lemma_entries_map_len(entries: Seq<PoolEntry>)
    requires
        keys_unique(entries),
    ensures
        entries_map(entries).dom().finite(),
        entries_map(entries).len() == entries.len(),
    decreases entries.len(),
{
    if entries.len() > 0 {
        let rest = entries.drop_last();
        assert(keys_unique(rest));
        lemma_entries_map_len(rest);
        lemma_entries_map_domain(rest, entries.last().key);
        if entries_map(rest).contains_key(entries.last().key) {
            let i = choose|i: int| 0 <= i < rest.len() && (#[trigger] rest[i]).key == entries.last().key;
            assert(entries[i] == rest[i]);
        }
    }
}

} // verus!
