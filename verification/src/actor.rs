//! The pool actor: the book of pools it serves and the answers it gives to
//! the requests of its handlers.

use vstd::prelude::*;
use crate::pool::{PoolBook, PoolState};
use crate::primitives::{address_text_byte, is_address_text, parse_address, Address, U256};

verus! {

/// A request to the pool actor, without the channel its answer goes back on.
#[derive(Clone, Copy, Debug, PartialEq, Eq)]
pub enum PoolRequest {
    GetPoolState { pool: Address },
    SimulateSwap { amount_in: U256, token_in: Address, pool: Address },
    FindPool { token_0: Address, token_1: Address, fee: u32 },
}

/// The answer to a request.
#[derive(Clone, Copy, Debug, PartialEq, Eq)]
pub enum PoolReply {
    PoolState(Option<PoolState>),
    SwapAmount(Option<U256>),
    PoolAddress(Option<Address>),
}

/// `found` is a fitting answer to a search of `book` for a pool with the
/// given tokens and fee tier: the address of such a pool, or nothing exactly
/// when there is none.
pub open spec fn is_pool_search_answer(
    book: Map<Address, PoolState>,
    token_0: Address,
    token_1: Address,
    fee: u32,
    found: Option<Address>,
) -> bool {
    &&& found matches Some(a) ==> exists|k: Address|
        #![trigger book[k]]
        book.contains_key(k) && book[k].token_0 == token_0 && book[k].token_1 == token_1
            && book[k].fee == fee && book[k].address == a
    &&& found is None <==> forall|k: Address|
        #![trigger book[k]]
        book.contains_key(k) ==> !(book[k].token_0 == token_0 && book[k].token_1 == token_1
            && book[k].fee == fee)
}

/// The actor that keeps the known pools of a factory and answers questions
/// about them.
pub struct PoolActor {
    pools: PoolBook,
    factory_address: Address,
}

impl PoolActor {
    /// The pools the actor knows.
    pub closed spec fn pools_view(&self) -> Map<Address, PoolState> {
        self.pools@
    }

    /// The factory whose pools the actor keeps.
    pub closed spec fn factory(&self) -> Address {
        self.factory_address
    }

    /// An actor for the factory at the address that `factory_address_str`
    /// spells, knowing no pool yet.
    pub fn new(factory_address_str: &str) -> (actor: PoolActor)
        requires
            is_address_text(factory_address_str@),
        ensures
            actor.pools_view() == Map::<Address, PoolState>::empty(),
            forall|i: int|
                0 <= i < 20 ==> actor.factory().bytes[i] as nat == #[trigger] address_text_byte(
                    factory_address_str@,
                    i,
                ),
    {
        let factory_address = match parse_address(factory_address_str) {
            Some(a) => a,
            None => Address::from_bytes([0u8; 20]),
        };
        PoolActor { pools: PoolBook::new(), factory_address }
    }

    /// The factory address.
    pub fn factory_address(&self) -> (a: Address)
        ensures
            a == self.factory(),
    {
        self.factory_address
    }

    /// The book of pools.
    pub fn pools(&self) -> (book: &PoolBook)
        ensures
            book@ == self.pools_view(),
    {
        &self.pools
    }

    /// Keeps `state` under `key` among the known pools.
    pub fn add_pool(&mut self, key: Address, state: PoolState)
        ensures
            final(self).pools_view() == old(self).pools_view().insert(key, state),
            final(self).factory() == old(self).factory(),
    {
        self.pools.insert(key, state);
    }

    /// The address of a known pool with the given tokens and fee tier.
    pub fn find_pool(&self, token_0: &Address, token_1: &Address, fee: u32) -> (r: Option<Address>)
        ensures
            is_pool_search_answer(self.pools_view(), *token_0, *token_1, fee, r),
    {
        self.pools.find_pool(token_0, token_1, fee)
    }

    /// The answer to a request. Only the search for a pool is answered: the
    /// pool state and the swap simulation have no answer to give.
    pub fn on_message(&self, request: &PoolRequest) -> (reply: PoolReply)
        requires
            request is FindPool,
        ensures
            match *request {
                PoolRequest::FindPool { token_0, token_1, fee } => reply matches PoolReply::PoolAddress(found)
                    && is_pool_search_answer(self.pools_view(), token_0, token_1, fee, found),
                _ => false,
            },
    {
        match request {
            PoolRequest::FindPool { token_0, token_1, fee } => {
                PoolReply::PoolAddress(self.find_pool(token_0, token_1, *fee))
            },
            PoolRequest::GetPoolState { .. } => PoolReply::PoolState(None),
            PoolRequest::SimulateSwap { .. } => PoolReply::SwapAmount(None),
        }
    }
}

} // verus!
