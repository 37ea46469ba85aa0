//! Pool events carried by log records: the `Swap`, `Mint` and `Burn` events
//! of a Uniswap V3 pool, and how their data words turn into pool updates.

use vstd::prelude::*;
use crate::primitives::{
    be_bytes, be_value, lemma_be_bytes_len, lemma_be_bytes_low, lemma_be_bytes_roundtrip,
    lemma_be_bytes_value, lemma_be_value_bound, lemma_limbs_value_bound,
    lemma_pow256_monotone_between, lemma_pow256_widths, lemma_u256_from_be_value,
    lemma_u256_value_determines, pow256, u256_from_be_bytes, u256_from_be_spec, Address, U256,
};

verus! {

/// A log record as a node returns it: the emitting contract, the topics
/// (32-byte words, the event signature first) and the data bytes.
#[derive(Clone, Debug)]
pub struct LogRecord {
    pub address: Address,
    pub topics: Vec<[u8; 32]>,
    pub data: Vec<u8>,
}

/// A change to a pool's state that an event announces.
#[derive(Clone, Copy, Debug, PartialEq, Eq)]
pub enum PoolUpdate {
    Swap { sqrt_price: U256, tick: i32, liquidity: u128 },
    Mint { tick_lower: i32, tick_upper: i32, amount: u128 },
    Burn { tick_lower: i32, tick_upper: i32, amount: u128 },
}

/// Why a log record yields no pool update.
#[derive(Clone, Copy, Debug, PartialEq, Eq)]
pub enum DecodeError {
    /// The data is shorter than the event's fixed layout.
    InsufficientData,
    /// The first topic is none of the known event signatures.
    UnknownEvent,
}

/// The signed 24-bit number that three bytes spell in big-endian
/// two's-complement order.
pub open spec fn int24_value(b0: u8, b1: u8, b2: u8) -> int {
    let u = b0 as int * 65536 + b1 as int * 256 + b2 as int;
    if b0 >= 128 {
        u - 16777216
    } else {
        u
    }
}

/// A tick read from three bytes lies in the range of `int24`.
pub proof fn lemma_int24_range(b0: u8, b1: u8, b2: u8)
    ensures
        -0x800000 <= int24_value(b0, b1, b2) < 0x800000,
{
}

/// The `int24` held in the last three bytes of a 32-byte word.
pub open spec fn word_int24(word: Seq<u8>) -> int {
    int24_value(word[29], word[30], word[31])
}

/// The `uint128` held in bytes `start` to `start + 16` of `data`.
pub open spec fn data_u128(data: Seq<u8>, start: int) -> u128 {
    be_value(data.subrange(start, start + 16)) as u128
}

/// The update that a `Swap` event's data announces: the square-root price
/// from the third word, the liquidity from the low 16 bytes of the fourth
/// word and the tick from the low 3 bytes of the fifth word.
pub open spec fn swap_from_data(data: Seq<u8>) -> Result<PoolUpdate, DecodeError> {
    if data.len() < 160 {
        Err(DecodeError::InsufficientData)
    } else {
        Ok(
            PoolUpdate::Swap {
                sqrt_price: u256_from_be_spec(data.subrange(64, 96)),
                tick: word_int24(data.subrange(128, 160)) as i32,
                liquidity: data_u128(data, 112),
            },
        )
    }
}

/// A `Mint` or `Burn` record whose data is long enough is read through its
/// second, third and fourth topics.
pub open spec fn position_event_readable(log: LogRecord) -> bool {
    log.data@.len() < 128 || log.topics@.len() >= 4
}

/// The update that a `Mint` event announces: the tick bounds from the third
/// and fourth topics, the amount from the low 16 bytes of the second data word.
pub open spec fn mint_from_log(log: LogRecord) -> Result<PoolUpdate, DecodeError> {
    if log.data@.len() < 128 {
        Err(DecodeError::InsufficientData)
    } else {
        Ok(
            PoolUpdate::Mint {
                tick_lower: word_int24(log.topics@[2]@) as i32,
                tick_upper: word_int24(log.topics@[3]@) as i32,
                amount: data_u128(log.data@, 48),
            },
        )
    }
}

/// The update that a `Burn` event announces: the tick bounds from the third
/// and fourth topics, the amount from the low 16 bytes of the first data word.
pub open spec fn burn_from_log(log: LogRecord) -> Result<PoolUpdate, DecodeError> {
    if log.data@.len() < 128 {
        Err(DecodeError::InsufficientData)
    } else {
        Ok(
            PoolUpdate::Burn {
                tick_lower: word_int24(log.topics@[2]@) as i32,
                tick_upper: word_int24(log.topics@[3]@) as i32,
                amount: data_u128(log.data@, 16),
            },
        )
    }
}

/// The big-endian value of four bytes, digit by digit.
pub proof fn lemma_be_value_of_four(s: Seq<u8>)
    requires
        s.len() == 4,
    ensures
        be_value(s) == s[0] as int * 16777216 + s[1] as int * 65536 + s[2] as int * 256
            + s[3] as int,
{
    reveal_with_fuel(be_value, 5);
    assert(s.drop_last().drop_last().drop_last().drop_last().len() == 0);
}

/// `i32::from_be_bytes`: the two's-complement number of four big-endian bytes.
pub fn i32_from_be_bytes(bytes: [u8; 4]) -> (r: i32)
    ensures
        r == be_value(bytes@) - (if bytes[0] >= 128 { 0x1_0000_0000int } else { 0int }),
{
    proof {
        lemma_be_value_of_four(bytes@);
    }
    let low: i32 = bytes[1] as i32 * 65536 + bytes[2] as i32 * 256 + bytes[3] as i32;
    if bytes[0] >= 128 {
        (bytes[0] as i32 - 256) * 16777216 + low
    } else {
        bytes[0] as i32 * 16777216 + low
    }
}

/// The `int24` in the last three bytes of a 32-byte word, sign-extended
/// from the top bit of byte 29.
fn int24_from_word_tail(word: &[u8], start: usize) -> (r: i32)
    requires
        start + 32 <= word@.len(),
    ensures
        r == word_int24(word@.subrange(start as int, start + 32)),
{
    let len = word.len();
    let b0 = word[start + 29];
    let b1 = word[start + 30];
    let b2 = word[start + 31];
    let ghost tail = word@.subrange(start as int, start + 32);
    assert(tail[29] == b0 && tail[30] == b1 && tail[31] == b2);
    let negative = b0 & 0x80 != 0;
    assert(negative == (b0 >= 128)) by (bit_vector)
        requires
            negative == (b0 & 0x80 != 0),
    ;
    let mut tick_bytes = [0u8; 4];
    if negative {
        tick_bytes[0] = 0xFF;
    }
    tick_bytes[1] = b0;
    tick_bytes[2] = b1;
    tick_bytes[3] = b2;
    assert(tick_bytes[1] == b0 && tick_bytes[2] == b1 && tick_bytes[3] == b2);
    assert(tick_bytes[0] >= 128 <==> negative);
    proof {
        lemma_be_value_of_four(tick_bytes@);
    }
    i32_from_be_bytes(tick_bytes)
}

/// `u128::from_be_bytes` on bytes `start` to `start + 16` of `data`.
fn u128_from_be_slice(data: &Vec<u8>, start: usize) -> (r: u128)
    requires
        start + 16 <= data@.len(),
    ensures
        r == data_u128(data@, start as int),
{
    let len = data.len();
    let mut acc: u128 = 0;
    let mut i: usize = 0;
    assert(data@.subrange(start as int, start as int) =~= Seq::<u8>::empty());
    while i < 16
        invariant
            0 <= i <= 16,
            start + 16 <= data@.len(),
            len == data@.len(),
            acc == be_value(data@.subrange(start as int, start + i)),
        decreases 16 - i,
    {
        let ghost prefix = data@.subrange(start as int, start + i);
        let ghost next = data@.subrange(start as int, start + i + 1);
        assert(next.drop_last() =~= prefix);
        proof {
            lemma_be_value_bound(prefix);
            lemma_pow256_le_2_120(i as nat);
        }
        acc = acc * 256 + data[start + i] as u128;
        i = i + 1;
    }
    acc
}

/// `256^n` fits in 120 bits for `n <= 15`.
proof fn lemma_pow256_le_2_120(n: nat)
    requires
        n <= 15,
    ensures
        pow256(n) <= 0x1_0000_0000_0000_0000_0000_0000_0000_00nat,
{
    assert(pow256(15) == 0x1_0000_0000_0000_0000_0000_0000_0000_00nat) by {
        reveal_with_fuel(pow256, 16);
    }
    lemma_pow256_monotone_between(n, 15);
}

/// The 32-byte word at bytes `start` to `start + 32` of `data`.
fn word_at(data: &Vec<u8>, start: usize) -> (w: [u8; 32])
    requires
        start + 32 <= data@.len(),
    ensures
        w@ == data@.subrange(start as int, start + 32),
{
    let len = data.len();
    let mut w = [0u8; 32];
    let mut i: usize = 0;
    while i < 32
        invariant
            0 <= i <= 32,
            start + 32 <= data@.len(),
            len == data@.len(),
            forall|j: int| 0 <= j < i ==> w[j] == data@[start + j],
        decreases 32 - i,
    {
        w[i] = data[start + i];
        i = i + 1;
    }
    assert(w@ =~= data@.subrange(start as int, start + 32));
    w
}

/// Reads the update of a `Swap` event from its data: the square-root price
/// (third word), the liquidity (low 16 bytes of the fourth word) and the tick
/// (low 3 bytes of the fifth word).
pub fn decode_swap_with_sol(log: &LogRecord) -> (r: Result<PoolUpdate, DecodeError>)
    ensures
        r == swap_from_data(log.data@),
{
    let data = &log.data;
    if data.len() < 160 {
        return Err(DecodeError::InsufficientData);
    }
    let sqrt_price = u256_from_be_bytes(word_at(data, 64));
    let liquidity = u128_from_be_slice(data, 112);
    let tick = int24_from_word_tail(data.as_slice(), 128);
    Ok(PoolUpdate::Swap { sqrt_price, tick, liquidity })
}

/// Reads the update of a `Mint` event: the tick bounds from the third and
/// fourth topics and the amount from the low 16 bytes of the second data word.
pub fn decode_mint_with_sol(log: &LogRecord) -> (r: Result<PoolUpdate, DecodeError>)
    requires
        position_event_readable(*log),
    ensures
        r == mint_from_log(*log),
{
    let data = &log.data;
    if data.len() < 128 {
        return Err(DecodeError::InsufficientData);
    }
    let topics = &log.topics;
    let tick_lower = int24_from_word_tail(&topics[2], 0);
    let tick_upper = int24_from_word_tail(&topics[3], 0);
    let amount = u128_from_be_slice(data, 48);
    proof {
        assert(topics@[2]@.subrange(0, 32) =~= topics@[2]@);
        assert(topics@[3]@.subrange(0, 32) =~= topics@[3]@);
    }
    Ok(PoolUpdate::Mint { tick_lower, tick_upper, amount })
}

/// Reads the update of a `Burn` event: the tick bounds from the third and
/// fourth topics and the amount from the low 16 bytes of the first data word.
pub fn decode_burn_with_sol(log: &LogRecord) -> (r: Result<PoolUpdate, DecodeError>)
    requires
        position_event_readable(*log),
    ensures
        r == burn_from_log(*log),
{
    let data = &log.data;
    if data.len() < 128 {
        return Err(DecodeError::InsufficientData);
    }
    let topics = &log.topics;
    let tick_lower = int24_from_word_tail(&topics[2], 0);
    let tick_upper = int24_from_word_tail(&topics[3], 0);
    let amount = u128_from_be_slice(data, 16);
    proof {
        assert(topics@[2]@.subrange(0, 32) =~= topics@[2]@);
        assert(topics@[3]@.subrange(0, 32) =~= topics@[3]@);
    }
    Ok(PoolUpdate::Burn { tick_lower, tick_upper, amount })
}

/// The digest that `alloy_primitives::keccak256` gives for the UTF-8 bytes
/// of a text.
pub uninterp spec fn keccak256_of_text(text: Seq<char>) -> Seq<u8>;

/// `alloy_primitives::keccak256` on the bytes of `text`: its 32-byte
/// Keccak-256 digest, a function of the text alone.
#[verifier::external_body]
fn alloy_keccak256(text: &str) -> (digest: [u8; 32])
    ensures
        digest@ == keccak256_of_text(text@),
{
    alloy::primitives::keccak256(text).0
}

/// The topics that identify the three pool events: the Keccak-256 digests of
/// their canonical signatures.
#[derive(Clone, Copy, Debug, PartialEq, Eq)]
pub struct EventSignatures {
    pub swap: [u8; 32],
    pub mint: [u8; 32],
    pub burn: [u8; 32],
}

impl EventSignatures {
    /// The signatures of the `Swap`, `Mint` and `Burn` events of a Uniswap V3
    /// pool.
    pub fn uniswap_v3() -> (sigs: EventSignatures)
        ensures
            sigs.swap@ == keccak256_of_text(
                "Swap(address,address,int256,int256,uint160,uint128,int24)"@,
            ),
            sigs.mint@ == keccak256_of_text(
                "Mint(address,address,int24,int24,uint128,uint256,uint256)"@,
            ),
            sigs.burn@ == keccak256_of_text("Burn(address,int24,int24,uint128,uint256,uint256)"@),
    {
        let swap = alloy_keccak256("Swap(address,address,int256,int256,uint160,uint128,int24)");
        let mint = alloy_keccak256("Mint(address,address,int24,int24,uint128,uint256,uint256)");
        let burn = alloy_keccak256("Burn(address,int24,int24,uint128,uint256,uint256)");
        EventSignatures { swap, mint, burn }
    }
}

/// Whether two 32-byte words are the same.
pub fn words_equal(a: &[u8; 32], b: &[u8; 32]) -> (r: bool)
    ensures
        r == (a@ == b@),
{
    let mut i: usize = 0;
    while i < 32
        invariant
            0 <= i <= 32,
            forall|j: int| 0 <= j < i ==> a[j] == b[j],
        decreases 32 - i,
    {
        if a[i] != b[i] {
            assert(a@[i as int] != b@[i as int]);
            return false;
        }
        i = i + 1;
    }
    assert(a@ =~= b@);
    true
}

/// What a log record with at least one topic announces, by its first topic:
/// a `Swap`, `Mint` or `Burn` (checked in that order), or an unknown event.
pub open spec fn decode_log_spec(log: LogRecord, sigs: EventSignatures) -> Result<
    PoolUpdate,
    DecodeError,
> {
    let topic0 = log.topics@[0]@;
    if topic0 == sigs.swap@ {
        swap_from_data(log.data@)
    } else if topic0 == sigs.mint@ {
        mint_from_log(log)
    } else if topic0 == sigs.burn@ {
        burn_from_log(log)
    } else {
        Err(DecodeError::UnknownEvent)
    }
}

/// Only the first topic decides how a record is read: a record whose first
/// topic is the `Swap` signature reads as a swap from its data, whatever
/// other topics it has; likewise a `Mint` and a `Burn`; any other first
/// topic is an unknown event.
pub proof fn lemma_first_topic_decides(log: LogRecord, sigs: EventSignatures)
    requires
        log.topics@.len() > 0,
    ensures
        log.topics@[0]@ == sigs.swap@ ==> decode_log_spec(log, sigs) == swap_from_data(log.data@),
        log.topics@[0]@ != sigs.swap@ && log.topics@[0]@ == sigs.mint@ ==> decode_log_spec(log, sigs)
            == mint_from_log(log),
        log.topics@[0]@ != sigs.swap@ && log.topics@[0]@ != sigs.mint@ && log.topics@[0]@
            == sigs.burn@ ==> decode_log_spec(log, sigs) == burn_from_log(log),
        log.topics@[0]@ != sigs.swap@ && log.topics@[0]@ != sigs.mint@ && log.topics@[0]@
            != sigs.burn@ ==> decode_log_spec(log, sigs) == Err::<PoolUpdate, DecodeError>(
            DecodeError::UnknownEvent,
        ),
{
}

/// Two records with the `Swap` signature first and the same data decode
/// alike, whatever other topics either carries; they decode to an update
/// exactly when the data holds the five words of the event.
pub proof fn lemma_swap_ignores_later_topics(log: LogRecord, other: LogRecord, sigs: EventSignatures)
    requires
        log.topics@.len() > 0,
        other.topics@.len() > 0,
        log.topics@[0]@ == sigs.swap@,
        other.topics@[0]@ == sigs.swap@,
        log.data@ == other.data@,
    ensures
        decode_log_spec(log, sigs) == decode_log_spec(other, sigs),
        decode_log_spec(log, sigs) is Ok <==> log.data@.len() >= 160,
{
}

/// A log record that names a `Mint` or `Burn` (and not a `Swap`), has data
/// long enough, and lacks the topics that carry the tick bounds.
pub open spec fn decode_log_fails_on_topics(log: LogRecord, sigs: EventSignatures) -> bool {
    let topic0 = log.topics@[0]@;
    &&& topic0 != sigs.swap@
    &&& topic0 == sigs.mint@ || topic0 == sigs.burn@
    &&& !position_event_readable(log)
}

/// Reads the pool update that a log record announces, by its first topic.
pub fn decode_log(log: &LogRecord, sigs: &EventSignatures) -> (r: Result<PoolUpdate, DecodeError>)
    requires
        log.topics@.len() > 0,
        !decode_log_fails_on_topics(*log, *sigs),
    ensures
        r == decode_log_spec(*log, *sigs),
        log.topics@[0]@ == sigs.swap@ ==> r == swap_from_data(log.data@),
        log.topics@[0]@ != sigs.swap@ && log.topics@[0]@ == sigs.mint@ ==> r == mint_from_log(*log),
        log.topics@[0]@ != sigs.swap@ && log.topics@[0]@ != sigs.mint@ && log.topics@[0]@
            == sigs.burn@ ==> r == burn_from_log(*log),
        log.topics@[0]@ != sigs.swap@ && log.topics@[0]@ != sigs.mint@ && log.topics@[0]@
            != sigs.burn@ ==> r == Err::<PoolUpdate, DecodeError>(DecodeError::UnknownEvent),
{
    let topic0 = &log.topics[0];
    if words_equal(topic0, &sigs.swap) {
        decode_swap_with_sol(log)
    } else if words_equal(topic0, &sigs.mint) {
        decode_mint_with_sol(log)
    } else if words_equal(topic0, &sigs.burn) {
        decode_burn_with_sol(log)
    } else {
        Err(DecodeError::UnknownEvent)
    }
}

/// The ABI word of an unsigned number: its 32 big-endian bytes.
pub open spec fn uint_word(n: nat) -> Seq<u8> {
    be_bytes(n, 32)
}

/// The ABI word of a signed number: its 32 bytes of big-endian two's
/// complement.
pub open spec fn int_word(x: int) -> Seq<u8> {
    be_bytes((if x < 0 { x + pow256(32) } else { x }) as nat, 32)
}

/// The low three bytes of the ABI word of an `int24` give it back.
pub proof fn lemma_int24_word_roundtrip(x: int)
    requires
        -0x800000 <= x < 0x800000,
    ensures
        word_int24(int_word(x)) == x,
{
    lemma_pow256_widths();
    let n = (if x < 0 { x + pow256(32) } else { x }) as nat;
    let w = int_word(x);
    lemma_be_bytes_len(n, 32);
    lemma_be_bytes_low(n, 32, 3);
    let low = be_bytes(n, 3);
    lemma_be_bytes_len(n, 3);
    assert(low[0] == w[29] && low[1] == w[30] && low[2] == w[31]);
    lemma_be_bytes_value(n, 3);
    assert(be_value(low) == low[0] as int * 65536 + low[1] as int * 256 + low[2] as int) by {
        reveal_with_fuel(be_value, 4);
        assert(low.drop_last().drop_last().drop_last().len() == 0);
    }
    if x < 0 {
        vstd::arithmetic::div_mod::lemma_fundamental_div_mod_converse(
            n as int,
            0x100_0000,
            0xffffffffffffffffffffffffffffffffffffffffffffffffffffffffffint,
            x + 0x100_0000,
        );
    } else {
        vstd::arithmetic::div_mod::lemma_small_mod(n, 0x100_0000);
    }
}

/// A `Swap` record's data built from the ABI words of a square-root price, a
/// liquidity and an `int24` tick decodes to exactly those values.
pub proof fn lemma_swap_decodes_abi_encoding(data: Seq<u8>, sqrt_price: U256, tick: int, liquidity: u128)
    requires
        data.len() >= 160,
        -0x800000 <= tick < 0x800000,
        data.subrange(64, 96) == uint_word(sqrt_price.value()),
        data.subrange(96, 128) == uint_word(liquidity as nat),
        data.subrange(128, 160) == int_word(tick),
    ensures
        swap_from_data(data) == Ok::<PoolUpdate, DecodeError>(
            PoolUpdate::Swap { sqrt_price: sqrt_price, tick: tick as i32, liquidity: liquidity },
        ),
{
    lemma_pow256_widths();
    lemma_int24_word_roundtrip(tick);
    lemma_limbs_value_bound(sqrt_price.limbs);
    let price_word = data.subrange(64, 96);
    lemma_be_bytes_len(sqrt_price.value(), 32);
    lemma_u256_from_be_value(price_word);
    lemma_be_bytes_roundtrip(sqrt_price.value(), 32);
    lemma_u256_value_determines(u256_from_be_spec(price_word), sqrt_price);
    lemma_be_bytes_low(liquidity as nat, 32, 16);
    assert(data.subrange(112, 128) =~= data.subrange(96, 128).subrange(16, 32));
    lemma_be_bytes_roundtrip(liquidity as nat, 16);
}

/// A `Mint` record built from the ABI words of two `int24` ticks (third and
/// fourth topics) and a `uint128` amount (second data word) decodes to
/// exactly those values.
pub proof fn lemma_mint_decodes_abi_encoding(log: LogRecord, tick_lower: int, tick_upper: int, amount: u128)
    requires
        -0x800000 <= tick_lower < 0x800000,
        -0x800000 <= tick_upper < 0x800000,
        log.topics@.len() >= 4,
        log.topics@[2]@ == int_word(tick_lower),
        log.topics@[3]@ == int_word(tick_upper),
        log.data@.len() >= 128,
        log.data@.subrange(32, 64) == uint_word(amount as nat),
    ensures
        mint_from_log(log) == Ok::<PoolUpdate, DecodeError>(
            PoolUpdate::Mint { tick_lower: tick_lower as i32, tick_upper: tick_upper as i32, amount: amount },
        ),
{
    lemma_pow256_widths();
    lemma_int24_word_roundtrip(tick_lower);
    lemma_int24_word_roundtrip(tick_upper);
    lemma_be_bytes_low(amount as nat, 32, 16);
    assert(log.data@.subrange(48, 64) =~= log.data@.subrange(32, 64).subrange(16, 32));
    lemma_be_bytes_roundtrip(amount as nat, 16);
}

/// A `Burn` record built from the ABI words of two `int24` ticks (third and
/// fourth topics) and a `uint128` amount (first data word) decodes to
/// exactly those values.
pub proof fn lemma_burn_decodes_abi_encoding(log: LogRecord, tick_lower: int, tick_upper: int, amount: u128)
    requires
        -0x800000 <= tick_lower < 0x800000,
        -0x800000 <= tick_upper < 0x800000,
        log.topics@.len() >= 4,
        log.topics@[2]@ == int_word(tick_lower),
        log.topics@[3]@ == int_word(tick_upper),
        log.data@.len() >= 128,
        log.data@.subrange(0, 32) == uint_word(amount as nat),
    ensures
        burn_from_log(log) == Ok::<PoolUpdate, DecodeError>(
            PoolUpdate::Burn { tick_lower: tick_lower as i32, tick_upper: tick_upper as i32, amount: amount },
        ),
{
    lemma_pow256_widths();
    lemma_int24_word_roundtrip(tick_lower);
    lemma_int24_word_roundtrip(tick_upper);
    lemma_be_bytes_low(amount as nat, 32, 16);
    assert(log.data@.subrange(16, 32) =~= log.data@.subrange(0, 32).subrange(16, 32));
    lemma_be_bytes_roundtrip(amount as nat, 16);
}

} // verus!
