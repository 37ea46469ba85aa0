use pool_actor::actor::{PoolActor, PoolReply, PoolRequest};
use pool_actor::events::{
    decode_burn_with_sol, decode_log, decode_mint_with_sol, decode_swap_with_sol,
    i32_from_be_bytes, DecodeError, EventSignatures, LogRecord, PoolUpdate,
};
use pool_actor::pool::{
    apply_burn_update, apply_mint_update, apply_swap_update, apply_update, update_applies,
    PoolBook, PoolState,
};
use pool_actor::primitives::{parse_address, u256_from_be_bytes, Address, U256};
use pool_actor::stream::{apply_logs, logs_apply_cleanly, BlockCursor};

fn hex_bytes(text: &str) -> Vec<u8> {
    let digits = text.trim_start_matches("0x");
    (0..digits.len() / 2)
        .map(|i| u8::from_str_radix(&digits[2 * i..2 * i + 2], 16).unwrap())
        .collect()
}

fn word(text: &str) -> [u8; 32] {
    let v = hex_bytes(text);
    let mut w = [0u8; 32];
    w.copy_from_slice(&v);
    w
}

fn addr(last: u8) -> Address {
    let mut b = [0u8; 20];
    b[19] = last;
    Address::from_bytes(b)
}

/// A 32-byte word holding a signed number in two's complement.
fn int_word(value: i64) -> [u8; 32] {
    let fill = if value < 0 { 0xff } else { 0x00 };
    let mut w = [fill; 32];
    w[24..32].copy_from_slice(&value.to_be_bytes());
    w
}

fn uint_word(value: u128) -> [u8; 32] {
    let mut w = [0u8; 32];
    w[16..32].copy_from_slice(&value.to_be_bytes());
    w
}

fn pool(address: Address, tick: i32, liquidity: u128) -> PoolState {
    PoolState {
        address,
        token_0: addr(0xa0),
        token_1: addr(0xb0),
        fee: 3000,
        sqrt_price_x96: U256::from_limbs([7, 0, 0, 0]),
        tick,
        liquidity,
    }
}

fn swap_data(sqrt_price: u128, liquidity: u128, tick: i64) -> Vec<u8> {
    let mut data = Vec::new();
    data.extend_from_slice(&int_word(-5));
    data.extend_from_slice(&int_word(9));
    data.extend_from_slice(&uint_word(sqrt_price));
    data.extend_from_slice(&uint_word(liquidity));
    data.extend_from_slice(&int_word(tick));
    data
}

fn mint_log(sigs: &EventSignatures, pool: Address, lower: i64, upper: i64, amount: u128) -> LogRecord {
    let mut data = Vec::new();
    data.extend_from_slice(&[0u8; 32]);
    data.extend_from_slice(&uint_word(amount));
    data.extend_from_slice(&uint_word(1));
    data.extend_from_slice(&uint_word(2));
    LogRecord {
        address: pool,
        topics: vec![sigs.mint, [0u8; 32], int_word(lower), int_word(upper)],
        data,
    }
}

fn burn_log(sigs: &EventSignatures, pool: Address, lower: i64, upper: i64, amount: u128) -> LogRecord {
    let mut data = Vec::new();
    data.extend_from_slice(&uint_word(amount));
    data.extend_from_slice(&uint_word(1));
    data.extend_from_slice(&uint_word(2));
    data.extend_from_slice(&[0u8; 32]);
    LogRecord {
        address: pool,
        topics: vec![sigs.burn, [0u8; 32], int_word(lower), int_word(upper)],
        data,
    }
}

#[test]
fn test_find_pool() {
    let factory_address_str = String::from("0x1F98431c8aD98523631AE4a59f267346ea31F984");
    assert!(parse_address(&factory_address_str).is_some());
    let actor = PoolActor::new(&factory_address_str);
    assert_eq!(
        actor.factory_address().bytes.to_vec(),
        hex_bytes("1f98431c8ad98523631ae4a59f267346ea31f984")
    );
    assert_eq!(actor.find_pool(&addr(0xa0), &addr(0xb0), 3000), None);
}

#[test]
fn find_pool_matches_tokens_and_fee() {
    let mut actor = PoolActor::new("0x1F98431c8aD98523631AE4a59f267346ea31F984");
    actor.add_pool(addr(1), pool(addr(1), 0, 0));
    let mut other = pool(addr(2), 0, 0);
    other.fee = 500;
    actor.add_pool(addr(2), other);
    assert_eq!(actor.find_pool(&addr(0xa0), &addr(0xb0), 3000), Some(addr(1)));
    assert_eq!(actor.find_pool(&addr(0xa0), &addr(0xb0), 500), Some(addr(2)));
    assert_eq!(actor.find_pool(&addr(0xb0), &addr(0xa0), 3000), None);
    assert_eq!(actor.find_pool(&addr(0xa0), &addr(0xb0), 100), None);
    let reply = actor.on_message(&PoolRequest::FindPool {
        token_0: addr(0xa0),
        token_1: addr(0xb0),
        fee: 500,
    });
    assert_eq!(reply, PoolReply::PoolAddress(Some(addr(2))));
}

#[test]
fn parse_address_accepts_forty_hex_digits() {
    let with_prefix = parse_address("0x00000000000000000000000000000000000000aB").unwrap();
    assert_eq!(with_prefix, addr(0xab));
    let upper_prefix = parse_address("0X00000000000000000000000000000000000000Ab").unwrap();
    assert_eq!(upper_prefix, addr(0xab));
    let bare = parse_address("00000000000000000000000000000000000000ab").unwrap();
    assert_eq!(bare, addr(0xab));
    assert!(parse_address("0x00000000000000000000000000000000000000a").is_none());
    assert!(parse_address("0x00000000000000000000000000000000000000abcd").is_none());
    assert!(parse_address("0x00000000000000000000000000000000000000ag").is_none());
    assert!(parse_address("").is_none());
}

#[test]
fn u256_from_be_bytes_orders_limbs() {
    let mut bytes = [0u8; 32];
    bytes[31] = 1;
    bytes[0] = 0x80;
    bytes[23] = 2;
    let v = u256_from_be_bytes(bytes);
    assert_eq!(v.limbs, [1, 2, 0, 0x8000_0000_0000_0000]);
}

#[test]
fn event_signatures_are_the_uniswap_v3_topics() {
    let sigs = EventSignatures::uniswap_v3();
    assert_eq!(sigs.swap, word("c42079f94a6350d7e6235f29174924f928cc2ac818eb64fed8004e115fbcca67"));
    assert_eq!(sigs.mint, word("7a53080ba414158be7ec69b987b5fb7d07dee101fe85488f0853ae16239d0bde"));
    assert_eq!(sigs.burn, word("0c396cd989a39f4459b5fa1aed6a9a8dcdbc45908acfd67e028cd568da98982c"));
}

#[test]
fn i32_from_be_bytes_is_twos_complement() {
    assert_eq!(i32_from_be_bytes([0xff, 0xff, 0xff, 0xfe]), -2);
    assert_eq!(i32_from_be_bytes([0x00, 0x00, 0x01, 0x00]), 256);
    assert_eq!(i32_from_be_bytes([0x80, 0x00, 0x00, 0x00]), i32::MIN);
    assert_eq!(i32_from_be_bytes([0x7f, 0xff, 0xff, 0xff]), i32::MAX);
}

#[test]
fn decode_swap_reads_price_liquidity_and_tick() {
    let log = LogRecord { address: addr(1), topics: vec![], data: swap_data(1u128 << 96, 12345, -887272) };
    let update = decode_swap_with_sol(&log).unwrap();
    assert_eq!(
        update,
        PoolUpdate::Swap {
            sqrt_price: U256::from_limbs([0, 1 << 32, 0, 0]),
            tick: -887272,
            liquidity: 12345,
        }
    );
    let log = LogRecord { address: addr(1), topics: vec![], data: swap_data(5, 6, 887272) };
    assert!(matches!(decode_swap_with_sol(&log), Ok(PoolUpdate::Swap { tick: 887272, .. })));
}

#[test]
fn decode_swap_takes_only_the_low_bytes() {
    let mut data = swap_data(1, 2, 3);
    // high bytes of the liquidity word and of the tick word are not read
    data[96] = 0xff;
    data[128] = 0x12;
    data[131] = 0x7f;
    let log = LogRecord { address: addr(1), topics: vec![], data };
    assert!(matches!(
        decode_swap_with_sol(&log),
        Ok(PoolUpdate::Swap { tick: 3, liquidity: 2, .. })
    ));
}

#[test]
fn decode_swap_rejects_short_data() {
    let mut data = swap_data(1, 2, 3);
    data.truncate(159);
    let log = LogRecord { address: addr(1), topics: vec![], data };
    assert_eq!(decode_swap_with_sol(&log), Err(DecodeError::InsufficientData));
}

#[test]
fn decode_mint_reads_ticks_from_topics() {
    let sigs = EventSignatures::uniswap_v3();
    let log = mint_log(&sigs, addr(1), -60, 120, 777);
    assert_eq!(
        decode_mint_with_sol(&log),
        Ok(PoolUpdate::Mint { tick_lower: -60, tick_upper: 120, amount: 777 })
    );
    let mut short = log.clone();
    short.data.truncate(127);
    short.topics.truncate(1);
    assert_eq!(decode_mint_with_sol(&short), Err(DecodeError::InsufficientData));
}

#[test]
fn decode_burn_reads_amount_from_first_word() {
    let sigs = EventSignatures::uniswap_v3();
    let log = burn_log(&sigs, addr(1), -8388608, 8388607, 42);
    assert_eq!(
        decode_burn_with_sol(&log),
        Ok(PoolUpdate::Burn { tick_lower: -8388608, tick_upper: 8388607, amount: 42 })
    );
    let mut short = log.clone();
    short.data.truncate(100);
    assert_eq!(decode_burn_with_sol(&short), Err(DecodeError::InsufficientData));
}

#[test]
fn decode_log_dispatches_on_first_topic() {
    let sigs = EventSignatures::uniswap_v3();
    let swap = LogRecord { address: addr(1), topics: vec![sigs.swap], data: swap_data(1, 2, 3) };
    assert!(matches!(decode_log(&swap, &sigs), Ok(PoolUpdate::Swap { tick: 3, .. })));
    let mint = mint_log(&sigs, addr(1), -1, 1, 5);
    assert!(matches!(decode_log(&mint, &sigs), Ok(PoolUpdate::Mint { amount: 5, .. })));
    let burn = burn_log(&sigs, addr(1), -1, 1, 6);
    assert!(matches!(decode_log(&burn, &sigs), Ok(PoolUpdate::Burn { amount: 6, .. })));
    let other = LogRecord { address: addr(1), topics: vec![[9u8; 32]], data: swap_data(1, 2, 3) };
    assert_eq!(decode_log(&other, &sigs), Err(DecodeError::UnknownEvent));
}

#[test]
fn swap_update_sets_price_tick_and_liquidity() {
    let mut s = pool(addr(1), 5, 100);
    let price = U256::from_limbs([1, 2, 3, 4]);
    apply_swap_update(&mut s, price, -7, 9);
    assert_eq!(s.sqrt_price_x96, price);
    assert_eq!(s.tick, -7);
    assert_eq!(s.liquidity, 9);
    assert_eq!(s.fee, 3000);
    let once = s;
    apply_swap_update(&mut s, price, -7, 9);
    assert_eq!(s, once);
}

#[test]
fn mint_and_burn_change_liquidity_only_strictly_in_range() {
    let mut s = pool(addr(1), 10, 100);
    apply_mint_update(&mut s, 0, 20, 50);
    assert_eq!(s.liquidity, 150);
    apply_mint_update(&mut s, 10, 20, 50);
    assert_eq!(s.liquidity, 150);
    apply_mint_update(&mut s, 0, 10, 50);
    assert_eq!(s.liquidity, 150);
    apply_burn_update(&mut s, 0, 20, 30);
    assert_eq!(s.liquidity, 120);
    apply_burn_update(&mut s, 11, 20, 500);
    assert_eq!(s.liquidity, 120);
}

#[test]
fn burn_undoes_mint() {
    let before = pool(addr(1), 10, 100);
    let mut s = before;
    apply_mint_update(&mut s, -100, 100, 1234);
    apply_burn_update(&mut s, -100, 100, 1234);
    assert_eq!(s, before);
}

#[test]
fn update_applies_detects_overflow_and_underflow() {
    let s = pool(addr(1), 0, u128::MAX - 1);
    assert!(update_applies(&s, &PoolUpdate::Mint { tick_lower: -1, tick_upper: 1, amount: 1 }));
    assert!(!update_applies(&s, &PoolUpdate::Mint { tick_lower: -1, tick_upper: 1, amount: 2 }));
    assert!(update_applies(&s, &PoolUpdate::Mint { tick_lower: 0, tick_upper: 1, amount: 2 }));
    let t = pool(addr(1), 0, 5);
    assert!(!update_applies(&t, &PoolUpdate::Burn { tick_lower: -1, tick_upper: 1, amount: 6 }));
    let mut u = t;
    apply_update(&mut u, &PoolUpdate::Burn { tick_lower: -1, tick_upper: 1, amount: 5 });
    assert_eq!(u.liquidity, 0);
}

#[test]
fn pool_book_insert_get_len() {
    let mut book = PoolBook::new();
    assert_eq!(book.len(), 0);
    book.insert(addr(1), pool(addr(1), 0, 1));
    book.insert(addr(2), pool(addr(2), 0, 2));
    book.insert(addr(1), pool(addr(1), 0, 3));
    assert_eq!(book.len(), 2);
    assert_eq!(book.get(&addr(1)).unwrap().liquidity, 3);
    assert_eq!(book.get(&addr(2)).unwrap().liquidity, 2);
    assert_eq!(book.get(&addr(3)), None);
    let copy = book.duplicate();
    assert_eq!(copy.get(&addr(1)), book.get(&addr(1)));
    assert_eq!(copy.len(), 2);
}

#[test]
fn apply_logs_applies_a_single_event_once() {
    let sigs = EventSignatures::uniswap_v3();
    let mut book = PoolBook::new();
    book.insert(addr(1), pool(addr(1), 0, 100));
    let logs = vec![mint_log(&sigs, addr(1), -10, 10, 5)];
    assert!(logs_apply_cleanly(&book, &logs, &sigs));
    apply_logs(&mut book, &logs, &sigs);
    assert_eq!(book.get(&addr(1)).unwrap().liquidity, 105);
}

#[test]
fn apply_logs_applies_pending_updates_again_after_each_record() {
    let sigs = EventSignatures::uniswap_v3();
    let mut book = PoolBook::new();
    book.insert(addr(1), pool(addr(1), 0, 100));
    let logs = vec![
        mint_log(&sigs, addr(1), -10, 10, 5),
        mint_log(&sigs, addr(1), -10, 10, 7),
    ];
    apply_logs(&mut book, &logs, &sigs);
    // first record: +5; second record: +5 again, then +7
    assert_eq!(book.get(&addr(1)).unwrap().liquidity, 117);
}

#[test]
fn apply_logs_passes_over_topicless_and_unknown_records() {
    let sigs = EventSignatures::uniswap_v3();
    let mut book = PoolBook::new();
    book.insert(addr(1), pool(addr(1), 0, 100));
    let logs = vec![
        LogRecord { address: addr(1), topics: vec![], data: swap_data(1, 2, 3) },
        LogRecord { address: addr(1), topics: vec![[3u8; 32]], data: vec![] },
        mint_log(&sigs, addr(9), -10, 10, 5),
    ];
    apply_logs(&mut book, &logs, &sigs);
    assert_eq!(book.get(&addr(1)), Some(pool(addr(1), 0, 100)));
    assert_eq!(book.len(), 1);
}

#[test]
fn apply_logs_swap_then_mint_uses_new_tick() {
    let sigs = EventSignatures::uniswap_v3();
    let mut book = PoolBook::new();
    book.insert(addr(1), pool(addr(1), 0, 100));
    let logs = vec![
        LogRecord { address: addr(1), topics: vec![sigs.swap], data: swap_data(1 << 96, 50, 500) },
        mint_log(&sigs, addr(1), 400, 600, 10),
    ];
    apply_logs(&mut book, &logs, &sigs);
    let s = book.get(&addr(1)).unwrap();
    // swap sets liquidity 50 twice; the mint sees tick 500 inside (400, 600)
    assert_eq!(s.tick, 500);
    assert_eq!(s.liquidity, 60);
    assert_eq!(s.sqrt_price_x96, U256::from_limbs([0, 1 << 32, 0, 0]));
}

#[test]
fn logs_apply_cleanly_detects_failures() {
    let sigs = EventSignatures::uniswap_v3();
    let mut book = PoolBook::new();
    book.insert(addr(1), pool(addr(1), 0, u128::MAX - 3));
    let overflow = vec![mint_log(&sigs, addr(1), -10, 10, 4)];
    assert!(!logs_apply_cleanly(&book, &overflow, &sigs));
    let fits = vec![mint_log(&sigs, addr(1), -10, 10, 3)];
    assert!(logs_apply_cleanly(&book, &fits, &sigs));
    let underflow = vec![burn_log(&sigs, addr(1), -10, 10, 1), burn_log(&sigs, addr(1), -10, 10, u128::MAX - 4)];
    assert!(!logs_apply_cleanly(&book, &underflow, &sigs));
    let mut missing_topics = mint_log(&sigs, addr(1), -10, 10, 1);
    missing_topics.topics.truncate(3);
    assert!(!logs_apply_cleanly(&book, &vec![missing_topics.clone()], &sigs));
    missing_topics.data.truncate(64);
    assert!(logs_apply_cleanly(&book, &vec![missing_topics], &sigs));
    // the check leaves the book as it was
    assert_eq!(book.get(&addr(1)).unwrap().liquidity, u128::MAX - 3);
}

#[test]
fn block_cursor_asks_for_blocks_after_the_last_processed() {
    let cursor = BlockCursor::new(100);
    assert_eq!(cursor.next_range(100), None);
    assert_eq!(cursor.next_range(99), None);
    assert_eq!(cursor.next_range(101), Some((101, 101)));
    assert_eq!(cursor.next_range(105), Some((101, 105)));
    assert_eq!(cursor.last_processed, 100);
}

#[test]
fn earlier_records_of_other_pools_are_applied_again() {
    let sigs = EventSignatures::uniswap_v3();
    let mut first = PoolBook::new();
    first.insert(addr(1), pool(addr(1), 0, 100));
    first.insert(addr(2), pool(addr(2), 0, 200));
    let mut second = first.duplicate();
    let a = mint_log(&sigs, addr(1), -10, 10, 5);
    let b = burn_log(&sigs, addr(2), -10, 10, 7);
    apply_logs(&mut first, &vec![a.clone(), b.clone()], &sigs);
    assert_eq!(first.get(&addr(1)).unwrap().liquidity, 110);
    assert_eq!(first.get(&addr(2)).unwrap().liquidity, 193);
    apply_logs(&mut second, &vec![b, a], &sigs);
    assert_eq!(second.get(&addr(1)).unwrap().liquidity, 105);
    assert_eq!(second.get(&addr(2)).unwrap().liquidity, 186);
}

#[test]
fn abi_encoded_swap_decodes_to_its_values() {
    let price = U256::from_limbs([0x1111, 0x2222, 0x3333, 0x4444]);
    let mut price_word = [0u8; 32];
    for (k, limb) in price.limbs.iter().enumerate() {
        price_word[24 - 8 * k..32 - 8 * k].copy_from_slice(&limb.to_be_bytes());
    }
    let mut data = Vec::new();
    data.extend_from_slice(&int_word(1));
    data.extend_from_slice(&int_word(-1));
    data.extend_from_slice(&price_word);
    data.extend_from_slice(&uint_word(u128::MAX));
    data.extend_from_slice(&int_word(-8388608));
    let log = LogRecord { address: addr(1), topics: vec![], data };
    assert_eq!(
        decode_swap_with_sol(&log),
        Ok(PoolUpdate::Swap { sqrt_price: price, tick: -8388608, liquidity: u128::MAX })
    );
}
