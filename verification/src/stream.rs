//! The decisions of the event stream: which blocks to ask logs for, and what
//! a batch of log records does to the book of pools.
//!
//! Within a batch, every decoded update is kept as pending, and after each
//! record that has a topic all pending updates are applied again, in the
//! order they were decoded. Exchanging two neighbouring updates of different
//! pools does not change the outcome (`lemma_exchange_neighbouring_updates`),
//! so only the order of each pool's own updates matters.

use vstd::prelude::*;
use crate::events::{
    decode_log, decode_log_fails_on_topics, decode_log_spec, words_equal, DecodeError,
    EventSignatures, LogRecord, PoolUpdate,
};
use crate::pool::{
    book_after_update, lemma_update_keeps_identity, swap_applied, update_applied, PoolBook,
    PoolState,
};
use crate::primitives::{Address, U256};

verus! {

/// The book after a list of updates, applied in order; `None` where some
/// pool's liquidity would leave `u128` on the way.
pub open spec fn book_after_updates(book: Map<Address, PoolState>, updates: Seq<(Address, PoolUpdate)>) -> Option<
    Map<Address, PoolState>,
>
    decreases updates.len(),
{
    if updates.len() == 0 {
        Some(book)
    } else {
        match book_after_updates(book, updates.drop_last()) {
            Some(b) => book_after_update(b, updates.last().0, updates.last().1),
            None => None,
        }
    }
}

/// The book after a batch of log records, with `pending` the updates decoded
/// from earlier records of the batch: a record without topics is passed
/// over; any other record adds its update, if it decodes to one, to the
/// pending ones, and then all pending updates are applied to the book.
/// `None` where a record cannot be read or a liquidity would leave `u128`.
pub open spec fn book_after_logs(
    book: Map<Address, PoolState>,
    pending: Seq<(Address, PoolUpdate)>,
    logs: Seq<LogRecord>,
    sigs: EventSignatures,
) -> Option<Map<Address, PoolState>>
    decreases logs.len(),
{
    if logs.len() == 0 {
        Some(book)
    } else {
        let log = logs[0];
        let rest = logs.drop_first();
        if log.topics@.len() == 0 {
            book_after_logs(book, pending, rest, sigs)
        } else if decode_log_fails_on_topics(log, sigs) {
            None
        } else {
            let pending_now = match decode_log_spec(log, sigs) {
                Ok(u) => pending.push((log.address, u)),
                Err(_) => pending,
            };
            match book_after_updates(book, pending_now) {
                Some(b) => book_after_logs(b, pending_now, rest, sigs),
                None => None,
            }
        }
    }
}

/// Two books hold the same pools, each with the same address, tokens and fee
/// tier.
pub open spec fn same_pools(a: Map<Address, PoolState>, b: Map<Address, PoolState>) -> bool {
    &&& a.dom() == b.dom()
    &&& forall|k: Address|
        #![trigger b[k]]
        a.contains_key(k) ==> b[k].address == a[k].address && b[k].token_0 == a[k].token_0
            && b[k].token_1 == a[k].token_1 && b[k].fee == a[k].fee
}

/// Updates neither add nor remove pools, nor change which tokens and fee
/// tier a pool has.
pub proof fn lemma_updates_keep_pools(book: Map<Address, PoolState>, updates: Seq<(Address, PoolUpdate)>)
    requires
        book_after_updates(book, updates) is Some,
    ensures
        same_pools(book, book_after_updates(book, updates).unwrap()),
    decreases updates.len(),
{
    if updates.len() > 0 {
        let shorter = updates.drop_last();
        lemma_updates_keep_pools(book, shorter);
        let b = book_after_updates(book, shorter).unwrap();
        let (key, u) = updates.last();
        if b.contains_key(key) {
            lemma_update_keeps_identity(b[key], u);
            assert(b.insert(key, update_applied(b[key], u).unwrap()).dom() =~= b.dom());
        }
    }
}

/// A batch of log records neither adds nor removes pools, nor changes which
/// tokens and fee tier a pool has.
pub proof fn lemma_logs_keep_pools(
    book: Map<Address, PoolState>,
    pending: Seq<(Address, PoolUpdate)>,
    logs: Seq<LogRecord>,
    sigs: EventSignatures,
)
    requires
        book_after_logs(book, pending, logs, sigs) is Some,
    ensures
        same_pools(book, book_after_logs(book, pending, logs, sigs).unwrap()),
    decreases logs.len(),
{
    if logs.len() > 0 {
        let log = logs[0];
        let rest = logs.drop_first();
        if log.topics@.len() == 0 {
            lemma_logs_keep_pools(book, pending, rest, sigs);
        } else {
            let pending_now = match decode_log_spec(log, sigs) {
                Ok(u) => pending.push((log.address, u)),
                Err(_) => pending,
            };
            lemma_updates_keep_pools(book, pending_now);
            let b = book_after_updates(book, pending_now).unwrap();
            lemma_logs_keep_pools(b, pending_now, rest, sigs);
        }
    }
}

/// Log records without topics leave the book as it is.
pub proof fn lemma_topicless_logs_change_nothing(
    book: Map<Address, PoolState>,
    pending: Seq<(Address, PoolUpdate)>,
    logs: Seq<LogRecord>,
    sigs: EventSignatures,
)
    requires
        forall|i: int| 0 <= i < logs.len() ==> (#[trigger] logs[i]).topics@.len() == 0,
    ensures
        book_after_logs(book, pending, logs, sigs) == Some(book),
    decreases logs.len(),
{
    if logs.len() > 0 {
        let rest = logs.drop_first();
        assert forall|i: int| 0 <= i < rest.len() implies (#[trigger] rest[i]).topics@.len() == 0 by {
            assert(rest[i] == logs[i + 1]);
        }
        lemma_topicless_logs_change_nothing(book, pending, rest, sigs);
    }
}

/// Updates to addresses under which no pool is kept leave the book as it is.
pub proof fn lemma_updates_elsewhere_change_nothing(book: Map<Address, PoolState>, updates: Seq<(Address, PoolUpdate)>)
    requires
        forall|i: int| 0 <= i < updates.len() ==> !book.contains_key((#[trigger] updates[i]).0),
    ensures
        book_after_updates(book, updates) == Some(book),
    decreases updates.len(),
{
    if updates.len() > 0 {
        let shorter = updates.drop_last();
        assert forall|i: int| 0 <= i < shorter.len() implies !book.contains_key((#[trigger] shorter[i]).0) by {
            assert(shorter[i] == updates[i]);
        }
        lemma_updates_elsewhere_change_nothing(book, shorter);
        assert(!book.contains_key(updates[updates.len() - 1].0));
    }
}

/// Log records from addresses under which no pool is kept leave the book as
/// it is.
pub proof fn lemma_logs_elsewhere_change_nothing(
    book: Map<Address, PoolState>,
    pending: Seq<(Address, PoolUpdate)>,
    logs: Seq<LogRecord>,
    sigs: EventSignatures,
)
    requires
        forall|i: int| 0 <= i < pending.len() ==> !book.contains_key((#[trigger] pending[i]).0),
        forall|i: int| 0 <= i < logs.len() ==> !book.contains_key((#[trigger] logs[i]).address),
    ensures
        book_after_logs(book, pending, logs, sigs) matches Some(b) ==> b == book,
    decreases logs.len(),
{
    if logs.len() > 0 {
        let log = logs[0];
        let rest = logs.drop_first();
        assert forall|i: int| 0 <= i < rest.len() implies !book.contains_key((#[trigger] rest[i]).address) by {
            assert(rest[i] == logs[i + 1]);
        }
        if log.topics@.len() == 0 {
            lemma_logs_elsewhere_change_nothing(book, pending, rest, sigs);
        } else if !decode_log_fails_on_topics(log, sigs) {
            let pending_now = match decode_log_spec(log, sigs) {
                Ok(u) => pending.push((log.address, u)),
                Err(_) => pending,
            };
            assert forall|i: int| 0 <= i < pending_now.len() implies !book.contains_key((#[trigger] pending_now[i]).0) by {
                if i < pending.len() {
                    assert(pending_now[i] == pending[i]);
                }
            }
            lemma_updates_elsewhere_change_nothing(book, pending_now);
            lemma_logs_elsewhere_change_nothing(book, pending_now, rest, sigs);
        }
    }
}

/// One update applied after another.
pub open spec fn book_after_two_updates(
    book: Map<Address, PoolState>,
    first: (Address, PoolUpdate),
    second: (Address, PoolUpdate),
) -> Option<Map<Address, PoolState>> {
    match book_after_update(book, first.0, first.1) {
        Some(b) => book_after_update(b, second.0, second.1),
        None => None,
    }
}

/// Updates to two different pools give the same book in either order.
pub proof fn lemma_updates_to_different_pools_commute(
    book: Map<Address, PoolState>,
    first: (Address, PoolUpdate),
    second: (Address, PoolUpdate),
)
    requires
        first.0 != second.0,
    ensures
        book_after_two_updates(book, first, second) == book_after_two_updates(book, second, first),
{
    let (k1, u1) = first;
    let (k2, u2) = second;
    if book.contains_key(k1) && book.contains_key(k2) {
        if let (Some(s1), Some(s2)) = (update_applied(book[k1], u1), update_applied(book[k2], u2)) {
            assert(book.insert(k1, s1).insert(k2, s2) =~= book.insert(k2, s2).insert(k1, s1));
        }
    }
}

/// Exchanging two neighbouring updates of different pools does not change
/// the book that a list of updates gives.
pub proof fn lemma_exchange_neighbouring_updates(
    book: Map<Address, PoolState>,
    updates: Seq<(Address, PoolUpdate)>,
    i: int,
)
    requires
        0 <= i,
        i + 1 < updates.len(),
        updates[i].0 != updates[i + 1].0,
    ensures
        book_after_updates(book, updates) == book_after_updates(
            book,
            updates.update(i, updates[i + 1]).update(i + 1, updates[i]),
        ),
    decreases updates.len(),
{
    let exchanged = updates.update(i, updates[i + 1]).update(i + 1, updates[i]);
    if i + 1 == updates.len() - 1 {
        let base_seq = updates.drop_last().drop_last();
        assert(exchanged.drop_last().drop_last() =~= base_seq);
        assert(updates.drop_last().drop_last() == base_seq);
        assert(updates.drop_last().last() == updates[i]);
        assert(exchanged.drop_last().last() == updates[i + 1]);
        assert(exchanged.last() == updates[i]);
        match book_after_updates(book, base_seq) {
            Some(b) => {
                lemma_updates_to_different_pools_commute(b, updates[i], updates[i + 1]);
                assert(book_after_updates(book, updates.drop_last()) == book_after_update(b, updates[i].0, updates[i].1));
                assert(book_after_updates(book, exchanged.drop_last()) == book_after_update(b, updates[i + 1].0, updates[i + 1].1));
            },
            None => {
                assert(book_after_updates(book, updates.drop_last()) is None);
                assert(book_after_updates(book, exchanged.drop_last()) is None);
            },
        }
    } else {
        let shorter = updates.drop_last();
        lemma_exchange_neighbouring_updates(book, shorter, i);
        assert(exchanged.drop_last() =~= shorter.update(i, shorter[i + 1]).update(i + 1, shorter[i]));
        assert(exchanged.last() == updates.last());
    }
}

/// A batch of one record that decodes to an update applies that update, once,
/// to the pool the record comes from.
pub proof fn lemma_single_record_applies_its_update(
    book: Map<Address, PoolState>,
    log: LogRecord,
    sigs: EventSignatures,
    update: PoolUpdate,
)
    requires
        log.topics@.len() > 0,
        !decode_log_fails_on_topics(log, sigs),
        decode_log_spec(log, sigs) == Ok::<PoolUpdate, DecodeError>(update),
    ensures
        book_after_logs(book, Seq::empty(), seq![log], sigs) == book_after_update(book, log.address, update),
{
    let logs = seq![log];
    let pending = Seq::<(Address, PoolUpdate)>::empty().push((log.address, update));
    assert(logs[0] == log);
    assert(logs.drop_first() =~= Seq::<LogRecord>::empty());
    assert(pending.drop_last() =~= Seq::<(Address, PoolUpdate)>::empty());
    assert(pending.last() == (log.address, update));
    assert(book_after_updates(book, Seq::<(Address, PoolUpdate)>::empty()) == Some(book));
    assert(book_after_updates(book, pending) == book_after_update(book, log.address, update));
    match book_after_update(book, log.address, update) {
        Some(b) => {
            assert(book_after_logs(b, pending, Seq::<LogRecord>::empty(), sigs) == Some(b));
        },
        None => {},
    }
}

/// A batch of one `Swap` record from a known pool sets that pool's price,
/// tick and liquidity to the event's values and leaves every other pool, and
/// the pool's address, tokens and fee tier, as they were.
pub proof fn lemma_single_swap_record_sets_pool(
    book: Map<Address, PoolState>,
    log: LogRecord,
    sigs: EventSignatures,
    sqrt_price: U256,
    tick: i32,
    liquidity: u128,
)
    requires
        log.topics@.len() > 0,
        decode_log_spec(log, sigs) == Ok::<PoolUpdate, DecodeError>(
            PoolUpdate::Swap { sqrt_price, tick, liquidity },
        ),
        book.contains_key(log.address),
    ensures
        book_after_logs(book, Seq::empty(), seq![log], sigs) matches Some(after) && {
            &&& after.dom() == book.dom()
            &&& after[log.address].sqrt_price_x96 == sqrt_price
            &&& after[log.address].tick == tick
            &&& after[log.address].liquidity == liquidity
            &&& after[log.address].address == book[log.address].address
            &&& after[log.address].token_0 == book[log.address].token_0
            &&& after[log.address].token_1 == book[log.address].token_1
            &&& after[log.address].fee == book[log.address].fee
            &&& forall|k: Address| #[trigger] book.contains_key(k) && k != log.address ==> after[k] == book[k]
        },
{
    let update = PoolUpdate::Swap { sqrt_price, tick, liquidity };
    assert(!decode_log_fails_on_topics(log, sigs));
    lemma_single_record_applies_its_update(book, log, sigs, update);
    let s = book[log.address];
    let t = swap_applied(s, sqrt_price, tick, liquidity);
    assert(book_after_update(book, log.address, update) == Some(book.insert(log.address, t)));
    assert(book.insert(log.address, t).dom() =~= book.dom());
}

/// Each record applies again the updates of the records before it: a batch
/// of two records that decode to updates applies the first update, then the
/// first again, then the second.
pub proof fn lemma_two_records_apply_first_twice(
    book: Map<Address, PoolState>,
    first: LogRecord,
    second: LogRecord,
    sigs: EventSignatures,
    u1: PoolUpdate,
    u2: PoolUpdate,
)
    requires
        first.topics@.len() > 0,
        second.topics@.len() > 0,
        !decode_log_fails_on_topics(first, sigs),
        !decode_log_fails_on_topics(second, sigs),
        decode_log_spec(first, sigs) == Ok::<PoolUpdate, DecodeError>(u1),
        decode_log_spec(second, sigs) == Ok::<PoolUpdate, DecodeError>(u2),
    ensures
        book_after_logs(book, Seq::empty(), seq![first, second], sigs) == (match book_after_update(
            book,
            first.address,
            u1,
        ) {
            Some(b1) => match book_after_update(b1, first.address, u1) {
                Some(b2) => book_after_update(b2, second.address, u2),
                None => None,
            },
            None => None,
        }),
{
    let logs = seq![first, second];
    let p1 = Seq::<(Address, PoolUpdate)>::empty().push((first.address, u1));
    let p2 = p1.push((second.address, u2));
    assert(logs[0] == first);
    assert(logs.drop_first() =~= seq![second]);
    assert(seq![second][0] == second);
    assert(seq![second].drop_first() =~= Seq::<LogRecord>::empty());
    assert(p1.drop_last() =~= Seq::<(Address, PoolUpdate)>::empty());
    assert(p2.drop_last() =~= p1);
    assert(p1.last() == (first.address, u1));
    assert(p2.last() == (second.address, u2));
    assert(book_after_updates(book, Seq::<(Address, PoolUpdate)>::empty()) == Some(book));
    match book_after_update(book, first.address, u1) {
        Some(b1) => {
            assert(book_after_updates(b1, Seq::<(Address, PoolUpdate)>::empty()) == Some(b1));
            assert(book_after_updates(book, p1) == Some(b1));
            assert(book_after_logs(book, Seq::empty(), logs, sigs) == book_after_logs(b1, p1, seq![second], sigs));
            assert(book_after_updates(b1, p1) == book_after_update(b1, first.address, u1));
            match book_after_update(b1, first.address, u1) {
                Some(b2) => {
                    assert(book_after_updates(b1, p2) == book_after_update(b2, second.address, u2));
                    assert(book_after_logs(b1, p1, seq![second], sigs) == match book_after_updates(b1, p2) {
                        Some(b) => book_after_logs(b, p2, Seq::<LogRecord>::empty(), sigs),
                        None => None,
                    });
                    match book_after_update(b2, second.address, u2) {
                        Some(b3) => {
                            assert(book_after_logs(b3, p2, Seq::<LogRecord>::empty(), sigs) == Some(b3));
                        },
                        None => {},
                    }
                },
                None => {
                    assert(book_after_updates(b1, p2) is None);
                    assert(book_after_logs(b1, p1, seq![second], sigs) is None);
                },
            }
        },
        None => {
            assert(book_after_updates(book, p1) is None);
        },
    }
}

/// The update a record contributes to its batch: its decoded update, under
/// the address of the pool it comes from, if it has a topic and decodes.
pub open spec fn record_update(log: LogRecord, sigs: EventSignatures) -> Seq<(Address, PoolUpdate)> {
    if log.topics@.len() > 0 {
        match decode_log_spec(log, sigs) {
            Ok(u) => seq![(log.address, u)],
            Err(_) => Seq::empty(),
        }
    } else {
        Seq::empty()
    }
}

/// The updates that the records of a batch contribute, in record order.
pub open spec fn batch_updates(logs: Seq<LogRecord>, sigs: EventSignatures) -> Seq<(Address, PoolUpdate)>
    decreases logs.len(),
{
    if logs.len() == 0 {
        Seq::empty()
    } else {
        record_update(logs[0], sigs) + batch_updates(logs.drop_first(), sigs)
    }
}

/// Appending a record that has a topic and can be read to a batch gives the
/// book after the batch with every update decoded so far, this record's
/// included, applied once more in record order.
pub proof fn lemma_appended_record_reapplies_all(
    book: Map<Address, PoolState>,
    pending: Seq<(Address, PoolUpdate)>,
    logs: Seq<LogRecord>,
    last: LogRecord,
    sigs: EventSignatures,
)
    requires
        last.topics@.len() > 0,
        !decode_log_fails_on_topics(last, sigs),
    ensures
        book_after_logs(book, pending, logs.push(last), sigs) == (match book_after_logs(book, pending, logs, sigs) {
            Some(b) => book_after_updates(b, pending + batch_updates(logs.push(last), sigs)),
            None => None,
        }),
    decreases logs.len(),
{
    let all = logs.push(last);
    if logs.len() == 0 {
        assert(all[0] == last);
        assert(all.drop_first() =~= Seq::<LogRecord>::empty());
        assert(batch_updates(Seq::<LogRecord>::empty(), sigs) =~= Seq::<(Address, PoolUpdate)>::empty());
        assert(batch_updates(all, sigs) =~= record_update(last, sigs) + Seq::<(Address, PoolUpdate)>::empty());
        let pending_now = match decode_log_spec(last, sigs) {
            Ok(u) => pending.push((last.address, u)),
            Err(_) => pending,
        };
        assert(pending + batch_updates(all, sigs) =~= pending_now);
        match book_after_updates(book, pending_now) {
            Some(b) => {
                assert(book_after_logs(b, pending_now, Seq::<LogRecord>::empty(), sigs) == Some(b));
            },
            None => {},
        }
    } else {
        let first = logs[0];
        let rest = logs.drop_first();
        assert(all[0] == first);
        assert(all.drop_first() =~= rest.push(last));
        assert(batch_updates(all, sigs) == record_update(first, sigs) + batch_updates(rest.push(last), sigs));
        if first.topics@.len() == 0 {
            lemma_appended_record_reapplies_all(book, pending, rest, last, sigs);
            assert(record_update(first, sigs) =~= Seq::<(Address, PoolUpdate)>::empty());
            assert(pending + batch_updates(all, sigs) =~= pending + batch_updates(rest.push(last), sigs));
        } else if !decode_log_fails_on_topics(first, sigs) {
            let pending_now = match decode_log_spec(first, sigs) {
                Ok(u) => pending.push((first.address, u)),
                Err(_) => pending,
            };
            assert(pending_now =~= pending + record_update(first, sigs));
            assert(pending + batch_updates(all, sigs) =~= pending_now + batch_updates(rest.push(last), sigs));
            match book_after_updates(book, pending_now) {
                Some(b) => {
                    lemma_appended_record_reapplies_all(b, pending_now, rest, last, sigs);
                },
                None => {},
            }
        }
    }
}

/// Where a list of updates applies, so does each of its prefixes.
pub proof fn lemma_updates_prefix(book: Map<Address, PoolState>, updates: Seq<(Address, PoolUpdate)>, j: int)
    requires
        0 <= j <= updates.len(),
        book_after_updates(book, updates) is Some,
    ensures
        book_after_updates(book, updates.take(j)) is Some,
    decreases updates.len(),
{
    if j < updates.len() {
        let shorter = updates.drop_last();
        lemma_updates_prefix(book, shorter, j);
        assert(shorter.take(j) =~= updates.take(j));
    } else {
        assert(updates.take(j) =~= updates);
    }
}

/// Applies a list of updates in order, as far as they apply, and tells
/// whether all did.
fn apply_all(book: &mut PoolBook, updates: &Vec<(Address, PoolUpdate)>) -> (ok: bool)
    ensures
        ok == (book_after_updates(old(book)@, updates@) is Some),
        ok ==> Some(final(book)@) == book_after_updates(old(book)@, updates@),
{
    let n = updates.len();
    let mut j: usize = 0;
    let ghost start = book@;
    assert(updates@.take(0) =~= Seq::<(Address, PoolUpdate)>::empty());
    while j < n
        invariant
            0 <= j <= n,
            n == updates@.len(),
            book_after_updates(start, updates@.take(j as int)) == Some(book@),
            start == old(book)@,
        decreases n - j,
    {
        let (key, update) = updates[j];
        assert(updates@.take(j + 1).drop_last() =~= updates@.take(j as int));
        if !book.try_apply_update_at(&key, &update) {
            proof {
                if book_after_updates(start, updates@) is Some {
                    lemma_updates_prefix(start, updates@, j + 1);
                }
            }
            return false;
        }
        j = j + 1;
    }
    assert(updates@.take(n as int) =~= updates@);
    true
}

/// Whether a record with at least one topic names a `Mint` or `Burn`, has
/// data long enough, and lacks the topics that carry the tick bounds.
fn fails_on_topics(log: &LogRecord, sigs: &EventSignatures) -> (r: bool)
    requires
        log.topics@.len() > 0,
    ensures
        r == decode_log_fails_on_topics(*log, *sigs),
{
    let topic0 = &log.topics[0];
    !words_equal(topic0, &sigs.swap) && (words_equal(topic0, &sigs.mint) || words_equal(
        topic0,
        &sigs.burn,
    )) && !(log.data.len() < 128 || log.topics.len() >= 4)
}

/// Runs a batch of log records against the book as far as it goes, and tells
/// whether the whole batch went through.
fn run_logs(book: &mut PoolBook, logs: &Vec<LogRecord>, sigs: &EventSignatures) -> (ok: bool)
    ensures
        ok == (book_after_logs(old(book)@, Seq::empty(), logs@, *sigs) is Some),
        ok ==> Some(final(book)@) == book_after_logs(old(book)@, Seq::empty(), logs@, *sigs),
{
    let ghost target = book_after_logs(book@, Seq::empty(), logs@, *sigs);
    let mut pending: Vec<(Address, PoolUpdate)> = Vec::new();
    let n = logs.len();
    let mut i: usize = 0;
    assert(logs@.skip(0) =~= logs@);
    while i < n
        invariant
            0 <= i <= n,
            n == logs@.len(),
            target == book_after_logs(old(book)@, Seq::empty(), logs@, *sigs),
            target == book_after_logs(book@, pending@, logs@.skip(i as int), *sigs),
        decreases n - i,
    {
        let log = &logs[i];
        assert(logs@.skip(i as int)[0] == logs@[i as int]);
        assert(logs@.skip(i as int).drop_first() =~= logs@.skip(i + 1));
        if log.topics.len() != 0 {
            if fails_on_topics(log, sigs) {
                return false;
            }
            match decode_log(log, sigs) {
                Ok(update) => {
                    pending.push((log.address, update));
                },
                Err(_) => {},
            }
            if !apply_all(book, &pending) {
                return false;
            }
        }
        i = i + 1;
    }
    true
}

/// Applies a batch of log records to the book.
pub fn apply_logs(book: &mut PoolBook, logs: &Vec<LogRecord>, sigs: &EventSignatures)
    requires
        book_after_logs(old(book)@, Seq::empty(), logs@, *sigs) is Some,
    ensures
        Some(final(book)@) == book_after_logs(old(book)@, Seq::empty(), logs@, *sigs),
{
    run_logs(book, logs, sigs);
}

/// Whether a batch of log records can be applied to the book: every record
/// can be read and no pool's liquidity leaves `u128` on the way.
pub fn logs_apply_cleanly(book: &PoolBook, logs: &Vec<LogRecord>, sigs: &EventSignatures) -> (r: bool)
    ensures
        r == (book_after_logs(book@, Seq::empty(), logs@, *sigs) is Some),
{
    let mut copy = book.duplicate();
    run_logs(&mut copy, logs, sigs)
}

/// The position of the event stream: the last block whose logs were asked
/// for when the stream started.
#[derive(Clone, Copy, Debug, PartialEq, Eq)]
pub struct BlockCursor {
    pub last_processed: u64,
}

impl BlockCursor {
    pub fn new(last_processed: u64) -> (c: BlockCursor)
        ensures
            c.last_processed == last_processed,
    {
        BlockCursor { last_processed }
    }

    /// The range of blocks, first and last, to ask logs for when block
    /// `current` arrives: none for a block at or before the last processed
    /// one, otherwise from the block after the last processed one up to
    /// `current`. The cursor itself stays where it is.
    pub fn next_range(&self, current: u64) -> (r: Option<(u64, u64)>)
        ensures
            r is None <==> current <= self.last_processed,
            r matches Some((from, to)) ==> from == self.last_processed + 1 && to == current,
    {
        if current <= self.last_processed {
            None
        } else {
            Some((self.last_processed + 1, current))
        }
    }
}

} // verus!
