//! The event-sourced orderbook engine: replay, reorgs, snapshots.

use dex_driver::models::Address;
use dex_driver::state::{BlockHash, Event, Orderbook, StateError, Trade, BATCH_DURATION};

fn hash(n: u64) -> BlockHash {
    BlockHash { hi: 0, lo: n as u128 }
}

fn user(n: u64) -> Address {
    Address::from_low_u64_be(n)
}

fn place_order(
    book: &mut Orderbook,
    seq: u64,
    owner: Address,
    index: u16,
    buy_token: u16,
    sell_token: u16,
    numerator: u128,
    denominator: u128,
) -> Result<(), StateError> {
    book.handle_event_data(
        Event::OrderPlacement {
            owner,
            index,
            buy_token,
            sell_token,
            valid_from: 0,
            valid_until: 100,
            price_numerator: numerator,
            price_denominator: denominator,
        },
        seq,
        0,
        hash(seq),
        0,
    )
}

#[test]
fn duplicate_token_listing_is_refused() {
    let mut book = Orderbook::new();
    book.handle_event_data(
        Event::TokenListing { id: 1, addr: user(7) }, 1, 0, hash(1), 0)
        .unwrap();
    // Same listing again under a new event: fine.
    book.handle_event_data(
        Event::TokenListing { id: 1, addr: user(7) }, 2, 0, hash(2), 0)
        .unwrap();
    // A different address under the same id is refused.
    let res = book.handle_event_data(
        Event::TokenListing { id: 1, addr: user(8) }, 3, 0, hash(3), 0);
    assert_eq!(res, Err(StateError::DuplicateToken));
}

#[test]
fn duplicate_order_placement_is_refused() {
    let mut book = Orderbook::new();
    place_order(&mut book, 1, user(1), 0, 1, 2, 10, 20).unwrap();
    let res = place_order(&mut book, 2, user(1), 0, 1, 2, 10, 20);
    assert_eq!(res, Err(StateError::DuplicateOrder));
}

#[test]
fn placed_orders_appear_sorted_by_owner_and_index() {
    let mut book = Orderbook::new();
    place_order(&mut book, 1, user(9), 1, 1, 2, 10, 20).unwrap();
    place_order(&mut book, 2, user(3), 7, 2, 1, 10, 20).unwrap();
    place_order(&mut book, 3, user(9), 0, 1, 2, 10, 20).unwrap();

    let (_, orders) = book.get_auction_data(5).unwrap();
    let keys: Vec<(u128, u16)> = orders.iter().map(|o| (o.account_id.lo, o.id)).collect();
    assert_eq!(keys, vec![(3, 7), (9, 0), (9, 1)]);
    // remaining = denominator at placement, so sell amount is 20 each
    assert_eq!(orders[0].sell_amount, 20);
    assert_eq!(orders[0].buy_amount, 10);
}

#[test]
fn orders_outside_their_validity_window_are_inactive() {
    let mut book = Orderbook::new();
    book.handle_event_data(
        Event::OrderPlacement {
            owner: user(1),
            index: 0,
            buy_token: 1,
            sell_token: 2,
            valid_from: 5,
            valid_until: 10,
            price_numerator: 1,
            price_denominator: 2,
        },
        1,
        0,
        hash(1),
        0,
    )
    .unwrap();
    assert_eq!(book.get_auction_data(4).unwrap().1.len(), 0);
    assert_eq!(book.get_auction_data(5).unwrap().1.len(), 1);
    assert_eq!(book.get_auction_data(10).unwrap().1.len(), 1);
    assert_eq!(book.get_auction_data(11).unwrap().1.len(), 0);
}

#[test]
fn cancellation_closes_the_order_at_the_previous_batch() {
    let mut book = Orderbook::new();
    place_order(&mut book, 1, user(1), 0, 1, 2, 10, 20).unwrap();
    // Cancelled in batch 7: the order stays active through batch 6.
    book.handle_event_data(
        Event::OrderCancellation { owner: user(1), index: 0 },
        2,
        0,
        hash(2),
        7 * BATCH_DURATION,
    )
    .unwrap();
    assert_eq!(book.get_auction_data(6).unwrap().1.len(), 1);
    assert_eq!(book.get_auction_data(7).unwrap().1.len(), 0);
}

#[test]
fn deletion_removes_the_order_for_good() {
    let mut book = Orderbook::new();
    place_order(&mut book, 1, user(1), 0, 1, 2, 10, 20).unwrap();
    book.handle_event_data(
        Event::OrderDeletion { owner: user(1), index: 0 }, 2, 0, hash(2), 0)
        .unwrap();
    assert_eq!(book.get_auction_data(1).unwrap().1.len(), 0);
    // Deleting again is a harmless no-op.
    book.handle_event_data(
        Event::OrderDeletion { owner: user(1), index: 0 }, 3, 0, hash(3), 0)
        .unwrap();
}

#[test]
fn deposits_materialize_only_after_their_batch() {
    let mut book = Orderbook::new();
    book.handle_event_data(
        Event::Deposit { owner: user(1), token: 2, amount: 100, batch_id: 5 },
        1,
        0,
        hash(1),
        0,
    )
    .unwrap();
    let (balances, _) = book.get_auction_data(5).unwrap();
    assert_eq!(balances.read_balance(2, user(1)), 0);
    let (balances, _) = book.get_auction_data(6).unwrap();
    assert_eq!(balances.read_balance(2, user(1)), 100);
}

#[test]
fn withdraw_requests_reserve_and_withdraw_debits() {
    let mut book = Orderbook::new();
    book.handle_event_data(
        Event::Deposit { owner: user(1), token: 2, amount: 100, batch_id: 0 },
        1,
        0,
        hash(1),
        0,
    )
    .unwrap();
    book.handle_event_data(
        Event::WithdrawRequest { owner: user(1), token: 2, amount: 30, batch_id: 5 },
        2,
        0,
        hash(2),
        0,
    )
    .unwrap();
    // Before the reservation batch the full deposit is spendable.
    assert_eq!(book.get_auction_data(4).unwrap().0.read_balance(2, user(1)), 100);
    // From the reservation batch on, the reserved part is held back.
    assert_eq!(book.get_auction_data(5).unwrap().0.read_balance(2, user(1)), 70);
    // The withdrawal clears the reservation; it debits only the liquid
    // balance, and the deposit never was liquid, so nothing is taken.
    book.handle_event_data(
        Event::Withdraw { owner: user(1), token: 2, amount: 30 }, 3, 0, hash(3), 0)
        .unwrap();
    assert_eq!(book.get_auction_data(5).unwrap().0.read_balance(2, user(1)), 100);
}

#[test]
fn solution_submission_moves_balances_and_shrinks_orders() {
    let mut book = Orderbook::new();
    place_order(&mut book, 1, user(1), 0, 1, 2, 10, 20).unwrap();
    book.handle_event_data(
        Event::SolutionSubmission {
            batch: 1,
            trades: vec![Trade {
                owner: user(1),
                order_id: 0,
                executed_sell_amount: 5,
                executed_buy_amount: 3,
            }],
        },
        2,
        0,
        hash(2),
        0,
    )
    .unwrap();
    let (balances, orders) = book.get_auction_data(1).unwrap();
    assert_eq!(orders[0].sell_amount, 15);
    // bought 3 of token 1; the sell debit stops at the zero balance
    assert_eq!(balances.read_balance(1, user(1)), 3);
    assert_eq!(balances.read_balance(2, user(1)), 0);
}

#[test]
fn duplicate_event_delivery_changes_nothing() {
    let mut book = Orderbook::new();
    place_order(&mut book, 1, user(1), 0, 1, 2, 10, 20).unwrap();
    let before = book.get_auction_data(1).unwrap();
    // The same (block hash, log index) delivered again is ignored, even
    // though a repeated placement would otherwise be a duplicate order.
    place_order(&mut book, 1, user(1), 0, 1, 2, 10, 20).unwrap();
    let after = book.get_auction_data(1).unwrap();
    assert_eq!(before.1, after.1);
    assert_eq!(before.0, after.0);
}

#[test]
fn a_reorg_truncates_the_forked_suffix() {
    let mut book = Orderbook::new();
    place_order(&mut book, 1, user(1), 0, 1, 2, 10, 20).unwrap();
    place_order(&mut book, 2, user(1), 1, 1, 2, 10, 20).unwrap();
    assert_eq!(book.get_auction_data(1).unwrap().1.len(), 2);
    // A different event at height 2: the old block 2 is gone.
    book.handle_event_data(
        Event::OrderPlacement {
            owner: user(2),
            index: 0,
            buy_token: 1,
            sell_token: 2,
            valid_from: 0,
            valid_until: 100,
            price_numerator: 1,
            price_denominator: 7,
        },
        2,
        0,
        hash(22),
        0,
    )
    .unwrap();
    let (_, orders) = book.get_auction_data(1).unwrap();
    assert_eq!(orders.len(), 2);
    let keys: Vec<(u128, u16)> = orders.iter().map(|o| (o.account_id.lo, o.id)).collect();
    assert_eq!(keys, vec![(1, 0), (2, 0)]);
    assert_eq!(orders[1].sell_amount, 7);
}

#[test]
fn snapshots_of_the_same_log_are_equal() {
    let mut a = Orderbook::new();
    let mut b = Orderbook::new();
    for book in [&mut a, &mut b] {
        place_order(book, 1, user(1), 0, 1, 2, 10, 20).unwrap();
        book.handle_event_data(
            Event::Deposit { owner: user(1), token: 2, amount: 50, batch_id: 0 },
            2,
            0,
            hash(2),
            0,
        )
        .unwrap();
    }
    let (ba, oa) = a.get_auction_data(3).unwrap();
    let (bb, ob) = b.get_auction_data(3).unwrap();
    assert_eq!(oa, ob);
    assert_eq!(ba, bb);
}
