//! Snapshot filtering and the shadow comparison path.

use dex_driver::account_state::AccountState;
use dex_driver::filter::{AllowList, OrderbookFilter};
use dex_driver::models::{Address, Order};
use dex_driver::reader::{ReadError, StableXOrderBookReading};
use dex_driver::shadow::{balances_equivalent, orders_equal, ShadowedOrderbookReader};

fn order(owner: u64, id: u16, sell_token: u16, buy_token: u16) -> Order {
    Order {
        id,
        account_id: Address::from_low_u64_be(owner),
        buy_token,
        sell_token,
        buy_amount: 10,
        sell_amount: 20,
    }
}

#[test]
fn token_rules_drop_orders_and_their_balances() {
    let orders = vec![order(1, 0, 1, 2), order(1, 1, 3, 2), order(2, 0, 2, 1)];
    let state = AccountState::with_balance_for(&orders);
    let filter = OrderbookFilter {
        tokens: AllowList::AllExcept(vec![3]),
        users: vec![],
    };
    let (filtered_state, filtered_orders) = filter.filter_snapshot(&state, &orders);
    assert_eq!(filtered_orders, vec![orders[0], orders[2]]);
    // the balance for the denied token 3 is gone
    assert_eq!(filtered_state.read_balance(3, Address::from_low_u64_be(1)), 0);
    assert_eq!(filtered_state.read_balance(1, Address::from_low_u64_be(1)), 20);
}

#[test]
fn user_rules_pick_single_orders() {
    let orders = vec![order(1, 0, 1, 2), order(1, 1, 1, 2), order(2, 0, 1, 2)];
    let state = AccountState::with_balance_for(&orders);
    let filter = OrderbookFilter {
        tokens: AllowList::All,
        users: vec![(Address::from_low_u64_be(1), AllowList::Only(vec![1]))],
    };
    let (_, filtered_orders) = filter.filter_snapshot(&state, &orders);
    assert_eq!(filtered_orders, vec![orders[1], orders[2]]);
}

#[test]
fn an_all_filter_changes_nothing() {
    let orders = vec![order(1, 0, 1, 2), order(2, 0, 2, 1)];
    let state = AccountState::with_balance_for(&orders);
    let filter = OrderbookFilter { tokens: AllowList::All, users: vec![] };
    let (filtered_state, filtered_orders) = filter.filter_snapshot(&state, &orders);
    assert_eq!(filtered_orders, orders);
    assert_eq!(filtered_state, state);
}

#[test]
fn balance_comparison_ignores_layout() {
    let mut a = AccountState::default();
    a.increase_balance(Address::from_low_u64_be(1), 0, 10);
    a.increase_balance(Address::from_low_u64_be(2), 1, 20);
    let mut b = AccountState::default();
    b.increase_balance(Address::from_low_u64_be(2), 1, 20);
    b.increase_balance(Address::from_low_u64_be(1), 0, 10);
    assert!(balances_equivalent(&a, &b));
    b.increase_balance(Address::from_low_u64_be(1), 0, 1);
    assert!(!balances_equivalent(&a, &b));
}

#[test]
fn order_comparison_is_exact() {
    let a = vec![order(1, 0, 1, 2)];
    let mut b = a.clone();
    assert!(orders_equal(&a, &b));
    b[0].buy_amount = 11;
    assert!(!orders_equal(&a, &b));
}

struct FixedReader {
    orders: Vec<Order>,
    fail: bool,
}

impl StableXOrderBookReading for FixedReader {
    fn get_auction_data(&self, _index: u32) -> Result<(AccountState, Vec<Order>), ReadError> {
        if self.fail {
            Err(ReadError::NotReady)
        } else {
            Ok((AccountState::with_balance_for(&self.orders), self.orders.clone()))
        }
    }
}

#[test]
fn shadow_reports_agreement_and_returns_the_primary() {
    let orders = vec![order(1, 0, 1, 2)];
    let reader = ShadowedOrderbookReader::new(
        FixedReader { orders: orders.clone(), fail: false },
        FixedReader { orders: orders.clone(), fail: false },
    );
    let ((_, primary_orders), agreement) = reader.get_auction_data_compared(0).unwrap();
    assert_eq!(primary_orders, orders);
    assert_eq!(agreement, Some(true));
}

#[test]
fn shadow_reports_divergence() {
    let orders = vec![order(1, 0, 1, 2)];
    let other = vec![order(2, 0, 1, 2)];
    let reader = ShadowedOrderbookReader::new(
        FixedReader { orders: orders.clone(), fail: false },
        FixedReader { orders: other, fail: false },
    );
    let ((_, primary_orders), agreement) = reader.get_auction_data_compared(0).unwrap();
    assert_eq!(primary_orders, orders);
    assert_eq!(agreement, Some(false));
}

#[test]
fn a_failing_shadow_does_not_break_the_primary() {
    let orders = vec![order(1, 0, 1, 2)];
    let reader = ShadowedOrderbookReader::new(
        FixedReader { orders: orders.clone(), fail: false },
        FixedReader { orders: vec![], fail: true },
    );
    let result = reader.get_auction_data(0).unwrap();
    assert_eq!(result.1, orders);
}
