//! The paginated reader: accumulation, cursor handling, page-size
//! independence.

use dex_driver::codec::{encode_element, AuctionElement};
use dex_driver::models::{Address, Order};
use dex_driver::paginated::{
    read_paginated_from, PaginatedStableXOrderBookReader, StableXContract,
};
use dex_driver::reader::{ReadError, StableXOrderBookReading};

fn element(owner: u64, sell_token: u16, buy_token: u16, balance: u128) -> AuctionElement {
    AuctionElement {
        owner: Address::from_low_u64_be(owner),
        sell_token_balance: balance,
        buy_token,
        sell_token,
        valid_from: 0,
        valid_until: 100,
        price_numerator: 10,
        price_denominator: 20,
        remaining_amount: 20,
    }
}

/// Orders grouped by owner, as the exchange serves them.
fn sample_records() -> Vec<AuctionElement> {
    vec![
        element(1, 2, 3, 100),
        element(1, 2, 4, 100),
        element(1, 5, 4, 70),
        element(2, 2, 3, 55),
        element(3, 1, 2, 10),
        element(3, 1, 4, 10),
        element(3, 1, 5, 10),
    ]
}

/// Serves pages from a fixed record list the way the contract does:
/// skip the cursor user's first `offset` records, then serve up to
/// `page_size` records onward.
struct ListContract {
    records: Vec<AuctionElement>,
}

impl StableXContract for ListContract {
    fn get_auction_data_paginated(
        &self,
        page_size: u16,
        previous_page_user: Address,
        previous_page_user_offset: u16,
    ) -> Result<Vec<u8>, ReadError> {
        let start = if previous_page_user_offset == 0 {
            0
        } else {
            let first = self
                .records
                .iter()
                .position(|r| r.owner == previous_page_user)
                .unwrap_or(self.records.len());
            first + previous_page_user_offset as usize
        };
        let end = (start + page_size as usize).min(self.records.len());
        let mut bytes = Vec::new();
        for record in &self.records[start.min(self.records.len())..end] {
            bytes.extend(encode_element(record));
        }
        Ok(bytes)
    }
}

fn read_with_page_size(page_size: u16) -> (Vec<Order>, Vec<(u64, u16, u128)>) {
    let reader = PaginatedStableXOrderBookReader::new(
        ListContract { records: sample_records() },
        page_size,
    );
    let (balances, orders) = reader.get_auction_data(1).unwrap();
    let pairs = balances
        .user_token_pairs()
        .into_iter()
        .map(|(user, token)| (user.lo as u64, token, balances.read_balance(token, user)))
        .collect();
    (orders, pairs)
}

#[test]
fn reader_accumulates_orders_and_balances() {
    let (orders, balances) = read_with_page_size(100);
    assert_eq!(orders.len(), 7);
    // per-user order ids count from zero in record order
    let ids: Vec<u16> = orders.iter().map(|o| o.id).collect();
    assert_eq!(ids, vec![0, 1, 2, 0, 0, 1, 2]);
    // one balance per (owner, sell token) pair, first record wins
    assert_eq!(
        balances,
        vec![(1, 2, 100), (1, 5, 70), (2, 2, 55), (3, 1, 10)]
    );
}

#[test]
fn any_page_size_gives_the_same_snapshot() {
    let whole = read_with_page_size(100);
    for page_size in 1..9u16 {
        assert_eq!(read_with_page_size(page_size), whole, "page size {}", page_size);
    }
}

#[test]
fn the_simulated_protocol_agrees_with_the_fold() {
    let records = sample_records();
    let (state1, orders1) = read_paginated_from(&records, 1).unwrap();
    let (state3, orders3) = read_paginated_from(&records, 3).unwrap();
    assert_eq!(orders1, orders3);
    assert_eq!(state1, state3);
}

#[test]
fn a_corrupt_page_stops_the_read() {
    struct Corrupt;
    impl StableXContract for Corrupt {
        fn get_auction_data_paginated(
            &self,
            _page_size: u16,
            _previous_page_user: Address,
            _previous_page_user_offset: u16,
        ) -> Result<Vec<u8>, ReadError> {
            Ok(vec![1, 2, 3])
        }
    }
    let reader = PaginatedStableXOrderBookReader::new(Corrupt, 10);
    assert_eq!(reader.get_auction_data(1), Err(ReadError::CorruptPage));
}
