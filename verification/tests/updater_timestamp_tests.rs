//! The updater's decisions and the block timestamp cache.

use dex_driver::models::Address;
use dex_driver::reader::ReadError;
use dex_driver::state::{BlockHash, Event};
use dex_driver::timestamps::TimestampCache;
use dex_driver::updater::{collect_block_hashes, select_action, UpdaterAction, UpdaterCore};

fn hash(n: u64) -> BlockHash {
    BlockHash { hi: n as u128, lo: 1 }
}

#[test]
fn selection_is_biased_exit_over_live_over_past() {
    assert_eq!(select_action(true, true, true), UpdaterAction::Exit);
    assert_eq!(select_action(false, true, true), UpdaterAction::HandleLiveEvent);
    assert_eq!(select_action(false, false, true), UpdaterAction::HandlePastEvents);
    assert_eq!(select_action(false, false, false), UpdaterAction::Wait);
}

#[test]
fn reading_before_readiness_is_refused() {
    let core = UpdaterCore::new();
    assert_eq!(core.get_auction_data(0), Err(ReadError::NotReady));
}

#[test]
fn past_events_make_the_engine_ready() {
    let mut core = UpdaterCore::new();
    let listing = Event::TokenListing { id: 0, addr: Address::from_low_u64_be(9) };
    core.apply_past_events(vec![(listing, 1, 0, hash(1), 0)]).unwrap();
    let (_, orders) = core.get_auction_data(0).unwrap();
    assert_eq!(orders.len(), 0);
}

#[test]
fn live_events_keep_flowing_after_readiness() {
    let mut core = UpdaterCore::new();
    core.apply_past_events(vec![]).unwrap();
    core.apply_live_event(
        Event::OrderPlacement {
            owner: Address::from_low_u64_be(1),
            index: 0,
            buy_token: 1,
            sell_token: 2,
            valid_from: 0,
            valid_until: 10,
            price_numerator: 1,
            price_denominator: 4,
        },
        1,
        0,
        hash(1),
        0,
    )
    .unwrap();
    let (_, orders) = core.get_auction_data(0).unwrap();
    assert_eq!(orders.len(), 1);
    assert_eq!(orders[0].sell_amount, 4);
}

#[test]
fn block_hashes_are_deduplicated() {
    let hashes = vec![hash(1), hash(2), hash(1), hash(3), hash(2)];
    let unique = collect_block_hashes(&hashes);
    assert_eq!(unique, vec![hash(1), hash(2), hash(3)]);
}

#[test]
fn the_cache_answers_what_it_was_fed() {
    let mut cache = TimestampCache::new();
    assert_eq!(cache.block_timestamp(hash(1)), None);
    cache.prepare_cache(&vec![(hash(1), 300), (hash(2), 600)]);
    assert_eq!(cache.block_timestamp(hash(1)), Some(300));
    assert_eq!(cache.block_timestamp(hash(2)), Some(600));
    assert_eq!(cache.block_timestamp(hash(3)), None);
    // A miss resolved by a single fetch lands in the cache too.
    cache.insert(hash(3), 900);
    assert_eq!(cache.block_timestamp(hash(3)), Some(900));
    // A later reading replaces an earlier one.
    cache.insert(hash(1), 330);
    assert_eq!(cache.block_timestamp(hash(1)), Some(330));
    assert_eq!(cache.block_timestamp(hash(2)), Some(600));
}
