//! The interface snapshot readers share, and its error kinds.

use crate::account_state::AccountState;
use crate::models::Order;
use vstd::prelude::*;

verus! {

/// Why a snapshot could not be produced.
#[derive(Clone, Copy, Debug, PartialEq, Eq, Structural)]
pub enum ReadError {
    /// The event-sourced path has not finished replaying past events.
    NotReady,
    /// A page of auction data failed to decode.
    CorruptPage,
    /// A user's page offset outgrew its 16-bit cursor field.
    UserOverflow,
    /// The paginated view call kept returning full pages without end.
    EndlessPagination,
    /// A duplicate token or order event reached the state engine.
    InvalidEvent,
}

/// A source of auction snapshots: account balances and open orders valid
/// for the queried batch. Implementations range from paginated view calls
/// to the event-sourced engine; callers decide what to do on an error.
pub trait StableXOrderBookReading {
    /// Returns the current state of the order book, including account
    /// balances and open orders, for the given batch index.
    fn get_auction_data(&self, index: u32) -> Result<(AccountState, Vec<Order>), ReadError>;
}

} // verus!
