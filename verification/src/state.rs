//! The event-sourced orderbook state engine.
//!
//! An on-chain event log is replayed into an in-memory state from which,
//! for any queried batch, the set of active orders and per-user balances
//! can be materialized. The engine stores the ordered event log itself;
//! the state is a pure function of that log, which makes every query
//! deterministic and makes reorg handling a matter of truncating the log.

use crate::account_state::{spec_balance, AccountState, BalanceEntry};
use crate::models::{Address, Order};
use crate::wide_math::ceil_div;
use vstd::prelude::*;

verus! {

/// The wall-clock length of one batch, in seconds.
pub const BATCH_DURATION: u64 = 300;

/// A 32-byte block identifier.
#[derive(Clone, Copy, Debug, PartialEq, Eq, Structural)]
pub struct BlockHash {
    pub hi: u128,
    pub lo: u128,
}

/// One order's execution inside a solution submission.
#[derive(Clone, Copy, Debug, PartialEq, Eq, Structural)]
pub struct Trade {
    pub owner: Address,
    pub order_id: u16,
    pub executed_sell_amount: u128,
    pub executed_buy_amount: u128,
}

/// The on-chain events the engine understands.
#[derive(Clone, Debug, PartialEq, Eq)]
pub enum Event {
    TokenListing { id: u16, addr: Address },
    OrderPlacement {
        owner: Address,
        index: u16,
        buy_token: u16,
        sell_token: u16,
        valid_from: u32,
        valid_until: u32,
        price_numerator: u128,
        price_denominator: u128,
    },
    OrderCancellation { owner: Address, index: u16 },
    OrderDeletion { owner: Address, index: u16 },
    Deposit { owner: Address, token: u16, amount: u128, batch_id: u32 },
    WithdrawRequest { owner: Address, token: u16, amount: u128, batch_id: u32 },
    Withdraw { owner: Address, token: u16, amount: u128 },
    SolutionSubmission { batch: u32, trades: Vec<Trade> },
}

/// An event together with its position in the chain and its block's
/// timestamp.
#[derive(Clone, Debug, PartialEq, Eq)]
pub struct StoredEvent {
    pub data: Event,
    pub block_number: u64,
    pub log_index: u64,
    pub block_hash: BlockHash,
    pub block_timestamp: u64,
}

/// A live order as the engine tracks it.
#[derive(Clone, Copy, Debug, PartialEq, Eq, Structural)]
pub struct OrderRecord {
    pub owner: Address,
    pub index: u16,
    pub buy_token: u16,
    pub sell_token: u16,
    pub valid_from: u32,
    pub valid_until: u32,
    pub price_numerator: u128,
    pub price_denominator: u128,
    pub remaining_amount: u128,
}

/// A pending deposit or withdrawal reservation.
#[derive(Clone, Copy, Debug, PartialEq, Eq, Structural)]
pub struct PendingFlow {
    pub owner: Address,
    pub token: u16,
    pub amount: u128,
    pub batch_id: u32,
}

/// An event the chain must never produce against the current state.
#[derive(Clone, Copy, Debug, PartialEq, Eq, Structural)]
pub enum StateError {
    DuplicateToken,
    DuplicateOrder,
}

/// The mathematical model of the engine's materialized state.
pub ghost struct StateModel {
    pub tokens: Seq<(u16, Address)>,
    pub orders: Seq<OrderRecord>,
    pub balances: Seq<BalanceEntry>,
    pub deposits: Seq<PendingFlow>,
    pub withdrawals: Seq<PendingFlow>,
}

/// The batch a block timestamp falls into, saturating at the largest
/// representable batch index.
pub open spec fn spec_batch_of(ts: u64) -> u32 {
    if ts / (BATCH_DURATION as u64) > u32::MAX {
        u32::MAX
    } else {
        (ts / (BATCH_DURATION as u64)) as u32
    }
}

/// The batch index a cancellation closes an order at: the batch before
/// the cancelling block's, not going below zero.
pub open spec fn spec_cancel_until(ts: u64) -> u32 {
    if spec_batch_of(ts) == 0 {
        0
    } else {
        (spec_batch_of(ts) - 1) as u32
    }
}

/// The address a token id is listed under, if any; the first entry wins.
pub open spec fn spec_token_addr(tokens: Seq<(u16, Address)>, id: u16) -> Option<Address>
    decreases tokens.len(),
{
    if tokens.len() == 0 {
        None
    } else if tokens[0].0 == id {
        Some(tokens[0].1)
    } else {
        spec_token_addr(tokens.drop_first(), id)
    }
}

/// The position of the order keyed `(owner, index)`, if present; the
/// first match wins.
pub open spec fn spec_find_order(orders: Seq<OrderRecord>, owner: Address, index: u16) -> Option<
    int>
    decreases orders.len(),
{
    if orders.len() == 0 {
        None
    } else if orders[0].owner == owner && orders[0].index == index {
        Some(0)
    } else {
        match spec_find_order(orders.drop_first(), owner, index) {
            None => None,
            Some(k) => Some(k + 1),
        }
    }
}

/// Strict order on order records by `(owner, index)`.
pub open spec fn spec_ord_lt(a: OrderRecord, b: OrderRecord) -> bool {
    a.owner.spec_key() < b.owner.spec_key() || (a.owner == b.owner && a.index < b.index)
}

/// Whether two records share their `(owner, index)` key.
pub open spec fn spec_same_key(a: OrderRecord, b: OrderRecord) -> bool {
    a.owner == b.owner && a.index == b.index
}

/// A strictly ascending order list; this also makes keys unique.
pub open spec fn spec_orders_sorted(orders: Seq<OrderRecord>) -> bool {
    forall|i: int, j: int|
        0 <= i < j < orders.len() ==> spec_ord_lt(#[trigger] orders[i], #[trigger] orders[j])
}

/// Equal address keys mean equal addresses.
proof fn lemma_addr_key_injective(a: Address, b: Address)
    requires
        a.spec_key() == b.spec_key(),
    ensures
        a == b,
{
    let base = crate::wide_math::base128();
    assert(a.hi == b.hi) by (nonlinear_arith)
        requires
            a.hi * base + a.lo == b.hi * base + b.lo,
            0 <= a.lo < base,
            0 <= b.lo < base,
            a.hi >= 0,
            b.hi >= 0,
            base == crate::wide_math::base128(),
    ;
}

/// Records with different keys compare strictly one way or the other.
proof fn lemma_ord_trichotomy(a: OrderRecord, b: OrderRecord)
    requires
        !spec_same_key(a, b),
    ensures
        spec_ord_lt(a, b) || spec_ord_lt(b, a),
{
    if a.owner.spec_key() == b.owner.spec_key() {
        lemma_addr_key_injective(a.owner, b.owner);
    }
}

/// Inserting a record into a sorted list at its key's place.
pub open spec fn spec_insert_sorted(orders: Seq<OrderRecord>, rec: OrderRecord) -> Seq<
    OrderRecord>
    decreases orders.len(),
{
    if orders.len() == 0 {
        seq![rec]
    } else if spec_ord_lt(rec, orders[0]) {
        seq![rec] + orders
    } else {
        seq![orders[0]] + spec_insert_sorted(orders.drop_first(), rec)
    }
}

/// The pending flows for a `(owner, token)` pair removed.
pub open spec fn spec_remove_flows(s: Seq<PendingFlow>, owner: Address, token: u16) -> Seq<
    PendingFlow>
    decreases s.len(),
{
    if s.len() == 0 {
        s
    } else {
        let rest = spec_remove_flows(s.drop_last(), owner, token);
        if s.last().owner == owner && s.last().token == token {
            rest
        } else {
            rest.push(s.last())
        }
    }
}

/// The model of a state with nothing in it.
pub open spec fn spec_model_empty() -> StateModel {
    StateModel {
        tokens: Seq::empty(),
        orders: Seq::empty(),
        balances: Seq::empty(),
        deposits: Seq::empty(),
        withdrawals: Seq::empty(),
    }
}

/// One trade of a solution submission: the order's remaining amount
/// shrinks by the executed sell amount, and the owner's balances move by
/// the executed amounts; a trade naming no live order does nothing.
pub open spec fn spec_apply_trade(m: StateModel, tr: Trade) -> StateModel {
    match spec_find_order(m.orders, tr.owner, tr.order_id) {
        None => m,
        Some(i) => {
            let o = m.orders[i];
            StateModel {
                tokens: m.tokens,
                orders: m.orders.update(
                    i,
                    OrderRecord {
                        remaining_amount: crate::account_state::spec_sat_sub(
                            o.remaining_amount, tr.executed_sell_amount),
                        ..o
                    },
                ),
                balances: crate::account_state::spec_debit_entries(
                    crate::account_state::spec_credit_entries(
                        m.balances, tr.owner, o.buy_token, tr.executed_buy_amount),
                    tr.owner,
                    o.sell_token,
                    tr.executed_sell_amount,
                ),
                deposits: m.deposits,
                withdrawals: m.withdrawals,
            }
        },
    }
}

/// All trades of a submission, applied left to right.
pub open spec fn spec_apply_trades(m: StateModel, trades: Seq<Trade>) -> StateModel
    decreases trades.len(),
{
    if trades.len() == 0 {
        m
    } else {
        spec_apply_trade(spec_apply_trades(m, trades.drop_last()), trades.last())
    }
}

/// The effect of one stored event on the materialized state.
pub open spec fn spec_apply(m: StateModel, e: StoredEvent) -> Result<StateModel, StateError> {
    match e.data {
        Event::TokenListing { id, addr } => match spec_token_addr(m.tokens, id) {
            Some(a) => if a == addr {
                Ok(m)
            } else {
                Err(StateError::DuplicateToken)
            },
            None => Ok(StateModel { tokens: m.tokens.push((id, addr)), ..m }),
        },
        Event::OrderPlacement {
            owner,
            index,
            buy_token,
            sell_token,
            valid_from,
            valid_until,
            price_numerator,
            price_denominator,
        } => {
            if spec_find_order(m.orders, owner, index) is Some {
                Err(StateError::DuplicateOrder)
            } else {
                Ok(
                    StateModel {
                        orders: spec_insert_sorted(
                            m.orders,
                            OrderRecord {
                                owner,
                                index,
                                buy_token,
                                sell_token,
                                valid_from,
                                valid_until,
                                price_numerator,
                                price_denominator,
                                remaining_amount: price_denominator,
                            },
                        ),
                        ..m
                    },
                )
            }
        },
        Event::OrderCancellation { owner, index } => match spec_find_order(m.orders, owner, index) {
            None => Ok(m),
            Some(i) => Ok(
                StateModel {
                    orders: m.orders.update(
                        i,
                        OrderRecord {
                            valid_until: spec_cancel_until(e.block_timestamp),
                            ..m.orders[i]
                        },
                    ),
                    ..m
                },
            ),
        },
        Event::OrderDeletion { owner, index } => match spec_find_order(m.orders, owner, index) {
            None => Ok(m),
            Some(i) => Ok(StateModel { orders: m.orders.remove(i), ..m }),
        },
        Event::Deposit { owner, token, amount, batch_id } => Ok(
            StateModel {
                deposits: m.deposits.push(PendingFlow { owner, token, amount, batch_id }),
                ..m
            },
        ),
        Event::WithdrawRequest { owner, token, amount, batch_id } => Ok(
            StateModel {
                withdrawals: m.withdrawals.push(PendingFlow { owner, token, amount, batch_id }),
                ..m
            },
        ),
        Event::Withdraw { owner, token, amount } => Ok(
            StateModel {
                balances: crate::account_state::spec_debit_entries(m.balances, owner, token, amount),
                withdrawals: spec_remove_flows(m.withdrawals, owner, token),
                ..m
            },
        ),
        Event::SolutionSubmission { batch: _, trades } => Ok(spec_apply_trades(m, trades@)),
    }
}

/// The state the whole stored log replays to.
pub open spec fn spec_replay(log: Seq<StoredEvent>) -> Result<StateModel, StateError>
    decreases log.len(),
{
    if log.len() == 0 {
        Ok(spec_model_empty())
    } else {
        match spec_replay(log.drop_last()) {
            Err(err) => Err(err),
            Ok(m) => spec_apply(m, log.last()),
        }
    }
}

/// Whether an event with this block hash and log position is already stored.
pub open spec fn spec_is_dup(log: Seq<StoredEvent>, e: StoredEvent) -> bool {
    exists|j: int|
        0 <= j < log.len() && (#[trigger] log[j]).block_hash == e.block_hash && log[j].log_index
            == e.log_index
}

/// The chain's total order on events.
pub open spec fn spec_precedes(a: StoredEvent, b: StoredEvent) -> bool {
    a.block_number < b.block_number || (a.block_number == b.block_number && a.log_index
        < b.log_index)
}

/// A strictly ascending stored log.
pub open spec fn spec_log_sorted(log: Seq<StoredEvent>) -> bool {
    forall|i: int, j: int|
        0 <= i < j < log.len() ==> spec_precedes(#[trigger] log[i], #[trigger] log[j])
}

/// The log with every event at or above the forked block dropped.
pub open spec fn spec_truncated(log: Seq<StoredEvent>, block_number: u64) -> Seq<StoredEvent>
    decreases log.len(),
{
    if log.len() == 0 {
        log
    } else if log.last().block_number >= block_number {
        spec_truncated(log.drop_last(), block_number)
    } else {
        log
    }
}

/// How one incoming event changes the stored log, and what the caller is
/// told: a duplicate is ignored; an out-of-order event first truncates
/// the log at its block (a reorg); an event the state refuses is reported
/// and not stored.
pub open spec fn spec_ingest(log: Seq<StoredEvent>, e: StoredEvent) -> (
    Seq<StoredEvent>,
    Result<(), StateError>,
) {
    if spec_is_dup(log, e) {
        (log, Ok(()))
    } else {
        let base = if log.len() == 0 || spec_precedes(log.last(), e) {
            log
        } else {
            spec_truncated(log, e.block_number)
        };
        match spec_replay(base) {
            Err(err) => (base, Err(err)),
            Ok(m) => match spec_apply(m, e) {
                Ok(_) => (base.push(e), Ok(())),
                Err(err) => (base, Err(err)),
            },
        }
    }
}

/// The engine's materialized state: listed tokens, live orders (kept
/// strictly sorted by `(owner, index)`), liquid balances and pending flows.
pub struct State {
    pub tokens: Vec<(u16, Address)>,
    pub orders: Vec<OrderRecord>,
    pub balances: AccountState,
    pub deposits: Vec<PendingFlow>,
    pub withdrawals: Vec<PendingFlow>,
}

impl State {
    /// The mathematical model of this state.
    pub open spec fn model(self) -> StateModel {
        StateModel {
            tokens: self.tokens@,
            orders: self.orders@,
            balances: self.balances.entries@,
            deposits: self.deposits@,
            withdrawals: self.withdrawals@,
        }
    }

    /// Balances have unique keys and the order list is strictly sorted.
    pub open spec fn wf(self) -> bool {
        self.balances.wf() && spec_orders_sorted(self.orders@)
    }

    /// A state with nothing in it.
    pub fn empty() -> (r: State)
        ensures
            r.wf(),
            r.model() == spec_model_empty(),
    {
        let r = State {
            tokens: Vec::new(),
            orders: Vec::new(),
            balances: AccountState::new_empty(),
            deposits: Vec::new(),
            withdrawals: Vec::new(),
        };
        proof {
            assert(r.tokens@ =~= Seq::<(u16, Address)>::empty());
            assert(r.orders@ =~= Seq::<OrderRecord>::empty());
            assert(r.balances.entries@ =~= Seq::<BalanceEntry>::empty());
            assert(r.deposits@ =~= Seq::<PendingFlow>::empty());
            assert(r.withdrawals@ =~= Seq::<PendingFlow>::empty());
        }
        r
    }
}

/// Looks a token id up in the listing, first entry first.
fn token_lookup(tokens: &Vec<(u16, Address)>, id: u16) -> (r: Option<Address>)
    ensures
        r == spec_token_addr(tokens@, id),
{
    let mut i: usize = 0;
    proof {
        assert(tokens@.skip(0) =~= tokens@);
    }
    while i < tokens.len()
        invariant
            i <= tokens@.len(),
            spec_token_addr(tokens@, id) == spec_token_addr(tokens@.skip(i as int), id),
        decreases tokens@.len() - i,
    {
        proof {
            assert(tokens@.skip(i as int).len() > 0);
            assert(tokens@.skip(i as int)[0] == tokens@[i as int]);
            assert(tokens@.skip(i as int).drop_first() =~= tokens@.skip(i + 1));
        }
        if tokens[i].0 == id {
            return Some(tokens[i].1);
        }
        i = i + 1;
    }
    None
}

/// A first order-key match at `i` pins down [`spec_find_order`].
proof fn lemma_find_order_at(s: Seq<OrderRecord>, owner: Address, index: u16, i: int)
    requires
        0 <= i < s.len(),
        s[i].owner == owner && s[i].index == index,
        forall|j: int| 0 <= j < i ==> !(#[trigger] s[j].owner == owner && s[j].index == index),
    ensures
        spec_find_order(s, owner, index) == Some(i),
    decreases i,
{
    if i > 0 {
        lemma_find_order_at(s.drop_first(), owner, index, i - 1);
    }
}

/// No key match anywhere means [`spec_find_order`] finds nothing.
proof fn lemma_find_order_none(s: Seq<OrderRecord>, owner: Address, index: u16)
    requires
        forall|j: int| 0 <= j < s.len() ==> !(#[trigger] s[j].owner == owner && s[j].index == index),
    ensures
        spec_find_order(s, owner, index) is None,
    decreases s.len(),
{
    if s.len() > 0 {
        lemma_find_order_none(s.drop_first(), owner, index);
    }
}

/// Finds the position of the order keyed `(owner, index)`.
fn find_order(orders: &Vec<OrderRecord>, owner: Address, index: u16) -> (r: Option<usize>)
    ensures
        match r {
            Some(i) => i < orders@.len() && spec_find_order(orders@, owner, index) == Some(
                i as int) && orders@[i as int].owner == owner && orders@[i as int].index == index,
            None => spec_find_order(orders@, owner, index) is None,
        },
{
    let mut i: usize = 0;
    while i < orders.len()
        invariant
            i <= orders@.len(),
            forall|j: int|
                0 <= j < i ==> !(#[trigger] orders@[j].owner == owner && orders@[j].index == index),
        decreases orders@.len() - i,
    {
        if orders[i].owner == owner && orders[i].index == index {
            proof {
                lemma_find_order_at(orders@, owner, index, i as int);
            }
            return Some(i);
        }
        i = i + 1;
    }
    proof {
        lemma_find_order_none(orders@, owner, index);
    }
    None
}

/// The strict order cannot hold both ways.
proof fn lemma_ord_asym(a: OrderRecord, b: OrderRecord)
    requires
        spec_ord_lt(a, b),
    ensures
        !spec_ord_lt(b, a),
{
}

/// Inserting at the first position whose key exceeds the new key is what
/// [`spec_insert_sorted`] does.
proof fn lemma_insert_sorted_at(s: Seq<OrderRecord>, rec: OrderRecord, i: int)
    requires
        0 <= i <= s.len(),
        forall|j: int| 0 <= j < i ==> spec_ord_lt(#[trigger] s[j], rec),
        i < s.len() ==> spec_ord_lt(rec, s[i]),
    ensures
        spec_insert_sorted(s, rec) == s.insert(i, rec),
    decreases s.len(),
{
    if s.len() == 0 {
        assert(spec_insert_sorted(s, rec) =~= s.insert(0, rec));
    } else if i == 0 {
        assert(spec_insert_sorted(s, rec) =~= s.insert(0, rec));
    } else {
        lemma_ord_asym(s[0], rec);
        assert(forall|j: int|
            0 <= j < s.drop_first().len() ==> #[trigger] s.drop_first()[j] == s[j + 1]);
        lemma_insert_sorted_at(s.drop_first(), rec, i - 1);
        assert(seq![s[0]] + s.drop_first().insert(i - 1, rec) =~= s.insert(i, rec));
    }
}

/// The position an order with a fresh key belongs at in the sorted list.
fn find_insert_pos(orders: &Vec<OrderRecord>, rec: &OrderRecord) -> (r: usize)
    ensures
        r <= orders@.len(),
        forall|j: int| 0 <= j < r ==> spec_ord_lt(#[trigger] orders@[j], *rec),
        r < orders@.len() ==> !spec_ord_lt(orders@[r as int], *rec),
{
    let mut i: usize = 0;
    while i < orders.len()
        invariant
            i <= orders@.len(),
            forall|j: int| 0 <= j < i ==> spec_ord_lt(#[trigger] orders@[j], *rec),
        decreases orders@.len() - i,
    {
        let o = orders[i];
        if !(o.owner.lt(&rec.owner) || (o.owner == rec.owner && o.index < rec.index)) {
            return i;
        }
        i = i + 1;
    }
    i
}

/// Inserts an order with a fresh key into the sorted order list.
fn insert_order_sorted(orders: &mut Vec<OrderRecord>, rec: OrderRecord)
    requires
        spec_orders_sorted(old(orders)@),
        forall|j: int|
            0 <= j < old(orders)@.len() ==> !spec_same_key(#[trigger] old(orders)@[j], rec),
    ensures
        final(orders)@ == spec_insert_sorted(old(orders)@, rec),
        spec_orders_sorted(final(orders)@),
{
    let ghost s = orders@;
    let i = find_insert_pos(orders, &rec);
    proof {
        if i < s.len() {
            assert(!spec_same_key(s[i as int], rec));
            lemma_ord_trichotomy(rec, s[i as int]);
        }
        lemma_insert_sorted_at(s, rec, i as int);
        s.insert_ensures(i as int, rec);
    }
    orders.insert(i, rec);
    proof {
        let f = orders@;
        assert forall|a: int, b: int| 0 <= a < b < f.len() implies spec_ord_lt(
            #[trigger] f[a], #[trigger] f[b]) by {
            if b < i {
                assert(f[a] == s[a] && f[b] == s[b]);
            } else if a < i && b == i {
                assert(f[a] == s[a] && f[b] == rec);
            } else if a == i && b > i {
                assert(f[a] == rec && f[b] == s[b - 1]);
                assert(spec_ord_lt(rec, s[i as int]));
                if b - 1 > i {
                    assert(spec_ord_lt(s[i as int], s[b - 1]));
                }
            } else if a < i && b > i {
                assert(f[a] == s[a] && f[b] == s[b - 1]);
                assert(spec_ord_lt(s[a], rec));
                assert(spec_ord_lt(rec, s[b - 1]) || i == b - 1);
                if i < b - 1 {
                    assert(spec_ord_lt(s[i as int], s[b - 1]));
                }
            } else {
                assert(f[a] == s[a - 1] && f[b] == s[b - 1]);
            }
        }
    }
}

/// Drops every pending flow for `(owner, token)`.
fn remove_flows(v: &mut Vec<PendingFlow>, owner: Address, token: u16)
    ensures
        final(v)@ == spec_remove_flows(old(v)@, owner, token),
{
    let ghost s = v@;
    let mut out: Vec<PendingFlow> = Vec::new();
    let mut i: usize = 0;
    proof {
        assert(s.take(0) =~= Seq::<PendingFlow>::empty());
    }
    while i < v.len()
        invariant
            s == v@,
            i <= s.len(),
            out@ == spec_remove_flows(s.take(i as int), owner, token),
        decreases s.len() - i,
    {
        proof {
            assert(s.take(i + 1).drop_last() =~= s.take(i as int));
            assert(s.take(i + 1).last() == s[i as int]);
        }
        let f = v[i];
        if !(f.owner == owner && f.token == token) {
            out.push(f);
        }
        i = i + 1;
    }
    proof {
        assert(s.take(s.len() as int) =~= s);
    }
    *v = out;
}

/// Applies one stored event to the state, exactly as [`spec_apply`] says.
fn apply_to_state(st: &mut State, e: &StoredEvent) -> (r: Result<(), StateError>)
    requires
        old(st).wf(),
    ensures
        final(st).wf(),
        match r {
            Ok(_) => spec_apply(old(st).model(), *e) == Ok::<StateModel, StateError>(
                final(st).model()),
            Err(err) => spec_apply(old(st).model(), *e) == Err::<StateModel, StateError>(err)
                && final(st).model() == old(st).model(),
        },
{
    let ghost m0 = st.model();
    match &e.data {
        Event::TokenListing { id, addr } => {
            match token_lookup(&st.tokens, *id) {
                Some(a) => {
                    if a == *addr {
                        Ok(())
                    } else {
                        Err(StateError::DuplicateToken)
                    }
                },
                None => {
                    st.tokens.push((*id, *addr));
                    Ok(())
                },
            }
        },
        Event::OrderPlacement {
            owner,
            index,
            buy_token,
            sell_token,
            valid_from,
            valid_until,
            price_numerator,
            price_denominator,
        } => {
            match find_order(&st.orders, *owner, *index) {
                Some(_) => Err(StateError::DuplicateOrder),
                None => {
                    let rec = OrderRecord {
                        owner: *owner,
                        index: *index,
                        buy_token: *buy_token,
                        sell_token: *sell_token,
                        valid_from: *valid_from,
                        valid_until: *valid_until,
                        price_numerator: *price_numerator,
                        price_denominator: *price_denominator,
                        remaining_amount: *price_denominator,
                    };
                    proof {
                        lemma_find_order_none_everywhere(st.orders@, rec.owner, rec.index);
                    }
                    insert_order_sorted(&mut st.orders, rec);
                    Ok(())
                },
            }
        },
        Event::OrderCancellation { owner, index } => {
            match find_order(&st.orders, *owner, *index) {
                None => Ok(()),
                Some(i) => {
                    let o = st.orders[i];
                    let ts = e.block_timestamp;
                    let batch = ts / BATCH_DURATION;
                    let capped: u32 = if batch > (u32::MAX as u64) {
                        u32::MAX
                    } else {
                        batch as u32
                    };
                    let until: u32 = if capped == 0 {
                        0
                    } else {
                        capped - 1
                    };
                    let updated = OrderRecord { valid_until: until, ..o };
                    st.orders.set(i, updated);
                    proof {
                        lemma_sorted_update_same_key(m0.orders, i as int, updated);
                    }
                    Ok(())
                },
            }
        },
        Event::OrderDeletion { owner, index } => {
            match find_order(&st.orders, *owner, *index) {
                None => Ok(()),
                Some(i) => {
                    st.orders.remove(i);
                    proof {
                        m0.orders.remove_ensures(i as int);
                        assert forall|a: int, b: int|
                            0 <= a < b < st.orders@.len() implies spec_ord_lt(
                            #[trigger] st.orders@[a], #[trigger] st.orders@[b]) by {
                            if b < i {
                            } else if a < i {
                                assert(st.orders@[b] == m0.orders[b + 1]);
                            } else {
                                assert(st.orders@[a] == m0.orders[a + 1]);
                                assert(st.orders@[b] == m0.orders[b + 1]);
                            }
                        }
                    }
                    Ok(())
                },
            }
        },
        Event::Deposit { owner, token, amount, batch_id } => {
            st.deposits.push(
                PendingFlow { owner: *owner, token: *token, amount: *amount, batch_id: *batch_id },
            );
            Ok(())
        },
        Event::WithdrawRequest { owner, token, amount, batch_id } => {
            st.withdrawals.push(
                PendingFlow { owner: *owner, token: *token, amount: *amount, batch_id: *batch_id },
            );
            Ok(())
        },
        Event::Withdraw { owner, token, amount } => {
            st.balances.debit_min(*owner, *token, *amount);
            remove_flows(&mut st.withdrawals, *owner, *token);
            Ok(())
        },
        Event::SolutionSubmission { batch: _, trades } => {
            let mut k: usize = 0;
            proof {
                assert(trades@.take(0) =~= Seq::<Trade>::empty());
            }
            while k < trades.len()
                invariant
                    st.wf(),
                    k <= trades@.len(),
                    st.tokens@ == m0.tokens,
                    st.deposits@ == m0.deposits,
                    st.withdrawals@ == m0.withdrawals,
                    st.model() == spec_apply_trades(m0, trades@.take(k as int)),
                decreases trades@.len() - k,
            {
                proof {
                    assert(trades@.take(k + 1).drop_last() =~= trades@.take(k as int));
                    assert(trades@.take(k + 1).last() == trades@[k as int]);
                }
                let tr = trades[k];
                match find_order(&st.orders, tr.owner, tr.order_id) {
                    None => {},
                    Some(i) => {
                        let ghost before = st.model();
                        let o = st.orders[i];
                        let left = if o.remaining_amount >= tr.executed_sell_amount {
                            o.remaining_amount - tr.executed_sell_amount
                        } else {
                            0
                        };
                        let updated = OrderRecord { remaining_amount: left, ..o };
                        st.orders.set(i, updated);
                        proof {
                            lemma_sorted_update_same_key(before.orders, i as int, updated);
                        }
                        st.balances.credit_saturating(
                            tr.owner, o.buy_token, tr.executed_buy_amount);
                        st.balances.debit_min(tr.owner, o.sell_token, tr.executed_sell_amount);
                    },
                }
                k = k + 1;
            }
            proof {
                assert(trades@.take(trades@.len() as int) =~= trades@);
            }
            Ok(())
        },
    }
}

/// When the search finds nothing, no position matches the key.
proof fn lemma_find_order_none_everywhere(s: Seq<OrderRecord>, owner: Address, index: u16)
    requires
        spec_find_order(s, owner, index) is None,
    ensures
        forall|j: int|
            0 <= j < s.len() ==> !((#[trigger] s[j]).owner == owner && s[j].index == index),
    decreases s.len(),
{
    if s.len() > 0 {
        assert(!(s[0].owner == owner && s[0].index == index));
        assert(spec_find_order(s.drop_first(), owner, index) is None);
        lemma_find_order_none_everywhere(s.drop_first(), owner, index);
        assert forall|j: int|
            0 <= j < s.len() implies !((#[trigger] s[j]).owner == owner && s[j].index
            == index) by {
            if j > 0 {
                assert(s.drop_first()[j - 1] == s[j]);
            }
        }
    }
}

/// Updating a record in place without changing its key keeps the list
/// sorted.
proof fn lemma_sorted_update_same_key(s: Seq<OrderRecord>, i: int, updated: OrderRecord)
    requires
        spec_orders_sorted(s),
        0 <= i < s.len(),
        updated.owner == s[i].owner,
        updated.index == s[i].index,
    ensures
        spec_orders_sorted(s.update(i, updated)),
{
    let f = s.update(i, updated);
    assert forall|a: int, b: int| 0 <= a < b < f.len() implies spec_ord_lt(
        #[trigger] f[a], #[trigger] f[b]) by {
        assert(spec_ord_lt(s[a], s[b]));
    }
}

/// A log whose replay already failed stays failed however it grows.
proof fn lemma_replay_err_sticks(log: Seq<StoredEvent>, k: int)
    requires
        0 <= k <= log.len(),
        spec_replay(log.take(k)) is Err,
    ensures
        spec_replay(log) == spec_replay(log.take(k)),
    decreases log.len() - k,
{
    if k < log.len() {
        assert(log.take(k + 1).drop_last() =~= log.take(k));
        lemma_replay_err_sticks(log, k + 1);
    } else {
        assert(log.take(k) =~= log);
    }
}

/// Every prefix of a cleanly replaying log replays cleanly.
proof fn lemma_replay_prefix_ok(log: Seq<StoredEvent>, k: int)
    requires
        0 <= k <= log.len(),
        spec_replay(log) is Ok,
    ensures
        spec_replay(log.take(k)) is Ok,
{
    if spec_replay(log.take(k)) is Err {
        lemma_replay_err_sticks(log, k);
    }
}

/// Truncation only ever drops a suffix.
proof fn lemma_truncated_prefix(log: Seq<StoredEvent>, bn: u64)
    ensures
        spec_truncated(log, bn).len() <= log.len(),
        forall|i: int|
            0 <= i < spec_truncated(log, bn).len() ==> #[trigger] spec_truncated(log, bn)[i]
                == log[i],
    decreases log.len(),
{
    if log.len() > 0 && log.last().block_number >= bn {
        lemma_truncated_prefix(log.drop_last(), bn);
        assert(forall|i: int|
            0 <= i < log.drop_last().len() ==> #[trigger] log.drop_last()[i] == log[i]);
    }
}

/// Replays a stored log from scratch.
fn replay_log(events: &Vec<StoredEvent>) -> (r: Result<State, StateError>)
    ensures
        match r {
            Ok(st) => st.wf() && spec_replay(events@) == Ok::<StateModel, StateError>(st.model()),
            Err(err) => spec_replay(events@) is Err && spec_replay(events@)
                == Err::<StateModel, StateError>(err),
        },
{
    let mut st = State::empty();
    let mut i: usize = 0;
    proof {
        assert(events@.take(0) =~= Seq::<StoredEvent>::empty());
    }
    while i < events.len()
        invariant
            i <= events@.len(),
            st.wf(),
            spec_replay(events@.take(i as int)) == Ok::<StateModel, StateError>(st.model()),
        decreases events@.len() - i,
    {
        proof {
            assert(events@.take(i + 1).drop_last() =~= events@.take(i as int));
            assert(events@.take(i + 1).last() == events@[i as int]);
        }
        match apply_to_state(&mut st, &events[i]) {
            Ok(_) => {},
            Err(err) => {
                proof {
                    lemma_replay_err_sticks(events@, i + 1);
                }
                return Err(err);
            },
        }
        i = i + 1;
    }
    proof {
        assert(events@.take(events@.len() as int) =~= events@);
    }
    Ok(st)
}

/// A well-formed stored log: strictly ordered and cleanly replaying.
pub open spec fn spec_log_wf(log: Seq<StoredEvent>) -> bool {
    spec_log_sorted(log) && spec_replay(log) is Ok
}

/// An event based orderbook, replaying the chain's event log into
/// snapshots on demand.
pub struct Orderbook {
    pub events: Vec<StoredEvent>,
}

impl Orderbook {
    /// The stored log is strictly ordered and replays cleanly.
    pub open spec fn wf(self) -> bool {
        spec_log_wf(self.events@)
    }

    /// An orderbook that has seen no events.
    pub fn new() -> (r: Orderbook)
        ensures
            r.wf(),
            r.events@.len() == 0,
    {
        Orderbook { events: Vec::new() }
    }

    /// Ingests one event from the chain. A duplicate delivery (same block
    /// hash and log index) is ignored; an event from before the newest
    /// stored block first truncates the log at its block (a reorg); an
    /// event the replayed state refuses is reported and not stored.
    pub fn handle_event_data(
        &mut self,
        data: Event,
        block_number: u64,
        log_index: u64,
        block_hash: BlockHash,
        block_timestamp: u64,
    ) -> (r: Result<(), StateError>)
        requires
            old(self).wf(),
        ensures
            final(self).wf(),
            ({
                let e = StoredEvent { data, block_number, log_index, block_hash, block_timestamp };
                let out = spec_ingest(old(self).events@, e);
                final(self).events@ == out.0 && r == out.1
            }),
    {
        let ghost orig = self.events@;
        let ghost e_ghost = StoredEvent {
            data: data,
            block_number,
            log_index,
            block_hash,
            block_timestamp,
        };
        // A redelivery of an already stored event changes nothing.
        let mut i: usize = 0;
        while i < self.events.len()
            invariant
                orig == self.events@,
                spec_log_wf(orig),
                e_ghost.block_hash == block_hash,
                e_ghost.log_index == log_index,
                i <= orig.len(),
                forall|j: int|
                    0 <= j < i ==> !((#[trigger] orig[j]).block_hash == block_hash
                        && orig[j].log_index == log_index),
            decreases orig.len() - i,
        {
            if self.events[i].block_hash == block_hash && self.events[i].log_index == log_index {
                proof {
                    assert((#[trigger] orig[i as int]).block_hash == e_ghost.block_hash
                        && orig[i as int].log_index == e_ghost.log_index);
                    assert(spec_is_dup(orig, e_ghost));
                }
                return Ok(());
            }
            i = i + 1;
        }
        proof {
            assert(!spec_is_dup(orig, e_ghost));
        }
        // Decide whether the event extends the log or forks it.
        let n = self.events.len();
        let in_order = if n == 0 {
            true
        } else {
            let last = &self.events[n - 1];
            last.block_number < block_number || (last.block_number == block_number
                && last.log_index < log_index)
        };
        if !in_order {
            // Reorg: drop everything at or above the forked block.
            loop
                invariant
                    spec_truncated(self.events@, block_number) == spec_truncated(
                        orig, block_number),
                    self.events@.len() <= orig.len(),
                    forall|j: int|
                        0 <= j < self.events@.len() ==> #[trigger] self.events@[j] == orig[j],
                ensures
                    spec_truncated(self.events@, block_number) == spec_truncated(
                        orig, block_number),
                    self.events@.len() <= orig.len(),
                    forall|j: int|
                        0 <= j < self.events@.len() ==> #[trigger] self.events@[j] == orig[j],
                    self.events@.len() == 0 || self.events@.last().block_number < block_number,
                decreases self.events@.len(),
            {
                let m = self.events.len();
                if m == 0 {
                    break;
                }
                if self.events[m - 1].block_number < block_number {
                    break;
                }
                proof {
                    assert(self.events@.drop_last() =~= self.events@.subrange(
                        0, self.events@.len() - 1));
                }
                self.events.pop();
            }
        }
        let ghost base = self.events@;
        proof {
            if !in_order {
                assert(spec_truncated(base, block_number) == base);
                assert(base == spec_truncated(orig, block_number));
            }
            // The surviving prefix replays cleanly.
            assert(base =~= orig.take(base.len() as int));
            lemma_replay_prefix_ok(orig, base.len() as int);
        }
        // Validate the event against the replayed state.
        let st = match replay_log(&self.events) {
            Ok(st) => st,
            Err(err) => {
                proof {
                    assert(false);
                }
                return Err(err);
            },
        };
        let mut st = st;
        let e = StoredEvent { data, block_number, log_index, block_hash, block_timestamp };
        match apply_to_state(&mut st, &e) {
            Ok(_) => {
                self.events.push(e);
                proof {
                    assert(self.events@.drop_last() =~= base);
                    assert forall|a: int, b: int|
                        0 <= a < b < self.events@.len() implies spec_precedes(
                        #[trigger] self.events@[a], #[trigger] self.events@[b]) by {
                        if b < self.events@.len() - 1 {
                            assert(orig[a] == self.events@[a] && orig[b] == self.events@[b]);
                        } else {
                            if a < base.len() - 1 {
                                assert(spec_precedes(base[a], base[base.len() - 1]));
                            }
                        }
                    }
                }
                Ok(())
            },
            Err(err) => Err(err),
        }
    }
}

/// Whether an order can still trade in the given batch: inside its
/// validity window, with sell budget left, and with at least a clearing
/// unit of budget.
pub open spec fn spec_active(o: OrderRecord, b: u32) -> bool {
    o.valid_from <= b && b <= o.valid_until && o.remaining_amount > 0 && o.remaining_amount
        >= o.price_numerator
}

/// The buy amount the remaining sell budget still commands at the
/// record's limit ratio, rounded up; a zero denominator commands nothing
/// and an overlarge product saturates.
pub open spec fn spec_scaled_order_buy(o: OrderRecord) -> u128 {
    if o.price_denominator == 0 {
        0
    } else {
        let v = ceil_div(o.price_numerator * o.remaining_amount, o.price_denominator as int);
        if v <= u128::MAX {
            v as u128
        } else {
            u128::MAX
        }
    }
}

/// The snapshot order a live record materializes as.
pub open spec fn spec_order_view(o: OrderRecord) -> Order {
    Order {
        id: o.index,
        account_id: o.owner,
        buy_token: o.buy_token,
        sell_token: o.sell_token,
        buy_amount: spec_scaled_order_buy(o),
        sell_amount: o.remaining_amount,
    }
}

/// The snapshot orders for a batch: the active records, in storage
/// order — which the engine keeps sorted by `(owner, index)`.
pub open spec fn spec_snapshot_orders(orders: Seq<OrderRecord>, b: u32) -> Seq<Order>
    decreases orders.len(),
{
    if orders.len() == 0 {
        Seq::empty()
    } else {
        let rest = spec_snapshot_orders(orders.drop_last(), b);
        if spec_active(orders.last(), b) {
            rest.push(spec_order_view(orders.last()))
        } else {
            rest
        }
    }
}

/// A balance after the deposits pending for `(u, t)` from batches before
/// `b` have materialized, in list order, saturating upward.
pub open spec fn spec_credit_fold(
    v: u128,
    deposits: Seq<PendingFlow>,
    b: u32,
    u: Address,
    t: u16,
) -> u128
    decreases deposits.len(),
{
    if deposits.len() == 0 {
        v
    } else {
        let prev = spec_credit_fold(v, deposits.drop_last(), b, u, t);
        if deposits.last().owner == u && deposits.last().token == t && deposits.last().batch_id
            < b {
            crate::account_state::spec_sat_add(prev, deposits.last().amount)
        } else {
            prev
        }
    }
}

/// A balance after the withdrawal reservations for `(u, t)` up to batch
/// `b` have been held back, in list order, stopping at zero.
pub open spec fn spec_debit_fold(
    v: u128,
    withdrawals: Seq<PendingFlow>,
    b: u32,
    u: Address,
    t: u16,
) -> u128
    decreases withdrawals.len(),
{
    if withdrawals.len() == 0 {
        v
    } else {
        let prev = spec_debit_fold(v, withdrawals.drop_last(), b, u, t);
        if withdrawals.last().owner == u && withdrawals.last().token == t
            && withdrawals.last().batch_id <= b {
            crate::account_state::spec_sat_sub(prev, withdrawals.last().amount)
        } else {
            prev
        }
    }
}

/// The balance the snapshot for batch `b` shows for `(u, t)`: the liquid
/// balance plus matured deposits minus claimable withdrawal reservations.
pub open spec fn spec_snapshot_balance(m: StateModel, b: u32, u: Address, t: u16) -> u128 {
    spec_debit_fold(
        spec_credit_fold(spec_balance(m.balances, u, t), m.deposits, b, u, t),
        m.withdrawals,
        b,
        u,
        t,
    )
}

impl Orderbook {
    /// Materializes the auction snapshot for the given batch: every
    /// order active in that batch, sorted by `(owner, index)`, and every
    /// user's spendable balance per token.
    pub fn get_auction_data(&self, batch_id: u32) -> (r: Result<
        (AccountState, Vec<Order>),
        StateError,
    >)
        requires
            self.wf(),
        ensures
            match r {
                Ok(out) => spec_replay(self.events@) is Ok && ({
                    let m = spec_replay(self.events@).unwrap();
                    &&& out.1@ == spec_snapshot_orders(m.orders, batch_id)
                    &&& out.0.wf()
                    &&& forall|u: Address, t: u16| #[trigger] out.0.spec_read(u, t)
                        == spec_snapshot_balance(m, batch_id, u, t)
                }),
                Err(_) => false,
            },
    {
        let st = match replay_log(&self.events) {
            Ok(st) => st,
            Err(err) => {
                proof {
                    assert(false);
                }
                return Err(err);
            },
        };
        let ghost m = spec_replay(self.events@).unwrap();
        let State { tokens: _, orders, mut balances, deposits, withdrawals } = st;
        proof {
            assert(deposits@.take(0) =~= Seq::<PendingFlow>::empty());
        }
        // Materialize matured deposits.
        let mut i: usize = 0;
        while i < deposits.len()
            invariant
                i <= deposits@.len(),
                deposits@ == m.deposits,
                balances.wf(),
                forall|u: Address, t: u16| #[trigger] balances.spec_read(u, t)
                    == spec_credit_fold(
                    spec_balance(m.balances, u, t), m.deposits.take(i as int), batch_id, u, t),
            decreases deposits@.len() - i,
        {
            proof {
                assert(m.deposits.take(i + 1).drop_last() =~= m.deposits.take(i as int));
                assert(m.deposits.take(i + 1).last() == m.deposits[i as int]);
            }
            let flow = deposits[i];
            if flow.batch_id < batch_id {
                balances.credit_saturating(flow.owner, flow.token, flow.amount);
            }
            proof {
                assert forall|u: Address, t: u16| #[trigger] balances.spec_read(u, t)
                    == spec_credit_fold(
                    spec_balance(m.balances, u, t), m.deposits.take(i + 1), batch_id, u, t) by {
                    assert(m.deposits.take(i + 1).drop_last() =~= m.deposits.take(i as int));
                }
            }
            i = i + 1;
        }
        proof {
            assert(m.deposits.take(m.deposits.len() as int) =~= m.deposits);
            assert(withdrawals@.take(0) =~= Seq::<PendingFlow>::empty());
        }
        // Hold back claimable withdrawal reservations.
        let mut i: usize = 0;
        while i < withdrawals.len()
            invariant
                i <= withdrawals@.len(),
                withdrawals@ == m.withdrawals,
                balances.wf(),
                forall|u: Address, t: u16| #[trigger] balances.spec_read(u, t)
                    == spec_debit_fold(
                    spec_credit_fold(spec_balance(m.balances, u, t), m.deposits, batch_id, u, t),
                    m.withdrawals.take(i as int),
                    batch_id,
                    u,
                    t,
                ),
            decreases withdrawals@.len() - i,
        {
            proof {
                assert(m.withdrawals.take(i + 1).drop_last() =~= m.withdrawals.take(i as int));
                assert(m.withdrawals.take(i + 1).last() == m.withdrawals[i as int]);
            }
            let flow = withdrawals[i];
            if flow.batch_id <= batch_id {
                balances.debit_min(flow.owner, flow.token, flow.amount);
            }
            proof {
                assert forall|u: Address, t: u16| #[trigger] balances.spec_read(u, t)
                    == spec_debit_fold(
                    spec_credit_fold(spec_balance(m.balances, u, t), m.deposits, batch_id, u, t),
                    m.withdrawals.take(i + 1),
                    batch_id,
                    u,
                    t,
                ) by {
                    assert(m.withdrawals.take(i + 1).drop_last() =~= m.withdrawals.take(i as int));
                }
            }
            i = i + 1;
        }
        proof {
            assert(m.withdrawals.take(m.withdrawals.len() as int) =~= m.withdrawals);
            assert(orders@.take(0) =~= Seq::<OrderRecord>::empty());
        }
        // Collect the active orders, already sorted by (owner, index).
        let mut out: Vec<Order> = Vec::new();
        let mut k: usize = 0;
        while k < orders.len()
            invariant
                k <= orders@.len(),
                orders@ == m.orders,
                out@ == spec_snapshot_orders(m.orders.take(k as int), batch_id),
            decreases orders@.len() - k,
        {
            proof {
                assert(m.orders.take(k + 1).drop_last() =~= m.orders.take(k as int));
                assert(m.orders.take(k + 1).last() == m.orders[k as int]);
            }
            let o = orders[k];
            if o.valid_from <= batch_id && batch_id <= o.valid_until && o.remaining_amount > 0
                && o.remaining_amount >= o.price_numerator {
                let buy_amount: u128 = if o.price_denominator == 0 {
                    0
                } else {
                    match crate::wide_math::mul_div_ceil(
                        o.price_numerator, o.remaining_amount, o.price_denominator) {
                        Some(v) => v,
                        None => u128::MAX,
                    }
                };
                out.push(
                    Order {
                        id: o.index,
                        account_id: o.owner,
                        buy_token: o.buy_token,
                        sell_token: o.sell_token,
                        buy_amount,
                        sell_amount: o.remaining_amount,
                    },
                );
            }
            k = k + 1;
        }
        proof {
            assert(m.orders.take(m.orders.len() as int) =~= m.orders);
        }
        Ok((balances, out))
    }
}

/// A truncated log never ends at or above the forked block.
proof fn lemma_truncated_last(log: Seq<StoredEvent>, bn: u64)
    ensures
        spec_truncated(log, bn).len() > 0 ==> spec_truncated(log, bn).last().block_number < bn,
    decreases log.len(),
{
    if log.len() > 0 && log.last().block_number >= bn {
        lemma_truncated_last(log.drop_last(), bn);
    }
}

/// Feeding the engine the same event twice leaves the same stored log as
/// feeding it once: replay is independent of duplicate deliveries, so any
/// interleaving that preserves the chain order yields the same state.
pub proof fn lemma_ingest_idempotent(log: Seq<StoredEvent>, e: StoredEvent)
    ensures
        spec_ingest(spec_ingest(log, e).0, e).0 == spec_ingest(log, e).0,
{
    if spec_is_dup(log, e) {
    } else {
        let base = if log.len() == 0 || spec_precedes(log.last(), e) {
            log
        } else {
            spec_truncated(log, e.block_number)
        };
        lemma_truncated_prefix(log, e.block_number);
        lemma_truncated_last(log, e.block_number);
        assert(!spec_is_dup(base, e)) by {
            if spec_is_dup(base, e) {
                let j = choose|j: int|
                    0 <= j < base.len() && (#[trigger] base[j]).block_hash == e.block_hash
                        && base[j].log_index == e.log_index;
                assert(log[j].block_hash == e.block_hash && log[j].log_index == e.log_index);
            }
        }
        match spec_replay(base) {
            Err(_) => {
                // The log stays `base`; re-ingesting finds the same base.
                assert(base.len() == 0 || spec_precedes(base.last(), e));
            },
            Ok(m) => match spec_apply(m, e) {
                Ok(_) => {
                    // The event is now stored, so the retry is a duplicate.
                    let stored = base.push(e);
                    assert(stored[stored.len() - 1] == e);
                    assert(spec_is_dup(stored, e));
                },
                Err(_) => {
                    assert(base.len() == 0 || spec_precedes(base.last(), e));
                },
            },
        }
    }
}

impl Orderbook {
    /// Checks the stored-log invariant at run time: strictly ordered
    /// events whose replay the state accepts.
    pub fn wf_check(&self) -> (r: bool)
        ensures
            r == self.wf(),
    {
        let n = self.events.len();
        let mut a: usize = 0;
        while a < n
            invariant
                n == self.events@.len(),
                a <= n,
                forall|i: int, j: int|
                    0 <= i < j < n && i < a ==> spec_precedes(
                        #[trigger] self.events@[i], #[trigger] self.events@[j]),
            decreases n - a,
        {
            let mut b: usize = a + 1;
            while b < n
                invariant
                    n == self.events@.len(),
                    a < b,
                    a < n,
                    b <= n,
                    forall|j: int|
                        (a as int) < j < b ==> spec_precedes(
                            #[trigger] self.events@[a as int], #[trigger] self.events@[j]),
                decreases n - b,
            {
                let x = &self.events[a];
                let y = &self.events[b];
                if !(x.block_number < y.block_number || (x.block_number == y.block_number
                    && x.log_index < y.log_index)) {
                    return false;
                }
                b = b + 1;
            }
            a = a + 1;
        }
        match replay_log(&self.events) {
            Ok(_) => true,
            Err(_) => false,
        }
    }
}

impl Default for Orderbook {
    /// Same as [`Orderbook::new`]: an empty, well-formed orderbook.
    fn default() -> (r: Orderbook)
        ensures
            r.wf(),
            r.events@.len() == 0,
    {
        Orderbook::new()
    }
}

} // verus!
