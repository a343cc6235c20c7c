//! The naive uniform-price matcher.
//!
//! The solver looks for the first pair of orders that trade opposite tokens
//! at overlapping limit prices with sufficient seller funds (and, when a fee
//! is configured, touch the fee token), clears exactly that pair, normalizes
//! prices so the fee token costs [`BASE_PRICE`], and moves rounding errors
//! into the fee token. When anything rules the pair out — no match, a price
//! of zero, or an amount that cannot be represented — it returns the trivial
//! solution.

use crate::account_state::AccountState;
use crate::models::{ExecutedOrder, Fee, Order, Solution};
use crate::wide_math::{
    base128, ceil_div, div_rem_wide, lemma_ceil_div_split, mul_div_ceil, mul_div_floor, mul_le,
    mul_wide, wide_mul_u128, wval,
};
use vstd::arithmetic::div_mod::{lemma_div_is_ordered, lemma_div_multiples_vanish};
use vstd::prelude::*;

verus! {

/// One whole token in its smallest denomination.
pub const BASE_UNIT: u128 = 1_000_000_000_000_000_000;

/// The price the fee token is pinned to in a normalized solution.
pub const BASE_PRICE: u128 = BASE_UNIT;

/// Which side of a matched pair is filled completely.
#[derive(Clone, Copy, Debug, PartialEq, Eq, Structural)]
pub enum OrderPairType {
    LhsFullyFilled,
    RhsFullyFilled,
    BothFullyFilled,
}

/// Whether this order's sell token is the other's buy token and vice versa.
pub open spec fn spec_opposite_tokens(x: Order, y: Order) -> bool {
    x.buy_token == y.sell_token && x.sell_token == y.buy_token
}

/// Whether some price satisfies both orders' limits at once.
pub open spec fn spec_have_price_overlap(x: Order, y: Order) -> bool {
    x.sell_amount > 0 && y.sell_amount > 0 && x.buy_amount * y.buy_amount <= y.sell_amount
        * x.sell_amount
}

/// Whether the order buys or sells the fee token.
pub open spec fn spec_trades_fee_token(x: Order, fee: Fee) -> bool {
    x.buy_token == fee.token || x.sell_token == fee.token
}

/// Whether the two orders can be matched: opposite tokens, overlapping
/// prices, and — with a fee — the first order touches the fee token.
pub open spec fn spec_attracts(x: Order, y: Order, fee: Option<Fee>) -> bool {
    (match fee {
        Some(f) => spec_trades_fee_token(x, f),
        None => true,
    }) && spec_opposite_tokens(x, y) && spec_have_price_overlap(x, y)
}

/// Whether the seller owns at least the amount the order offers to sell.
pub open spec fn spec_sufficient_funds(o: Order, state: AccountState) -> bool {
    state.spec_read(o.account_id, o.sell_token) >= o.sell_amount
}

/// Everything [`Order::match_compare`] checks before it reports a match.
pub open spec fn spec_matchable(x: Order, y: Order, state: AccountState, fee: Option<Fee>) -> bool {
    spec_sufficient_funds(x, state) && spec_sufficient_funds(y, state) && spec_attracts(x, y, fee)
}

/// How a matchable pair clears, decided by comparing amounts crosswise.
pub open spec fn spec_pair_type(x: Order, y: Order) -> OrderPairType {
    if x.buy_amount <= y.sell_amount && x.sell_amount <= y.buy_amount {
        OrderPairType::LhsFullyFilled
    } else if x.buy_amount >= y.sell_amount && x.sell_amount >= y.buy_amount {
        OrderPairType::RhsFullyFilled
    } else {
        OrderPairType::BothFullyFilled
    }
}

impl Order {
    /// Whether the orders can be matched: the tokens are opposite, a price
    /// satisfies both, and with a fee the trade touches the fee token.
    pub fn attracts(&self, other: &Order, fee: &Option<Fee>) -> (r: bool)
        ensures
            r == spec_attracts(*self, *other, *fee),
    {
        if let Some(f) = fee {
            if !self.trades_fee_token(f) {
                return false;
            }
        }
        self.opposite_tokens(other) && self.have_price_overlap(other)
    }

    /// Whether the account behind the order can pay what it offers to sell.
    pub fn sufficient_seller_funds(&self, state: &AccountState) -> (r: bool)
        ensures
            r == spec_sufficient_funds(*self, *state),
    {
        state.read_balance(self.sell_token, self.account_id) >= self.sell_amount
    }

    /// The pair-selection test: funds on both sides and mutual
    /// attraction decide whether — and how — the two orders clear.
    pub fn match_compare(&self, other: &Order, state: &AccountState, fee: &Option<Fee>) -> (r:
        Option<OrderPairType>)
        ensures
            r == if spec_matchable(*self, *other, *state, *fee) {
                Some(spec_pair_type(*self, *other))
            } else {
                None::<OrderPairType>
            },
    {
        if !self.sufficient_seller_funds(state) || !other.sufficient_seller_funds(state)
            || !self.attracts(other, fee) {
            return None;
        }
        if self.buy_amount <= other.sell_amount && self.sell_amount <= other.buy_amount {
            Some(OrderPairType::LhsFullyFilled)
        } else if self.buy_amount >= other.sell_amount && self.sell_amount >= other.buy_amount {
            Some(OrderPairType::RhsFullyFilled)
        } else {
            Some(OrderPairType::BothFullyFilled)
        }
    }

    /// Whether this order's sell token is the other's buy token and vice versa.
    pub fn opposite_tokens(&self, other: &Order) -> (r: bool)
        ensures
            r == spec_opposite_tokens(*self, *other),
    {
        self.buy_token == other.sell_token && self.sell_token == other.buy_token
    }

    /// Whether there is a price that satisfies both orders, decided on the
    /// full 256-bit cross products.
    pub fn have_price_overlap(&self, other: &Order) -> (r: bool)
        ensures
            r == spec_have_price_overlap(*self, *other),
    {
        self.sell_amount > 0 && other.sell_amount > 0 && mul_le(
            self.buy_amount,
            other.buy_amount,
            other.sell_amount,
            self.sell_amount,
        )
    }

    /// Whether the sell or buy token is the fee token.
    pub fn trades_fee_token(&self, fee: &Fee) -> (r: bool)
        ensures
            r == spec_trades_fee_token(*self, *fee),
    {
        self.buy_token == fee.token || self.sell_token == fee.token
    }
}

/// The order as cleared, with room left for the fee: the buyer of the fee
/// token asks for more, the seller of the fee token gives away less, so the
/// original limit still holds after the fee is taken. `None` when the
/// inflated buy amount cannot be represented.
pub open spec fn spec_buffered(o: Order, fee: Option<Fee>) -> Option<Order> {
    match fee {
        None => Some(o),
        Some(f) => {
            if f.token == o.buy_token {
                let nb = ceil_div(o.buy_amount * f.denominator, f.denominator - 1);
                if nb <= u128::MAX {
                    Some(
                        Order {
                            id: o.id,
                            account_id: o.account_id,
                            buy_token: o.buy_token,
                            sell_token: o.sell_token,
                            buy_amount: nb as u128,
                            sell_amount: o.sell_amount,
                        },
                    )
                } else {
                    None
                }
            } else if f.token == o.sell_token {
                Some(
                    Order {
                        id: o.id,
                        account_id: o.account_id,
                        buy_token: o.buy_token,
                        sell_token: o.sell_token,
                        buy_amount: o.buy_amount,
                        sell_amount: ((o.sell_amount as int) * (f.denominator - 1)
                            / (f.denominator as int)) as u128,
                    },
                )
            } else {
                Some(o)
            }
        },
    }
}

/// Pre-inflates an order's amounts so the post-fee limit is still met.
pub fn order_with_buffer_for_fee(order: &Order, fee: &Option<Fee>) -> (r: Option<Order>)
    requires
        match *fee {
            Some(f) => f.valid(),
            None => true,
        },
    ensures
        r == spec_buffered(*order, *fee),
{
    match fee {
        None => Some(*order),
        Some(f) => {
            if f.token == order.buy_token {
                match mul_div_ceil(order.buy_amount, f.denominator, f.denominator - 1) {
                    Some(nb) => Some(
                        Order {
                            id: order.id,
                            account_id: order.account_id,
                            buy_token: order.buy_token,
                            sell_token: order.sell_token,
                            buy_amount: nb,
                            sell_amount: order.sell_amount,
                        },
                    ),
                    None => None,
                }
            } else if f.token == order.sell_token {
                match mul_div_floor(order.sell_amount, f.denominator - 1, f.denominator) {
                    Some(ns) => Some(
                        Order {
                            id: order.id,
                            account_id: order.account_id,
                            buy_token: order.buy_token,
                            sell_token: order.sell_token,
                            buy_amount: order.buy_amount,
                            sell_amount: ns,
                        },
                    ),
                    None => {
                        proof {
                            lemma_shrunk_sell_fits(order.sell_amount, f.denominator);
                        }
                        None
                    },
                }
            } else {
                Some(*order)
            }
        },
    }
}

/// Giving away a `(d-1)/d` share never exceeds the original amount.
proof fn lemma_shrunk_sell_fits(amount: u128, d: u128)
    requires
        d >= 2,
    ensures
        amount * (d - 1) / (d as int) <= amount,
{
    assert(amount * (d - 1) <= amount * d) by (nonlinear_arith)
        requires
            d >= 2,
            amount >= 0,
    ;
    lemma_div_is_ordered(amount * (d - 1), amount * (d as int), d as int);
    lemma_div_multiples_vanish(amount as int, d as int);
    assert(amount * d == (d as int) * (amount as int)) by (nonlinear_arith);
}

/// A price scaled so that the fee token's price becomes [`BASE_PRICE`],
/// rounding up; `None` when the scaled price does not fit.
pub open spec fn spec_normalize(price: u128, f0: u128) -> Option<u128> {
    let v = ceil_div(price * BASE_PRICE, f0 as int);
    if v <= u128::MAX {
        Some(v as u128)
    } else {
        None
    }
}

/// Normalizes one price against the pre-normalization fee price.
pub fn normalize_price(price: u128, pre_normalized_fee_price: u128) -> (r: Option<u128>)
    requires
        pre_normalized_fee_price > 0,
    ensures
        r == spec_normalize(price, pre_normalized_fee_price),
{
    mul_div_ceil(price, BASE_PRICE, pre_normalized_fee_price)
}

/// The executed sell amount derived from an executed buy amount at the
/// given prices, with the fee share added back:
/// `floor(floor(xb * pb / (d - 1)) * d / ps)`. `None` when it cannot be
/// represented.
pub open spec fn spec_exec_sell(d: u128, xb: u128, pb: u128, ps: u128) -> Option<u128> {
    let v = (xb * pb / (d - 1)) * d / (ps as int);
    if v <= u128::MAX {
        Some(v as u128)
    } else {
        None
    }
}

/// Calculates the executed sell amount from the fee, executed buy amount,
/// and the buy and sell prices of the traded tokens.
pub fn executed_sell_amount(d: u128, exec_buy: u128, buy_price: u128, sell_price: u128) -> (r:
    Option<u128>)
    requires
        d >= 2,
        sell_price > 0,
    ensures
        r == spec_exec_sell(d, exec_buy, buy_price, sell_price),
{
    let (h1, l1) = mul_wide(exec_buy, buy_price);
    let ((q1h, q1l), _) = div_rem_wide(h1, l1, d - 1);
    match wide_mul_u128(q1h, q1l, d) {
        None => {
            proof {
                lemma_huge_quotient(
                    wval(q1h, q1l) * d, exec_buy * buy_price / (d - 1) as int * d, sell_price);
            }
            None
        },
        Some((th, tl)) => {
            let ((qh, ql), _) = div_rem_wide(th, tl, sell_price);
            if qh == 0 {
                Some(ql)
            } else {
                proof {
                    assert(wval(qh, ql) >= base128()) by (nonlinear_arith)
                        requires
                            qh >= 1,
                            ql >= 0,
                            wval(qh, ql) == qh * base128() + ql,
                    ;
                }
                None
            }
        },
    }
}

/// A value at least `2^256` stays above `u128::MAX` after division by a
/// divisor below `2^128`.
proof fn lemma_huge_quotient(x: int, y: int, div: u128)
    requires
        x == y,
        x >= base128() * base128(),
        div > 0,
    ensures
        y / (div as int) > u128::MAX,
{
    assert(base128() * base128() >= base128() * (div as int)) by (nonlinear_arith)
        requires
            div < base128(),
            base128() > 0,
    ;
    lemma_div_is_ordered(base128() * (div as int), x, div as int);
    lemma_div_multiples_vanish(base128(), div as int);
    assert(base128() * (div as int) == (div as int) * base128()) by (nonlinear_arith);
}

/// The executed buy amount that the fee-adjusted sell amount round-trips
/// to: `ceil(floor(xs * ps / d) * (d - 1) / pb)`, kept only if feeding it
/// back through [`spec_exec_sell`] returns exactly `xs`.
pub open spec fn spec_exec_buy(d: u128, xs: u128, pb: u128, ps: u128) -> Option<u128> {
    let q = ceil_div(xs * ps / (d as int) * (d - 1), pb as int);
    if q > u128::MAX {
        None
    } else if spec_exec_sell(d, q as u128, pb, ps) == Some(xs) {
        Some(q as u128)
    } else {
        None
    }
}

/// Calculates the executed buy amount from the fee, executed sell amount,
/// and the buy and sell prices; acts as an inverse of
/// [`executed_sell_amount`] and fails where no inverse exists.
pub fn executed_buy_amount(d: u128, exec_sell: u128, buy_price: u128, sell_price: u128) -> (r:
    Option<u128>)
    requires
        d >= 2,
        buy_price > 0,
        sell_price > 0,
    ensures
        r == spec_exec_buy(d, exec_sell, buy_price, sell_price),
{
    let (h1, l1) = mul_wide(exec_sell, sell_price);
    let ((q1h, q1l), _) = div_rem_wide(h1, l1, d);
    let ghost numerator = exec_sell * sell_price / (d as int) * (d - 1);
    match wide_mul_u128(q1h, q1l, d - 1) {
        None => {
            proof {
                lemma_huge_ceil(numerator, buy_price);
            }
            None
        },
        Some((th, tl)) => {
            let ((qh, ql), rest) = div_rem_wide(th, tl, buy_price);
            proof {
                lemma_ceil_div_split(numerator, buy_price as int);
            }
            let candidate: Option<u128> = if rest == 0 {
                if qh == 0 {
                    Some(ql)
                } else {
                    proof {
                        lemma_wide_at_least_base(qh, ql);
                    }
                    None
                }
            } else {
                if qh == 0 {
                    if ql == u128::MAX {
                        None
                    } else {
                        Some(ql + 1)
                    }
                } else {
                    proof {
                        lemma_wide_at_least_base(qh, ql);
                    }
                    None
                }
            };
            match candidate {
                None => None,
                Some(q) => {
                    match executed_sell_amount(d, q, buy_price, sell_price) {
                        Some(v) => if v == exec_sell {
                            Some(q)
                        } else {
                            None
                        },
                        None => None,
                    }
                },
            }
        },
    }
}

/// The first matchable pair at or after position `(i, j)`, scanning pairs
/// in the order the nested search visits them.
pub open spec fn spec_match_from(
    orders: Seq<Order>,
    state: AccountState,
    fee: Option<Fee>,
    i: int,
    j: int,
) -> Option<(int, int)>
    decreases orders.len() - i, orders.len() - j,
    when 0 <= i < j
{
    if i >= orders.len() {
        None
    } else if j >= orders.len() {
        spec_match_from(orders, state, fee, i + 1, i + 2)
    } else if spec_matchable(orders[i], orders[j], state, fee) {
        Some((i, j))
    } else {
        spec_match_from(orders, state, fee, i, j + 1)
    }
}

/// The first matchable pair of the whole order list.
pub open spec fn spec_first_match(orders: Seq<Order>, state: AccountState, fee: Option<Fee>) ->
    Option<(int, int)> {
    spec_match_from(orders, state, fee, 0, 1)
}

/// Finds the first pair of orders that can clear against each other,
/// together with how the pair fills.
pub fn find_first_match(orders: &Vec<Order>, state: &AccountState, fee: &Option<Fee>) -> (r:
    Option<(usize, usize, OrderPairType)>)
    ensures
        match r {
            Some(m) => {
                &&& spec_first_match(orders@, *state, *fee) == Some((m.0 as int, m.1 as int))
                &&& m.0 < m.1 < orders@.len()
                &&& spec_matchable(orders@[m.0 as int], orders@[m.1 as int], *state, *fee)
                &&& m.2 == spec_pair_type(orders@[m.0 as int], orders@[m.1 as int])
            },
            None => spec_first_match(orders@, *state, *fee) is None,
        },
{
    let mut i: usize = 0;
    while i < orders.len()
        invariant
            i <= orders@.len(),
            spec_first_match(orders@, *state, *fee) == spec_match_from(
                orders@, *state, *fee, i as int, i + 1),
        decreases orders@.len() - i,
    {
        let mut j: usize = i + 1;
        while j < orders.len()
            invariant
                i < orders@.len(),
                i < j,
                spec_first_match(orders@, *state, *fee) == spec_match_from(
                    orders@, *state, *fee, i as int, j as int),
            decreases orders@.len() - j,
        {
            if let Some(t) = orders[i].match_compare(&orders[j], state, fee) {
                return Some((i, j, t));
            }
            j = j + 1;
        }
        i = i + 1;
    }
    None
}

/// One executed order, as stored in a solution.
pub open spec fn spec_exec_of(o: Order, sell: u128, buy: u128) -> ExecutedOrder {
    ExecutedOrder { account_id: o.account_id, order_id: o.id, buy_amount: buy, sell_amount: sell }
}

/// Two price insertions with map semantics: a repeated key keeps the
/// later value only.
pub open spec fn spec_price_entries(k1: u16, v1: u128, k2: u16, v2: u128) -> Seq<(u16, u128)> {
    if k1 == k2 {
        seq![(k2, v2)]
    } else {
        seq![(k1, v1), (k2, v2)]
    }
}

/// The pre-fee solution of a matched pair of buffered orders: the price of
/// each bought token and both executions, per the fill type.
pub open spec fn spec_raw_solution(bx: Order, by: Order, t: OrderPairType) -> (
    Seq<(u16, u128)>,
    ExecutedOrder,
    ExecutedOrder,
) {
    match t {
        OrderPairType::LhsFullyFilled => (
            spec_price_entries(bx.buy_token, bx.sell_amount, by.buy_token, bx.buy_amount),
            spec_exec_of(bx, bx.sell_amount, bx.buy_amount),
            spec_exec_of(by, bx.buy_amount, bx.sell_amount),
        ),
        OrderPairType::RhsFullyFilled => (
            spec_price_entries(bx.sell_token, by.sell_amount, by.sell_token, by.buy_amount),
            spec_exec_of(bx, by.buy_amount, by.sell_amount),
            spec_exec_of(by, by.sell_amount, by.buy_amount),
        ),
        OrderPairType::BothFullyFilled => (
            spec_price_entries(by.buy_token, by.sell_amount, bx.buy_token, bx.sell_amount),
            spec_exec_of(bx, bx.sell_amount, by.sell_amount),
            spec_exec_of(by, by.sell_amount, bx.sell_amount),
        ),
    }
}

/// Inserts two prices with map semantics into a fresh list.
fn push_price_entries(k1: u16, v1: u128, k2: u16, v2: u128) -> (r: Vec<(u16, u128)>)
    ensures
        r@ == spec_price_entries(k1, v1, k2, v2),
{
    let mut out: Vec<(u16, u128)> = Vec::new();
    if k1 == k2 {
        out.push((k2, v2));
        proof {
            assert(out@ =~= spec_price_entries(k1, v1, k2, v2));
        }
    } else {
        out.push((k1, v1));
        out.push((k2, v2));
        proof {
            assert(out@ =~= spec_price_entries(k1, v1, k2, v2));
        }
    }
    out
}

/// Buffers the matched pair for the fee and builds the pre-fee prices and
/// executions; `None` when a buffered amount cannot be represented.
pub fn create_executed_orders(x: &Order, y: &Order, t: OrderPairType, fee: &Option<Fee>) -> (r:
    Option<(Vec<(u16, u128)>, ExecutedOrder, ExecutedOrder)>)
    requires
        match *fee {
            Some(f) => f.valid(),
            None => true,
        },
    ensures
        match (spec_buffered(*x, *fee), spec_buffered(*y, *fee)) {
            (Some(bx), Some(by)) => match r {
                Some(out) => {
                    let raw = spec_raw_solution(bx, by, t);
                    out.0@ == raw.0 && out.1 == raw.1 && out.2 == raw.2
                },
                None => false,
            },
            _ => r is None,
        },
{
    let bx = match order_with_buffer_for_fee(x, fee) {
        Some(o) => o,
        None => {
            return None;
        },
    };
    let by = match order_with_buffer_for_fee(y, fee) {
        Some(o) => o,
        None => {
            return None;
        },
    };
    match t {
        OrderPairType::LhsFullyFilled => {
            let prices = push_price_entries(
                bx.buy_token, bx.sell_amount, by.buy_token, bx.buy_amount);
            Some((
                prices,
                ExecutedOrder {
                    account_id: bx.account_id,
                    order_id: bx.id,
                    buy_amount: bx.buy_amount,
                    sell_amount: bx.sell_amount,
                },
                ExecutedOrder {
                    account_id: by.account_id,
                    order_id: by.id,
                    buy_amount: bx.sell_amount,
                    sell_amount: bx.buy_amount,
                },
            ))
        },
        OrderPairType::RhsFullyFilled => {
            let prices = push_price_entries(
                bx.sell_token, by.sell_amount, by.sell_token, by.buy_amount);
            Some((
                prices,
                ExecutedOrder {
                    account_id: bx.account_id,
                    order_id: bx.id,
                    buy_amount: by.sell_amount,
                    sell_amount: by.buy_amount,
                },
                ExecutedOrder {
                    account_id: by.account_id,
                    order_id: by.id,
                    buy_amount: by.buy_amount,
                    sell_amount: by.sell_amount,
                },
            ))
        },
        OrderPairType::BothFullyFilled => {
            let prices = push_price_entries(
                by.buy_token, by.sell_amount, bx.buy_token, bx.sell_amount);
            Some((
                prices,
                ExecutedOrder {
                    account_id: bx.account_id,
                    order_id: bx.id,
                    buy_amount: by.sell_amount,
                    sell_amount: bx.sell_amount,
                },
                ExecutedOrder {
                    account_id: by.account_id,
                    order_id: by.id,
                    buy_amount: bx.sell_amount,
                    sell_amount: by.sell_amount,
                },
            ))
        },
    }
}

/// Whether every price in the list survives normalization against `f0`.
pub open spec fn spec_all_normalizable(s: Seq<(u16, u128)>, f0: u128) -> bool {
    forall|k: int| 0 <= k < s.len() ==> spec_normalize((#[trigger] s[k]).1, f0) is Some
}

/// The price list with every value normalized against `f0`.
pub open spec fn spec_normalized(s: Seq<(u16, u128)>, f0: u128) -> Seq<(u16, u128)> {
    Seq::new(s.len(), |k: int| (s[k].0, spec_normalize(s[k].1, f0).unwrap()))
}

/// One order's execution with the fee taken: the seller of the fee token
/// gets its sell amount recomputed from the buy amount, anyone else gets
/// the buy amount recomputed from the sell amount — and only if the
/// inverse round-trips. A missing or zero sell price cannot be inverted.
pub open spec fn spec_apply_fee(
    o: Order,
    e: ExecutedOrder,
    nprices: Seq<(u16, u128)>,
    fee: Fee,
) -> Option<ExecutedOrder> {
    if o.sell_token == fee.token {
        match crate::models::spec_price_in(nprices, o.buy_token) {
            None => None,
            Some(pb) => match spec_exec_sell(fee.denominator, e.buy_amount, pb, BASE_PRICE) {
                None => None,
                Some(v) => Some(
                    ExecutedOrder {
                        account_id: e.account_id,
                        order_id: e.order_id,
                        buy_amount: e.buy_amount,
                        sell_amount: v,
                    },
                ),
            },
        }
    } else {
        match crate::models::spec_price_in(nprices, o.sell_token) {
            None => None,
            Some(ps) => if ps == 0 {
                None
            } else {
                match spec_exec_buy(fee.denominator, e.sell_amount, BASE_PRICE, ps) {
                    None => None,
                    Some(v) => Some(
                        ExecutedOrder {
                            account_id: e.account_id,
                            order_id: e.order_id,
                            buy_amount: v,
                            sell_amount: e.sell_amount,
                        },
                    ),
                }
            },
        }
    }
}

/// The empty solution, as a pair of views.
pub open spec fn spec_trivial() -> (Seq<(u16, u128)>, Seq<ExecutedOrder>) {
    (Seq::<(u16, u128)>::empty(), Seq::<ExecutedOrder>::empty())
}

/// The fee stage of the solver: normalize all prices so the fee token
/// costs [`BASE_PRICE`], then recompute each execution around the fee;
/// any failure falls back to the trivial solution.
pub open spec fn spec_solution_with_fee(
    x: Order,
    y: Order,
    prices: Seq<(u16, u128)>,
    e1: ExecutedOrder,
    e2: ExecutedOrder,
    fee: Fee,
) -> (Seq<(u16, u128)>, Seq<ExecutedOrder>) {
    match crate::models::spec_price_in(prices, fee.token) {
        None => spec_trivial(),
        Some(f0) => if f0 == 0 {
            spec_trivial()
        } else if !spec_all_normalizable(prices, f0) {
            spec_trivial()
        } else {
            let np = spec_normalized(prices, f0);
            match (spec_apply_fee(x, e1, np, fee), spec_apply_fee(y, e2, np, fee)) {
                (Some(n1), Some(n2)) => (np, seq![n1, n2]),
                _ => spec_trivial(),
            }
        },
    }
}

/// Normalizes prices so the fee token's price is [`BASE_PRICE`] and moves
/// each execution's rounding error into the fee token; returns the trivial
/// solution when the fee price is missing or zero, a normalized price
/// overflows, or an execution cannot be adjusted.
pub fn create_solution_with_fee(
    x: &Order,
    y: &Order,
    prices: Vec<(u16, u128)>,
    e1: ExecutedOrder,
    e2: ExecutedOrder,
    fee: &Fee,
) -> (r: Solution)
    requires
        fee.valid(),
    ensures
        ({
            let sol = spec_solution_with_fee(*x, *y, prices@, e1, e2, *fee);
            r.prices@ == sol.0 && r.executed_orders@ == sol.1
        }),
{
    let f0 = match crate::models::price_lookup(&prices, fee.token) {
        Some(v) => v,
        None => {
            return Solution::trivial();
        },
    };
    if f0 == 0 {
        proof {
            assert(spec_solution_with_fee(*x, *y, prices@, e1, e2, *fee) == spec_trivial());
        }
        return Solution::trivial();
    }
    // Normalize every price against the pre-normalization fee price.
    let mut np: Vec<(u16, u128)> = Vec::new();
    let mut i: usize = 0;
    while i < prices.len()
        invariant
            fee.valid(),
            crate::models::spec_price_in(prices@, fee.token) == Some(f0),
            f0 > 0,
            i <= prices@.len(),
            np@.len() == i,
            forall|k: int|
                0 <= k < i ==> spec_normalize((#[trigger] prices@[k]).1, f0) is Some
                    && np@[k] == (prices@[k].0, spec_normalize(prices@[k].1, f0).unwrap()),
        decreases prices@.len() - i,
    {
        match normalize_price(prices[i].1, f0) {
            Some(v) => {
                np.push((prices[i].0, v));
            },
            None => {
                proof {
                    assert(!spec_all_normalizable(prices@, f0));
                }
                return Solution::trivial();
            },
        }
        i = i + 1;
    }
    proof {
        assert(spec_all_normalizable(prices@, f0));
        assert(np@ =~= spec_normalized(prices@, f0));
    }
    // Move each execution's rounding error into the fee token.
    let ne1 = match apply_fee_to_execution(x, e1, &np, fee) {
        Some(e) => e,
        None => {
            return Solution::trivial();
        },
    };
    let ne2 = match apply_fee_to_execution(y, e2, &np, fee) {
        Some(e) => e,
        None => {
            return Solution::trivial();
        },
    };
    let mut executed_orders: Vec<ExecutedOrder> = Vec::new();
    executed_orders.push(ne1);
    executed_orders.push(ne2);
    proof {
        assert(executed_orders@ =~= seq![ne1, ne2]);
    }
    Solution { prices: np, executed_orders }
}

/// Applies the fee to one execution, as [`spec_apply_fee`] describes.
fn apply_fee_to_execution(
    o: &Order,
    e: ExecutedOrder,
    nprices: &Vec<(u16, u128)>,
    fee: &Fee,
) -> (r: Option<ExecutedOrder>)
    requires
        fee.valid(),
    ensures
        r == spec_apply_fee(*o, e, nprices@, *fee),
{
    if o.sell_token == fee.token {
        match crate::models::price_lookup(nprices, o.buy_token) {
            None => None,
            Some(pb) => match executed_sell_amount(fee.denominator, e.buy_amount, pb, BASE_PRICE) {
                None => None,
                Some(v) => Some(
                    ExecutedOrder {
                        account_id: e.account_id,
                        order_id: e.order_id,
                        buy_amount: e.buy_amount,
                        sell_amount: v,
                    },
                ),
            },
        }
    } else {
        match crate::models::price_lookup(nprices, o.sell_token) {
            None => None,
            Some(ps) => {
                if ps == 0 {
                    return None;
                }
                match executed_buy_amount(fee.denominator, e.sell_amount, BASE_PRICE, ps) {
                    None => None,
                    Some(v) => Some(
                        ExecutedOrder {
                            account_id: e.account_id,
                            order_id: e.order_id,
                            buy_amount: v,
                            sell_amount: e.sell_amount,
                        },
                    ),
                }
            },
        }
    }
}

/// The whole outcome of clearing the matched pair `(x, y)`.
pub open spec fn spec_match_outcome(x: Order, y: Order, fee: Option<Fee>) -> (
    Seq<(u16, u128)>,
    Seq<ExecutedOrder>,
) {
    match (spec_buffered(x, fee), spec_buffered(y, fee)) {
        (Some(bx), Some(by)) => {
            let raw = spec_raw_solution(bx, by, spec_pair_type(x, y));
            match fee {
                None => (raw.0, seq![raw.1, raw.2]),
                Some(f) => spec_solution_with_fee(x, y, raw.0, raw.1, raw.2, f),
            }
        },
        _ => spec_trivial(),
    }
}

/// What the solver returns on any input: the outcome of the first
/// matchable pair, or the trivial solution when there is none.
pub open spec fn spec_find_prices(orders: Seq<Order>, state: AccountState, fee: Option<Fee>) -> (
    Seq<(u16, u128)>,
    Seq<ExecutedOrder>,
) {
    match spec_first_match(orders, state, fee) {
        None => spec_trivial(),
        Some(m) => spec_match_outcome(orders[m.0], orders[m.1], fee),
    }
}

/// Finds prices in a simplistic way.
///
/// Tries to find a match of two orders that trade the fee token and uses
/// this as the only trade in the solution. If no such match can be found
/// then the trivial solution is returned.
pub struct NaiveSolver {
    pub fee: Option<Fee>,
}

impl NaiveSolver {
    /// A solver charging the given fee on every trade.
    pub fn new(fee: Option<Fee>) -> (r: NaiveSolver)
        ensures
            r.fee == fee,
    {
        NaiveSolver { fee }
    }

    /// Computes a feasible solution for the given snapshot: the first
    /// matchable pair cleared at uniform prices, or the trivial solution.
    pub fn find_prices(&self, orders: &Vec<Order>, state: &AccountState) -> (r: Solution)
        requires
            match self.fee {
                Some(f) => f.valid(),
                None => true,
            },
        ensures
            ({
                let sol = spec_find_prices(orders@, *state, self.fee);
                r.prices@ == sol.0 && r.executed_orders@ == sol.1
            }),
    {
        let m = match find_first_match(orders, state, &self.fee) {
            Some(m) => m,
            None => {
                return Solution::trivial();
            },
        };
        let x = orders[m.0];
        let y = orders[m.1];
        match create_executed_orders(&x, &y, m.2, &self.fee) {
            None => Solution::trivial(),
            Some((prices, e1, e2)) => {
                match &self.fee {
                    None => {
                        let mut executed_orders: Vec<ExecutedOrder> = Vec::new();
                        executed_orders.push(e1);
                        executed_orders.push(e2);
                        proof {
                            assert(executed_orders@ =~= seq![e1, e2]);
                        }
                        Solution { prices, executed_orders }
                    },
                    Some(f) => create_solution_with_fee(&x, &y, prices, e1, e2, f),
                }
            },
        }
    }
}

/// Whatever pair the search reports is in range and matchable.
pub proof fn lemma_first_match_is_matchable(
    orders: Seq<Order>,
    state: AccountState,
    fee: Option<Fee>,
    i: int,
    j: int,
)
    requires
        0 <= i < j,
    ensures
        match spec_match_from(orders, state, fee, i, j) {
            Some(m) => 0 <= m.0 < m.1 < orders.len() && spec_matchable(
                orders[m.0], orders[m.1], state, fee),
            None => true,
        },
    decreases orders.len() - i, orders.len() - j,
{
    if i >= orders.len() {
    } else if j >= orders.len() {
        lemma_first_match_is_matchable(orders, state, fee, i + 1, i + 2);
    } else if spec_matchable(orders[i], orders[j], state, fee) {
    } else {
        lemma_first_match_is_matchable(orders, state, fee, i, j + 1);
    }
}

/// In a pair that overlaps but fills neither side completely, the first
/// order's buy fits in the second's sell and the second's buy fits in the
/// first's sell.
proof fn lemma_both_filled_bounds(x: Order, y: Order)
    requires
        spec_have_price_overlap(x, y),
        spec_pair_type(x, y) == OrderPairType::BothFullyFilled,
    ensures
        x.buy_amount <= y.sell_amount,
        y.buy_amount < x.sell_amount,
{
    if x.buy_amount > y.sell_amount {
        // Then the right side is not fully filled either, so the left
        // order's sell must undercut the right order's buy — which makes
        // the cross products contradict the price overlap.
        assert(x.sell_amount < y.buy_amount);
        assert(x.buy_amount * y.buy_amount > y.sell_amount * x.sell_amount) by (nonlinear_arith)
            requires
                x.buy_amount > y.sell_amount,
                x.sell_amount < y.buy_amount,
                x.sell_amount > 0,
                y.sell_amount >= 0,
        ;
    }
}

/// With no fee configured, the matcher's executions respect both orders'
/// limits: each sells no more than its order offers, and the executed
/// amounts meet the order's limit ratio.
pub proof fn lemma_limits_honored_no_fee(x: Order, y: Order, state: AccountState)
    requires
        spec_matchable(x, y, state, None),
    ensures
        ({
            let sol = spec_match_outcome(x, y, None);
            &&& sol.1.len() == 2
            &&& sol.1[0].sell_amount <= x.sell_amount
            &&& sol.1[1].sell_amount <= y.sell_amount
            &&& sol.1[0].sell_amount * x.buy_amount <= sol.1[0].buy_amount * x.sell_amount
            &&& sol.1[1].sell_amount * y.buy_amount <= sol.1[1].buy_amount * y.sell_amount
        }),
{
    let sol = spec_match_outcome(x, y, None);
    let t = spec_pair_type(x, y);
    assert(sol.1.len() == 2);
    match t {
        OrderPairType::LhsFullyFilled => {
            assert(x.sell_amount * x.buy_amount <= x.buy_amount * x.sell_amount)
                by (nonlinear_arith);
            assert(x.buy_amount * y.buy_amount <= x.sell_amount * y.sell_amount)
                by (nonlinear_arith)
                requires
                    x.buy_amount * y.buy_amount <= y.sell_amount * x.sell_amount,
            ;
        },
        OrderPairType::RhsFullyFilled => {
            assert(y.buy_amount * x.buy_amount <= y.sell_amount * x.sell_amount)
                by (nonlinear_arith)
                requires
                    x.buy_amount * y.buy_amount <= y.sell_amount * x.sell_amount,
            ;
            assert(y.sell_amount * y.buy_amount <= y.buy_amount * y.sell_amount)
                by (nonlinear_arith);
        },
        OrderPairType::BothFullyFilled => {
            lemma_both_filled_bounds(x, y);
            assert(x.sell_amount * x.buy_amount <= y.sell_amount * x.sell_amount)
                by (nonlinear_arith)
                requires
                    x.buy_amount <= y.sell_amount,
                    x.sell_amount >= 0,
            ;
            assert(y.sell_amount * y.buy_amount <= x.sell_amount * y.sell_amount)
                by (nonlinear_arith)
                requires
                    y.buy_amount <= x.sell_amount,
                    y.sell_amount >= 0,
            ;
        },
    }
}

/// With a fee configured, any execution whose order does not sell the fee
/// token still sells no more than the order offers. (The fee token's
/// seller gets its sell amount recomputed from rounded prices, which can
/// exceed the offer on adversarial amounts.)
pub proof fn lemma_sell_within_offer_with_fee(x: Order, y: Order, state: AccountState, f: Fee)
    requires
        f.valid(),
        spec_matchable(x, y, state, Some(f)),
    ensures
        ({
            let sol = spec_match_outcome(x, y, Some(f));
            sol.1.len() == 2 ==> {
                &&& (x.sell_token != f.token ==> sol.1[0].sell_amount <= x.sell_amount)
                &&& (y.sell_token != f.token ==> sol.1[1].sell_amount <= y.sell_amount)
            }
        }),
{
    let fee = Some(f);
    let sol = spec_match_outcome(x, y, fee);
    if sol.1.len() == 2 {
        let bx = spec_buffered(x, fee).unwrap();
        let by = spec_buffered(y, fee).unwrap();
        if spec_pair_type(x, y) == OrderPairType::BothFullyFilled {
            lemma_both_filled_bounds(x, y);
        }
    }
}

/// Looking a token up in the normalized list gives the normalized price.
proof fn lemma_price_in_normalized(s: Seq<(u16, u128)>, f0: u128, t: u16)
    requires
        spec_all_normalizable(s, f0),
    ensures
        crate::models::spec_price_in(spec_normalized(s, f0), t) == match crate::models::spec_price_in(
            s, t) {
            None => None::<u128>,
            Some(v) => Some(spec_normalize(v, f0).unwrap()),
        },
    decreases s.len(),
{
    if s.len() > 0 {
        assert(spec_normalized(s, f0)[0] == (s[0].0, spec_normalize(s[0].1, f0).unwrap()));
        if s[0].0 != t {
            assert(spec_normalized(s, f0).drop_first() =~= spec_normalized(s.drop_first(), f0));
            assert(forall|k: int|
                0 <= k < s.drop_first().len() ==> #[trigger] s.drop_first()[k] == s[k + 1]);
            lemma_price_in_normalized(s.drop_first(), f0, t);
        }
    }
}

/// Normalizing the fee price against itself gives exactly [`BASE_PRICE`].
proof fn lemma_normalize_fee_price(f0: u128)
    requires
        f0 > 0,
    ensures
        spec_normalize(f0, f0) == Some(BASE_PRICE),
{
    lemma_ceil_div_split(f0 * BASE_PRICE, f0 as int);
    assert(f0 * BASE_PRICE == (f0 as int) * (BASE_PRICE as int));
    vstd::arithmetic::div_mod::lemma_mod_multiples_basic(BASE_PRICE as int, f0 as int);
    assert((f0 as int) * (BASE_PRICE as int) == (BASE_PRICE as int) * (f0 as int))
        by (nonlinear_arith);
    lemma_div_multiples_vanish(BASE_PRICE as int, f0 as int);
}

/// A non-trivial solution computed with a fee pins the fee token's price
/// to [`BASE_PRICE`].
pub proof fn lemma_fee_price_pinned(orders: Seq<Order>, state: AccountState, f: Fee)
    requires
        f.valid(),
    ensures
        ({
            let sol = spec_find_prices(orders, state, Some(f));
            sol.1.len() > 0 ==> crate::models::spec_price_in(sol.0, f.token)
                == Some(BASE_PRICE)
        }),
{
    let fee = Some(f);
    let sol = spec_find_prices(orders, state, fee);
    if sol.1.len() > 0 {
        let m = spec_first_match(orders, state, fee).unwrap();
        let x = orders[m.0];
        let y = orders[m.1];
        let bx = spec_buffered(x, fee).unwrap();
        let by = spec_buffered(y, fee).unwrap();
        let raw = spec_raw_solution(bx, by, spec_pair_type(x, y));
        let f0 = crate::models::spec_price_in(raw.0, f.token).unwrap();
        lemma_price_in_normalized(raw.0, f0, f.token);
        lemma_normalize_fee_price(f0);
    }
}

/// With a fee, the fee-token buyer of a left-fully-filled match still has
/// its limit honored: the recomputed buy amount covers the original ask.
/// Together with [`lemma_sell_within_offer_with_fee`] this settles that
/// order's side completely; the fee-token seller's side can fail on
/// adversarial rounding, so the general form stops here.
pub proof fn lemma_limit_honored_fee_buyer_lhs(x: Order, y: Order, state: AccountState, f: Fee)
    requires
        f.valid(),
        spec_matchable(x, y, state, Some(f)),
        spec_pair_type(x, y) == OrderPairType::LhsFullyFilled,
        f.token == x.buy_token,
        f.token != x.sell_token,
    ensures
        ({
            let sol = spec_match_outcome(x, y, Some(f));
            sol.1.len() == 2 ==> sol.1[0].sell_amount * x.buy_amount <= sol.1[0].buy_amount
                * x.sell_amount
        }),
{
    broadcast use vstd::arithmetic::div_mod::lemma_div_pos_is_pos;

    let fee = Some(f);
    let sol = spec_match_outcome(x, y, fee);
    if sol.1.len() == 2 {
        let d = f.denominator as int;
        let base = BASE_PRICE as int;
        let bx = spec_buffered(x, fee).unwrap();
        let by = spec_buffered(y, fee).unwrap();
        let raw = spec_raw_solution(bx, by, OrderPairType::LhsFullyFilled);
        let prices = raw.0;
        let e1 = raw.1;
        let xs = x.sell_amount as int;
        let xb = x.buy_amount as int;

        // The buffered pair and its two price entries.
        assert(bx.sell_amount == x.sell_amount);
        assert(bx.buy_amount * (d - 1) >= xb * d) by {
            assert(bx.buy_amount == ceil_div(xb * d, d - 1));
            crate::wide_math::lemma_ceil_div_mul_ge(xb * d, d - 1);
            assert(xb * d >= 0) by (nonlinear_arith)
                requires
                    xb >= 0,
                    d >= 2,
            ;
        }
        let pb_raw = bx.buy_amount as int;
        assert(prices.len() == 2);
        assert(prices[0] == (x.buy_token, bx.sell_amount));
        assert(prices[1] == (x.sell_token, bx.buy_amount));

        // The fee stage succeeded, so the fee price is the first entry.
        assert(crate::models::spec_price_in(prices, f.token) == Some(bx.sell_amount));
        let f0 = x.sell_amount;
        assert(f0 != 0);
        let np = spec_normalized(prices, f0);
        assert(crate::models::spec_price_in(prices, x.sell_token) == Some(bx.buy_amount)) by {
            let rest = prices.drop_first();
            assert(prices[0].0 == x.buy_token && x.buy_token != x.sell_token);
            assert(crate::models::spec_price_in(prices, x.sell_token)
                == crate::models::spec_price_in(rest, x.sell_token));
            assert(rest.len() == 1 && rest[0] == (x.sell_token, bx.buy_amount));
            assert(crate::models::spec_price_in(rest, x.sell_token) == Some(bx.buy_amount));
        }
        lemma_price_in_normalized(prices, f0, x.sell_token);
        let ps = spec_normalize(bx.buy_amount, f0).unwrap();
        assert(crate::models::spec_price_in(np, x.sell_token) == Some(ps));

        // The applied execution keeps the sell amount and recomputes the
        // buy amount with a verified round trip.
        let n1 = spec_apply_fee(x, e1, np, f).unwrap();
        assert(sol.1[0] == n1);
        assert(ps != 0);
        assert(n1.sell_amount == x.sell_amount);
        let q = n1.buy_amount as int;
        assert(spec_exec_sell(f.denominator, n1.buy_amount, BASE_PRICE, ps) == Some(
            x.sell_amount));

        // The normalized sell price reaches the exact ratio from above.
        assert((ps as int) * f0 >= pb_raw * base) by {
            assert(ps == ceil_div(pb_raw * base, f0 as int));
            crate::wide_math::lemma_ceil_div_mul_ge(pb_raw * base, f0 as int);
            assert(pb_raw * base >= 0) by (nonlinear_arith)
                requires
                    pb_raw >= 0,
                    base > 0,
            ;
        }

        // Unpack the round trip: xs == floor(floor(q * base / (d-1)) * d / ps).
        let a_val = q * base / (d - 1);
        assert(a_val * d / (ps as int) == xs) by {
            assert(q * base >= 0) by (nonlinear_arith)
                requires
                    q >= 0,
                    base > 0,
            ;
            assert(a_val * d >= 0) by (nonlinear_arith)
                requires
                    a_val >= 0,
                    d >= 2,
            ;
        }
        // xs * ps <= a_val * d
        vstd::arithmetic::div_mod::lemma_fundamental_div_mod(a_val * d, ps as int);
        assert(xs * (ps as int) <= a_val * d) by (nonlinear_arith)
            requires
                a_val * d == (ps as int) * (a_val * d / (ps as int)) + (a_val * d) % (ps as int),
                (a_val * d) % (ps as int) >= 0,
                a_val * d / (ps as int) == xs,
        ;
        // a_val * (d - 1) <= q * base
        vstd::arithmetic::div_mod::lemma_fundamental_div_mod(q * base, d - 1);
        assert(a_val * (d - 1) <= q * base) by (nonlinear_arith)
            requires
                q * base == (d - 1) * a_val + (q * base) % (d - 1),
                (q * base) % (d - 1) >= 0,
        ;

        // Chain the bounds: pb_raw*base*(d-1) <= q*base*d, cancel base, d.
        assert(pb_raw * base * (d - 1) <= q * base * d) by (nonlinear_arith)
            requires
                pb_raw * base <= (ps as int) * f0,
                f0 == xs,
                xs * (ps as int) <= a_val * d,
                a_val * (d - 1) <= q * base,
                d >= 2,
                base > 0,
                pb_raw >= 0,
                ps as int >= 0,
                xs >= 0,
                a_val >= 0,
                q >= 0,
        ;
        assert(pb_raw * (d - 1) <= q * d) by (nonlinear_arith)
            requires
                pb_raw * base * (d - 1) <= q * base * d,
                base > 0,
        ;
        assert(xb <= q) by (nonlinear_arith)
            requires
                xb * d <= pb_raw * (d - 1),
                pb_raw * (d - 1) <= q * d,
                d >= 2,
        ;
        assert(xs * xb <= q * xs) by (nonlinear_arith)
            requires
                xb <= q,
                xs >= 0,
        ;
    }
}

/// The mirror of [`lemma_limit_honored_fee_buyer_lhs`] for a
/// right-fully-filled match: there the second order is filled completely,
/// and when it is the fee-token buyer its limit is honored too.
pub proof fn lemma_limit_honored_fee_buyer_rhs(x: Order, y: Order, state: AccountState, f: Fee)
    requires
        f.valid(),
        spec_matchable(x, y, state, Some(f)),
        spec_pair_type(x, y) == OrderPairType::RhsFullyFilled,
        f.token == y.buy_token,
        f.token != y.sell_token,
    ensures
        ({
            let sol = spec_match_outcome(x, y, Some(f));
            sol.1.len() == 2 ==> sol.1[1].sell_amount * y.buy_amount <= sol.1[1].buy_amount
                * y.sell_amount
        }),
{
    broadcast use vstd::arithmetic::div_mod::lemma_div_pos_is_pos;

    let fee = Some(f);
    let sol = spec_match_outcome(x, y, fee);
    if sol.1.len() == 2 {
        let d = f.denominator as int;
        let base = BASE_PRICE as int;
        let bx = spec_buffered(x, fee).unwrap();
        let by = spec_buffered(y, fee).unwrap();
        let raw = spec_raw_solution(bx, by, OrderPairType::RhsFullyFilled);
        let prices = raw.0;
        let e2 = raw.2;
        let ys = y.sell_amount as int;
        let yb = y.buy_amount as int;

        // The buffered pair and its two price entries.
        assert(by.sell_amount == y.sell_amount);
        assert(by.buy_amount * (d - 1) >= yb * d) by {
            assert(by.buy_amount == ceil_div(yb * d, d - 1));
            crate::wide_math::lemma_ceil_div_mul_ge(yb * d, d - 1);
            assert(yb * d >= 0) by (nonlinear_arith)
                requires
                    yb >= 0,
                    d >= 2,
            ;
        }
        let pb_raw = by.buy_amount as int;
        assert(prices.len() == 2);
        assert(prices[0] == (x.sell_token, by.sell_amount));
        assert(prices[1] == (y.sell_token, by.buy_amount));
        assert(x.sell_token == y.buy_token && y.sell_token == x.buy_token);

        // The fee stage succeeded, so the fee price is the first entry.
        assert(crate::models::spec_price_in(prices, f.token) == Some(by.sell_amount));
        let f0 = y.sell_amount;
        assert(f0 != 0);
        let np = spec_normalized(prices, f0);
        assert(crate::models::spec_price_in(prices, y.sell_token) == Some(by.buy_amount)) by {
            let rest = prices.drop_first();
            assert(prices[0].0 == f.token && f.token != y.sell_token);
            assert(crate::models::spec_price_in(prices, y.sell_token)
                == crate::models::spec_price_in(rest, y.sell_token));
            assert(rest.len() == 1 && rest[0] == (y.sell_token, by.buy_amount));
            assert(crate::models::spec_price_in(rest, y.sell_token) == Some(by.buy_amount));
        }
        lemma_price_in_normalized(prices, f0, y.sell_token);
        let ps = spec_normalize(by.buy_amount, f0).unwrap();
        assert(crate::models::spec_price_in(np, y.sell_token) == Some(ps));

        // The applied execution keeps the sell amount and recomputes the
        // buy amount with a verified round trip.
        let n2 = spec_apply_fee(y, e2, np, f).unwrap();
        assert(sol.1[1] == n2);
        assert(ps != 0);
        assert(n2.sell_amount == y.sell_amount);
        let q = n2.buy_amount as int;
        assert(spec_exec_sell(f.denominator, n2.buy_amount, BASE_PRICE, ps) == Some(
            y.sell_amount));

        // The normalized sell price reaches the exact ratio from above.
        assert((ps as int) * f0 >= pb_raw * base) by {
            assert(ps == ceil_div(pb_raw * base, f0 as int));
            crate::wide_math::lemma_ceil_div_mul_ge(pb_raw * base, f0 as int);
            assert(pb_raw * base >= 0) by (nonlinear_arith)
                requires
                    pb_raw >= 0,
                    base > 0,
            ;
        }

        // Unpack the round trip: ys == floor(floor(q * base / (d-1)) * d / ps).
        let a_val = q * base / (d - 1);
        assert(a_val * d / (ps as int) == ys) by {
            assert(q * base >= 0) by (nonlinear_arith)
                requires
                    q >= 0,
                    base > 0,
            ;
            assert(a_val * d >= 0) by (nonlinear_arith)
                requires
                    a_val >= 0,
                    d >= 2,
            ;
        }
        vstd::arithmetic::div_mod::lemma_fundamental_div_mod(a_val * d, ps as int);
        assert(ys * (ps as int) <= a_val * d) by (nonlinear_arith)
            requires
                a_val * d == (ps as int) * (a_val * d / (ps as int)) + (a_val * d) % (ps as int),
                (a_val * d) % (ps as int) >= 0,
                a_val * d / (ps as int) == ys,
        ;
        vstd::arithmetic::div_mod::lemma_fundamental_div_mod(q * base, d - 1);
        assert(a_val * (d - 1) <= q * base) by (nonlinear_arith)
            requires
                q * base == (d - 1) * a_val + (q * base) % (d - 1),
                (q * base) % (d - 1) >= 0,
        ;

        // Chain the bounds: pb_raw*base*(d-1) <= q*base*d, cancel base, d.
        assert(pb_raw * base * (d - 1) <= q * base * d) by (nonlinear_arith)
            requires
                pb_raw * base <= (ps as int) * f0,
                f0 == ys,
                ys * (ps as int) <= a_val * d,
                a_val * (d - 1) <= q * base,
                d >= 2,
                base > 0,
                pb_raw >= 0,
                ps as int >= 0,
                ys >= 0,
                a_val >= 0,
                q >= 0,
        ;
        assert(pb_raw * (d - 1) <= q * d) by (nonlinear_arith)
            requires
                pb_raw * base * (d - 1) <= q * base * d,
                base > 0,
        ;
        assert(yb <= q) by (nonlinear_arith)
            requires
                yb * d <= pb_raw * (d - 1),
                pb_raw * (d - 1) <= q * d,
                d >= 2,
        ;
        assert(ys * yb <= q * ys) by (nonlinear_arith)
            requires
                yb <= q,
                ys >= 0,
        ;
    }
}

/// Token conservation: for every token other than the fee token, the
/// amount bought equals the amount sold across the solution's executions.
pub proof fn lemma_token_conservation(x: Order, y: Order, state: AccountState, fee: Option<Fee>, t: u16)
    requires
        spec_matchable(x, y, state, fee),
        match fee {
            Some(f) => f.valid() && t != f.token,
            None => true,
        },
    ensures
        ({
            let sol = spec_match_outcome(x, y, fee);
            sol.1.len() == 2 ==> ({
                let bought = (if x.buy_token == t {
                    sol.1[0].buy_amount as int
                } else {
                    0int
                }) + (if y.buy_token == t {
                    sol.1[1].buy_amount as int
                } else {
                    0int
                });
                let sold = (if x.sell_token == t {
                    sol.1[0].sell_amount as int
                } else {
                    0int
                }) + (if y.sell_token == t {
                    sol.1[1].sell_amount as int
                } else {
                    0int
                });
                bought == sold
            })
        }),
{
    let sol = spec_match_outcome(x, y, fee);
    if sol.1.len() == 2 {
        let bx = spec_buffered(x, fee).unwrap();
        let by = spec_buffered(y, fee).unwrap();
        let raw = spec_raw_solution(bx, by, spec_pair_type(x, y));
        // In the raw solution the two executions mirror each other.
        assert(raw.1.buy_amount == raw.2.sell_amount);
        assert(raw.1.sell_amount == raw.2.buy_amount);
        match fee {
            None => {},
            Some(f) => {
                // The fee stage recomputes only the fee-token side of each
                // execution, so both amounts of any other token survive.
                assert(sol.1[0].buy_amount == raw.1.buy_amount || x.sell_token != f.token);
                assert(sol.1[0].sell_amount == raw.1.sell_amount || x.sell_token == f.token);
            },
        }
    }
}

/// The matcher's whole answer conserves every non-fee token: whatever
/// pair it cleared, the amount of such a token bought equals the amount
/// sold. This is the output-level form of [`lemma_token_conservation`].
pub proof fn lemma_find_prices_conserves_tokens(
    orders: Seq<Order>,
    state: AccountState,
    fee: Option<Fee>,
    t: u16,
)
    requires
        match fee {
            Some(f) => f.valid() && t != f.token,
            None => true,
        },
    ensures
        ({
            let sol = spec_find_prices(orders, state, fee);
            match spec_first_match(orders, state, fee) {
                None => sol.1.len() == 0,
                Some(m) => sol.1.len() == 2 ==> ({
                    let x = orders[m.0];
                    let y = orders[m.1];
                    (if x.buy_token == t {
                        sol.1[0].buy_amount as int
                    } else {
                        0int
                    }) + (if y.buy_token == t {
                        sol.1[1].buy_amount as int
                    } else {
                        0int
                    }) == (if x.sell_token == t {
                        sol.1[0].sell_amount as int
                    } else {
                        0int
                    }) + (if y.sell_token == t {
                        sol.1[1].sell_amount as int
                    } else {
                        0int
                    })
                }),
            }
        }),
{
    lemma_first_match_is_matchable(orders, state, fee, 0, 1);
    match spec_first_match(orders, state, fee) {
        None => {},
        Some(m) => {
            lemma_token_conservation(orders[m.0], orders[m.1], state, fee, t);
        },
    }
}

/// With no fee configured, the matcher's whole answer respects both
/// matched orders' limits. This is the output-level form of
/// [`lemma_limits_honored_no_fee`].
pub proof fn lemma_find_prices_limits_no_fee(orders: Seq<Order>, state: AccountState)
    ensures
        ({
            let sol = spec_find_prices(orders, state, None);
            match spec_first_match(orders, state, None) {
                None => sol.1.len() == 0,
                Some(m) => {
                    let x = orders[m.0];
                    let y = orders[m.1];
                    &&& sol.1.len() == 2
                    &&& sol.1[0].sell_amount <= x.sell_amount
                    &&& sol.1[1].sell_amount <= y.sell_amount
                    &&& sol.1[0].sell_amount * x.buy_amount <= sol.1[0].buy_amount
                        * x.sell_amount
                    &&& sol.1[1].sell_amount * y.buy_amount <= sol.1[1].buy_amount
                        * y.sell_amount
                },
            }
        }),
{
    lemma_first_match_is_matchable(orders, state, None, 0, 1);
    match spec_first_match(orders, state, None) {
        None => {},
        Some(m) => {
            lemma_limits_honored_no_fee(orders[m.0], orders[m.1], state);
        },
    }
}

/// A 256-bit value with a non-zero high limb exceeds `u128::MAX`.
proof fn lemma_wide_at_least_base(hi: u128, lo: u128)
    requires
        hi >= 1,
    ensures
        wval(hi, lo) >= base128(),
{
    assert(hi * base128() >= base128()) by (nonlinear_arith)
        requires
            hi >= 1,
    ;
}

/// The ceiling of a fraction whose numerator reaches `2^256` exceeds
/// `u128::MAX` for any divisor below `2^128`.
proof fn lemma_huge_ceil(x: int, div: u128)
    requires
        x >= base128() * base128(),
        div > 0,
    ensures
        ceil_div(x, div as int) > u128::MAX,
{
    lemma_huge_quotient(x, x, div);
    lemma_div_is_ordered(x, x + div - 1, div as int);
}

} // verus!
