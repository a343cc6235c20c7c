//! Data model of the exchange: addresses, tokens, orders, fees and solutions.

use vstd::prelude::*;

verus! {

/// An opaque 20-byte account or contract identifier, split into the top
/// four bytes and the low sixteen bytes.
#[derive(Clone, Copy, Debug, PartialEq, Eq, Structural)]
pub struct Address {
    pub hi: u32,
    pub lo: u128,
}

impl Address {
    /// The numeric value of the address, high bytes first.
    pub open spec fn spec_key(self) -> int {
        self.hi * crate::wide_math::base128() + self.lo
    }

    /// The all-zero address.
    pub fn zero() -> (r: Address)
        ensures
            r.hi == 0 && r.lo == 0,
    {
        Address { hi: 0, lo: 0 }
    }

    /// The address whose low eight bytes hold `v` big-endian and whose
    /// remaining bytes are zero.
    pub fn from_low_u64_be(v: u64) -> (r: Address)
        ensures
            r.hi == 0 && r.lo == v,
    {
        Address { hi: 0, lo: v as u128 }
    }

    /// Strict numeric order on addresses.
    pub fn lt(&self, other: &Address) -> (r: bool)
        ensures
            r == (self.spec_key() < other.spec_key()),
    {
        proof {
            if self.hi < other.hi {
                assert(self.hi * crate::wide_math::base128() + crate::wide_math::base128()
                    <= other.hi * crate::wide_math::base128()) by (nonlinear_arith)
                    requires
                        self.hi < other.hi,
                ;
            }
            if other.hi < self.hi {
                assert(other.hi * crate::wide_math::base128() + crate::wide_math::base128()
                    <= self.hi * crate::wide_math::base128()) by (nonlinear_arith)
                    requires
                        other.hi < self.hi,
                ;
            }
        }
        self.hi < other.hi || (self.hi == other.hi && self.lo < other.lo)
    }
}

/// An exchange token identifier; token 0 is the fee token.
#[derive(Clone, Copy, Debug, PartialEq, Eq, Structural)]
pub struct TokenId(pub u16);

/// A limit order: sell up to `sell_amount` of `sell_token` for at least
/// `buy_amount` of `buy_token`, at the implied limit ratio.
#[derive(Clone, Copy, Debug, PartialEq, Eq, Structural)]
pub struct Order {
    pub id: u16,
    pub account_id: Address,
    pub buy_token: u16,
    pub sell_token: u16,
    pub buy_amount: u128,
    pub sell_amount: u128,
}

/// The executed part of an order inside a solution.
#[derive(Clone, Copy, Debug, PartialEq, Eq, Structural)]
pub struct ExecutedOrder {
    pub account_id: Address,
    pub order_id: u16,
    pub buy_amount: u128,
    pub sell_amount: u128,
}

/// The per-trade fee: every trade must touch `token`, and one part in
/// `denominator` of the traded volume is kept as the fee.
///
/// The denominator is the integer reciprocal of the configured fee ratio
/// (one tenth of a percent gives a denominator of 1000); the fraction
/// itself never enters the library.
#[derive(Clone, Copy, Debug, PartialEq, Eq, Structural)]
pub struct Fee {
    pub token: u16,
    pub denominator: u128,
}

impl Fee {
    /// A usable fee keeps strictly less than the whole traded volume.
    pub open spec fn valid(self) -> bool {
        self.denominator >= 2
    }
}

/// The first price recorded for a token in a price list, if any.
pub open spec fn spec_price_in(prices: Seq<(u16, u128)>, token: u16) -> Option<u128>
    decreases prices.len(),
{
    if prices.len() == 0 {
        None
    } else if prices[0].0 == token {
        Some(prices[0].1)
    } else {
        spec_price_in(prices.drop_first(), token)
    }
}

/// Looks a token's price up in a price list; the first entry wins.
pub fn price_lookup(prices: &Vec<(u16, u128)>, token: u16) -> (r: Option<u128>)
    ensures
        r == spec_price_in(prices@, token),
{
    let mut i: usize = 0;
    proof {
        assert(prices@.skip(0) =~= prices@);
    }
    while i < prices.len()
        invariant
            i <= prices@.len(),
            spec_price_in(prices@, token) == spec_price_in(prices@.skip(i as int), token),
        decreases prices@.len() - i,
    {
        proof {
            lemma_price_in_step(prices@, token, i as int);
        }
        if prices[i].0 == token {
            return Some(prices[i].1);
        }
        i = i + 1;
    }
    None
}

/// A solution for one batch: a price per touched token and the list of
/// executed orders. The empty solution is the always-feasible fallback.
#[derive(Clone, Debug, PartialEq, Eq)]
pub struct Solution {
    pub prices: Vec<(u16, u128)>,
    pub executed_orders: Vec<ExecutedOrder>,
}

impl Solution {
    /// The always-feasible empty solution.
    pub fn trivial() -> (r: Solution)
        ensures
            r.prices@ == Seq::<(u16, u128)>::empty(),
            r.executed_orders@ == Seq::<ExecutedOrder>::empty(),
    {
        let r = Solution { prices: Vec::new(), executed_orders: Vec::new() };
        proof {
            assert(r.prices@ =~= Seq::<(u16, u128)>::empty());
            assert(r.executed_orders@ =~= Seq::<ExecutedOrder>::empty());
        }
        r
    }

    /// Whether the solution executes anything at all.
    pub fn is_non_trivial(&self) -> (r: bool)
        ensures
            r == (self.executed_orders@.len() > 0),
    {
        self.executed_orders.len() > 0
    }

    /// The price assigned to `token`, if the solution touches it.
    pub fn price(&self, token: u16) -> (r: Option<u128>)
        ensures
            r == spec_price_in(self.prices@, token),
    {
        price_lookup(&self.prices, token)
    }
}

/// Peeling one non-matching entry off the front of a price list suffix.
proof fn lemma_price_in_step(prices: Seq<(u16, u128)>, token: u16, i: int)
    requires
        0 <= i < prices.len(),
    ensures
        spec_price_in(prices.skip(i), token) == if prices[i].0 == token {
            Some(prices[i].1)
        } else {
            spec_price_in(prices.skip(i + 1), token)
        },
{
    assert(prices.skip(i).len() > 0);
    assert(prices.skip(i)[0] == prices[i]);
    assert(prices.skip(i).drop_first() =~= prices.skip(i + 1));
}

} // verus!
