//! A shadow read path: query two snapshot sources, compare, return the
//! primary result.

use crate::account_state::AccountState;
use crate::models::Order;
use crate::reader::{ReadError, StableXOrderBookReading};
use vstd::prelude::*;

verus! {

/// Whether two order lists hold the same orders in the same sequence.
pub fn orders_equal(a: &Vec<Order>, b: &Vec<Order>) -> (r: bool)
    ensures
        r == (a@ == b@),
{
    if a.len() != b.len() {
        proof {
            assert(a@.len() != b@.len());
        }
        return false;
    }
    let mut i: usize = 0;
    while i < a.len()
        invariant
            a@.len() == b@.len(),
            i <= a@.len(),
            forall|j: int| 0 <= j < i ==> a@[j] == b@[j],
        decreases a@.len() - i,
    {
        if !(a[i] == b[i]) {
            proof {
                assert(a@[i as int] != b@[i as int]);
            }
            return false;
        }
        i = i + 1;
    }
    proof {
        assert(a@ =~= b@);
    }
    true
}

/// Whether two balance states agree on every `(user, token)` pair.
pub fn balances_equivalent(a: &AccountState, b: &AccountState) -> (r: bool)
    requires
        a.wf(),
        b.wf(),
    ensures
        r == forall|u: crate::models::Address, t: u16| #[trigger] a.spec_read(u, t)
            == b.spec_read(u, t),
{
    let mut i: usize = 0;
    while i < a.entries.len()
        invariant
            a.wf(),
            b.wf(),
            i <= a.entries@.len(),
            forall|j: int|
                0 <= j < i ==> a.spec_read(
                    (#[trigger] a.entries@[j]).user, a.entries@[j].token) == b.spec_read(
                    a.entries@[j].user, a.entries@[j].token),
        decreases a.entries@.len() - i,
    {
        let e = a.entries[i];
        if b.read_balance(e.token, e.user) != a.read_balance(e.token, e.user) {
            return false;
        }
        i = i + 1;
    }
    let mut i: usize = 0;
    while i < b.entries.len()
        invariant
            a.wf(),
            b.wf(),
            i <= b.entries@.len(),
            forall|j: int|
                0 <= j < a.entries@.len() ==> a.spec_read(
                    (#[trigger] a.entries@[j]).user, a.entries@[j].token) == b.spec_read(
                    a.entries@[j].user, a.entries@[j].token),
            forall|j: int|
                0 <= j < i ==> a.spec_read(
                    (#[trigger] b.entries@[j]).user, b.entries@[j].token) == b.spec_read(
                    b.entries@[j].user, b.entries@[j].token),
        decreases b.entries@.len() - i,
    {
        let e = b.entries[i];
        if b.read_balance(e.token, e.user) != a.read_balance(e.token, e.user) {
            return false;
        }
        i = i + 1;
    }
    proof {
        assert forall|u: crate::models::Address, t: u16| #[trigger] a.spec_read(u, t)
            == b.spec_read(u, t) by {
            lemma_read_covered(a, u, t);
            lemma_read_covered(b, u, t);
        }
    }
    true
}

/// A pair with no entry reads zero, so disagreement needs an entry.
proof fn lemma_read_covered(s: &AccountState, u: crate::models::Address, t: u16)
    ensures
        s.spec_read(u, t) != 0 ==> exists|j: int|
            0 <= j < s.entries@.len() && (#[trigger] s.entries@[j]).user == u
                && s.entries@[j].token == t,
{
    lemma_nonzero_read_has_entry(s.entries@, u, t);
}

/// A non-zero lookup pinpoints a matching entry.
proof fn lemma_nonzero_read_has_entry(
    s: Seq<crate::account_state::BalanceEntry>,
    u: crate::models::Address,
    t: u16,
)
    ensures
        crate::account_state::spec_balance(s, u, t) != 0 ==> exists|j: int|
            0 <= j < s.len() && (#[trigger] s[j]).user == u && s[j].token == t,
    decreases s.len(),
{
    if s.len() > 0 {
        lemma_nonzero_read_has_entry(s.drop_first(), u, t);
        if crate::account_state::spec_balance(s, u, t) != 0 {
            if s[0].user == u && s[0].token == t {
            } else {
                let j = choose|j: int|
                    0 <= j < s.drop_first().len() && (#[trigger] s.drop_first()[j]).user == u
                        && s.drop_first()[j].token == t;
                assert(s[j + 1] == s.drop_first()[j]);
            }
        }
    }
}

/// Wraps two snapshot readers, compares what they return, and answers
/// with the primary's result. The comparison itself is the verified part;
/// the caller decides what to do with a divergence (typically: warn).
pub struct ShadowedOrderbookReader<P, S> {
    pub primary: P,
    pub shadow: S,
}

impl<P: StableXOrderBookReading, S: StableXOrderBookReading> ShadowedOrderbookReader<P, S> {
    /// Pairs exactly the given primary reader with the given shadow.
    pub fn new(primary: P, shadow: S) -> (r: ShadowedOrderbookReader<P, S>)
        ensures
            r.primary == primary,
            r.shadow == shadow,
    {
        ShadowedOrderbookReader { primary, shadow }
    }

    /// Queries both readers; returns the primary result and whether the
    /// shadow agreed with it (`None` when the shadow itself failed).
    pub fn get_auction_data_compared(&self, index: u32) -> (r: Result<
        ((AccountState, Vec<Order>), Option<bool>),
        ReadError,
    >) {
        let primary = match self.primary.get_auction_data(index) {
            Ok(p) => p,
            Err(e) => {
                return Err(e);
            },
        };
        match self.shadow.get_auction_data(index) {
            Ok(shadowed) => {
                let agree = if primary.0.wf_check() && shadowed.0.wf_check() {
                    orders_equal(&primary.1, &shadowed.1) && balances_equivalent(
                        &primary.0, &shadowed.0)
                } else {
                    false
                };
                Ok((primary, Some(agree)))
            },
            Err(_) => Ok((primary, None)),
        }
    }
}

impl<P: StableXOrderBookReading, S: StableXOrderBookReading> StableXOrderBookReading
    for ShadowedOrderbookReader<P, S> {
    /// The primary's answer; the shadow is only consulted for comparison.
    fn get_auction_data(&self, index: u32) -> Result<(AccountState, Vec<Order>), ReadError> {
        match self.get_auction_data_compared(index) {
            Ok((primary, _)) => Ok(primary),
            Err(e) => Err(e),
        }
    }
}

} // verus!
