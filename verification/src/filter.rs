//! Allow/deny rules applied to an auction snapshot before matching.

use crate::account_state::{AccountState, BalanceEntry};
use crate::models::{Address, Order};
use vstd::prelude::*;

verus! {

/// A rule over 16-bit identifiers: everything, a closed list, or
/// everything but a closed list.
#[derive(Clone, Debug, PartialEq, Eq)]
pub enum AllowList {
    All,
    Only(Vec<u16>),
    AllExcept(Vec<u16>),
}

/// Whether the rule lets the identifier through.
pub open spec fn spec_allows(a: AllowList, v: u16) -> bool {
    match a {
        AllowList::All => true,
        AllowList::Only(s) => s@.contains(v),
        AllowList::AllExcept(s) => !s@.contains(v),
    }
}

/// Membership test on a plain identifier list.
fn contains_id(s: &Vec<u16>, v: u16) -> (r: bool)
    ensures
        r == s@.contains(v),
{
    let mut i: usize = 0;
    while i < s.len()
        invariant
            i <= s@.len(),
            forall|j: int| 0 <= j < i ==> s@[j] != v,
        decreases s@.len() - i,
    {
        if s[i] == v {
            return true;
        }
        i = i + 1;
    }
    false
}

impl AllowList {
    /// Whether the rule lets the identifier through.
    pub fn allows(&self, v: u16) -> (r: bool)
        ensures
            r == spec_allows(*self, v),
    {
        match self {
            AllowList::All => true,
            AllowList::Only(s) => contains_id(s, v),
            AllowList::AllExcept(s) => !contains_id(s, v),
        }
    }
}

/// Filter rules for a snapshot: which tokens may trade at all, and which
/// order ids of specific users are let through.
#[derive(Clone, Debug, PartialEq, Eq)]
pub struct OrderbookFilter {
    pub tokens: AllowList,
    pub users: Vec<(Address, AllowList)>,
}

/// The rule applying to a user's orders; users without an entry pass.
pub open spec fn spec_user_rule(users: Seq<(Address, AllowList)>, u: Address) -> AllowList
    decreases users.len(),
{
    if users.len() == 0 {
        AllowList::All
    } else if users[0].0 == u {
        users[0].1
    } else {
        spec_user_rule(users.drop_first(), u)
    }
}

/// Whether the filter keeps an order: both its tokens must be allowed and
/// its id must pass its owner's rule.
pub open spec fn spec_order_allowed(f: OrderbookFilter, o: Order) -> bool {
    spec_allows(f.tokens, o.buy_token) && spec_allows(f.tokens, o.sell_token) && spec_allows(
        spec_user_rule(f.users@, o.account_id), o.id)
}

/// The orders surviving the filter, in their original relative order.
pub open spec fn spec_filtered_orders(f: OrderbookFilter, orders: Seq<Order>) -> Seq<Order>
    decreases orders.len(),
{
    if orders.len() == 0 {
        orders
    } else {
        let rest = spec_filtered_orders(f, orders.drop_last());
        if spec_order_allowed(f, orders.last()) {
            rest.push(orders.last())
        } else {
            rest
        }
    }
}

/// The balance entries surviving the filter: those of allowed tokens.
pub open spec fn spec_filtered_balances(f: OrderbookFilter, s: Seq<BalanceEntry>) -> Seq<
    BalanceEntry>
    decreases s.len(),
{
    if s.len() == 0 {
        s
    } else {
        let rest = spec_filtered_balances(f, s.drop_last());
        if spec_allows(f.tokens, s.last().token) {
            rest.push(s.last())
        } else {
            rest
        }
    }
}

impl OrderbookFilter {
    /// The rule applying to a user's orders.
    fn user_rule(&self, u: Address) -> (r: &AllowList)
        ensures
            *r == spec_user_rule(self.users@, u),
    {
        let mut i: usize = 0;
        proof {
            assert(self.users@.skip(0) =~= self.users@);
        }
        while i < self.users.len()
            invariant
                i <= self.users@.len(),
                spec_user_rule(self.users@, u) == spec_user_rule(self.users@.skip(i as int), u),
            decreases self.users@.len() - i,
        {
            proof {
                assert(self.users@.skip(i as int).len() > 0);
                assert(self.users@.skip(i as int)[0] == self.users@[i as int]);
                assert(self.users@.skip(i as int).drop_first() =~= self.users@.skip(i + 1));
            }
            if self.users[i].0 == u {
                return &self.users[i].1;
            }
            i = i + 1;
        }
        &AllowList::All
    }

    /// Whether the filter keeps the order.
    pub fn order_allowed(&self, o: &Order) -> (r: bool)
        ensures
            r == spec_order_allowed(*self, *o),
    {
        self.tokens.allows(o.buy_token) && self.tokens.allows(o.sell_token) && self.user_rule(
            o.account_id).allows(o.id)
    }

    /// Trims a snapshot: drops filtered-out orders, and the balances of
    /// tokens that may not trade.
    pub fn filter_snapshot(&self, state: &AccountState, orders: &Vec<Order>) -> (r: (
        AccountState,
        Vec<Order>,
    ))
        requires
            state.wf(),
        ensures
            r.0.wf(),
            r.0.entries@ == spec_filtered_balances(*self, state.entries@),
            r.1@ == spec_filtered_orders(*self, orders@),
    {
        let mut kept_orders: Vec<Order> = Vec::new();
        let mut i: usize = 0;
        proof {
            assert(orders@.take(0) =~= Seq::<Order>::empty());
        }
        while i < orders.len()
            invariant
                i <= orders@.len(),
                kept_orders@ == spec_filtered_orders(*self, orders@.take(i as int)),
            decreases orders@.len() - i,
        {
            proof {
                assert(orders@.take(i + 1).drop_last() =~= orders@.take(i as int));
                assert(orders@.take(i + 1).last() == orders@[i as int]);
            }
            if self.order_allowed(&orders[i]) {
                kept_orders.push(orders[i]);
            }
            i = i + 1;
        }
        proof {
            assert(orders@.take(orders@.len() as int) =~= orders@);
        }
        let mut kept: Vec<BalanceEntry> = Vec::new();
        let mut i: usize = 0;
        proof {
            assert(state.entries@.take(0) =~= Seq::<BalanceEntry>::empty());
        }
        while i < state.entries.len()
            invariant
                i <= state.entries@.len(),
                kept@ == spec_filtered_balances(*self, state.entries@.take(i as int)),
            decreases state.entries@.len() - i,
        {
            proof {
                assert(state.entries@.take(i + 1).drop_last() =~= state.entries@.take(i as int));
                assert(state.entries@.take(i + 1).last() == state.entries@[i as int]);
            }
            let e = state.entries[i];
            if self.tokens.allows(e.token) {
                kept.push(e);
            }
            i = i + 1;
        }
        proof {
            assert(state.entries@.take(state.entries@.len() as int) =~= state.entries@);
        }
        let filtered_state = AccountState { entries: kept };
        proof {
            lemma_filtered_balances_wf(*self, state.entries@);
        }
        (filtered_state, kept_orders)
    }
}

/// Filtering balance entries keeps their keys pairwise distinct.
proof fn lemma_filtered_balances_wf(f: OrderbookFilter, s: Seq<BalanceEntry>)
    requires
        forall|i: int, j: int|
            0 <= i < j < s.len() ==> !(#[trigger] s[i].user == #[trigger] s[j].user && s[i].token
                == s[j].token),
    ensures
        forall|i: int, j: int|
            0 <= i < j < spec_filtered_balances(f, s).len() ==> !((#[trigger] spec_filtered_balances(
                f, s)[i]).user == (#[trigger] spec_filtered_balances(f, s)[j]).user
                && spec_filtered_balances(f, s)[i].token == spec_filtered_balances(f, s)[j].token),
    decreases s.len(),
{
    if s.len() > 0 {
        assert(forall|i: int|
            0 <= i < s.drop_last().len() ==> #[trigger] s.drop_last()[i] == s[i]);
        lemma_filtered_balances_wf(f, s.drop_last());
        lemma_filtered_balances_sub(f, s.drop_last());
        let fs = spec_filtered_balances(f, s);
        let rest = spec_filtered_balances(f, s.drop_last());
        assert forall|i: int, j: int| 0 <= i < j < fs.len() implies !(
            (#[trigger] fs[i]).user == (#[trigger] fs[j]).user && fs[i].token == fs[j].token) by {
            if j < rest.len() {
            } else if j == rest.len() && fs.len() > rest.len() {
                assert(fs[j] == s.last());
                assert(fs[i] == rest[i]);
                assert(s.drop_last().contains(rest[i]));
                let w = choose|w: int| 0 <= w < s.drop_last().len() && s.drop_last()[w] == rest[i];
                assert(s[w] == rest[i]);
                assert(s[s.len() - 1] == s.last());
            }
        }
    }
}

/// Every filtered entry is one of the original entries.
proof fn lemma_filtered_balances_sub(f: OrderbookFilter, s: Seq<BalanceEntry>)
    ensures
        forall|i: int|
            0 <= i < spec_filtered_balances(f, s).len() ==> s.contains(
                #[trigger] spec_filtered_balances(f, s)[i]),
    decreases s.len(),
{
    if s.len() > 0 {
        lemma_filtered_balances_sub(f, s.drop_last());
        assert forall|i: int|
            0 <= i < spec_filtered_balances(f, s).len() implies s.contains(
            #[trigger] spec_filtered_balances(f, s)[i]) by {
            let fs = spec_filtered_balances(f, s);
            let rest = spec_filtered_balances(f, s.drop_last());
            if i < rest.len() {
                assert(s.drop_last().contains(rest[i]));
                let w = choose|w: int| 0 <= w < s.drop_last().len() && s.drop_last()[w] == rest[i];
                assert(s[w] == rest[i]);
            } else {
                assert(fs[i] == s.last());
                assert(s[s.len() - 1] == s.last());
            }
        }
    }
}

} // verus!
