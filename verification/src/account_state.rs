//! Account balances: how much of each token every user can spend.
//!
//! The exchange keeps one snapshot balance per `(user, token)` pair.
//! Entries are stored as a flat list with pairwise distinct keys so that
//! every operation has an exact contract over the lookup function
//! [`spec_balance`].

use crate::models::{Address, Order};
use vstd::prelude::*;

verus! {

/// One `(user, token) -> amount` record.
#[derive(Clone, Copy, Debug, PartialEq, Eq, Structural)]
pub struct BalanceEntry {
    pub user: Address,
    pub token: u16,
    pub amount: u128,
}

/// The balance recorded for `(user, token)`, or zero if absent.
pub open spec fn spec_balance(s: Seq<BalanceEntry>, user: Address, token: u16) -> u128
    decreases s.len(),
{
    if s.len() == 0 {
        0
    } else if s[0].user == user && s[0].token == token {
        s[0].amount
    } else {
        spec_balance(s.drop_first(), user, token)
    }
}

/// The total sell volume the given orders place on `(user, token)`.
pub open spec fn spec_sell_total(orders: Seq<Order>, user: Address, token: u16) -> int
    decreases orders.len(),
{
    if orders.len() == 0 {
        0
    } else {
        spec_sell_total(orders.drop_last(), user, token) + if orders.last().account_id == user
            && orders.last().sell_token == token {
            orders.last().sell_amount as int
        } else {
            0
        }
    }
}

/// Maps a user and a token id to the balance the user has of this token.
#[derive(Clone, Debug, PartialEq, Eq)]
pub struct AccountState {
    pub entries: Vec<BalanceEntry>,
}

impl AccountState {
    /// Keys are pairwise distinct, so [`spec_balance`] is the whole story.
    pub open spec fn wf(self) -> bool {
        forall|i: int, j: int|
            0 <= i < j < self.entries@.len() ==> !(#[trigger] self.entries@[i].user
                == #[trigger] self.entries@[j].user && self.entries@[i].token
                == self.entries@[j].token)
    }

    /// The balance view of the state.
    pub open spec fn spec_read(self, user: Address, token: u16) -> u128 {
        spec_balance(self.entries@, user, token)
    }

    /// A state with no balances at all.
    pub fn new_empty() -> (r: AccountState)
        ensures
            r.wf(),
            r.entries@.len() == 0,
    {
        AccountState { entries: Vec::new() }
    }

    /// Checks at run time that no `(user, token)` pair is stored twice.
    pub fn wf_check(&self) -> (r: bool)
        ensures
            r == self.wf(),
    {
        let mut i: usize = 0;
        while i < self.entries.len()
            invariant
                i <= self.entries@.len(),
                forall|a: int, b: int|
                    0 <= a < b < self.entries@.len() && a < i ==> !(#[trigger] self.entries@[a].user
                        == #[trigger] self.entries@[b].user && self.entries@[a].token
                        == self.entries@[b].token),
            decreases self.entries@.len() - i,
        {
            let mut j: usize = i + 1;
            while j < self.entries.len()
                invariant
                    i < j,
                    i < self.entries@.len(),
                    j <= self.entries@.len(),
                    forall|b: int|
                        i < b < j ==> !(#[trigger] self.entries@[i as int].user
                            == #[trigger] self.entries@[b].user && self.entries@[i as int].token
                            == self.entries@[b].token),
                decreases self.entries@.len() - j,
            {
                if self.entries[i].user == self.entries[j].user && self.entries[i].token
                    == self.entries[j].token {
                    return false;
                }
                j = j + 1;
            }
            i = i + 1;
        }
        true
    }

    /// The balance the account has of the given token; absent pairs read zero.
    pub fn read_balance(&self, token_id: u16, account_id: Address) -> (r: u128)
        ensures
            r == self.spec_read(account_id, token_id),
    {
        match self.find_entry(account_id, token_id) {
            Some(i) => self.entries[i].amount,
            None => 0,
        }
    }

    /// Every `(user, token)` pair that has a recorded balance, in storage order.
    pub fn user_token_pairs(&self) -> (r: Vec<(Address, u16)>)
        ensures
            r@.len() == self.entries@.len(),
            forall|i: int|
                0 <= i < r@.len() ==> #[trigger] r@[i]
                    == (self.entries@[i].user, self.entries@[i].token),
    {
        let mut out: Vec<(Address, u16)> = Vec::new();
        let mut i: usize = 0;
        while i < self.entries.len()
            invariant
                i <= self.entries@.len(),
                out@.len() == i,
                forall|j: int|
                    0 <= j < i ==> #[trigger] out@[j]
                        == (self.entries@[j].user, self.entries@[j].token),
            decreases self.entries@.len() - i,
        {
            out.push((self.entries[i].user, self.entries[i].token));
            i = i + 1;
        }
        out
    }

    /// The index of the entry for `(user, token)`, if one exists.
    fn find_entry(&self, user: Address, token: u16) -> (r: Option<usize>)
        ensures
            match r {
                Some(i) => i < self.entries@.len() && self.entries@[i as int].user == user
                    && self.entries@[i as int].token == token
                    && self.spec_read(user, token) == self.entries@[i as int].amount
                    && forall|j: int|
                        0 <= j < i ==> !(#[trigger] self.entries@[j].user == user
                            && self.entries@[j].token == token),
                None => self.spec_read(user, token) == 0 && forall|j: int|
                    0 <= j < self.entries@.len() ==> !(#[trigger] self.entries@[j].user == user
                        && self.entries@[j].token == token),
            },
    {
        let ghost s = self.entries@;
        let mut i: usize = 0;
        while i < self.entries.len()
            invariant
                i <= s.len(),
                s == self.entries@,
                forall|j: int| 0 <= j < i ==> !(#[trigger] s[j].user == user && s[j].token == token),
            decreases s.len() - i,
        {
            if self.entries[i].user == user && self.entries[i].token == token {
                proof {
                    lemma_balance_first_match(s, user, token, i as int);
                }
                return Some(i);
            }
            i = i + 1;
        }
        proof {
            lemma_balance_no_match(s, user, token);
        }
        None
    }

    /// Credits `(account_id, token_id)` with `amount`, creating the entry if
    /// needed; all other balances keep their value.
    pub fn increase_balance(&mut self, account_id: Address, token_id: u16, amount: u128)
        requires
            old(self).wf(),
            old(self).spec_read(account_id, token_id) + amount <= u128::MAX,
        ensures
            final(self).wf(),
            final(self).spec_read(account_id, token_id)
                == old(self).spec_read(account_id, token_id) + amount,
            forall|u: Address, t: u16|
                !(u == account_id && t == token_id) ==> #[trigger] final(self).spec_read(u, t)
                    == old(self).spec_read(u, t),
    {
        let ghost s0 = self.entries@;
        match self.find_entry(account_id, token_id) {
            Some(i) => {
                let updated = BalanceEntry {
                    user: account_id,
                    token: token_id,
                    amount: self.entries[i].amount + amount,
                };
                self.entries.set(i, updated);
                proof {
                    lemma_balance_first_match(self.entries@, account_id, token_id, i as int);
                    assert forall|u: Address, t: u16|
                        !(u == account_id && t == token_id) implies #[trigger] spec_balance(
                        self.entries@, u, t) == spec_balance(s0, u, t) by {
                        lemma_balance_update_other(s0, i as int, updated, u, t);
                    }
                }
            },
            None => {
                let added = BalanceEntry { user: account_id, token: token_id, amount };
                self.entries.push(added);
                proof {
                    lemma_balance_push_absent(s0, added, account_id, token_id);
                    assert forall|u: Address, t: u16|
                        !(u == account_id && t == token_id) implies #[trigger] spec_balance(
                        self.entries@, u, t) == spec_balance(s0, u, t) by {
                        if exists|j: int|
                            0 <= j < s0.len() && #[trigger] s0[j].user == u && s0[j].token == t {
                            lemma_balance_push_present(s0, added, u, t);
                        } else {
                            lemma_balance_push_absent(s0, added, u, t);
                            lemma_balance_no_match(s0, u, t);
                        }
                    }
                }
            },
        }
    }

    /// A state granting every order exactly its sell volume: each
    /// `(user, token)` pair holds the sum of the matching sell amounts.
    pub fn with_balance_for(orders: &Vec<Order>) -> (r: AccountState)
        requires
            forall|i: int|
                0 <= i < orders@.len() ==> spec_sell_total(orders@,
                    #[trigger] orders@[i].account_id, orders@[i].sell_token) <= u128::MAX,
        ensures
            r.wf(),
            forall|u: Address, t: u16| #[trigger] r.spec_read(u, t)
                == spec_sell_total(orders@, u, t),
    {
        let mut state = AccountState::new_empty();
        proof {
            assert forall|u: Address, t: u16| #[trigger] state.spec_read(u, t)
                == spec_sell_total(orders@.take(0), u, t) by {
                assert(orders@.take(0).len() == 0);
            }
        }
        let mut i: usize = 0;
        while i < orders.len()
            invariant
                i <= orders@.len(),
                state.wf(),
                forall|ii: int|
                    0 <= ii < orders@.len() ==> spec_sell_total(orders@,
                        #[trigger] orders@[ii].account_id, orders@[ii].sell_token) <= u128::MAX,
                forall|u: Address, t: u16| #[trigger] state.spec_read(u, t)
                    == spec_sell_total(orders@.take(i as int), u, t),
            decreases orders@.len() - i,
        {
            let o = orders[i];
            proof {
                assert(orders@.take(i + 1).drop_last() =~= orders@.take(i as int));
                assert(orders@.take(i + 1).last() == orders@[i as int]);
                lemma_sell_total_prefix_le(orders@, i + 1, o.account_id, o.sell_token);
            }
            state.increase_balance(o.account_id, o.sell_token, o.sell_amount);
            proof {
                assert forall|u: Address, t: u16| #[trigger] state.spec_read(u, t)
                    == spec_sell_total(orders@.take(i + 1), u, t) by {
                    assert(orders@.take(i + 1).drop_last() =~= orders@.take(i as int));
                }
            }
            i = i + 1;
        }
        proof {
            assert(orders@.take(orders@.len() as int) =~= orders@);
        }
        state
    }

    /// Balances laid out row per account: account `a` (addressed by its low
    /// eight bytes) holds `balances[a * num_tokens + t]` of token `t`.
    pub fn new(balances: Vec<u128>, num_tokens: u16) -> (r: AccountState)
        requires
            num_tokens > 0,
            balances@.len() % (num_tokens as nat) == 0,
            balances@.len() / (num_tokens as nat) <= u64::MAX,
        ensures
            r.wf(),
            forall|a: u64, t: u16|
                a < balances@.len() / (num_tokens as nat) && t < num_tokens
                    ==> #[trigger] r.spec_read(Address { hi: 0, lo: a as u128 }, t)
                        == balances@[a * (num_tokens as int) + t],
    {
        let n = balances.len() / (num_tokens as usize);
        let mut entries: Vec<BalanceEntry> = Vec::new();
        let mut a: usize = 0;
        proof {
            vstd::arithmetic::div_mod::lemma_fundamental_div_mod(
                balances@.len() as int, num_tokens as int);
            assert((n as int) * (num_tokens as int) == (num_tokens as int) * (n as int))
                by (nonlinear_arith);
        }
        while a < n
            invariant
                num_tokens > 0,
                n == balances@.len() / (num_tokens as nat),
                n <= u64::MAX,
                (n as int) * (num_tokens as int) == balances@.len(),
                a <= n,
                entries@.len() == a * (num_tokens as int),
                forall|k: int|
                    0 <= k < entries@.len() ==> #[trigger] entries@[k] == (BalanceEntry {
                        user: Address { hi: 0, lo: (k / (num_tokens as int)) as u128 },
                        token: (k % (num_tokens as int)) as u16,
                        amount: balances@[k],
                    }),
            decreases n - a,
        {
            let mut t: usize = 0;
            proof {
                assert((a + 1) * (num_tokens as int) == a * (num_tokens as int) + num_tokens)
                    by (nonlinear_arith);
                assert((a as int) * (num_tokens as int) <= ((n - 1) as int) * (num_tokens as int))
                    by (nonlinear_arith)
                    requires
                        a <= n - 1,
                        num_tokens >= 0,
                ;
                assert((n as int) * (num_tokens as int)
                    == ((n - 1) as int) * (num_tokens as int) + num_tokens) by (nonlinear_arith);
            }
            while t < (num_tokens as usize)
                invariant
                    num_tokens > 0,
                    a < n,
                    n <= u64::MAX,
                    (n as int) * (num_tokens as int) == balances@.len(),
                    (a as int) * (num_tokens as int) + num_tokens <= balances@.len(),
                    t <= num_tokens,
                    entries@.len() == a * (num_tokens as int) + t,
                    forall|k: int|
                        0 <= k < entries@.len() ==> #[trigger] entries@[k] == (BalanceEntry {
                            user: Address { hi: 0, lo: (k / (num_tokens as int)) as u128 },
                            token: (k % (num_tokens as int)) as u16,
                            amount: balances@[k],
                        }),
                decreases num_tokens - t,
            {
                let idx = entries.len();
                proof {
                    assert(idx == a * (num_tokens as int) + t);
                    vstd::arithmetic::div_mod::lemma_fundamental_div_mod_converse(
                        idx as int, num_tokens as int, a as int, t as int);
                }
                entries.push(BalanceEntry {
                    user: Address { hi: 0, lo: a as u128 },
                    token: t as u16,
                    amount: balances[idx],
                });
                t = t + 1;
            }
            a = a + 1;
        }
        let state = AccountState { entries };
        proof {
            assert(state.wf()) by {
                assert forall|i: int, j: int| 0 <= i < j < state.entries@.len()
                    implies !(#[trigger] state.entries@[i].user == #[trigger] state.entries@[
                    j].user && state.entries@[i].token == state.entries@[j].token) by {
                    if state.entries@[i].user == state.entries@[j].user
                        && state.entries@[i].token == state.entries@[j].token {
                        vstd::arithmetic::div_mod::lemma_fundamental_div_mod(
                            i, num_tokens as int);
                        vstd::arithmetic::div_mod::lemma_fundamental_div_mod(
                            j, num_tokens as int);
                    }
                }
            }
            assert forall|aa: u64, t: u16|
                aa < balances@.len() / (num_tokens as nat) && t < num_tokens
                    implies #[trigger] state.spec_read(Address { hi: 0, lo: aa as u128 }, t)
                        == balances@[aa * (num_tokens as int) + t] by {
                let k = aa * (num_tokens as int) + t;
                assert(k < state.entries@.len()) by (nonlinear_arith)
                    requires
                        k == aa * (num_tokens as int) + t,
                        t < num_tokens,
                        aa < n,
                        state.entries@.len() == (n as int) * (num_tokens as int),
                ;
                vstd::arithmetic::div_mod::lemma_fundamental_div_mod_converse(
                    k, num_tokens as int, aa as int, t as int);
                assert(state.entries@[k].user == Address { hi: 0, lo: aa as u128 });
                assert(forall|j: int|
                    0 <= j < k ==> !(#[trigger] state.entries@[j].user
                        == Address { hi: 0, lo: aa as u128 } && state.entries@[j].token == t)) by {
                    assert forall|j: int| 0 <= j < k implies !(#[trigger] state.entries@[j].user
                        == Address { hi: 0, lo: aa as u128 } && state.entries@[j].token == t) by {
                        if state.entries@[j].user == (Address { hi: 0, lo: aa as u128 })
                            && state.entries@[j].token == t {
                            vstd::arithmetic::div_mod::lemma_fundamental_div_mod(
                                j, num_tokens as int);
                        }
                    }
                }
                lemma_balance_first_match(state.entries@, Address { hi: 0, lo: aa as u128 }, t, k);
            }
        }
        state
    }
}

impl Default for AccountState {
    /// An account state with no balances at all.
    fn default() -> (r: AccountState)
        ensures
            r.wf(),
            r.entries@.len() == 0,
    {
        AccountState::new_empty()
    }
}

/// Addition that stops at the largest representable amount.
pub open spec fn spec_sat_add(a: u128, b: u128) -> u128 {
    if a + b > u128::MAX {
        u128::MAX
    } else {
        (a + b) as u128
    }
}

/// Subtraction that stops at zero: the amount actually left after paying
/// out as much of `b` as the balance covers.
pub open spec fn spec_sat_sub(a: u128, b: u128) -> u128 {
    if a >= b {
        (a - b) as u128
    } else {
        0
    }
}

/// The position of the entry for `(user, token)`, if any; first match wins.
pub open spec fn spec_find_entry(s: Seq<BalanceEntry>, user: Address, token: u16) -> Option<int>
    decreases s.len(),
{
    if s.len() == 0 {
        None
    } else if s[0].user == user && s[0].token == token {
        Some(0)
    } else {
        match spec_find_entry(s.drop_first(), user, token) {
            None => None,
            Some(k) => Some(k + 1),
        }
    }
}

/// The entries after crediting `(user, token)` with `amount`, saturating.
pub open spec fn spec_credit_entries(
    s: Seq<BalanceEntry>,
    user: Address,
    token: u16,
    amount: u128,
) -> Seq<BalanceEntry> {
    match spec_find_entry(s, user, token) {
        Some(i) => s.update(
            i,
            BalanceEntry { user, token, amount: spec_sat_add(s[i].amount, amount) },
        ),
        None => s.push(BalanceEntry { user, token, amount }),
    }
}

/// The entries after debiting `(user, token)` by up to `amount`.
pub open spec fn spec_debit_entries(
    s: Seq<BalanceEntry>,
    user: Address,
    token: u16,
    amount: u128,
) -> Seq<BalanceEntry> {
    match spec_find_entry(s, user, token) {
        Some(i) => s.update(
            i,
            BalanceEntry { user, token, amount: spec_sat_sub(s[i].amount, amount) },
        ),
        None => s,
    }
}

/// A first match at `i` pins down [`spec_find_entry`].
proof fn lemma_find_entry_at(s: Seq<BalanceEntry>, user: Address, token: u16, i: int)
    requires
        0 <= i < s.len(),
        s[i].user == user && s[i].token == token,
        forall|j: int| 0 <= j < i ==> !(#[trigger] s[j].user == user && s[j].token == token),
    ensures
        spec_find_entry(s, user, token) == Some(i),
    decreases i,
{
    if i > 0 {
        lemma_find_entry_at(s.drop_first(), user, token, i - 1);
    }
}

/// No match anywhere means [`spec_find_entry`] finds nothing.
proof fn lemma_find_entry_none(s: Seq<BalanceEntry>, user: Address, token: u16)
    requires
        forall|j: int| 0 <= j < s.len() ==> !(#[trigger] s[j].user == user && s[j].token == token),
    ensures
        spec_find_entry(s, user, token) is None,
    decreases s.len(),
{
    if s.len() > 0 {
        lemma_find_entry_none(s.drop_first(), user, token);
    }
}

impl AccountState {
    /// Credits `(account_id, token_id)`, saturating at the largest amount;
    /// every other balance keeps its value.
    pub fn credit_saturating(&mut self, account_id: Address, token_id: u16, amount: u128)
        requires
            old(self).wf(),
        ensures
            final(self).wf(),
            final(self).entries@ == spec_credit_entries(
                old(self).entries@, account_id, token_id, amount),
            final(self).spec_read(account_id, token_id) == spec_sat_add(
                old(self).spec_read(account_id, token_id), amount),
            forall|u: Address, t: u16|
                !(u == account_id && t == token_id) ==> #[trigger] final(self).spec_read(u, t)
                    == old(self).spec_read(u, t),
    {
        let ghost s0 = self.entries@;
        match self.find_entry(account_id, token_id) {
            Some(i) => {
                let held = self.entries[i].amount;
                let total = if held <= u128::MAX - amount {
                    held + amount
                } else {
                    u128::MAX
                };
                let updated = BalanceEntry { user: account_id, token: token_id, amount: total };
                self.entries.set(i, updated);
                proof {
                    lemma_find_entry_at(s0, account_id, token_id, i as int);
                    lemma_balance_first_match(self.entries@, account_id, token_id, i as int);
                    assert forall|u: Address, t: u16|
                        !(u == account_id && t == token_id) implies #[trigger] spec_balance(
                        self.entries@, u, t) == spec_balance(s0, u, t) by {
                        lemma_balance_update_other(s0, i as int, updated, u, t);
                    }
                }
            },
            None => {
                let added = BalanceEntry { user: account_id, token: token_id, amount };
                self.entries.push(added);
                proof {
                    lemma_find_entry_none(s0, account_id, token_id);
                    lemma_balance_push_absent(s0, added, account_id, token_id);
                    assert forall|u: Address, t: u16|
                        !(u == account_id && t == token_id) implies #[trigger] spec_balance(
                        self.entries@, u, t) == spec_balance(s0, u, t) by {
                        if exists|j: int|
                            0 <= j < s0.len() && #[trigger] s0[j].user == u && s0[j].token == t {
                            lemma_balance_push_present(s0, added, u, t);
                        } else {
                            lemma_balance_push_absent(s0, added, u, t);
                            lemma_balance_no_match(s0, u, t);
                        }
                    }
                }
            },
        }
    }

    /// Debits `(account_id, token_id)` by `amount`, but never below zero;
    /// every other balance keeps its value. A pair with no entry stays
    /// without one.
    pub fn debit_min(&mut self, account_id: Address, token_id: u16, amount: u128)
        requires
            old(self).wf(),
        ensures
            final(self).wf(),
            final(self).entries@ == spec_debit_entries(
                old(self).entries@, account_id, token_id, amount),
            final(self).spec_read(account_id, token_id) == spec_sat_sub(
                old(self).spec_read(account_id, token_id), amount),
            forall|u: Address, t: u16|
                !(u == account_id && t == token_id) ==> #[trigger] final(self).spec_read(u, t)
                    == old(self).spec_read(u, t),
    {
        let ghost s0 = self.entries@;
        match self.find_entry(account_id, token_id) {
            Some(i) => {
                let held = self.entries[i].amount;
                let left = if held >= amount {
                    held - amount
                } else {
                    0
                };
                let updated = BalanceEntry { user: account_id, token: token_id, amount: left };
                self.entries.set(i, updated);
                proof {
                    lemma_find_entry_at(s0, account_id, token_id, i as int);
                    lemma_balance_first_match(self.entries@, account_id, token_id, i as int);
                    assert forall|u: Address, t: u16|
                        !(u == account_id && t == token_id) implies #[trigger] spec_balance(
                        self.entries@, u, t) == spec_balance(s0, u, t) by {
                        lemma_balance_update_other(s0, i as int, updated, u, t);
                    }
                }
            },
            None => {
                proof {
                    lemma_find_entry_none(s0, account_id, token_id);
                }
            },
        }
    }
}

/// With no matching entry at all, the looked-up balance is zero.
proof fn lemma_balance_no_match(s: Seq<BalanceEntry>, user: Address, token: u16)
    requires
        forall|j: int| 0 <= j < s.len() ==> !(#[trigger] s[j].user == user && s[j].token == token),
    ensures
        spec_balance(s, user, token) == 0,
    decreases s.len(),
{
    if s.len() > 0 {
        lemma_balance_no_match(s.drop_first(), user, token);
    }
}

/// The first matching entry decides the looked-up balance.
proof fn lemma_balance_first_match(s: Seq<BalanceEntry>, user: Address, token: u16, i: int)
    requires
        0 <= i < s.len(),
        s[i].user == user && s[i].token == token,
        forall|j: int| 0 <= j < i ==> !(#[trigger] s[j].user == user && s[j].token == token),
    ensures
        spec_balance(s, user, token) == s[i].amount,
    decreases i,
{
    if i > 0 {
        lemma_balance_first_match(s.drop_first(), user, token, i - 1);
    }
}

/// Overwriting entry `i` with one that keeps its key leaves every other
/// key's balance unchanged.
proof fn lemma_balance_update_other(
    s: Seq<BalanceEntry>,
    i: int,
    e: BalanceEntry,
    user: Address,
    token: u16,
)
    requires
        0 <= i < s.len(),
        e.user == s[i].user,
        e.token == s[i].token,
        !(user == e.user && token == e.token),
    ensures
        spec_balance(s.update(i, e), user, token) == spec_balance(s, user, token),
    decreases i,
{
    if i == 0 {
        assert(s.update(0, e).drop_first() =~= s.drop_first());
    } else {
        assert(s.update(i, e).drop_first() =~= s.drop_first().update(i - 1, e));
        lemma_balance_update_other(s.drop_first(), i - 1, e, user, token);
    }
}

/// Appending an entry to a list without a matching key makes that entry
/// decide the lookup.
proof fn lemma_balance_push_absent(s: Seq<BalanceEntry>, e: BalanceEntry, user: Address, token: u16)
    requires
        forall|j: int| 0 <= j < s.len() ==> !(#[trigger] s[j].user == user && s[j].token == token),
    ensures
        spec_balance(s.push(e), user, token) == if e.user == user && e.token == token {
            e.amount
        } else {
            0u128
        },
    decreases s.len(),
{
    if s.len() == 0 {
        assert(s.push(e)[0] == e);
        assert(s.push(e).drop_first() =~= Seq::<BalanceEntry>::empty());
        if e.user == user && e.token == token {
            assert(spec_balance(s.push(e), user, token) == e.amount);
        } else {
            assert(s.push(e).len() == 1);
            assert(!(s.push(e)[0].user == user && s.push(e)[0].token == token));
            assert(spec_balance(s.push(e), user, token)
                == spec_balance(s.push(e).drop_first(), user, token));
            assert(spec_balance(s.push(e).drop_first(), user, token)
                == spec_balance(Seq::<BalanceEntry>::empty(), user, token));
            assert(spec_balance(Seq::<BalanceEntry>::empty(), user, token) == 0);
        }
    } else {
        assert(s.push(e)[0] == s[0]);
        assert(!(s[0].user == user && s[0].token == token));
        assert(s.push(e).drop_first() =~= s.drop_first().push(e));
        assert(forall|j: int|
            0 <= j < s.drop_first().len() ==> #[trigger] s.drop_first()[j] == s[j + 1]);
        lemma_balance_push_absent(s.drop_first(), e, user, token);
        assert(spec_balance(s.push(e), user, token)
            == spec_balance(s.drop_first().push(e), user, token));
    }
}

/// Appending an entry leaves the lookup of an already present key alone.
proof fn lemma_balance_push_present(
    s: Seq<BalanceEntry>,
    e: BalanceEntry,
    user: Address,
    token: u16,
)
    requires
        exists|j: int| 0 <= j < s.len() && #[trigger] s[j].user == user && s[j].token == token,
    ensures
        spec_balance(s.push(e), user, token) == spec_balance(s, user, token),
    decreases s.len(),
{
    assert(s.push(e).drop_first() =~= s.drop_first().push(e));
    if s[0].user == user && s[0].token == token {
        assert(s.push(e)[0] == s[0]);
    } else {
        let j = choose|j: int|
            0 <= j < s.len() && #[trigger] s[j].user == user && s[j].token == token;
        assert(s.drop_first()[j - 1] == s[j]);
        lemma_balance_push_present(s.drop_first(), e, user, token);
    }
}

/// A prefix of the order list never places more sell volume on a pair
/// than the whole list does.
proof fn lemma_sell_total_prefix_le(orders: Seq<Order>, n: int, user: Address, token: u16)
    requires
        0 <= n <= orders.len(),
    ensures
        spec_sell_total(orders.take(n), user, token) <= spec_sell_total(orders, user, token),
    decreases orders.len() - n,
{
    if n == orders.len() {
        assert(orders.take(n) =~= orders);
    } else {
        lemma_sell_total_prefix_le(orders, n + 1, user, token);
        assert(orders.take(n + 1).drop_last() =~= orders.take(n));
    }
}

/// Sell totals are sums of amounts and so never negative.
proof fn lemma_sell_total_nonneg(orders: Seq<Order>, user: Address, token: u16)
    ensures
        spec_sell_total(orders, user, token) >= 0,
    decreases orders.len(),
{
    if orders.len() > 0 {
        lemma_sell_total_nonneg(orders.drop_last(), user, token);
    }
}

} // verus!
