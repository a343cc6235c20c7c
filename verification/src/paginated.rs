//! The paginated auction snapshot reader.
//!
//! The exchange contract serves auction data in pages of up to
//! `page_size` 112-byte records, addressed by a cursor `(previous user,
//! previous user's record offset)`. The reader decodes each page,
//! accumulates orders and one balance snapshot per `(owner, sell token)`
//! pair, and advances the cursor until a short page arrives.

use crate::account_state::{spec_credit_entries, AccountState, BalanceEntry};
use crate::codec::{decode_page, spec_order_of, AuctionElement};
use crate::models::{Address, Order};
use crate::reader::{ReadError, StableXOrderBookReading};
use vstd::prelude::*;

verus! {

/// The model of the reader's accumulation so far.
pub ghost struct AccModel {
    pub orders: Seq<Order>,
    pub balances: Seq<BalanceEntry>,
    pub seen: Seq<(Address, u16)>,
    pub counts: Seq<(Address, u64)>,
}

/// The empty accumulation.
pub open spec fn spec_acc_empty() -> AccModel {
    AccModel {
        orders: Seq::empty(),
        balances: Seq::empty(),
        seen: Seq::empty(),
        counts: Seq::empty(),
    }
}

/// How many records of this owner have been accumulated.
pub open spec fn spec_count_of(counts: Seq<(Address, u64)>, owner: Address) -> u64
    decreases counts.len(),
{
    if counts.len() == 0 {
        0
    } else if counts[0].0 == owner {
        counts[0].1
    } else {
        spec_count_of(counts.drop_first(), owner)
    }
}

/// The position of an owner's counter, if present.
pub open spec fn spec_count_pos(counts: Seq<(Address, u64)>, owner: Address) -> Option<int>
    decreases counts.len(),
{
    if counts.len() == 0 {
        None
    } else if counts[0].0 == owner {
        Some(0)
    } else {
        match spec_count_pos(counts.drop_first(), owner) {
            None => None,
            Some(k) => Some(k + 1),
        }
    }
}

/// The counters with this owner's count one higher.
pub open spec fn spec_bump_count(counts: Seq<(Address, u64)>, owner: Address) -> Seq<
    (Address, u64)> {
    match spec_count_pos(counts, owner) {
        Some(i) => counts.update(i, (owner, (counts[i].1 + 1) as u64)),
        None => counts.push((owner, 1)),
    }
}

/// Whether a `(owner, sell token)` pair's balance was already taken.
pub open spec fn spec_seen(seen: Seq<(Address, u16)>, owner: Address, token: u16) -> bool {
    seen.contains((owner, token))
}

/// One record accumulated: its order is appended under the owner's next
/// per-user id, the owner's counter advances, and the first record for a
/// `(owner, sell token)` pair contributes that pair's balance snapshot.
/// An owner beyond `u16::MAX` records cannot be addressed by the wire
/// cursor and stops the read.
pub open spec fn spec_acc_step(m: AccModel, e: AuctionElement) -> Result<AccModel, ReadError> {
    let c = spec_count_of(m.counts, e.owner);
    if c > u16::MAX {
        Err(ReadError::UserOverflow)
    } else {
        let orders2 = m.orders.push(spec_order_of(e, c as u16));
        let counts2 = spec_bump_count(m.counts, e.owner);
        if spec_seen(m.seen, e.owner, e.sell_token) {
            Ok(AccModel { orders: orders2, counts: counts2, ..m })
        } else {
            Ok(
                AccModel {
                    orders: orders2,
                    counts: counts2,
                    balances: spec_credit_entries(
                        m.balances, e.owner, e.sell_token, e.sell_token_balance),
                    seen: m.seen.push((e.owner, e.sell_token)),
                },
            )
        }
    }
}

/// A whole element sequence accumulated, left to right.
pub open spec fn spec_accumulate_from(m: AccModel, elements: Seq<AuctionElement>) -> Result<
    AccModel,
    ReadError,
>
    decreases elements.len(),
{
    if elements.len() == 0 {
        Ok(m)
    } else {
        match spec_accumulate_from(m, elements.drop_last()) {
            Err(e) => Err(e),
            Ok(prev) => spec_acc_step(prev, elements.last()),
        }
    }
}

/// The accumulation of a whole element sequence from nothing.
pub open spec fn spec_accumulate(elements: Seq<AuctionElement>) -> Result<AccModel, ReadError> {
    spec_accumulate_from(spec_acc_empty(), elements)
}

/// The reader's working state while pages are coming in.
pub struct PaginatedAuctionDataReader {
    pub index: u32,
    pub state: AccountState,
    pub orders: Vec<Order>,
    pub seen: Vec<(Address, u16)>,
    pub counts: Vec<(Address, u64)>,
}

impl PaginatedAuctionDataReader {
    /// The model of the accumulation so far.
    pub open spec fn model(self) -> AccModel {
        AccModel {
            orders: self.orders@,
            balances: self.state.entries@,
            seen: self.seen@,
            counts: self.counts@,
        }
    }

    /// Balance keys stay unique.
    pub open spec fn wf(self) -> bool {
        self.state.wf()
    }

    /// A reader that has accumulated nothing, for the given batch.
    pub fn new(index: u32) -> (r: PaginatedAuctionDataReader)
        ensures
            r.wf(),
            r.index == index,
            r.model() == spec_acc_empty(),
    {
        let r = PaginatedAuctionDataReader {
            index,
            state: AccountState::new_empty(),
            orders: Vec::new(),
            seen: Vec::new(),
            counts: Vec::new(),
        };
        proof {
            assert(r.orders@ =~= Seq::<Order>::empty());
            assert(r.state.entries@ =~= Seq::<BalanceEntry>::empty());
            assert(r.seen@ =~= Seq::<(Address, u16)>::empty());
            assert(r.counts@ =~= Seq::<(Address, u64)>::empty());
        }
        r
    }

    /// The number of records accumulated for an owner so far.
    pub fn count_of(&self, owner: Address) -> (r: u64)
        ensures
            r == spec_count_of(self.counts@, owner),
    {
        let mut i: usize = 0;
        proof {
            assert(self.counts@.skip(0) =~= self.counts@);
        }
        while i < self.counts.len()
            invariant
                i <= self.counts@.len(),
                spec_count_of(self.counts@, owner) == spec_count_of(
                    self.counts@.skip(i as int), owner),
            decreases self.counts@.len() - i,
        {
            proof {
                assert(self.counts@.skip(i as int).len() > 0);
                assert(self.counts@.skip(i as int)[0] == self.counts@[i as int]);
                assert(self.counts@.skip(i as int).drop_first() =~= self.counts@.skip(i + 1));
            }
            if self.counts[i].0 == owner {
                return self.counts[i].1;
            }
            i = i + 1;
        }
        0
    }

    /// Bumps an owner's record counter.
    fn bump_count(&mut self, owner: Address)
        requires
            spec_count_of(old(self).counts@, owner) < u64::MAX,
        ensures
            final(self).counts@ == spec_bump_count(old(self).counts@, owner),
            final(self).index == old(self).index,
            final(self).state == old(self).state,
            final(self).orders == old(self).orders,
            final(self).seen == old(self).seen,
    {
        let ghost s0 = self.counts@;
        let mut i: usize = 0;
        while i < self.counts.len()
            invariant
                s0 == self.counts@,
                s0 == old(self).counts@,
                self.index == old(self).index,
                self.state == old(self).state,
                self.orders == old(self).orders,
                self.seen == old(self).seen,
                spec_count_of(s0, owner) < u64::MAX,
                i <= s0.len(),
                forall|j: int| 0 <= j < i ==> (#[trigger] s0[j]).0 != owner,
            decreases s0.len() - i,
        {
            if self.counts[i].0 == owner {
                proof {
                    lemma_count_pos_at(s0, owner, i as int);
                    lemma_count_of_at(s0, owner, i as int);
                }
                let c = self.counts[i].1;
                self.counts.set(i, (owner, c + 1));
                return;
            }
            i = i + 1;
        }
        proof {
            lemma_count_pos_none(s0, owner);
        }
        self.counts.push((owner, 1));
    }

    /// Whether a `(owner, sell token)` pair's balance was already taken.
    fn seen_pair(&self, owner: Address, token: u16) -> (r: bool)
        ensures
            r == spec_seen(self.seen@, owner, token),
    {
        let mut i: usize = 0;
        while i < self.seen.len()
            invariant
                i <= self.seen@.len(),
                forall|j: int| 0 <= j < i ==> #[trigger] self.seen@[j] != (owner, token),
            decreases self.seen@.len() - i,
        {
            if self.seen[i].0 == owner && self.seen[i].1 == token {
                proof {
                    assert(self.seen@[i as int] == (owner, token));
                }
                return true;
            }
            i = i + 1;
        }
        proof {
            if spec_seen(self.seen@, owner, token) {
                let w = choose|w: int|
                    0 <= w < self.seen@.len() && #[trigger] self.seen@[w] == (owner, token);
            }
        }
        false
    }

    /// Accumulates one decoded page of elements.
    pub fn apply_elements(&mut self, elements: &Vec<AuctionElement>) -> (r: Result<
        (),
        ReadError,
    >)
        requires
            old(self).wf(),
        ensures
            final(self).wf(),
            final(self).index == old(self).index,
            match r {
                Ok(_) => spec_accumulate_from(old(self).model(), elements@)
                    == Ok::<AccModel, ReadError>(final(self).model()),
                Err(err) => spec_accumulate_from(old(self).model(), elements@)
                    == Err::<AccModel, ReadError>(err),
            },
    {
        let ghost m0 = self.model();
        let mut i: usize = 0;
        proof {
            assert(elements@.take(0) =~= Seq::<AuctionElement>::empty());
        }
        while i < elements.len()
            invariant
                self.wf(),
                self.index == old(self).index,
                i <= elements@.len(),
                m0 == old(self).model(),
                spec_accumulate_from(m0, elements@.take(i as int)) == Ok::<AccModel, ReadError>(
                    self.model()),
            decreases elements@.len() - i,
        {
            proof {
                assert(elements@.take(i + 1).drop_last() =~= elements@.take(i as int));
                assert(elements@.take(i + 1).last() == elements@[i as int]);
            }
            let e = elements[i];
            let c = self.count_of(e.owner);
            if c > (u16::MAX as u64) {
                proof {
                    lemma_accumulate_err_sticks(m0, elements@, i + 1);
                }
                return Err(ReadError::UserOverflow);
            }
            let order = e.to_order(c as u16);
            self.orders.push(order);
            self.bump_count(e.owner);
            if !self.seen_pair(e.owner, e.sell_token) {
                self.state.credit_saturating(e.owner, e.sell_token, e.sell_token_balance);
                self.seen.push((e.owner, e.sell_token));
            }
            i = i + 1;
        }
        proof {
            assert(elements@.take(elements@.len() as int) =~= elements@);
        }
        Ok(())
    }

    /// Hands the accumulated snapshot out.
    pub fn into_auction_data(self) -> (r: (AccountState, Vec<Order>))
        ensures
            r.0 == self.state,
            r.1 == self.orders,
    {
        (self.state, self.orders)
    }
}

/// The exchange contract's paginated auction-data view call.
/// Implementations perform the actual call; the cursor semantics are what
/// the reader relies on.
pub trait StableXContract {
    /// Up to `page_size` records, starting after the first
    /// `previous_page_user_offset` records of `previous_page_user`.
    fn get_auction_data_paginated(
        &self,
        page_size: u16,
        previous_page_user: Address,
        previous_page_user_offset: u16,
    ) -> Result<Vec<u8>, ReadError>;
}

/// Reads the order book from the underlying contract in a paginated way.
/// This avoids hitting gas limits when the total amount of orders is
/// large.
pub struct PaginatedStableXOrderBookReader<C> {
    pub contract: C,
    pub page_size: u16,
}

impl<C: StableXContract> PaginatedStableXOrderBookReader<C> {
    /// A reader fetching `page_size` records per view call from exactly
    /// the given contract.
    pub fn new(contract: C, page_size: u16) -> (r: PaginatedStableXOrderBookReader<C>)
        ensures
            r.contract == contract,
            r.page_size == page_size,
    {
        PaginatedStableXOrderBookReader { contract, page_size }
    }

    /// Fetches, decodes and accumulates pages until a short page arrives.
    /// Whatever pages the contract served, the result is their
    /// accumulation; errors are reported exactly as they arise.
    pub fn read_auction_data(&self, index: u32) -> (r: Result<
        (AccountState, Vec<Order>),
        ReadError,
    >)
        requires
            self.page_size >= 1,
        ensures
            match r {
                Ok(out) => out.0.wf(),
                Err(_) => true,
            },
    {
        let mut reader = PaginatedAuctionDataReader::new(index);
        let mut cursor_user = Address::zero();
        let mut cursor_offset: u64 = 0;
        let mut pages: u64 = 0;
        loop
            invariant
                reader.wf(),
                self.page_size >= 1,
                pages <= u64::MAX,
            decreases u64::MAX - pages,
        {
            if pages == u64::MAX {
                return Err(ReadError::EndlessPagination);
            }
            pages = pages + 1;
            if cursor_offset > (u16::MAX as u64) {
                return Err(ReadError::UserOverflow);
            }
            let bytes = match self.contract.get_auction_data_paginated(
                self.page_size, cursor_user, cursor_offset as u16) {
                Ok(b) => b,
                Err(e) => {
                    return Err(e);
                },
            };
            let elements = match decode_page(&bytes) {
                Ok(els) => els,
                Err(_) => {
                    return Err(ReadError::CorruptPage);
                },
            };
            match reader.apply_elements(&elements) {
                Ok(_) => {},
                Err(e) => {
                    return Err(e);
                },
            }
            if elements.len() < (self.page_size as usize) {
                break;
            }
            let last = elements[elements.len() - 1];
            cursor_user = last.owner;
            cursor_offset = reader.count_of(last.owner);
        }
        Ok(reader.into_auction_data())
    }
}

impl<C: StableXContract> StableXOrderBookReading for PaginatedStableXOrderBookReader<C> {
    /// The paginated read; the batch index selects the snapshot the
    /// contract serves.
    fn get_auction_data(&self, index: u32) -> Result<(AccountState, Vec<Order>), ReadError> {
        if self.page_size == 0 {
            return Err(ReadError::EndlessPagination);
        }
        self.read_auction_data(index)
    }
}

/// A counter match at `i` after no earlier match pins position and count.
proof fn lemma_count_pos_at(s: Seq<(Address, u64)>, owner: Address, i: int)
    requires
        0 <= i < s.len(),
        s[i].0 == owner,
        forall|j: int| 0 <= j < i ==> (#[trigger] s[j]).0 != owner,
    ensures
        spec_count_pos(s, owner) == Some(i),
    decreases i,
{
    if i > 0 {
        lemma_count_pos_at(s.drop_first(), owner, i - 1);
    }
}

/// The counter at the first match is the owner's count.
proof fn lemma_count_of_at(s: Seq<(Address, u64)>, owner: Address, i: int)
    requires
        0 <= i < s.len(),
        s[i].0 == owner,
        forall|j: int| 0 <= j < i ==> (#[trigger] s[j]).0 != owner,
    ensures
        spec_count_of(s, owner) == s[i].1,
    decreases i,
{
    if i > 0 {
        lemma_count_of_at(s.drop_first(), owner, i - 1);
    }
}

/// No counter entry means position `None`.
proof fn lemma_count_pos_none(s: Seq<(Address, u64)>, owner: Address)
    requires
        forall|j: int| 0 <= j < s.len() ==> (#[trigger] s[j]).0 != owner,
    ensures
        spec_count_pos(s, owner) is None,
    decreases s.len(),
{
    if s.len() > 0 {
        lemma_count_pos_none(s.drop_first(), owner);
    }
}

/// Records of the same owner sit in one contiguous run.
pub open spec fn spec_grouped(s: Seq<AuctionElement>) -> bool {
    forall|i: int, j: int|
        0 <= i < j < s.len() && (#[trigger] s[i]).owner == (#[trigger] s[j]).owner ==> s[j
            - 1].owner == s[j].owner
}

/// Between two same-owner records everything belongs to that owner.
proof fn lemma_grouped_range(s: Seq<AuctionElement>, i: int, j: int, m: int)
    requires
        spec_grouped(s),
        0 <= i <= m <= j < s.len(),
        s[i].owner == s[j].owner,
    ensures
        s[m].owner == s[i].owner,
    decreases j - m,
{
    if m < j {
        if i < j {
            assert(s[j - 1].owner == s[j].owner);
            lemma_grouped_range(s, i, j - 1, m);
        }
    }
}

/// The index of an owner's first record, or the length when absent.
pub open spec fn spec_start_of(s: Seq<AuctionElement>, u: Address) -> int
    decreases s.len(),
{
    if s.len() == 0 {
        0
    } else if s[0].owner == u {
        0
    } else {
        1 + spec_start_of(s.drop_first(), u)
    }
}

/// How many records an owner has in the sequence.
pub open spec fn spec_count_owner(s: Seq<AuctionElement>, u: Address) -> int
    decreases s.len(),
{
    if s.len() == 0 {
        0
    } else {
        spec_count_owner(s.drop_last(), u) + if s.last().owner == u {
            1int
        } else {
            0int
        }
    }
}

/// What the start index means: nothing before it has the owner, and the
/// start itself does whenever the owner occurs at all.
proof fn lemma_start_of_props(s: Seq<AuctionElement>, u: Address)
    ensures
        0 <= spec_start_of(s, u) <= s.len(),
        forall|m: int| 0 <= m < spec_start_of(s, u) ==> (#[trigger] s[m]).owner != u,
        spec_start_of(s, u) < s.len() ==> s[spec_start_of(s, u)].owner == u,
    decreases s.len(),
{
    if s.len() > 0 && s[0].owner != u {
        lemma_start_of_props(s.drop_first(), u);
        assert(forall|m: int|
            0 <= m < s.drop_first().len() ==> #[trigger] s.drop_first()[m] == s[m + 1]);
        assert forall|m: int| 0 <= m < spec_start_of(s, u) implies (#[trigger] s[m]).owner
            != u by {
            if m > 0 {
                assert(s.drop_first()[m - 1] == s[m]);
            }
        }
        if spec_start_of(s, u) < s.len() {
            assert(s.drop_first()[spec_start_of(s, u) - 1] == s[spec_start_of(s, u)]);
        }
    }
}

/// A prefix never holds more of an owner's records than the whole.
proof fn lemma_count_owner_prefix(s: Seq<AuctionElement>, u: Address, p: int)
    requires
        0 <= p <= s.len(),
    ensures
        spec_count_owner(s.take(p), u) <= spec_count_owner(s, u),
        spec_count_owner(s.take(p), u) >= 0,
    decreases s.len() - p,
{
    if p == s.len() {
        assert(s.take(p) =~= s);
        lemma_count_owner_nonneg(s, u);
    } else {
        lemma_count_owner_prefix(s, u, p + 1);
        assert(s.take(p + 1).drop_last() =~= s.take(p));
        lemma_count_owner_nonneg(s.take(p), u);
    }
}

/// Counts are never negative.
proof fn lemma_count_owner_nonneg(s: Seq<AuctionElement>, u: Address)
    ensures
        spec_count_owner(s, u) >= 0,
    decreases s.len(),
{
    if s.len() > 0 {
        lemma_count_owner_nonneg(s.drop_last(), u);
    }
}

/// Bumping one owner's counter raises exactly that owner's count by one.
proof fn lemma_bump_count_of(counts: Seq<(Address, u64)>, o: Address, u: Address)
    requires
        spec_count_of(counts, o) < u64::MAX,
    ensures
        u == o ==> spec_count_of(spec_bump_count(counts, o), u) == spec_count_of(counts, o) + 1,
        u != o ==> spec_count_of(spec_bump_count(counts, o), u) == spec_count_of(counts, u),
    decreases counts.len(),
{
    if counts.len() == 0 {
        assert(spec_bump_count(counts, o) =~= counts.push((o, 1u64)));
        assert(counts.push((o, 1u64))[0] == (o, 1u64));
        assert(counts.push((o, 1u64)).drop_first() =~= Seq::<(Address, u64)>::empty());
        assert(spec_count_of(Seq::<(Address, u64)>::empty(), u) == 0);
        assert(spec_count_of(counts.push((o, 1u64)).drop_first(), u) == 0);
        if u != o {
            assert(spec_count_of(counts.push((o, 1u64)), u) == spec_count_of(
                counts.push((o, 1u64)).drop_first(), u));
            assert(spec_count_of(spec_bump_count(counts, o), u) == spec_count_of(counts, u));
        }
    } else if counts[0].0 == o {
        assert(spec_count_pos(counts, o) == Some(0int));
        let upd = counts.update(0, (o, (counts[0].1 + 1) as u64));
        assert(upd[0] == (o, (counts[0].1 + 1) as u64));
        if u != o {
            assert(upd.drop_first() =~= counts.drop_first());
            assert(spec_count_of(spec_bump_count(counts, o), u) == spec_count_of(counts, u));
        }
    } else {
        match spec_count_pos(counts.drop_first(), o) {
            None => {
                lemma_count_pos_none_converse(counts.drop_first(), o);
                let pushed = counts.push((o, 1u64));
                assert(spec_bump_count(counts, o) == pushed);
                assert(pushed[0] == counts[0]);
                assert(pushed.drop_first() =~= counts.drop_first().push((o, 1u64)));
                lemma_bump_count_of(counts.drop_first(), o, u);
                assert(spec_bump_count(counts.drop_first(), o) =~= counts.drop_first().push(
                    (o, 1u64)));
                assert(spec_count_of(pushed, u) == spec_count_of(
                    counts.drop_first().push((o, 1u64)), u) + if counts[0].0 == u {
                    0int
                } else {
                    0int
                } || true);
                if counts[0].0 == u {
                    assert(spec_count_of(pushed, u) == pushed[0].1);
                } else {
                    assert(spec_count_of(pushed, u) == spec_count_of(
                        counts.drop_first().push((o, 1u64)), u));
                }
            },
            Some(k) => {
                lemma_count_pos_bounds(counts.drop_first(), o);
                assert(counts.drop_first()[k] == counts[k + 1]);
                let upd = counts.update(k + 1, (o, (counts[k + 1].1 + 1) as u64));
                assert(spec_count_pos(counts, o) == Some(k + 1));
                assert(spec_bump_count(counts, o) == upd);
                assert(upd[0] == counts[0]);
                assert(upd.drop_first() =~= counts.drop_first().update(
                    k, (o, (counts.drop_first()[k].1 + 1) as u64)));
                lemma_bump_count_of(counts.drop_first(), o, u);
                assert(spec_bump_count(counts.drop_first(), o) =~= counts.drop_first().update(
                    k, (o, (counts.drop_first()[k].1 + 1) as u64)));
                if counts[0].0 == u {
                    assert(spec_count_of(upd, u) == upd[0].1);
                } else {
                    assert(spec_count_of(upd, u) == spec_count_of(upd.drop_first(), u));
                }
            },
        }
    }
}

/// A counter position is in range and names the owner.
proof fn lemma_count_pos_bounds(counts: Seq<(Address, u64)>, o: Address)
    ensures
        match spec_count_pos(counts, o) {
            Some(k) => 0 <= k < counts.len() && counts[k].0 == o,
            None => true,
        },
    decreases counts.len(),
{
    if counts.len() > 0 && counts[0].0 != o {
        lemma_count_pos_bounds(counts.drop_first(), o);
    }
}

/// A missing counter position means a zero count.
proof fn lemma_count_pos_none_converse(counts: Seq<(Address, u64)>, o: Address)
    requires
        spec_count_pos(counts, o) is None,
    ensures
        spec_count_of(counts, o) == 0,
    decreases counts.len(),
{
    if counts.len() > 0 {
        lemma_count_pos_none_converse(counts.drop_first(), o);
    }
}

/// Under per-owner record counts that fit the wire cursor, accumulation
/// never fails and its counters track each owner's record count exactly.
proof fn lemma_accumulate_ok(all: Seq<AuctionElement>, p: int)
    requires
        forall|u: Address| #[trigger] spec_count_owner(all, u) <= u16::MAX,
        0 <= p <= all.len(),
    ensures
        spec_accumulate(all.take(p)) is Ok,
        forall|u: Address|
            #[trigger] spec_count_of(spec_accumulate(all.take(p)).unwrap().counts, u)
                == spec_count_owner(all.take(p), u),
    decreases p,
{
    if p == 0 {
        assert(all.take(0) =~= Seq::<AuctionElement>::empty());
        assert forall|u: Address|
            #[trigger] spec_count_of(spec_accumulate(all.take(0)).unwrap().counts, u)
                == spec_count_owner(all.take(0), u) by {
            assert(spec_accumulate(all.take(0)) == Ok::<AccModel, ReadError>(spec_acc_empty()));
        }
    } else {
        lemma_accumulate_ok(all, p - 1);
        assert(all.take(p).drop_last() =~= all.take(p - 1));
        assert(all.take(p).last() == all[p - 1]);
        let prev = spec_accumulate(all.take(p - 1)).unwrap();
        let e = all[p - 1];
        let c = spec_count_of(prev.counts, e.owner);
        assert(c == spec_count_owner(all.take(p - 1), e.owner));
        assert(spec_count_owner(all.take(p), e.owner) == c + 1);
        lemma_count_owner_prefix(all, e.owner, p);
        assert(c + 1 <= u16::MAX);
        assert forall|u: Address|
            #[trigger] spec_count_of(spec_accumulate(all.take(p)).unwrap().counts, u)
                == spec_count_owner(all.take(p), u) by {
            lemma_bump_count_of(prev.counts, e.owner, u);
        }
    }
}

/// Accumulating a concatenation is accumulating the parts in turn.
proof fn lemma_accumulate_append(m: AccModel, a: Seq<AuctionElement>, b: Seq<AuctionElement>)
    ensures
        spec_accumulate_from(m, a + b) == match spec_accumulate_from(m, a) {
            Err(e) => Err::<AccModel, ReadError>(e),
            Ok(x) => spec_accumulate_from(x, b),
        },
    decreases b.len(),
{
    if b.len() == 0 {
        assert(a + b =~= a);
    } else {
        assert((a + b).drop_last() =~= a + b.drop_last());
        assert((a + b).last() == b.last());
        lemma_accumulate_append(m, a, b.drop_last());
    }
}

/// Finds the first record of an owner.
fn find_start(all: &Vec<AuctionElement>, u: Address) -> (r: usize)
    ensures
        r == spec_start_of(all@, u),
{
    let mut i: usize = 0;
    proof {
        assert(all@.skip(0) =~= all@);
    }
    while i < all.len()
        invariant
            i <= all@.len(),
            spec_start_of(all@, u) == i + spec_start_of(all@.skip(i as int), u),
            forall|m: int| 0 <= m < i ==> (#[trigger] all@[m]).owner != u,
        decreases all@.len() - i,
    {
        proof {
            assert(all@.skip(i as int).len() > 0);
            assert(all@.skip(i as int)[0] == all@[i as int]);
            assert(all@.skip(i as int).drop_first() =~= all@.skip(i + 1));
        }
        if all[i].owner == u {
            return i;
        }
        i = i + 1;
    }
    proof {
        assert(all@.skip(i as int).len() == 0);
    }
    i
}

/// Reads a whole grouped record list through the paginated protocol with
/// any page size, simulating the contract's cursor semantics and passing
/// every page through the real wire path — encoded to its 112-byte
/// records, decoded, accumulated — and lands on exactly the accumulation
/// of the whole list: the snapshot does not depend on the page size.
pub fn read_paginated_from(all: &Vec<AuctionElement>, page_size: u16) -> (r: Result<
    (AccountState, Vec<Order>),
    ReadError,
>)
    requires
        page_size >= 1,
        spec_grouped(all@),
        forall|u: Address| #[trigger] spec_count_owner(all@, u) <= u16::MAX,
        forall|i: int|
            0 <= i < all@.len() ==> (#[trigger] all@[i]).sell_token != all@[i].buy_token,
    ensures
        spec_accumulate(all@) is Ok,
        match r {
            Ok(out) => {
                let m = spec_accumulate(all@).unwrap();
                out.0.entries@ == m.balances && out.1@ == m.orders
            },
            Err(_) => false,
        },
{
    let total = all.len();
    let mut reader = PaginatedAuctionDataReader::new(0);
    let mut cursor_user = Address::zero();
    let mut cursor_offset: u64 = 0;
    let mut served: usize = 0;
    proof {
        lemma_accumulate_ok(all@, all@.len() as int);
        assert(all@.take(all@.len() as int) =~= all@);
        assert(all@.take(0) =~= Seq::<AuctionElement>::empty());
    }
    loop
        invariant_except_break
            served == 0 ==> cursor_offset == 0,
            served > 0 ==> cursor_user == all@[served - 1].owner && cursor_offset
                == spec_count_owner(all@.take(served as int), cursor_user) && cursor_offset >= 1,
        invariant
            page_size >= 1,
            total == all@.len(),
            spec_grouped(all@),
            forall|u: Address| #[trigger] spec_count_owner(all@, u) <= u16::MAX,
            forall|i: int|
                0 <= i < all@.len() ==> (#[trigger] all@[i]).sell_token != all@[i].buy_token,
            served <= total,
            reader.wf(),
            spec_accumulate(all@.take(served as int)) == Ok::<AccModel, ReadError>(
                reader.model()),
        ensures
            served == total,
            reader.wf(),
            spec_accumulate(all@.take(served as int)) == Ok::<AccModel, ReadError>(
                reader.model()),
        decreases total - served + 1,
    {
        // The contract's view of the cursor: skip the given number of the
        // user's records, serve from right after.
        let start = if cursor_offset == 0 {
            0
        } else {
            let s = find_start(all, cursor_user);
            s
        };
        proof {
            if served > 0 {
                lemma_start_of_props(all@, cursor_user);
                lemma_serve_position(all@, served as int, cursor_user);
                assert(start + cursor_offset == served);
            }
        }
        let pos: usize = start + (cursor_offset as usize);
        proof {
            assert(pos == served);
        }
        let end: usize = if total - pos < (page_size as usize) {
            total
        } else {
            pos + (page_size as usize)
        };
        let mut page: Vec<AuctionElement> = Vec::new();
        let mut k: usize = pos;
        while k < end
            invariant
                pos <= k <= end <= total,
                total == all@.len(),
                page@ =~= all@.subrange(pos as int, k as int),
            decreases end - k,
        {
            page.push(all[k]);
            proof {
                assert(page@ =~= all@.subrange(pos as int, k + 1));
            }
            k = k + 1;
        }
        proof {
            assert(all@.take(end as int) =~= all@.take(pos as int) + all@.subrange(
                pos as int, end as int));
            lemma_accumulate_append(
                spec_acc_empty(), all@.take(pos as int), all@.subrange(pos as int, end as int));
            lemma_accumulate_ok(all@, end as int);
        }
        // Serve the page as the contract does: as concatenated records.
        let bytes = crate::codec::encode_page(&page);
        let decoded = match decode_page(&bytes) {
            Ok(v) => v,
            Err(_) => {
                proof {
                    assert(false);
                }
                return Err(ReadError::CorruptPage);
            },
        };
        proof {
            let n = page@.len() as int;
            vstd::arithmetic::div_mod::lemma_div_multiples_vanish(n, 112);
            assert(112 * n == n * 112) by (nonlinear_arith);
            assert(bytes@.len() / 112 == n);
            assert(decoded@ =~= page@);
        }
        match reader.apply_elements(&decoded) {
            Ok(_) => {},
            Err(_) => {
                proof {
                    assert(false);
                }
                return Err(ReadError::UserOverflow);
            },
        }
        let count = end - pos;
        served = end;
        if count < (page_size as usize) {
            proof {
                assert(end == total);
            }
            break;
        }
        let last = page[count - 1];
        cursor_user = last.owner;
        cursor_offset = reader.count_of(last.owner);
        proof {
            assert(all@[served - 1].owner == cursor_user);
            lemma_accumulate_ok(all@, served as int);
            lemma_count_owner_prefix(all@, cursor_user, served as int);
            assert(spec_accumulate(all@.take(served as int)).unwrap() == reader.model());
            assert(spec_count_of(
                spec_accumulate(all@.take(served as int)).unwrap().counts, cursor_user)
                == spec_count_owner(all@.take(served as int), cursor_user));
            assert(cursor_offset == spec_count_owner(all@.take(served as int), cursor_user));
            assert(all@.take(served as int).last().owner == cursor_user);
            assert(cursor_offset >= 1) by {
                assert(spec_count_owner(all@.take(served as int), cursor_user)
                    == spec_count_owner(all@.take(served as int).drop_last(), cursor_user) + 1);
                lemma_count_owner_nonneg(all@.take(served as int).drop_last(), cursor_user);
            }
        }
    }
    proof {
        assert(all@.take(served as int) =~= all@);
    }
    Ok(reader.into_auction_data())
}

/// With the last served record owned by the cursor user, the user's
/// records in the served prefix run from their start straight to the
/// serve position, so the cursor maps back to it.
proof fn lemma_serve_position(all: Seq<AuctionElement>, p: int, u: Address)
    requires
        spec_grouped(all),
        0 < p <= all.len(),
        all[p - 1].owner == u,
    ensures
        spec_start_of(all, u) + spec_count_owner(all.take(p), u) == p,
{
    lemma_start_of_props(all, u);
    let start = spec_start_of(all, u);
    assert(start <= p - 1) by {
        if start > p - 1 {
            assert(all[p - 1].owner != u);
        }
    }
    assert forall|m: int| start <= m < p implies (#[trigger] all[m]).owner == u by {
        lemma_grouped_range(all, start, p - 1, m);
    }
    lemma_count_interval(all, u, start, p);
}

/// Counting an owner's records over a prefix that ends inside the
/// owner's run: none before the start, all of them after.
proof fn lemma_count_interval(all: Seq<AuctionElement>, u: Address, start: int, p: int)
    requires
        0 <= start <= p <= all.len(),
        forall|m: int| 0 <= m < start ==> (#[trigger] all[m]).owner != u,
        forall|m: int| start <= m < p ==> (#[trigger] all[m]).owner == u,
    ensures
        spec_count_owner(all.take(p), u) == p - start,
    decreases p,
{
    if p == start {
        lemma_count_none(all.take(p), u);
    } else {
        assert(all.take(p).drop_last() =~= all.take(p - 1));
        assert(all.take(p).last() == all[p - 1]);
        lemma_count_interval(all, u, start, p - 1);
    }
}

/// No matching record, no count.
proof fn lemma_count_none(s: Seq<AuctionElement>, u: Address)
    requires
        forall|m: int| 0 <= m < s.len() ==> (#[trigger] s[m]).owner != u,
    ensures
        spec_count_owner(s, u) == 0,
    decreases s.len(),
{
    if s.len() > 0 {
        assert(forall|m: int|
            0 <= m < s.drop_last().len() ==> #[trigger] s.drop_last()[m] == s[m]);
        lemma_count_none(s.drop_last(), u);
    }
}

/// A failed accumulation stays failed as the element list grows.
proof fn lemma_accumulate_err_sticks(m: AccModel, elements: Seq<AuctionElement>, k: int)
    requires
        0 <= k <= elements.len(),
        spec_accumulate_from(m, elements.take(k)) is Err,
    ensures
        spec_accumulate_from(m, elements) == spec_accumulate_from(m, elements.take(k)),
    decreases elements.len() - k,
{
    if k < elements.len() {
        assert(elements.take(k + 1).drop_last() =~= elements.take(k));
        lemma_accumulate_err_sticks(m, elements, k + 1);
    } else {
        assert(elements.take(k) =~= elements);
    }
}

} // verus!
