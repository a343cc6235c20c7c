//! The decision core of the background event updater.
//!
//! The updater proper is an I/O loop: it subscribes to live events,
//! fetches past events, resolves block timestamps and feeds everything to
//! the orderbook engine. The decisions that loop takes — which pending
//! work to serve first, when the engine becomes ready, and what each
//! event does to the state — live here, where they are verified; the
//! surrounding task only performs the chosen action and hands back the
//! result.

use crate::account_state::AccountState;
use crate::models::{Address, Order};
use crate::reader::ReadError;
use crate::state::{
    spec_ingest, spec_replay, spec_snapshot_balance, spec_snapshot_orders, BlockHash, Event,
    Orderbook, StateError, StoredEvent,
};
use vstd::prelude::*;

verus! {

/// What the updater loop should do next.
#[derive(Clone, Copy, Debug, PartialEq, Eq, Structural)]
pub enum UpdaterAction {
    Exit,
    HandleLiveEvent,
    HandlePastEvents,
    Wait,
}

/// The biased selection of the update loop: an exit request wins over a
/// live event, a live event wins over the past-events batch, so the live
/// stream is polled on every turn.
pub fn select_action(exit_requested: bool, live_ready: bool, past_ready: bool) -> (r:
    UpdaterAction)
    ensures
        exit_requested ==> r == UpdaterAction::Exit,
        !exit_requested && live_ready ==> r == UpdaterAction::HandleLiveEvent,
        !exit_requested && !live_ready && past_ready ==> r == UpdaterAction::HandlePastEvents,
        !exit_requested && !live_ready && !past_ready ==> r == UpdaterAction::Wait,
{
    if exit_requested {
        UpdaterAction::Exit
    } else if live_ready {
        UpdaterAction::HandleLiveEvent
    } else if past_ready {
        UpdaterAction::HandlePastEvents
    } else {
        UpdaterAction::Wait
    }
}

/// The distinct block hashes a batch of events refers to, for one bulk
/// timestamp query.
pub fn collect_block_hashes(hashes: &Vec<BlockHash>) -> (r: Vec<BlockHash>)
    ensures
        forall|h: BlockHash| r@.contains(h) == hashes@.contains(h),
        forall|a: int, b: int| 0 <= a < b < r@.len() ==> r@[a] != r@[b],
{
    let mut out: Vec<BlockHash> = Vec::new();
    let mut i: usize = 0;
    while i < hashes.len()
        invariant
            i <= hashes@.len(),
            forall|h: BlockHash| #[trigger] out@.contains(h) == hashes@.take(i as int).contains(h),
            forall|a: int, b: int| 0 <= a < b < out@.len() ==> out@[a] != out@[b],
        decreases hashes@.len() - i,
    {
        let h = hashes[i];
        let mut seen = false;
        let mut j: usize = 0;
        while j < out.len()
            invariant
                j <= out@.len(),
                seen ==> out@.contains(h),
                !seen ==> forall|k: int| 0 <= k < j ==> out@[k] != h,
            decreases out@.len() - j,
        {
            if out[j] == h {
                proof {
                    assert(out@[j as int] == h);
                }
                seen = true;
            }
            j = j + 1;
        }
        proof {
            if !seen {
                assert(!out@.contains(h)) by {
                    if out@.contains(h) {
                        let w = choose|w: int| 0 <= w < out@.len() && out@[w] == h;
                    }
                }
            }
        }
        let ghost out0 = out@;
        if !seen {
            out.push(h);
        }
        proof {
            assert forall|hh: BlockHash| #[trigger] out@.contains(hh) == hashes@.take(
                i + 1).contains(hh) by {
                let t1 = hashes@.take(i + 1);
                assert(t1[i as int] == h);
                assert(forall|w: int| 0 <= w < i ==> #[trigger] t1[w] == hashes@.take(i as int)[w]);
                if hh == h {
                    assert(t1.contains(hh)) by {
                        assert(t1[i as int] == hh);
                    }
                    assert(out@.contains(hh)) by {
                        if seen {
                            let w = choose|w: int| 0 <= w < out0.len() && out0[w] == h;
                            assert(out@[w] == h);
                        } else {
                            assert(out@[out0.len() as int] == h);
                        }
                    }
                } else {
                    assert(out@.contains(hh) == out0.contains(hh)) by {
                        if out@.contains(hh) {
                            let w = choose|w: int| 0 <= w < out@.len() && out@[w] == hh;
                            assert(w < out0.len());
                            assert(out0[w] == hh);
                        }
                        if out0.contains(hh) {
                            let w = choose|w: int| 0 <= w < out0.len() && out0[w] == hh;
                            assert(out@[w] == hh);
                        }
                    }
                    assert(t1.contains(hh) == hashes@.take(i as int).contains(hh)) by {
                        if t1.contains(hh) {
                            let w = choose|w: int| 0 <= w < t1.len() && t1[w] == hh;
                            assert(w < i);
                            assert(hashes@.take(i as int)[w] == hh);
                        }
                        if hashes@.take(i as int).contains(hh) {
                            let w = choose|w: int|
                                0 <= w < hashes@.take(i as int).len() && hashes@.take(
                                    i as int)[w] == hh;
                            assert(t1[w] == hh);
                        }
                    }
                }
            }
        }
        i = i + 1;
    }
    proof {
        assert(hashes@.take(hashes@.len() as int) =~= hashes@);
    }
    out
}

/// One raw event delivery as a stored event.
pub open spec fn spec_stored_of(t: (Event, u64, u64, BlockHash, u64)) -> StoredEvent {
    StoredEvent {
        data: t.0,
        block_number: t.1,
        log_index: t.2,
        block_hash: t.3,
        block_timestamp: t.4,
    }
}

/// A batch of deliveries ingested in order: each event changes the log as
/// [`spec_ingest`] says, and the first refused event stops the batch with
/// the log as that ingest left it.
pub open spec fn spec_ingest_all(
    log: Seq<StoredEvent>,
    events: Seq<(Event, u64, u64, BlockHash, u64)>,
) -> (Seq<StoredEvent>, Result<(), StateError>)
    decreases events.len(),
{
    if events.len() == 0 {
        (log, Ok(()))
    } else {
        let step = spec_ingest(log, spec_stored_of(events[0]));
        match step.1 {
            Err(err) => (step.0, Err(err)),
            Ok(_) => spec_ingest_all(step.0, events.drop_first()),
        }
    }
}

/// The engine plus the readiness flag the updater maintains: snapshots
/// may only be served once the past-events replay has finished.
pub struct UpdaterCore {
    pub orderbook: Orderbook,
    pub ready: bool,
}

impl UpdaterCore {
    /// A fresh, not yet ready updater over an empty log.
    pub fn new() -> (r: UpdaterCore)
        ensures
            r.orderbook.wf(),
            r.orderbook.events@.len() == 0,
            !r.ready,
    {
        UpdaterCore { orderbook: Orderbook::new(), ready: false }
    }

    /// Applies the whole batch of past events in their given order — the
    /// log ends up exactly as [`spec_ingest_all`] says — then marks the
    /// engine ready. A refused event aborts the batch and leaves the
    /// engine not ready; the caller treats that as fatal.
    pub fn apply_past_events(&mut self, events: Vec<(Event, u64, u64, BlockHash, u64)>) -> (r:
        Result<(), StateError>)
        requires
            old(self).orderbook.wf(),
        ensures
            final(self).orderbook.wf(),
            ({
                let out = spec_ingest_all(old(self).orderbook.events@, events@);
                final(self).orderbook.events@ == out.0 && r == out.1
            }),
            r is Ok ==> final(self).ready,
            r is Err ==> !final(self).ready,
    {
        let ghost log0 = self.orderbook.events@;
        let ghost all = events@;
        let mut queue = events;
        self.ready = false;
        let mut failure: Option<StateError> = None;
        while queue.len() > 0
            invariant_except_break
                failure is None,
                spec_ingest_all(log0, all) == spec_ingest_all(self.orderbook.events@, queue@),
            invariant
                self.orderbook.wf(),
                !self.ready,
            ensures
                self.orderbook.wf(),
                !self.ready,
                match failure {
                    None => queue@.len() == 0 && spec_ingest_all(log0, all) == spec_ingest_all(
                        self.orderbook.events@, queue@),
                    Some(err) => spec_ingest_all(log0, all) == (
                        self.orderbook.events@,
                        Err::<(), StateError>(err),
                    ),
                },
            decreases queue@.len(),
        {
            let ghost remaining = queue@;
            let (data, block_number, log_index, block_hash, block_timestamp) = queue.remove(0);
            proof {
                assert(queue@ =~= remaining.drop_first());
                assert(spec_stored_of(remaining[0]) == (StoredEvent {
                    data: data,
                    block_number,
                    log_index,
                    block_hash,
                    block_timestamp,
                }));
            }
            match self.orderbook.handle_event_data(
                data, block_number, log_index, block_hash, block_timestamp) {
                Ok(_) => {},
                Err(err) => {
                    failure = Some(err);
                    break;
                },
            }
        }
        match failure {
            Some(err) => Err(err),
            None => {
                self.ready = true;
                Ok(())
            },
        }
    }

    /// Ingests one live event into the orderbook, exactly as
    /// [`spec_ingest`] says; readiness is unchanged. A refused event is
    /// reported — the caller treats it as fatal.
    pub fn apply_live_event(
        &mut self,
        data: Event,
        block_number: u64,
        log_index: u64,
        block_hash: BlockHash,
        block_timestamp: u64,
    ) -> (r: Result<(), StateError>)
        requires
            old(self).orderbook.wf(),
        ensures
            final(self).orderbook.wf(),
            final(self).ready == old(self).ready,
            ({
                let e = StoredEvent { data, block_number, log_index, block_hash, block_timestamp };
                let out = spec_ingest(old(self).orderbook.events@, e);
                final(self).orderbook.events@ == out.0 && r == out.1
            }),
    {
        self.orderbook.handle_event_data(data, block_number, log_index, block_hash, block_timestamp)
    }

    /// The snapshot for a batch, once the engine is ready: exactly the
    /// materialization of the replayed log. Before readiness the caller
    /// is told to retry later.
    pub fn get_auction_data(&self, batch_id: u32) -> (r: Result<
        (AccountState, Vec<Order>),
        ReadError,
    >)
        requires
            self.orderbook.wf(),
        ensures
            !self.ready ==> r == Err::<(AccountState, Vec<Order>), ReadError>(ReadError::NotReady),
            self.ready ==> match r {
                Ok(out) => spec_replay(self.orderbook.events@) is Ok && ({
                    let m = spec_replay(self.orderbook.events@).unwrap();
                    &&& out.1@ == spec_snapshot_orders(m.orders, batch_id)
                    &&& out.0.wf()
                    &&& forall|u: Address, t: u16| #[trigger] out.0.spec_read(u, t)
                        == spec_snapshot_balance(m, batch_id, u, t)
                }),
                Err(_) => false,
            },
    {
        if !self.ready {
            return Err(ReadError::NotReady);
        }
        match self.orderbook.get_auction_data(batch_id) {
            Ok(out) => Ok(out),
            Err(_) => {
                proof {
                    assert(false);
                }
                Err(ReadError::InvalidEvent)
            },
        }
    }
}

} // verus!
