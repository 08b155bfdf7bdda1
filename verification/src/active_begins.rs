//! The histogram of begin timestamps: how many live transactions began at
//! each timestamp. It answers what the oldest live begin timestamp is,
//! which is what garbage collection has to know.

use crate::state::begun_by;
use crate::transaction::TxView;
use std::collections::BTreeMap;
use vstd::prelude::*;

verus! {

/// `BTreeMap::first_key_value`: the least key of the map, or `None` for a
/// map without entries. This is taken from the documentation of the
/// standard library and not proved.
#[verifier::external_body]
fn first_key(counts: &BTreeMap<u64, usize>) -> (first: Option<u64>)
    ensures
        match first {
            Some(least) => counts@.contains_key(least) && forall|key: u64|
                counts@.contains_key(key) ==> least <= key,
            None => forall|key: u64| !counts@.contains_key(key),
        },
{
    match counts.first_key_value() {
        Some((key, _)) => Some(*key),
        None => None,
    }
}

/// The live transactions of `txs` that began at `ts`.
pub open spec fn begun_at(txs: Map<u64, TxView>, ts: u64) -> Set<u64> {
    txs.dom().filter(|tx_id: u64| txs[tx_id].begin_ts == ts)
}

/// Whether `counts` has, for every timestamp at which a live transaction of
/// `txs` began, the number of those transactions, and no other entry.
pub open spec fn mirrors(counts: Map<u64, usize>, txs: Map<u64, TxView>) -> bool {
    forall|ts: u64|
        {
            &&& #[trigger] counts.contains_key(ts) <==> begun_at(txs, ts).len() > 0
            &&& counts.contains_key(ts) ==> counts[ts] == begun_at(txs, ts).len()
        }
}

/// `counts` with one more at `ts`.
pub open spec fn counted_up(counts: Map<u64, usize>, ts: u64) -> Map<u64, usize> {
    counts.insert(
        ts,
        if counts.contains_key(ts) {
            (counts[ts] + 1) as usize
        } else {
            1
        },
    )
}

/// `counts` with one less at `ts`, and without an entry at `ts` if that
/// leaves none.
pub open spec fn counted_down(counts: Map<u64, usize>, ts: u64) -> Map<u64, usize> {
    if !counts.contains_key(ts) {
        counts
    } else if counts[ts] <= 1 {
        counts.remove(ts)
    } else {
        counts.insert(ts, (counts[ts] - 1) as usize)
    }
}

/// The histogram of the begin timestamps of the live transactions.
#[derive(Debug)]
pub struct ActiveBegins {
    counts: BTreeMap<u64, usize>,
}

impl View for ActiveBegins {
    type V = Map<u64, usize>;

    closed spec fn view(&self) -> Map<u64, usize> {
        self.counts@
    }
}

impl ActiveBegins {
    /// A histogram without entries.
    pub fn new() -> (begins: ActiveBegins)
        ensures
            begins@ == Map::<u64, usize>::empty(),
    {
        ActiveBegins { counts: BTreeMap::new() }
    }

    /// Counts one more transaction that began at `ts`.
    pub fn increment(&mut self, ts: u64)
        requires
            old(self)@.contains_key(ts) ==> old(self)@[ts] < usize::MAX,
        ensures
            final(self)@ == counted_up(old(self)@, ts),
    {
        let count: usize = match self.counts.get(&ts) {
            Some(count) => *count,
            None => 0,
        };
        self.counts.insert(ts, count + 1);
    }

    /// Counts one transaction less that began at `ts`; the entry of a
    /// timestamp at which none is left is dropped.
    pub fn decrement(&mut self, ts: u64)
        ensures
            final(self)@ == counted_down(old(self)@, ts),
    {
        let found: Option<usize> = match self.counts.get(&ts) {
            Some(count) => Some(*count),
            None => None,
        };
        match found {
            Some(count) => {
                if count <= 1 {
                    self.counts.remove(&ts);
                } else {
                    self.counts.insert(ts, count - 1);
                }
            },
            None => {},
        }
    }

    /// The oldest begin timestamp in the histogram.
    pub fn oldest(&self) -> (first: Option<u64>)
        ensures
            match first {
                Some(least) => self@.contains_key(least) && forall|key: u64|
                    self@.contains_key(key) ==> least <= key,
                None => forall|key: u64| !self@.contains_key(key),
            },
    {
        first_key(&self.counts)
    }
}

/// A histogram that mirrors the live transactions has an entry at or
/// before `ts` exactly if a live transaction began at or before `ts`.
pub proof fn lemma_mirrors_oldest(counts: Map<u64, usize>, txs: Map<u64, TxView>, ts: u64)
    requires
        mirrors(counts, txs),
        txs.dom().finite(),
    ensures
        (exists|key: u64| counts.contains_key(key) && key <= ts) <==> begun_by(txs, ts),
{
    if exists|key: u64| counts.contains_key(key) && key <= ts {
        let key = choose|key: u64| counts.contains_key(key) && key <= ts;
        let begun = begun_at(txs, key);
        assert(begun.len() > 0);
        txs.dom().lemma_len_filter(|tx_id: u64| txs[tx_id].begin_ts == key);
        let tx_id = begun.choose();
        assert(begun.contains(tx_id));
        assert(txs.contains_key(tx_id) && txs[tx_id].begin_ts <= ts);
    }
    if exists|tx_id: u64| #[trigger] txs.contains_key(tx_id) && txs[tx_id].begin_ts <= ts {
        let tx_id = choose|tx_id: u64| #[trigger]
            txs.contains_key(tx_id) && txs[tx_id].begin_ts <= ts;
        let key = txs[tx_id].begin_ts;
        let begun = begun_at(txs, key);
        txs.dom().lemma_len_filter(|tx_id: u64| txs[tx_id].begin_ts == key);
        assert(begun.contains(tx_id));
        assert(begun.len() > 0) by {
            if begun.len() == 0 {
                assert(begun =~= Set::empty());
            }
        }
        assert(counts.contains_key(key));
    }
}

/// A histogram that mirrors the live transactions still does so after a
/// transaction has begun and has been counted.
pub proof fn lemma_mirrors_begun(
    counts: Map<u64, usize>,
    txs: Map<u64, TxView>,
    tx_id: u64,
    tx: TxView,
)
    requires
        mirrors(counts, txs),
        txs.dom().finite(),
        !txs.contains_key(tx_id),
        txs.insert(tx_id, tx).dom().len() <= usize::MAX,
    ensures
        counts.contains_key(tx.begin_ts) ==> counts[tx.begin_ts] < usize::MAX,
        mirrors(counted_up(counts, tx.begin_ts), txs.insert(tx_id, tx)),
{
    let more = txs.insert(tx_id, tx);
    let begun = begun_at(txs, tx.begin_ts);
    let begun_more = begun_at(more, tx.begin_ts);
    txs.dom().lemma_len_filter(|id: u64| txs[id].begin_ts == tx.begin_ts);
    more.dom().lemma_len_filter(|id: u64| more[id].begin_ts == tx.begin_ts);
    assert(begun_more =~= begun.insert(tx_id));
    assert(begun_more.len() == begun.len() + 1);
    assert forall|ts: u64|
        {
            &&& #[trigger] counted_up(counts, tx.begin_ts).contains_key(ts) <==> begun_at(
                more,
                ts,
            ).len() > 0
            &&& counted_up(counts, tx.begin_ts).contains_key(ts) ==> counted_up(
                counts,
                tx.begin_ts,
            )[ts] == begun_at(more, ts).len()
        } by {
        assert(counts.contains_key(ts) <==> begun_at(txs, ts).len() > 0);
        if ts != tx.begin_ts {
            assert(begun_at(more, ts) =~= begun_at(txs, ts));
        }
    }
}

/// A histogram that mirrors the live transactions still does so after a
/// transaction has left the table and is no longer counted.
pub proof fn lemma_mirrors_ended(counts: Map<u64, usize>, txs: Map<u64, TxView>, tx_id: u64)
    requires
        mirrors(counts, txs),
        txs.dom().finite(),
        txs.contains_key(tx_id),
    ensures
        mirrors(counted_down(counts, txs[tx_id].begin_ts), txs.remove(tx_id)),
{
    let begin_ts = txs[tx_id].begin_ts;
    let fewer = txs.remove(tx_id);
    let begun = begun_at(txs, begin_ts);
    let begun_fewer = begun_at(fewer, begin_ts);
    txs.dom().lemma_len_filter(|id: u64| txs[id].begin_ts == begin_ts);
    assert(begun_fewer =~= begun.remove(tx_id));
    assert(begun.contains(tx_id));
    assert(begun_fewer.len() == begun.len() - 1);
    assert(counts.contains_key(begin_ts)) by {
        if begun.len() == 0 {
            assert(begun =~= Set::empty());
        }
    }
    assert forall|ts: u64|
        {
            &&& #[trigger] counted_down(counts, begin_ts).contains_key(ts) <==> begun_at(
                fewer,
                ts,
            ).len() > 0
            &&& counted_down(counts, begin_ts).contains_key(ts) ==> counted_down(
                counts,
                begin_ts,
            )[ts] == begun_at(fewer, ts).len()
        } by {
        assert(counts.contains_key(ts) <==> begun_at(txs, ts).len() > 0);
        if ts != begin_ts {
            assert(begun_at(fewer, ts) =~= begun_at(txs, ts));
        }
    }
}

/// A histogram that mirrors the live transactions still does so after
/// changes to the transactions that leave their begin timestamps alone.
pub proof fn lemma_mirrors_same_begins(
    counts: Map<u64, usize>,
    txs: Map<u64, TxView>,
    changed: Map<u64, TxView>,
)
    requires
        mirrors(counts, txs),
        changed.dom() == txs.dom(),
        forall|tx_id: u64|
            txs.contains_key(tx_id) ==> (#[trigger] changed[tx_id]).begin_ts == txs[tx_id].begin_ts,
    ensures
        mirrors(counts, changed),
{
    assert forall|ts: u64|
        {
            &&& #[trigger] counts.contains_key(ts) <==> begun_at(changed, ts).len() > 0
            &&& counts.contains_key(ts) ==> counts[ts] == begun_at(changed, ts).len()
        } by {
        assert(counts.contains_key(ts) <==> begun_at(txs, ts).len() > 0);
        assert(begun_at(changed, ts) =~= begun_at(txs, ts));
    }
}

} // verus!
