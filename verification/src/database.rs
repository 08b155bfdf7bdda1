//! The database: the version store, the table of live transactions, and the
//! operations that transactions perform on them.

use crate::active_begins::{
    begun_at, lemma_mirrors_begun, lemma_mirrors_ended, lemma_mirrors_oldest,
    lemma_mirrors_same_begins, mirrors, ActiveBegins,
};
use crate::chain::{
    end_version, find_target, find_visible, settle_versions, sweep_versions, undo_versions, Found,
};
use crate::clock::LogicalClock;
use crate::errors::DatabaseError;
use crate::invariants::{
    lemma_begin_inv, lemma_commit_inv, lemma_delete_inv, lemma_empty_inv, lemma_insert_inv,
    lemma_owners_active, lemma_read_inv, lemma_replay_record_inv, lemma_rollback_inv,
    lemma_sweep_inv, lemma_untouched_outside,
};
use crate::rewrite::{
    lemma_logged_rows_next, lemma_rewritten_next, lemma_rewritten_none, lemma_untouched, rewritten,
};
use crate::row::{log_view, well_formed_log, RecordView};
pub use crate::row::{LogRecord, Row, RowID, RowVersion, TxTimestampOrID};
use crate::state::{
    append_versions, begun_by, logged_rows, settle_chain, sweep_chain, undo_chain, DbState,
};
use crate::transaction::{tx_views, TxView};
pub use crate::transaction::{Transaction, TransactionState};
use crate::version_store::{ascending, lemma_ascending_no_duplicates, VersionStore};
use std::collections::HashMap;
use vstd::prelude::*;

verus! {

/// The engine behind a [`Database`].
#[derive(Debug)]
pub struct DatabaseInner<Clock: LogicalClock> {
    rows: VersionStore,
    txs: HashMap<u64, Transaction>,
    tx_timestamps: ActiveBegins,
    tx_ids: u64,
    clock: Clock,
}

impl<Clock: LogicalClock> View for DatabaseInner<Clock> {
    type V = DbState;

    closed spec fn view(&self) -> DbState {
        DbState {
            rows: self.rows@,
            txs: tx_views(self.txs@),
            next_tx_id: self.tx_ids,
            now: self.clock.peek(),
        }
    }
}

impl<Clock: LogicalClock> DatabaseInner<Clock> {
    /// Whether the histogram of begin timestamps mirrors the table of live
    /// transactions.
    pub closed spec fn histogram_ok(&self) -> bool {
        mirrors(self.tx_timestamps@, tx_views(self.txs@))
    }

    /// Whether the engine is in order: its state meets the invariant, and
    /// the histogram mirrors the live transactions.
    pub open spec fn wf(&self) -> bool {
        self@.inv() && self.histogram_ok()
    }

    /// An engine without rows or transactions, on the given clock.
    pub fn new(clock: Clock) -> (db: Self)
        ensures
            db.wf(),
            db@ == DbState::empty(clock.peek()),
    {
        let db = DatabaseInner {
            rows: VersionStore::new(),
            txs: HashMap::new(),
            tx_timestamps: ActiveBegins::new(),
            tx_ids: 1,
            clock,
        };
        proof {
            assert(db@.txs =~= Map::<u64, TxView>::empty());
            lemma_empty_inv(clock.peek());
            assert forall|ts: u64|
                begun_at(db@.txs, ts).len() == 0 by {
                assert(begun_at(db@.txs, ts) =~= Set::<u64>::empty());
            }
        }
        db
    }

    /// Whether the engine can begin no further transaction, or its clock
    /// can hand out no further timestamp.
    pub fn is_exhausted(&self) -> (exhausted: bool)
        ensures
            exhausted == (self@.next_tx_id == u64::MAX || self@.now == u64::MAX),
    {
        self.tx_ids == u64::MAX || self.clock.is_exhausted()
    }

    /// Why an operation in the name of `tx_id` is refused when no live
    /// transaction has that ID.
    fn refusal(&self, tx_id: u64) -> (error: DatabaseError)
        ensures
            error == self@.refusal(tx_id),
    {
        if 1 <= tx_id && tx_id < self.tx_ids {
            DatabaseError::TxTerminated
        } else {
            DatabaseError::NoSuchTransactionID(tx_id)
        }
    }

    fn get_tx_id(&mut self) -> (tx_id: u64)
        requires
            old(self).tx_ids < u64::MAX,
        ensures
            tx_id == old(self).tx_ids,
            final(self).tx_ids == tx_id + 1,
            final(self).rows == old(self).rows,
            final(self).txs == old(self).txs,
            final(self).tx_timestamps == old(self).tx_timestamps,
            final(self).clock == old(self).clock,
    {
        let tx_id: u64 = self.tx_ids;
        self.tx_ids = tx_id + 1;
        tx_id
    }

    fn get_timestamp(&mut self) -> (ts: u64)
        requires
            old(self).clock.peek() < u64::MAX,
        ensures
            ts == old(self).clock.peek(),
            final(self).clock.peek() > ts,
            final(self).rows == old(self).rows,
            final(self).txs == old(self).txs,
            final(self).tx_timestamps == old(self).tx_timestamps,
            final(self).tx_ids == old(self).tx_ids,
    {
        self.clock.get_timestamp()
    }

    /// Begins a transaction: it gets the next transaction ID, which is
    /// returned, and the next timestamp of the clock as its begin timestamp.
    pub fn begin_tx(&mut self) -> (tx_id: u64)
        requires
            old(self).wf(),
            old(self)@.next_tx_id < u64::MAX,
            old(self)@.now < u64::MAX,
        ensures
            final(self).wf(),
            tx_id == old(self)@.next_tx_id,
            final(self)@.now > old(self)@.now,
            final(self)@ == old(self)@.begin(final(self)@.now),
    {
        let tx_id = self.get_tx_id();
        let begin_ts = self.get_timestamp();
        let tx = Transaction::new(tx_id, begin_ts);
        proof {
            assert(!old(self)@.txs.contains_key(tx_id)) by {
                if old(self)@.txs.contains_key(tx_id) {
                    assert(old(self)@.tx_ok(tx_id));
                }
            }
        }
        self.txs.insert(tx_id, tx);
        proof {
            let before = tx_views(old(self).txs@);
            assert(before.dom() =~= old(self).txs@.dom());
            assert(old(self).txs@.dom().finite());
            assert(tx_views(self.txs@) =~= before.insert(tx_id, tx@));
            assert(self.txs.len() == self.txs@.len());
            assert(tx_views(self.txs@).dom() =~= self.txs@.dom());
            lemma_mirrors_begun(old(self).tx_timestamps@, before, tx_id, tx@);
        }
        self.tx_timestamps.increment(begin_ts);
        proof {
            assert(self@ =~= old(self)@.begin(self@.now));
            lemma_begin_inv(old(self)@, self@.now);
        }
        tx_id
    }

    /// Inserts `row` in the name of transaction `tx_id`: the row gets a new
    /// version, which only that transaction sees until it commits.
    pub fn insert(&mut self, tx_id: u64, row: Row) -> (result: Result<(), DatabaseError>)
        requires
            old(self).wf(),
        ensures
            final(self).wf(),
            result == old(self)@.live_result(tx_id),
            final(self)@ == old(self)@.insert(tx_id, row),
    {
        let mut tx = match self.txs.remove(&tx_id) {
            Some(tx) => tx,
            None => {
                assert(self.txs@ =~= old(self).txs@);
                return Err(self.refusal(tx_id));
            },
        };
        let id = row.id;
        let row_version = RowVersion { begin: TxTimestampOrID::TxID(tx.tx_id), end: None, row };
        let mut versions = self.rows.get_or_create(id);
        versions.push(row_version);
        self.rows.put(id, versions);
        tx.insert_to_write_set(id);
        self.txs.insert(tx_id, tx);
        proof {
            assert(old(self)@.tx_ok(tx_id));
            assert(self@.txs =~= old(self)@.wrote(tx_id, id));
            assert(self@.rows =~= old(self)@.insert(tx_id, row).rows);
            lemma_insert_inv(old(self)@, tx_id, row);
            lemma_mirrors_same_begins(old(self).tx_timestamps@, old(self)@.txs, self@.txs);
        }
        Ok(())
    }

    /// Reads row `id` in the name of transaction `tx_id`: the newest
    /// version of the row that the transaction sees, if it sees one.
    pub fn read(&mut self, tx_id: u64, id: RowID) -> (result: Result<Option<Row>, DatabaseError>)
        requires
            old(self).wf(),
        ensures
            final(self).wf(),
            result == old(self)@.read_result(tx_id, id),
            final(self)@ == old(self)@.read(tx_id, id),
    {
        let found: Option<Row> = match self.txs.get(&tx_id) {
            None => {
                return Err(self.refusal(tx_id));
            },
            Some(tx) => match self.rows.get(id) {
                None => None,
                Some(versions) => {
                    proof {
                        lemma_owners_active(self@, id);
                    }
                    match find_visible(&self.txs, tx, &versions) {
                        Some(i) => Some(versions[i].row.clone()),
                        None => None,
                    }
                },
            },
        };
        match found {
            None => Ok(None),
            Some(row) => {
                let mut tx = self.txs.remove(&tx_id).unwrap();
                tx.insert_to_read_set(id);
                self.txs.insert(tx_id, tx);
                proof {
                    assert(self@.txs =~= old(self)@.read(tx_id, id).txs);
                    lemma_read_inv(old(self)@, tx_id, id);
                    lemma_mirrors_same_begins(old(self).tx_timestamps@, old(self)@.txs, self@.txs);
                }
                Ok(Some(row))
            },
        }
    }

    /// Rolls transaction `tx_id` back: discards what it has written, and
    /// ends it. Where no live transaction has that ID, nothing happens.
    pub fn rollback_tx(&mut self, tx_id: u64)
        requires
            old(self).wf(),
        ensures
            final(self).wf(),
            final(self)@ == old(self)@.rollback(tx_id),
    {
        let mut tx = match self.txs.remove(&tx_id) {
            Some(tx) => tx,
            None => {
                assert(self.txs@ =~= old(self).txs@);
                return ;
            },
        };
        tx.state = TransactionState::Aborted;
        let ghost before = old(self)@;
        let ghost undo = |chain: Seq<RowVersion>| undo_chain(chain, tx_id);
        let ghost txs_left = self.txs;
        proof {
            assert(before.txs.contains_key(tx_id));
            assert(before.tx_ok(tx_id));
            lemma_rewritten_none(before.rows, tx.write_set@, undo);
        }
        let mut i: usize = 0;
        while i < tx.write_set.len()
            invariant
                i <= tx.write_set.len(),
                tx.write_set@.no_duplicates(),
                forall|chain: Seq<RowVersion>| #[trigger] undo(chain) == undo_chain(chain, tx_id),
                self.rows@ == rewritten(before.rows, tx.write_set@.take(i as int), undo),
                self.txs == txs_left,
                self.tx_timestamps == old(self).tx_timestamps,
                self.tx_ids == old(self).tx_ids,
                self.clock == old(self).clock,
            decreases tx.write_set.len() - i,
        {
            let id = tx.write_set[i];
            proof {
                lemma_rewritten_next(before.rows, tx.write_set@, i as int, undo);
            }
            match self.rows.get(id) {
                Some(versions) => {
                    let kept = undo_versions(versions, tx_id);
                    if kept.len() == 0 {
                        self.rows.remove(id);
                    } else {
                        self.rows.put(id, kept);
                    }
                },
                None => {},
            }
            i += 1;
        }
        tx.state = TransactionState::Terminated;
        self.tx_timestamps.decrement(tx.begin_ts);
        proof {
            let after = before.rollback(tx_id);
            assert(tx.write_set@.take(i as int) =~= tx.write_set@);
            assert forall|id: RowID|
                before.rows.contains_key(id) && !tx.write_set@.contains(id) implies undo_chain(
                before.rows[id],
                tx_id,
            ) == before.rows[id] by {
                lemma_untouched_outside(before, tx_id, id);
                lemma_untouched(before.rows[id], tx_id, 0, 0);
            }
            assert(self@.rows =~= after.rows);
            assert(self@.txs =~= after.txs);
            assert(before.txs.dom() =~= old(self).txs@.dom());
            assert(old(self).txs@.dom().finite());
            lemma_mirrors_ended(old(self).tx_timestamps@, before.txs, tx_id);
            lemma_rollback_inv(before, tx_id);
        }
    }

    /// Deletes row `id` in the name of transaction `tx_id`: ends the version
    /// of the row that the transaction sees. Returns whether it saw one. If
    /// another active transaction is ending a version of the row, the
    /// transaction is rolled back and the delete fails.
    pub fn delete(&mut self, tx_id: u64, id: RowID) -> (result: Result<bool, DatabaseError>)
        requires
            old(self).wf(),
        ensures
            final(self).wf(),
            result == old(self)@.delete_result(tx_id, id),
            final(self)@ == old(self)@.delete(tx_id, id),
    {
        let tx = match self.txs.get(&tx_id) {
            Some(tx) => tx,
            None => {
                return Err(self.refusal(tx_id));
            },
        };
        let mut versions = match self.rows.get(id) {
            Some(versions) => versions,
            None => {
                return Ok(false);
            },
        };
        proof {
            lemma_owners_active(self@, id);
            lemma_delete_inv(self@, tx_id, id);
        }
        match find_target(&self.txs, tx, &versions) {
            Found::Conflict => {
                self.rollback_tx(tx_id);
                Err(DatabaseError::WriteWriteConflict)
            },
            Found::Version(i) => {
                end_version(&mut versions, i, tx_id);
                self.rows.put(id, versions);
                let mut tx = self.txs.remove(&tx_id).unwrap();
                tx.insert_to_write_set(id);
                self.txs.insert(tx_id, tx);
                proof {
                    assert(self@.txs =~= old(self)@.wrote(tx_id, id));
                    lemma_mirrors_same_begins(old(self).tx_timestamps@, old(self)@.txs, self@.txs);
                }
                Ok(true)
            },
            Found::Nothing => Ok(false),
        }
    }

    /// Commits transaction `tx_id`. The clock hands out the commit
    /// timestamp. Every version that the transaction created now begins at
    /// the transaction's begin timestamp, and every version that it ended
    /// now ends at the commit timestamp. The transaction is no longer live.
    ///
    /// Returns the log record of the commit, which the caller has to make
    /// durable before it reports the commit as done; a transaction that has
    /// written nothing has no record.
    pub fn commit_tx(&mut self, tx_id: u64) -> (result: Result<Option<LogRecord>, DatabaseError>)
        requires
            old(self).wf(),
            old(self)@.now < u64::MAX,
        ensures
            final(self).wf(),
            final(self)@.now > old(self)@.now,
            final(self)@ == old(self)@.commit(tx_id, final(self)@.now),
            match result {
                Ok(Some(record)) => {
                    &&& old(self)@.txs.contains_key(tx_id)
                    &&& record@ == old(self)@.commit_record(tx_id)
                    &&& record@.row_versions.len() > 0
                },
                Ok(None) => {
                    &&& old(self)@.txs.contains_key(tx_id)
                    &&& old(self)@.commit_log(tx_id).len() == 0
                },
                Err(error) => {
                    &&& !old(self)@.txs.contains_key(tx_id)
                    &&& error == old(self)@.refusal(tx_id)
                },
            },
    {
        let ghost before = old(self)@;
        let end_ts = self.get_timestamp();
        proof {
            lemma_commit_inv(before, tx_id, self@.now);
        }
        let mut tx = match self.txs.remove(&tx_id) {
            Some(tx) => tx,
            None => {
                assert(self.txs@ =~= old(self).txs@);
                return Err(self.refusal(tx_id));
            },
        };
        tx.state = TransactionState::Preparing;
        let mut log_record = LogRecord::new(end_ts);
        let ghost settle = |chain: Seq<RowVersion>| settle_chain(chain, tx_id, tx.begin_ts, end_ts);
        let ghost txs_left = self.txs;
        let ghost clock_after = self.clock;
        proof {
            assert(before.txs.contains_key(tx_id));
            assert(before.tx_ok(tx_id));
            lemma_rewritten_none(before.rows, tx.write_set@, settle);
            assert(tx.write_set@.take(0) =~= Seq::<RowID>::empty());
        }
        let mut i: usize = 0;
        while i < tx.write_set.len()
            invariant
                i <= tx.write_set.len(),
                before.inv(),
                before.rows == old(self).rows@,
                tx.write_set@.no_duplicates(),
                forall|chain: Seq<RowVersion>| #[trigger]
                    settle(chain) == settle_chain(chain, tx_id, tx.begin_ts, end_ts),
                self.rows@ == rewritten(before.rows, tx.write_set@.take(i as int), settle),
                log_record.tx_timestamp == end_ts,
                log_record.row_versions@ == logged_rows(
                    before.rows,
                    tx.write_set@.take(i as int),
                    tx_id,
                    tx.begin_ts,
                    end_ts,
                ),
                self.txs == txs_left,
                self.tx_timestamps == old(self).tx_timestamps,
                self.tx_ids == old(self).tx_ids,
                self.clock == clock_after,
            decreases tx.write_set.len() - i,
        {
            let id = tx.write_set[i];
            proof {
                lemma_rewritten_next(before.rows, tx.write_set@, i as int, settle);
                lemma_logged_rows_next(
                    before.rows,
                    tx.write_set@,
                    i as int,
                    tx_id,
                    tx.begin_ts,
                    end_ts,
                );
            }
            match self.rows.get(id) {
                Some(versions) => {
                    let mut versions = versions;
                    settle_versions(&mut versions, tx_id, tx.begin_ts, end_ts, &mut log_record);
                    self.rows.put(id, versions);
                },
                None => {},
            }
            i += 1;
        }
        tx.state = TransactionState::Committed;
        self.tx_timestamps.decrement(tx.begin_ts);
        proof {
            let after = before.commit(tx_id, self@.now);
            assert(tx.write_set@.take(i as int) =~= tx.write_set@);
            assert forall|id: RowID|
                before.rows.contains_key(id) && !tx.write_set@.contains(id) implies settle_chain(
                before.rows[id],
                tx_id,
                tx.begin_ts,
                end_ts,
            ) == before.rows[id] by {
                lemma_untouched_outside(before, tx_id, id);
                lemma_untouched(before.rows[id], tx_id, tx.begin_ts, end_ts);
            }
            assert(self@.rows =~= after.rows);
            assert(self@.txs =~= after.txs);
            assert(before.txs.dom() =~= old(self).txs@.dom());
            assert(old(self).txs@.dom().finite());
            lemma_mirrors_ended(old(self).tx_timestamps@, before.txs, tx_id);
        }
        if log_record.row_versions.len() > 0 {
            Ok(Some(log_record))
        } else {
            Ok(None)
        }
    }

    /// Drops all row versions that no transaction can see any more: those
    /// that ended at a timestamp before the oldest live transaction began.
    /// A row that is left without a version is dropped from the store.
    pub fn drop_unused_row_versions(&mut self)
        requires
            old(self).wf(),
        ensures
            final(self).wf(),
            final(self)@ == old(self)@.sweep(),
    {
        let ghost before = old(self)@;
        let ghost sweep = |chain: Seq<RowVersion>| sweep_chain(before.txs, chain);
        let oldest = self.tx_timestamps.oldest();
        let ids = self.rows.row_ids();
        proof {
            lemma_ascending_no_duplicates(ids@);
            lemma_rewritten_none(before.rows, ids@, sweep);
            assert(before.txs.dom() =~= old(self).txs@.dom());
            assert(old(self).txs@.dom().finite());
            assert forall|end_ts: u64| #[trigger]
                begun_by(before.txs, end_ts) <==> (oldest matches Some(least) && least
                    <= end_ts) by {
                lemma_mirrors_oldest(self.tx_timestamps@, before.txs, end_ts);
            }
        }
        let mut i: usize = 0;
        while i < ids.len()
            invariant
                i <= ids.len(),
                ids@.no_duplicates(),
                before.txs == tx_views(self.txs@),
                forall|chain: Seq<RowVersion>| #[trigger]
                    sweep(chain) == sweep_chain(before.txs, chain),
                forall|end_ts: u64| #[trigger]
                    begun_by(before.txs, end_ts) <==> (oldest matches Some(least) && least
                        <= end_ts),
                self.rows@ == rewritten(before.rows, ids@.take(i as int), sweep),
                self.txs == old(self).txs,
                self.tx_timestamps == old(self).tx_timestamps,
                self.tx_ids == old(self).tx_ids,
                self.clock == old(self).clock,
            decreases ids.len() - i,
        {
            let id = ids[i];
            proof {
                lemma_rewritten_next(before.rows, ids@, i as int, sweep);
            }
            match self.rows.get(id) {
                Some(versions) => {
                    let kept = sweep_versions(versions, &self.txs, oldest);
                    if kept.len() == 0 {
                        self.rows.remove(id);
                    } else {
                        self.rows.put(id, kept);
                    }
                },
                None => {},
            }
            i += 1;
        }
        proof {
            assert(ids@.take(i as int) =~= ids@);
            assert(self@.rows =~= before.sweep().rows);
            lemma_sweep_inv(before);
        }
    }

    /// Replays a log: adds the versions of each record, in the order of the
    /// log, to the ends of their chains, and moves the clock past the
    /// timestamp of each record. A log that holds a record which is not
    /// well formed is refused as a whole.
    pub fn recover(&mut self, tx_log: Vec<LogRecord>) -> (result: Result<(), DatabaseError>)
        requires
            old(self).wf(),
        ensures
            final(self).wf(),
            match result {
                Ok(()) => well_formed_log(log_view(tx_log@)) && final(self)@ == old(self)@.replay(
                    log_view(tx_log@),
                ),
                Err(error) => error == DatabaseError::Corrupt && !well_formed_log(log_view(tx_log@))
                    && final(self)@ == old(self)@,
            },
    {
        let mut n: usize = 0;
        while n < tx_log.len()
            invariant
                n <= tx_log.len(),
                self.wf(),
                self@ == old(self)@,
                forall|j: int| 0 <= j < n ==> (#[trigger] tx_log@[j])@.is_well_formed(),
            decreases tx_log.len() - n,
        {
            if !tx_log[n].check() {
                assert(log_view(tx_log@)[n as int] == tx_log@[n as int]@);
                return Err(DatabaseError::Corrupt);
            }
            n += 1;
        }
        let ghost before = old(self)@;
        let ghost log = log_view(tx_log@);
        let mut r: usize = 0;
        assert(log.take(0) =~= Seq::<RecordView>::empty());
        assert(well_formed_log(log)) by {
            assert forall|j: int| 0 <= j < log.len() implies (#[trigger] log[j]).is_well_formed() by {
                assert(tx_log@[j]@.is_well_formed());
            }
        }
        while r < tx_log.len()
            invariant
                r <= tx_log.len(),
                log == log_view(tx_log@),
                well_formed_log(log),
                self@ == before.replay(log.take(r as int)),
                self@.inv(),
                self.txs == old(self).txs,
                self.tx_timestamps == old(self).tx_timestamps,
            decreases tx_log.len() - r,
        {
            let record = &tx_log[r];
            let ghost start = self@;
            let mut k: usize = 0;
            assert(record.row_versions@.take(0) =~= Seq::<RowVersion>::empty());
            while k < record.row_versions.len()
                invariant
                    k <= record.row_versions.len(),
                    self.rows@ == append_versions(
                        start.rows,
                        record.row_versions@.take(k as int),
                    ),
                    self@.txs == start.txs,
                    self@.next_tx_id == start.next_tx_id,
                    self@.now == start.now,
                    self.txs == old(self).txs,
                    self.tx_timestamps == old(self).tx_timestamps,
                decreases record.row_versions.len() - k,
            {
                let version = record.row_versions[k].clone();
                let id = version.row.id;
                assert(record.row_versions@.take(k + 1).drop_last() =~= record.row_versions@.take(
                    k as int,
                ));
                assert(record.row_versions@.take(k + 1).last() == version);
                let mut versions = self.rows.get_or_create(id);
                versions.push(version);
                self.rows.put(id, versions);
                assert(self.rows@ =~= append_versions(
                    start.rows,
                    record.row_versions@.take(k + 1),
                ));
                k += 1;
            }
            assert(record.row_versions@.take(k as int) =~= record.row_versions@);
            assert(log[r as int].is_well_formed());
            self.clock.reset(record.tx_timestamp);
            proof {
                assert(log.take(r + 1).drop_last() =~= log.take(r as int));
                assert(log.take(r + 1).last() == record@);
                assert(self@ =~= start.replay_record(record@));
                lemma_replay_record_inv(start, record@);
            }
            r += 1;
        }
        assert(log.take(r as int) =~= log);
        Ok(())
    }

    /// The IDs of all rows that have a version, whoever may see it, in
    /// ascending order.
    pub fn scan_row_ids(&self) -> (result: Result<Vec<RowID>, DatabaseError>)
        ensures
            result matches Ok(ids) && ascending(ids@) && forall|id: RowID|
                ids@.contains(id) <==> self@.rows.contains_key(id),
    {
        Ok(self.rows.row_ids())
    }

    /// The IDs of the rows of table `table_id` that have a version, whoever
    /// may see it, in ascending order.
    pub fn scan_row_ids_for_table(&self, table_id: u64) -> (result: Result<
        Vec<RowID>,
        DatabaseError,
    >)
        ensures
            result matches Ok(ids) && ascending(ids@) && forall|id: RowID|
                ids@.contains(id) <==> self@.rows.contains_key(id) && id.table_id == table_id,
    {
        Ok(self.rows.row_ids_for_table(table_id))
    }
}

/// A database with MVCC.
///
/// Rows are read and written in transactions. A transaction sees the rows
/// as they were committed by the transactions that began before it, and
/// its own writes. Two active transactions cannot both end a version of the
/// same row: the later one is rolled back.
#[derive(Debug)]
pub struct Database<Clock: LogicalClock> {
    inner: DatabaseInner<Clock>,
}

impl<Clock: LogicalClock> View for Database<Clock> {
    type V = DbState;

    closed spec fn view(&self) -> DbState {
        self.inner@
    }
}

impl<Clock: LogicalClock> Database<Clock> {
    /// Whether the histogram of begin timestamps mirrors the table of live
    /// transactions.
    pub closed spec fn histogram_ok(&self) -> bool {
        self.inner.histogram_ok()
    }

    /// Whether the database is in order: its state meets the invariant, and
    /// the histogram mirrors the live transactions.
    pub open spec fn wf(&self) -> bool {
        self@.inv() && self.histogram_ok()
    }

    /// Creates a new database, which reads its timestamps from `clock`.
    pub fn new(clock: Clock) -> (db: Self)
        ensures
            db.wf(),
            db@ == DbState::empty(clock.peek()),
    {
        Database { inner: DatabaseInner::new(clock) }
    }

    /// Whether the database can begin no further transaction, or its clock
    /// can hand out no further timestamp.
    pub fn is_exhausted(&self) -> (exhausted: bool)
        ensures
            exhausted == (self@.next_tx_id == u64::MAX || self@.now == u64::MAX),
    {
        self.inner.is_exhausted()
    }

    /// Inserts a new row into the database.
    ///
    /// This function inserts a new `row` into the database within the
    /// context of the transaction `tx_id`. It fails if no live transaction
    /// has that ID.
    pub fn insert(&mut self, tx_id: u64, row: Row) -> (result: Result<(), DatabaseError>)
        requires
            old(self).wf(),
        ensures
            final(self).wf(),
            result == old(self)@.live_result(tx_id),
            final(self)@ == old(self)@.insert(tx_id, row),
    {
        self.inner.insert(tx_id, row)
    }

    /// Updates a row in the database with new values.
    ///
    /// This function updates an existing row in the database within the
    /// context of the transaction `tx_id`. The `row` argument identifies
    /// the row to be updated as `id` and contains the new values.
    ///
    /// If the transaction sees no row with that `id`, this function does
    /// nothing and returns `false`. Otherwise it ends the version that the
    /// transaction sees, inserts the new one and returns `true`. It fails
    /// where a delete of the row would fail.
    pub fn update(&mut self, tx_id: u64, row: Row) -> (result: Result<bool, DatabaseError>)
        requires
            old(self).wf(),
        ensures
            final(self).wf(),
            result == old(self)@.delete_result(tx_id, row.id),
            final(self)@ == old(self)@.update(tx_id, row),
    {
        match self.delete(tx_id, row.id) {
            Ok(true) => {
                let inserted = self.insert(tx_id, row);
                match inserted {
                    Ok(()) => Ok(true),
                    Err(error) => Err(error),
                }
            },
            Ok(false) => Ok(false),
            Err(error) => Err(error),
        }
    }

    /// Deletes a row from the table with the given `id`.
    ///
    /// This function ends, within the context of the transaction `tx_id`,
    /// the version of the row that the transaction sees, and returns
    /// whether it saw one. If another active transaction is ending a
    /// version of the row, the transaction is rolled back and the function
    /// fails with a write-write conflict. It also fails if no live
    /// transaction has the ID.
    pub fn delete(&mut self, tx_id: u64, id: RowID) -> (result: Result<bool, DatabaseError>)
        requires
            old(self).wf(),
        ensures
            final(self).wf(),
            result == old(self)@.delete_result(tx_id, id),
            final(self)@ == old(self)@.delete(tx_id, id),
    {
        self.inner.delete(tx_id, id)
    }

    /// Retrieves a row from the table with the given `id`.
    ///
    /// Returns the newest version of the row that the transaction `tx_id`
    /// sees, or `None` if it sees none. A row that was seen is added to the
    /// read set of the transaction. The function fails if no live
    /// transaction has the ID.
    pub fn read(&mut self, tx_id: u64, id: RowID) -> (result: Result<Option<Row>, DatabaseError>)
        requires
            old(self).wf(),
        ensures
            final(self).wf(),
            result == old(self)@.read_result(tx_id, id),
            final(self)@ == old(self)@.read(tx_id, id),
    {
        self.inner.read(tx_id, id)
    }

    /// The IDs of all rows that have a version, whoever may see it, in
    /// ascending order.
    pub fn scan_row_ids(&self) -> (result: Result<Vec<RowID>, DatabaseError>)
        ensures
            result matches Ok(ids) && ascending(ids@) && forall|id: RowID|
                ids@.contains(id) <==> self@.rows.contains_key(id),
    {
        self.inner.scan_row_ids()
    }

    /// The IDs of the rows of table `table_id` that have a version, whoever
    /// may see it, in ascending order.
    pub fn scan_row_ids_for_table(&self, table_id: u64) -> (result: Result<
        Vec<RowID>,
        DatabaseError,
    >)
        ensures
            result matches Ok(ids) && ascending(ids@) && forall|id: RowID|
                ids@.contains(id) <==> self@.rows.contains_key(id) && id.table_id == table_id,
    {
        self.inner.scan_row_ids_for_table(table_id)
    }

    /// Begins a new transaction in the database.
    ///
    /// Returns the ID of the new transaction, which is greater than every
    /// ID returned before. The transaction begins at the next timestamp of
    /// the clock.
    pub fn begin_tx(&mut self) -> (tx_id: u64)
        requires
            old(self).wf(),
            old(self)@.next_tx_id < u64::MAX,
            old(self)@.now < u64::MAX,
        ensures
            final(self).wf(),
            tx_id == old(self)@.next_tx_id,
            final(self)@.now > old(self)@.now,
            final(self)@ == old(self)@.begin(final(self)@.now),
    {
        self.inner.begin_tx()
    }

    /// Commits a transaction with the specified transaction ID.
    ///
    /// The clock hands out the commit timestamp. Every version that the
    /// transaction created now begins at the transaction's begin timestamp,
    /// and every version that it ended now ends at the commit timestamp.
    /// The function fails if no live transaction has the ID.
    ///
    /// Returns the log record of the commit, which the caller has to make
    /// durable before it reports the commit as done; a transaction that has
    /// written nothing has no record.
    pub fn commit_tx(&mut self, tx_id: u64) -> (result: Result<Option<LogRecord>, DatabaseError>)
        requires
            old(self).wf(),
            old(self)@.now < u64::MAX,
        ensures
            final(self).wf(),
            final(self)@.now > old(self)@.now,
            final(self)@ == old(self)@.commit(tx_id, final(self)@.now),
            match result {
                Ok(Some(record)) => {
                    &&& old(self)@.txs.contains_key(tx_id)
                    &&& record@ == old(self)@.commit_record(tx_id)
                    &&& record@.row_versions.len() > 0
                },
                Ok(None) => {
                    &&& old(self)@.txs.contains_key(tx_id)
                    &&& old(self)@.commit_log(tx_id).len() == 0
                },
                Err(error) => {
                    &&& !old(self)@.txs.contains_key(tx_id)
                    &&& error == old(self)@.refusal(tx_id)
                },
            },
    {
        self.inner.commit_tx(tx_id)
    }

    /// Rolls back a transaction with the specified ID.
    ///
    /// This function discards every change that the transaction has made
    /// and ends it. Where no live transaction has that ID, nothing happens.
    pub fn rollback_tx(&mut self, tx_id: u64)
        requires
            old(self).wf(),
        ensures
            final(self).wf(),
            final(self)@ == old(self)@.rollback(tx_id),
    {
        self.inner.rollback_tx(tx_id);
    }

    /// Drops all unused row versions from the database.
    ///
    /// A version is unused if it has ended at a timestamp before the oldest
    /// live transaction began: no transaction can see it any more.
    pub fn drop_unused_row_versions(&mut self)
        requires
            old(self).wf(),
        ensures
            final(self).wf(),
            final(self)@ == old(self)@.sweep(),
    {
        self.inner.drop_unused_row_versions();
    }

    /// Replays a log: adds the versions of each record, in the order of the
    /// log, to the ends of their chains, and moves the clock past the
    /// timestamp of each record. A log that holds a record which is not
    /// well formed is refused as a whole.
    pub fn recover(&mut self, tx_log: Vec<LogRecord>) -> (result: Result<(), DatabaseError>)
        requires
            old(self).wf(),
        ensures
            final(self).wf(),
            match result {
                Ok(()) => well_formed_log(log_view(tx_log@)) && final(self)@ == old(self)@.replay(
                    log_view(tx_log@),
                ),
                Err(error) => error == DatabaseError::Corrupt && !well_formed_log(log_view(tx_log@))
                    && final(self)@ == old(self)@,
            },
    {
        self.inner.recover(tx_log)
    }
}

} // verus!
