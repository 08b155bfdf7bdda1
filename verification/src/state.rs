//! The mathematical model of the engine.
//!
//! [`DbState`] is what a database is to its callers: the version chains, the
//! live transactions, the next transaction ID and the next timestamp. Every
//! operation of the engine is a function on this model, and the executable
//! code is proved to compute it.

use crate::errors::DatabaseError;
use crate::row::{RecordView, Row, RowID, RowVersion, TxTimestampOrID};
use crate::transaction::{with_id, TransactionState, TxView};
use crate::visibility::{version_visible, write_write_conflict};
use vstd::prelude::*;

verus! {

/// The index of the newest version of `chain` that `tx` sees.
pub open spec fn newest_visible(
    txs: Map<u64, TxView>,
    tx: TxView,
    chain: Seq<RowVersion>,
) -> Option<int>
    decreases chain.len(),
{
    if chain.len() == 0 {
        None
    } else if version_visible(txs, tx, chain.last()) {
        Some(chain.len() - 1)
    } else {
        newest_visible(txs, tx, chain.drop_last())
    }
}

/// What a transaction that wants to end the visible version of a row finds.
pub enum WriteTarget {
    /// Another active transaction is ending a version of the row.
    Conflict,
    /// The version at this index of the chain is the one to end.
    Version(int),
    /// The transaction sees no version of the row.
    Nothing,
}

/// Walks `chain` from its newest version to its oldest and stops at the
/// first version that conflicts with `tx` or that `tx` sees.
pub open spec fn write_target(
    txs: Map<u64, TxView>,
    tx: TxView,
    chain: Seq<RowVersion>,
) -> WriteTarget
    decreases chain.len(),
{
    if chain.len() == 0 {
        WriteTarget::Nothing
    } else if write_write_conflict(txs, tx, chain.last()) {
        WriteTarget::Conflict
    } else if version_visible(txs, tx, chain.last()) {
        WriteTarget::Version(chain.len() - 1)
    } else {
        write_target(txs, tx, chain.drop_last())
    }
}

/// `rv`, ended by transaction `tx_id`.
pub open spec fn ended_by(rv: RowVersion, tx_id: u64) -> RowVersion {
    RowVersion { begin: rv.begin, end: Some(TxTimestampOrID::TxID(tx_id)), row: rv.row }
}

/// Whether a marker of `rv` names transaction `tx_id`.
pub open spec fn touched_by(rv: RowVersion, tx_id: u64) -> bool {
    rv.begin == TxTimestampOrID::TxID(tx_id) || rv.end == Some(TxTimestampOrID::TxID(tx_id))
}

/// `rv` after the commit of transaction `tx_id`: where the begin marker
/// names the transaction it becomes the transaction's begin timestamp, and
/// where the end marker names it, it becomes the commit timestamp.
pub open spec fn settle(rv: RowVersion, tx_id: u64, begin_ts: u64, end_ts: u64) -> RowVersion {
    RowVersion {
        begin: if rv.begin == TxTimestampOrID::TxID(tx_id) {
            TxTimestampOrID::Timestamp(begin_ts)
        } else {
            rv.begin
        },
        end: if rv.end == Some(TxTimestampOrID::TxID(tx_id)) {
            Some(TxTimestampOrID::Timestamp(end_ts))
        } else {
            rv.end
        },
        row: rv.row,
    }
}

/// `chain` after the commit of transaction `tx_id`.
pub open spec fn settle_chain(
    chain: Seq<RowVersion>,
    tx_id: u64,
    begin_ts: u64,
    end_ts: u64,
) -> Seq<RowVersion> {
    chain.map_values(|rv: RowVersion| settle(rv, tx_id, begin_ts, end_ts))
}

/// The versions of `chain` that transaction `tx_id` created or ended, as
/// they are after its commit, in the order of the chain.
pub open spec fn logged(chain: Seq<RowVersion>, tx_id: u64, begin_ts: u64, end_ts: u64) -> Seq<
    RowVersion,
>
    decreases chain.len(),
{
    if chain.len() == 0 {
        Seq::empty()
    } else if touched_by(chain.last(), tx_id) {
        logged(chain.drop_last(), tx_id, begin_ts, end_ts).push(
            settle(chain.last(), tx_id, begin_ts, end_ts),
        )
    } else {
        logged(chain.drop_last(), tx_id, begin_ts, end_ts)
    }
}

/// What the commit of transaction `tx_id` logs for the rows `ids`: for each
/// row in turn, the versions of its chain that the transaction touched.
pub open spec fn logged_rows(
    rows: Map<RowID, Seq<RowVersion>>,
    ids: Seq<RowID>,
    tx_id: u64,
    begin_ts: u64,
    end_ts: u64,
) -> Seq<RowVersion>
    decreases ids.len(),
{
    if ids.len() == 0 {
        Seq::empty()
    } else if rows.contains_key(ids.last()) {
        logged_rows(rows, ids.drop_last(), tx_id, begin_ts, end_ts) + logged(
            rows[ids.last()],
            tx_id,
            begin_ts,
            end_ts,
        )
    } else {
        logged_rows(rows, ids.drop_last(), tx_id, begin_ts, end_ts)
    }
}

/// `rv` with the end marker taken off if it names transaction `tx_id`.
pub open spec fn unend(rv: RowVersion, tx_id: u64) -> RowVersion {
    RowVersion {
        begin: rv.begin,
        end: if rv.end == Some(TxTimestampOrID::TxID(tx_id)) {
            None
        } else {
            rv.end
        },
        row: rv.row,
    }
}

/// `chain` after the rollback of transaction `tx_id`: the versions that the
/// transaction created are gone, and the versions that it ended have no end.
pub open spec fn undo_chain(chain: Seq<RowVersion>, tx_id: u64) -> Seq<RowVersion>
    decreases chain.len(),
{
    if chain.len() == 0 {
        Seq::empty()
    } else if chain.last().begin == TxTimestampOrID::TxID(tx_id) {
        undo_chain(chain.drop_last(), tx_id)
    } else {
        undo_chain(chain.drop_last(), tx_id).push(unend(chain.last(), tx_id))
    }
}

/// Whether some live transaction began at `ts` or before.
pub open spec fn begun_by(txs: Map<u64, TxView>, ts: u64) -> bool {
    exists|tx_id: u64| #[trigger] txs.contains_key(tx_id) && txs[tx_id].begin_ts <= ts
}

/// Whether garbage collection keeps `rv`: it is current, or a live
/// transaction is ending it, or it ended at a timestamp that some live
/// transaction began at or before.
pub open spec fn retained(txs: Map<u64, TxView>, rv: RowVersion) -> bool {
    match rv.end {
        None => true,
        Some(TxTimestampOrID::TxID(owner)) => txs.contains_key(owner),
        Some(TxTimestampOrID::Timestamp(end_ts)) => begun_by(txs, end_ts),
    }
}

/// The versions of `chain` that garbage collection keeps, in their order.
pub open spec fn sweep_chain(txs: Map<u64, TxView>, chain: Seq<RowVersion>) -> Seq<RowVersion>
    decreases chain.len(),
{
    if chain.len() == 0 {
        Seq::empty()
    } else if retained(txs, chain.last()) {
        sweep_chain(txs, chain.drop_last()).push(chain.last())
    } else {
        sweep_chain(txs, chain.drop_last())
    }
}

/// `rows` with `rv` added at the end of the chain of its row.
pub open spec fn append_version(rows: Map<RowID, Seq<RowVersion>>, rv: RowVersion) -> Map<
    RowID,
    Seq<RowVersion>,
> {
    if rows.contains_key(rv.row.id) {
        rows.insert(rv.row.id, rows[rv.row.id].push(rv))
    } else {
        rows.insert(rv.row.id, seq![rv])
    }
}

/// `rows` with each version of `versions` added, in turn, at the end of the
/// chain of its row.
pub open spec fn append_versions(
    rows: Map<RowID, Seq<RowVersion>>,
    versions: Seq<RowVersion>,
) -> Map<RowID, Seq<RowVersion>>
    decreases versions.len(),
{
    if versions.len() == 0 {
        rows
    } else {
        append_version(append_versions(rows, versions.drop_last()), versions.last())
    }
}

/// The later of `now` and the timestamp after `ts`.
pub open spec fn raised(now: u64, ts: u64) -> u64 {
    if now > ts {
        now
    } else {
        (ts + 1) as u64
    }
}

/// The state of the engine.
pub struct DbState {
    /// The version chain of every row that has one.
    pub rows: Map<RowID, Seq<RowVersion>>,
    /// The live transactions.
    pub txs: Map<u64, TxView>,
    /// The ID that the next transaction gets.
    pub next_tx_id: u64,
    /// The timestamp that the clock hands out next.
    pub now: u64,
}

impl DbState {
    /// A database without rows or transactions, whose clock stands at `now`.
    pub open spec fn empty(now: u64) -> DbState {
        DbState { rows: Map::empty(), txs: Map::empty(), next_tx_id: 1, now }
    }

    /// Whether `marker`, found on a version of row `id`, is in order: a
    /// timestamp lies in the past, and a transaction ID names a live
    /// transaction that has the row in its write set.
    pub open spec fn marker_ok(self, id: RowID, marker: TxTimestampOrID) -> bool {
        match marker {
            TxTimestampOrID::Timestamp(ts) => ts < self.now,
            TxTimestampOrID::TxID(owner) => self.txs.contains_key(owner)
                && self.txs[owner].write_set.contains(id),
        }
    }

    /// Whether `rv`, found in the chain of row `id`, is in order.
    pub open spec fn version_ok(self, id: RowID, rv: RowVersion) -> bool {
        &&& rv.row.id == id
        &&& self.marker_ok(id, rv.begin)
        &&& rv.end matches Some(marker) ==> self.marker_ok(id, marker)
        &&& rv.begin matches TxTimestampOrID::TxID(owner) ==> rv.end is None || rv.end == Some(
            TxTimestampOrID::TxID(owner),
        )
    }

    /// Whether the entry of transaction `tx_id` in the table is in order.
    pub open spec fn tx_ok(self, tx_id: u64) -> bool {
        let tx = self.txs[tx_id];
        &&& tx.tx_id == tx_id
        &&& tx.state == TransactionState::Active
        &&& 1 <= tx_id < self.next_tx_id
        &&& tx.begin_ts < self.now
        &&& tx.write_set.no_duplicates()
        &&& tx.read_set.no_duplicates()
    }

    /// The invariant of the engine. Transaction IDs start at one. Every live
    /// transaction is active, was handed its ID and began in the past. No
    /// chain is empty, and every version in a chain belongs to the chain's
    /// row and carries markers that are in order.
    pub open spec fn inv(self) -> bool {
        &&& 1 <= self.next_tx_id
        &&& forall|tx_id: u64| #[trigger] self.txs.contains_key(tx_id) ==> self.tx_ok(tx_id)
        &&& forall|id: RowID| #[trigger] self.rows.contains_key(id) ==> self.rows[id].len() > 0
        &&& forall|id: RowID, i: int|
            self.rows.contains_key(id) && 0 <= i < self.rows[id].len() ==> self.version_ok(
                id,
                #[trigger] self.rows[id][i],
            )
    }

    /// Why an operation in the name of `tx_id` is refused when no live
    /// transaction has that ID: the ID was handed out and its transaction
    /// has ended, or the ID was never handed out.
    pub open spec fn refusal(self, tx_id: u64) -> DatabaseError {
        if 1 <= tx_id < self.next_tx_id {
            DatabaseError::TxTerminated
        } else {
            DatabaseError::NoSuchTransactionID(tx_id)
        }
    }

    /// The state after a transaction has begun: it has the next ID and the
    /// next timestamp, and the clock has moved on to `after`.
    pub open spec fn begin(self, after: u64) -> DbState {
        DbState {
            rows: self.rows,
            txs: self.txs.insert(
                self.next_tx_id,
                TxView {
                    state: TransactionState::Active,
                    tx_id: self.next_tx_id,
                    begin_ts: self.now,
                    write_set: Seq::empty(),
                    read_set: Seq::empty(),
                },
            ),
            next_tx_id: (self.next_tx_id + 1) as u64,
            now: after,
        }
    }

    /// The table of transactions after `tx_id` has written row `id`.
    pub open spec fn wrote(self, tx_id: u64, id: RowID) -> Map<u64, TxView> {
        let tx = self.txs[tx_id];
        self.txs.insert(
            tx_id,
            TxView {
                state: tx.state,
                tx_id: tx.tx_id,
                begin_ts: tx.begin_ts,
                write_set: with_id(tx.write_set, id),
                read_set: tx.read_set,
            },
        )
    }

    /// What an operation in the name of `tx_id` returns if it does nothing
    /// but test that the transaction is live.
    pub open spec fn live_result(self, tx_id: u64) -> Result<(), DatabaseError> {
        if self.txs.contains_key(tx_id) {
            Ok(())
        } else {
            Err(self.refusal(tx_id))
        }
    }

    /// The state after transaction `tx_id` has inserted `row`: the chain of
    /// the row has a new version at its end, which begins with the
    /// transaction and has no end, and the row is in the write set of the
    /// transaction. Where no live transaction has the ID, nothing changes.
    pub open spec fn insert(self, tx_id: u64, row: Row) -> DbState {
        if self.txs.contains_key(tx_id) {
            DbState {
                rows: append_version(
                    self.rows,
                    RowVersion { begin: TxTimestampOrID::TxID(tx_id), end: None, row },
                ),
                txs: self.wrote(tx_id, row.id),
                next_tx_id: self.next_tx_id,
                now: self.now,
            }
        } else {
            self
        }
    }

    /// The index of the version of row `id` that live transaction `tx_id`
    /// reads: the newest one it sees.
    pub open spec fn read_index(self, tx_id: u64, id: RowID) -> Option<int> {
        if self.rows.contains_key(id) {
            newest_visible(self.txs, self.txs[tx_id], self.rows[id])
        } else {
            None
        }
    }

    /// The row that live transaction `tx_id` sees under `id`, if it sees
    /// one.
    pub open spec fn visible_row(self, tx_id: u64, id: RowID) -> Option<Row> {
        match self.read_index(tx_id, id) {
            Some(i) => Some(self.rows[id][i].row),
            None => None,
        }
    }

    /// What `read` returns to transaction `tx_id` for row `id`.
    pub open spec fn read_result(
        self,
        tx_id: u64,
        id: RowID,
    ) -> Result<Option<Row>, DatabaseError> {
        if self.txs.contains_key(tx_id) {
            Ok(self.visible_row(tx_id, id))
        } else {
            Err(self.refusal(tx_id))
        }
    }

    /// The state after transaction `tx_id` has read row `id`: if it is live
    /// and saw a version, the row is in its read set.
    pub open spec fn read(self, tx_id: u64, id: RowID) -> DbState {
        if self.txs.contains_key(tx_id) && self.read_index(tx_id, id) is Some {
            let tx = self.txs[tx_id];
            DbState {
                rows: self.rows,
                txs: self.txs.insert(
                    tx_id,
                    TxView {
                        state: tx.state,
                        tx_id: tx.tx_id,
                        begin_ts: tx.begin_ts,
                        write_set: tx.write_set,
                        read_set: with_id(tx.read_set, id),
                    },
                ),
                next_tx_id: self.next_tx_id,
                now: self.now,
            }
        } else {
            self
        }
    }

    /// What live transaction `tx_id` finds when it sets out to end the
    /// version of row `id` that it sees.
    pub open spec fn target(self, tx_id: u64, id: RowID) -> WriteTarget {
        if self.rows.contains_key(id) {
            write_target(self.txs, self.txs[tx_id], self.rows[id])
        } else {
            WriteTarget::Nothing
        }
    }

    /// The state after the rollback of transaction `tx_id`: in every chain
    /// the versions it created are gone and the versions it ended have no
    /// end; a chain that this empties is gone; the transaction is no longer
    /// live. Where no live transaction has the ID, nothing changes.
    pub open spec fn rollback(self, tx_id: u64) -> DbState {
        if self.txs.contains_key(tx_id) {
            DbState {
                rows: Map::new(
                    |id: RowID|
                        self.rows.contains_key(id) && undo_chain(self.rows[id], tx_id).len() > 0,
                    |id: RowID| undo_chain(self.rows[id], tx_id),
                ),
                txs: self.txs.remove(tx_id),
                next_tx_id: self.next_tx_id,
                now: self.now,
            }
        } else {
            self
        }
    }

    /// What `delete` returns to transaction `tx_id` for row `id`: whether
    /// it ended a version, or why it could not.
    pub open spec fn delete_result(self, tx_id: u64, id: RowID) -> Result<bool, DatabaseError> {
        if self.txs.contains_key(tx_id) {
            match self.target(tx_id, id) {
                WriteTarget::Conflict => Err(DatabaseError::WriteWriteConflict),
                WriteTarget::Version(_) => Ok(true),
                WriteTarget::Nothing => Ok(false),
            }
        } else {
            Err(self.refusal(tx_id))
        }
    }

    /// The state after live transaction `tx_id` has ended the version at
    /// index `i` of the chain of row `id`.
    pub open spec fn end_version(self, tx_id: u64, id: RowID, i: int) -> DbState {
        DbState {
            rows: self.rows.insert(id, self.rows[id].update(i, ended_by(self.rows[id][i], tx_id))),
            txs: self.wrote(tx_id, id),
            next_tx_id: self.next_tx_id,
            now: self.now,
        }
    }

    /// The state after transaction `tx_id` has tried to delete row `id`. On
    /// a conflict the transaction is rolled back. Where it sees a version,
    /// that version is ended by the transaction and the row is in its write
    /// set. Where it sees none, or is not live, nothing changes.
    pub open spec fn delete(self, tx_id: u64, id: RowID) -> DbState {
        if self.txs.contains_key(tx_id) {
            match self.target(tx_id, id) {
                WriteTarget::Conflict => self.rollback(tx_id),
                WriteTarget::Version(i) => self.end_version(tx_id, id, i),
                WriteTarget::Nothing => self,
            }
        } else {
            self
        }
    }

    /// The state after transaction `tx_id` has tried to update a row to
    /// `row`: a delete of the row and, where that ended a version, an
    /// insert of `row`.
    pub open spec fn update(self, tx_id: u64, row: Row) -> DbState {
        if self.delete_result(tx_id, row.id) == Ok::<bool, DatabaseError>(true) {
            self.delete(tx_id, row.id).insert(tx_id, row)
        } else {
            self.delete(tx_id, row.id)
        }
    }

    /// What the commit of live transaction `tx_id` logs: the versions that
    /// the transaction touched, row by row in the order of its write set.
    pub open spec fn commit_log(self, tx_id: u64) -> Seq<RowVersion> {
        let tx = self.txs[tx_id];
        logged_rows(self.rows, tx.write_set, tx_id, tx.begin_ts, self.now)
    }

    /// The log record of the commit of live transaction `tx_id`.
    pub open spec fn commit_record(self, tx_id: u64) -> RecordView {
        RecordView { tx_timestamp: self.now, row_versions: self.commit_log(tx_id) }
    }

    /// The state after a commit of transaction `tx_id`: the clock has
    /// handed out the commit timestamp and moved on to `after`. Where the
    /// transaction is live, every marker that named it is a timestamp, and
    /// it is no longer live.
    pub open spec fn commit(self, tx_id: u64, after: u64) -> DbState {
        if self.txs.contains_key(tx_id) {
            let tx = self.txs[tx_id];
            DbState {
                rows: self.rows.map_values(
                    |chain: Seq<RowVersion>| settle_chain(chain, tx_id, tx.begin_ts, self.now),
                ),
                txs: self.txs.remove(tx_id),
                next_tx_id: self.next_tx_id,
                now: after,
            }
        } else {
            DbState { rows: self.rows, txs: self.txs, next_tx_id: self.next_tx_id, now: after }
        }
    }

    /// The state after garbage collection: every chain holds the versions
    /// that are kept, and a chain that this empties is gone.
    pub open spec fn sweep(self) -> DbState {
        DbState {
            rows: Map::new(
                |id: RowID|
                    self.rows.contains_key(id) && sweep_chain(self.txs, self.rows[id]).len() > 0,
                |id: RowID| sweep_chain(self.txs, self.rows[id]),
            ),
            txs: self.txs,
            next_tx_id: self.next_tx_id,
            now: self.now,
        }
    }

    /// The state after the replay of one log record: its versions are at
    /// the end of their chains, and the clock is past its timestamp.
    pub open spec fn replay_record(self, record: RecordView) -> DbState {
        DbState {
            rows: append_versions(self.rows, record.row_versions),
            txs: self.txs,
            next_tx_id: self.next_tx_id,
            now: raised(self.now, record.tx_timestamp),
        }
    }

    /// The state after the replay of a log, record by record.
    pub open spec fn replay(self, log: Seq<RecordView>) -> DbState
        decreases log.len(),
    {
        if log.len() == 0 {
            self
        } else {
            self.replay(log.drop_last()).replay_record(log.last())
        }
    }
}

} // verus!
