//! What holds of the engine whatever its callers do.
//!
//! A workload is a list of operations. The laws below speak of single
//! operations and of whole workloads, over the model of [`DbState`].

use crate::errors::DatabaseError;
use crate::invariants::{
    lemma_begin_inv, lemma_commit_inv, lemma_delete_inv, lemma_insert_inv, lemma_newest_visible,
    lemma_read_inv, lemma_rollback_inv, lemma_sweep_inv, lemma_write_target,
};
use crate::row::{settled_by, Row, RowID, RowVersion, TxTimestampOrID};
use crate::state::{
    begun_by, ended_by, logged, logged_rows, newest_visible, retained, settle, sweep_chain,
    touched_by, undo_chain, unend, write_target, DbState, WriteTarget,
};
use crate::transaction::TxView;
use crate::visibility::{version_visible, write_write_conflict};
use vstd::prelude::*;

verus! {

/// An operation on the database.
pub enum Op {
    /// A transaction begins; the clock moves on to `after`.
    Begin { after: u64 },
    /// Transaction `tx_id` inserts `row`.
    Insert { tx_id: u64, row: Row },
    /// Transaction `tx_id` updates a row to `row`.
    Update { tx_id: u64, row: Row },
    /// Transaction `tx_id` deletes row `id`.
    Delete { tx_id: u64, id: RowID },
    /// Transaction `tx_id` reads row `id`.
    Read { tx_id: u64, id: RowID },
    /// Transaction `tx_id` commits; the clock moves on to `after`.
    Commit { tx_id: u64, after: u64 },
    /// Transaction `tx_id` is rolled back.
    Rollback { tx_id: u64 },
    /// Garbage is collected.
    Sweep,
}

/// Whether `op` can be performed in state `s`: where the operation reads
/// the clock, the clock has a timestamp left and moves forward, and where
/// it takes a transaction ID, one is left.
pub open spec fn allowed(s: DbState, op: Op) -> bool {
    match op {
        Op::Begin { after } => s.next_tx_id < u64::MAX && s.now < after,
        Op::Commit { tx_id, after } => s.now < after,
        _ => true,
    }
}

/// The state after `op` has been performed in state `s`.
pub open spec fn step(s: DbState, op: Op) -> DbState {
    match op {
        Op::Begin { after } => s.begin(after),
        Op::Insert { tx_id, row } => s.insert(tx_id, row),
        Op::Update { tx_id, row } => s.update(tx_id, row),
        Op::Delete { tx_id, id } => s.delete(tx_id, id),
        Op::Read { tx_id, id } => s.read(tx_id, id),
        Op::Commit { tx_id, after } => s.commit(tx_id, after),
        Op::Rollback { tx_id } => s.rollback(tx_id),
        Op::Sweep => s.sweep(),
    }
}

/// The state after the operations of `ops` have been performed in turn,
/// starting in state `s`.
pub open spec fn run(s: DbState, ops: Seq<Op>) -> DbState
    decreases ops.len(),
{
    if ops.len() == 0 {
        s
    } else {
        step(run(s, ops.drop_last()), ops.last())
    }
}

/// Whether each operation of `ops` can be performed in the state that the
/// operations before it lead to, starting in state `s`.
pub open spec fn runs(s: DbState, ops: Seq<Op>) -> bool
    decreases ops.len(),
{
    if ops.len() == 0 {
        true
    } else {
        runs(s, ops.drop_last()) && allowed(run(s, ops.drop_last()), ops.last())
    }
}

/// Every operation keeps the invariant of the engine.
pub proof fn lemma_step_inv(s: DbState, op: Op)
    requires
        s.inv(),
        allowed(s, op),
    ensures
        step(s, op).inv(),
{
    match op {
        Op::Begin { after } => lemma_begin_inv(s, after),
        Op::Insert { tx_id, row } => lemma_insert_inv(s, tx_id, row),
        Op::Update { tx_id, row } => {
            lemma_delete_inv(s, tx_id, row.id);
            lemma_insert_inv(s.delete(tx_id, row.id), tx_id, row);
        },
        Op::Delete { tx_id, id } => lemma_delete_inv(s, tx_id, id),
        Op::Read { tx_id, id } => lemma_read_inv(s, tx_id, id),
        Op::Commit { tx_id, after } => lemma_commit_inv(s, tx_id, after),
        Op::Rollback { tx_id } => lemma_rollback_inv(s, tx_id),
        Op::Sweep => lemma_sweep_inv(s),
    }
}

/// Every workload keeps the invariant of the engine.
pub proof fn lemma_run_inv(s: DbState, ops: Seq<Op>)
    requires
        s.inv(),
        runs(s, ops),
    ensures
        run(s, ops).inv(),
    decreases ops.len(),
{
    if ops.len() > 0 {
        lemma_run_inv(s, ops.drop_last());
        lemma_step_inv(run(s, ops.drop_last()), ops.last());
    }
}

/// No workload lowers the ID that the next transaction gets.
pub proof fn lemma_next_tx_id_grows(s: DbState, ops: Seq<Op>)
    requires
        runs(s, ops),
    ensures
        s.next_tx_id <= run(s, ops).next_tx_id,
    decreases ops.len(),
{
    if ops.len() > 0 {
        lemma_next_tx_id_grows(s, ops.drop_last());
    }
}

/// Transaction IDs are handed out in strictly increasing order: whatever
/// happens after a transaction has begun, the next transaction to begin
/// gets a greater ID.
pub proof fn lemma_tx_ids_increase(s: DbState, after: u64, ops: Seq<Op>)
    requires
        allowed(s, Op::Begin { after }),
        runs(s.begin(after), ops),
    ensures
        s.next_tx_id < run(s.begin(after), ops).next_tx_id,
{
    lemma_next_tx_id_grows(s.begin(after), ops);
}

/// What garbage collection keeps of a chain is the chain, filtered.
pub proof fn lemma_sweep_chain_filters(txs: Map<u64, TxView>, chain: Seq<RowVersion>)
    ensures
        sweep_chain(txs, chain) == chain.filter(|rv: RowVersion| retained(txs, rv)),
    decreases chain.len(),
{
    reveal(Seq::filter);
    if chain.len() > 0 {
        lemma_sweep_chain_filters(txs, chain.drop_last());
    }
}

/// What a rollback leaves of a chain is the chain without the versions
/// that the transaction created, each without the end that the transaction
/// gave it.
pub proof fn lemma_undo_chain_filters(chain: Seq<RowVersion>, tx_id: u64)
    ensures
        undo_chain(chain, tx_id) == chain.filter(
            |rv: RowVersion| rv.begin != TxTimestampOrID::TxID(tx_id),
        ).map_values(|rv: RowVersion| unend(rv, tx_id)),
    decreases chain.len(),
{
    reveal(Seq::filter);
    if chain.len() > 0 {
        let rest = chain.drop_last();
        lemma_undo_chain_filters(rest, tx_id);
        let keep = |rv: RowVersion| rv.begin != TxTimestampOrID::TxID(tx_id);
        let clear = |rv: RowVersion| unend(rv, tx_id);
        if keep(chain.last()) {
            assert(rest.filter(keep).push(chain.last()).map_values(clear) =~= rest.filter(
                keep,
            ).map_values(clear).push(clear(chain.last())));
        }
    }
}

/// What a commit logs of a chain is the versions of the chain that the
/// transaction touched, each as it is after the commit.
pub proof fn lemma_logged_filters(chain: Seq<RowVersion>, tx_id: u64, begin_ts: u64, end_ts: u64)
    ensures
        logged(chain, tx_id, begin_ts, end_ts) == chain.filter(
            |rv: RowVersion| touched_by(rv, tx_id),
        ).map_values(|rv: RowVersion| settle(rv, tx_id, begin_ts, end_ts)),
    decreases chain.len(),
{
    reveal(Seq::filter);
    if chain.len() > 0 {
        let rest = chain.drop_last();
        lemma_logged_filters(rest, tx_id, begin_ts, end_ts);
        let touched = |rv: RowVersion| touched_by(rv, tx_id);
        let settled = |rv: RowVersion| settle(rv, tx_id, begin_ts, end_ts);
        if touched(chain.last()) {
            assert(rest.filter(touched).push(chain.last()).map_values(settled) =~= rest.filter(
                touched,
            ).map_values(settled).push(settled(chain.last())));
        }
    }
}

/// A transaction sees its own writes at once: after an insert, the
/// transaction reads the row that it has inserted.
pub proof fn lemma_reads_own_insert(s: DbState, tx_id: u64, row: Row)
    requires
        s.inv(),
        s.txs.contains_key(tx_id),
    ensures
        s.insert(tx_id, row).read_result(tx_id, row.id) == Ok::<Option<Row>, DatabaseError>(
            Some(row),
        ),
{
    let t = s.insert(tx_id, row);
    let made = RowVersion { begin: TxTimestampOrID::TxID(tx_id), end: None, row };
    assert(s.tx_ok(tx_id));
    assert(t.rows[row.id].last() == made);
    assert(version_visible(t.txs, t.txs[tx_id], made));
    assert(newest_visible(t.txs, t.txs[tx_id], t.rows[row.id]) == Some(
        t.rows[row.id].len() - 1,
    ));
}

/// A transaction does not see what it has deleted: after a delete that
/// ended a version, where the transaction sees no other version of the
/// row, it reads nothing for the row.
pub proof fn lemma_reads_own_delete(s: DbState, tx_id: u64, id: RowID, i: int)
    requires
        s.inv(),
        s.txs.contains_key(tx_id),
        s.target(tx_id, id) == WriteTarget::Version(i),
        forall|j: int|
            0 <= j < i ==> !version_visible(s.txs, s.txs[tx_id], #[trigger] s.rows[id][j]),
    ensures
        s.delete(tx_id, id).read_result(tx_id, id) == Ok::<Option<Row>, DatabaseError>(None),
{
    let t = s.delete(tx_id, id);
    let chain = s.rows[id];
    let ended = t.rows[id];
    lemma_write_target(s.txs, s.txs[tx_id], chain);
    lemma_newest_visible(t.txs, t.txs[tx_id], ended);
    assert(s.tx_ok(tx_id));
    assert forall|j: int| 0 <= j < ended.len() implies !version_visible(
        t.txs,
        t.txs[tx_id],
        #[trigger] ended[j],
    ) by {
        assert(s.version_ok(id, s.rows[id][j]));
        if j != i {
            assert(ended[j] == chain[j]);
            assert(!version_visible(s.txs, s.txs[tx_id], chain[j]));
            lemma_same_owners(s.txs, t.txs, s.txs[tx_id], t.txs[tx_id], chain[j]);
            if let TxTimestampOrID::TxID(owner) = chain[j].begin {
                assert(s.txs.contains_key(owner));
            }
            if let Some(TxTimestampOrID::TxID(owner)) = chain[j].end {
                assert(s.txs.contains_key(owner));
            }
        }
    }
}

/// A version is in a chain after garbage collection exactly if it was in
/// the chain before and is one that garbage collection keeps.
pub proof fn lemma_sweep_chain_contains(
    txs: Map<u64, TxView>,
    chain: Seq<RowVersion>,
    rv: RowVersion,
)
    ensures
        sweep_chain(txs, chain).contains(rv) <==> chain.contains(rv) && retained(txs, rv),
    decreases chain.len(),
{
    if chain.len() > 0 {
        let rest = chain.drop_last();
        let swept_rest = sweep_chain(txs, rest);
        let swept = sweep_chain(txs, chain);
        lemma_sweep_chain_contains(txs, rest, rv);
        if rest.contains(rv) {
            let i = choose|i: int| 0 <= i < rest.len() && rest[i] == rv;
            assert(chain[i] == rv);
        }
        if chain.contains(rv) {
            let i = choose|i: int| 0 <= i < chain.len() && chain[i] == rv;
            if i < rest.len() {
                assert(rest[i] == rv);
            }
        }
        if retained(txs, chain.last()) {
            assert(swept[swept.len() - 1] == chain.last());
            if swept_rest.contains(rv) {
                let i = choose|i: int| 0 <= i < swept_rest.len() && swept_rest[i] == rv;
                assert(swept[i] == rv);
            }
            if swept.contains(rv) {
                let i = choose|i: int| 0 <= i < swept.len() && swept[i] == rv;
                if i < swept_rest.len() {
                    assert(swept_rest[i] == rv);
                }
            }
        }
        assert(chain[chain.len() - 1] == chain.last());
    }
}

/// A version that has ended at a timestamp is in the store after garbage
/// collection exactly if some live transaction began at or before that
/// timestamp.
pub proof fn lemma_sweep_keeps(s: DbState, id: RowID, rv: RowVersion, end_ts: u64)
    requires
        s.rows.contains_key(id),
        s.rows[id].contains(rv),
        rv.end == Some(TxTimestampOrID::Timestamp(end_ts)),
    ensures
        (s.sweep().rows.contains_key(id) && s.sweep().rows[id].contains(rv)) <==> begun_by(
            s.txs,
            end_ts,
        ),
{
    lemma_sweep_chain_contains(s.txs, s.rows[id], rv);
    let swept = sweep_chain(s.txs, s.rows[id]);
    if swept.contains(rv) {
        let i = choose|i: int| 0 <= i < swept.len() && swept[i] == rv;
    }
}

/// A version that a transaction has created or ended is in the log of the
/// transaction's commit, as it is after the commit.
pub proof fn lemma_logged_contains(
    chain: Seq<RowVersion>,
    i: int,
    tx_id: u64,
    begin_ts: u64,
    end_ts: u64,
)
    requires
        0 <= i < chain.len(),
        touched_by(chain[i], tx_id),
    ensures
        logged(chain, tx_id, begin_ts, end_ts).contains(settle(chain[i], tx_id, begin_ts, end_ts)),
    decreases chain.len(),
{
    let rest = chain.drop_last();
    let all = logged(chain, tx_id, begin_ts, end_ts);
    let wanted = settle(chain[i], tx_id, begin_ts, end_ts);
    if i == chain.len() - 1 {
        assert(all[all.len() - 1] == wanted);
    } else {
        assert(rest[i] == chain[i]);
        lemma_logged_contains(rest, i, tx_id, begin_ts, end_ts);
        let before = logged(rest, tx_id, begin_ts, end_ts);
        let k = choose|k: int| 0 <= k < before.len() && before[k] == wanted;
        assert(all[k] == wanted);
    }
}

/// Every version in the log of a commit is a version that the transaction
/// has created or ended, as it is after the commit.
pub proof fn lemma_logged_versions(
    chain: Seq<RowVersion>,
    tx_id: u64,
    begin_ts: u64,
    end_ts: u64,
    k: int,
)
    requires
        0 <= k < logged(chain, tx_id, begin_ts, end_ts).len(),
    ensures
        exists|i: int|
            0 <= i < chain.len() && touched_by(#[trigger] chain[i], tx_id) && logged(
                chain,
                tx_id,
                begin_ts,
                end_ts,
            )[k] == settle(chain[i], tx_id, begin_ts, end_ts),
    decreases chain.len(),
{
    let rest = chain.drop_last();
    let before = logged(rest, tx_id, begin_ts, end_ts);
    if k < before.len() {
        lemma_logged_versions(rest, tx_id, begin_ts, end_ts, k);
        let i = choose|i: int|
            0 <= i < rest.len() && touched_by(#[trigger] rest[i], tx_id) && before[k] == settle(
                rest[i],
                tx_id,
                begin_ts,
                end_ts,
            );
        assert(chain[i] == rest[i]);
    } else {
        let i = chain.len() - 1;
        assert(touched_by(chain[i], tx_id));
    }
}

/// What a commit logs for a row of the write set is part of what it logs
/// for the whole write set.
pub proof fn lemma_logged_rows_contains(
    rows: Map<RowID, Seq<RowVersion>>,
    ids: Seq<RowID>,
    id: RowID,
    rv: RowVersion,
    tx_id: u64,
    begin_ts: u64,
    end_ts: u64,
)
    requires
        ids.contains(id),
        rows.contains_key(id),
        logged(rows[id], tx_id, begin_ts, end_ts).contains(rv),
    ensures
        logged_rows(rows, ids, tx_id, begin_ts, end_ts).contains(rv),
    decreases ids.len(),
{
    let rest = ids.drop_last();
    let all = logged_rows(rows, ids, tx_id, begin_ts, end_ts);
    let before = logged_rows(rows, rest, tx_id, begin_ts, end_ts);
    if ids.last() == id {
        let part = logged(rows[id], tx_id, begin_ts, end_ts);
        let k = choose|k: int| 0 <= k < part.len() && part[k] == rv;
        assert(all[before.len() + k] == rv);
    } else {
        let j = choose|j: int| 0 <= j < ids.len() && ids[j] == id;
        assert(rest[j] == id);
        lemma_logged_rows_contains(rows, rest, id, rv, tx_id, begin_ts, end_ts);
        let k = choose|k: int| 0 <= k < before.len() && before[k] == rv;
        assert(all[k] == rv);
    }
}

/// Every version that a commit logs for a write set is logged for one of
/// its rows.
pub proof fn lemma_logged_rows_versions(
    rows: Map<RowID, Seq<RowVersion>>,
    ids: Seq<RowID>,
    tx_id: u64,
    begin_ts: u64,
    end_ts: u64,
    k: int,
)
    requires
        0 <= k < logged_rows(rows, ids, tx_id, begin_ts, end_ts).len(),
    ensures
        exists|id: RowID|
            ids.contains(id) && #[trigger] rows.contains_key(id) && logged(
                rows[id],
                tx_id,
                begin_ts,
                end_ts,
            ).contains(logged_rows(rows, ids, tx_id, begin_ts, end_ts)[k]),
    decreases ids.len(),
{
    let rest = ids.drop_last();
    let all = logged_rows(rows, ids, tx_id, begin_ts, end_ts);
    let before = logged_rows(rows, rest, tx_id, begin_ts, end_ts);
    if k < before.len() {
        lemma_logged_rows_versions(rows, rest, tx_id, begin_ts, end_ts, k);
        let id = choose|id: RowID|
            rest.contains(id) && #[trigger] rows.contains_key(id) && logged(
                rows[id],
                tx_id,
                begin_ts,
                end_ts,
            ).contains(before[k]);
        let j = choose|j: int| 0 <= j < rest.len() && rest[j] == id;
        assert(ids[j] == id);
        assert(all[k] == before[k]);
    } else {
        let id = ids.last();
        assert(ids[ids.len() - 1] == id);
        let part = logged(rows[id], tx_id, begin_ts, end_ts);
        assert(part[k - before.len()] == all[k]);
    }
}

/// Every version that carried a marker of a committed transaction stands
/// in the store as it stands in the log record of the commit: where its
/// begin marker named the transaction it now begins at the transaction's
/// begin timestamp, and where its end marker named the transaction it now
/// ends at the timestamp of the record.
pub proof fn lemma_commit_logs(s: DbState, tx_id: u64, after: u64, id: RowID, i: int)
    requires
        s.inv(),
        s.txs.contains_key(tx_id),
        s.rows.contains_key(id),
        0 <= i < s.rows[id].len(),
        touched_by(s.rows[id][i], tx_id),
    ensures
        ({
            let was = s.rows[id][i];
            let stored = s.commit(tx_id, after).rows[id][i];
            let record = s.commit_record(tx_id);
            &&& record.row_versions.contains(stored)
            &&& was.begin == TxTimestampOrID::TxID(tx_id) ==> stored.begin
                == TxTimestampOrID::Timestamp(s.txs[tx_id].begin_ts)
            &&& was.end == Some(TxTimestampOrID::TxID(tx_id)) ==> stored.end == Some(
                TxTimestampOrID::Timestamp(record.tx_timestamp),
            )
        }),
{
    let tx = s.txs[tx_id];
    assert(s.version_ok(id, s.rows[id][i]));
    lemma_logged_contains(s.rows[id], i, tx_id, tx.begin_ts, s.now);
    lemma_logged_rows_contains(
        s.rows,
        tx.write_set,
        id,
        settle(s.rows[id][i], tx_id, tx.begin_ts, s.now),
        tx_id,
        tx.begin_ts,
        s.now,
    );
}

/// The log record of a commit holds nothing but the versions that carried
/// a marker of the transaction, as they stand in the store after the
/// commit.
pub proof fn lemma_commit_record_sound(s: DbState, tx_id: u64, after: u64, k: int)
    requires
        s.txs.contains_key(tx_id),
        0 <= k < s.commit_record(tx_id).row_versions.len(),
    ensures
        exists|id: RowID, i: int|
            #![trigger s.rows[id][i]]
            s.rows.contains_key(id) && 0 <= i < s.rows[id].len() && touched_by(
                s.rows[id][i],
                tx_id,
            ) && s.commit_record(tx_id).row_versions[k] == s.commit(tx_id, after).rows[id][i],
{
    let tx = s.txs[tx_id];
    let rv = s.commit_record(tx_id).row_versions[k];
    lemma_logged_rows_versions(s.rows, tx.write_set, tx_id, tx.begin_ts, s.now, k);
    let id = choose|id: RowID|
        tx.write_set.contains(id) && #[trigger] s.rows.contains_key(id) && logged(
            s.rows[id],
            tx_id,
            tx.begin_ts,
            s.now,
        ).contains(rv);
    let part = logged(s.rows[id], tx_id, tx.begin_ts, s.now);
    let j = choose|j: int| 0 <= j < part.len() && part[j] == rv;
    lemma_logged_versions(s.rows[id], tx_id, tx.begin_ts, s.now, j);
    let i = choose|i: int|
        0 <= i < s.rows[id].len() && touched_by(#[trigger] s.rows[id][i], tx_id) && part[j]
            == settle(s.rows[id][i], tx_id, tx.begin_ts, s.now);
    assert(s.commit(tx_id, after).rows[id][i] == rv);
}

/// The log record of a commit is well formed: recovery accepts it.
pub proof fn lemma_commit_record_well_formed(s: DbState, tx_id: u64)
    requires
        s.inv(),
        s.txs.contains_key(tx_id),
        s.now < u64::MAX,
    ensures
        s.commit_record(tx_id).is_well_formed(),
{
    let record = s.commit_record(tx_id);
    let tx = s.txs[tx_id];
    assert(s.tx_ok(tx_id));
    assert forall|k: int| 0 <= k < record.row_versions.len() implies settled_by(
        #[trigger] record.row_versions[k],
        record.tx_timestamp,
    ) by {
        lemma_commit_record_sound(s, tx_id, s.now, k);
        let (id, i) = choose|id: RowID, i: int|
            #![trigger s.rows[id][i]]
            s.rows.contains_key(id) && 0 <= i < s.rows[id].len() && touched_by(
                s.rows[id][i],
                tx_id,
            ) && record.row_versions[k] == s.commit(tx_id, s.now).rows[id][i];
        assert(s.version_ok(id, s.rows[id][i]));
    }
}

/// A version that a transaction did not create is still in its chain
/// after the rollback of the transaction, without the end that the
/// transaction gave it.
pub proof fn lemma_undo_chain_contains(chain: Seq<RowVersion>, i: int, tx_id: u64)
    requires
        0 <= i < chain.len(),
        chain[i].begin != TxTimestampOrID::TxID(tx_id),
    ensures
        undo_chain(chain, tx_id).contains(unend(chain[i], tx_id)),
    decreases chain.len(),
{
    let rest = chain.drop_last();
    let all = undo_chain(chain, tx_id);
    if i == chain.len() - 1 {
        assert(all[all.len() - 1] == unend(chain[i], tx_id));
    } else {
        assert(rest[i] == chain[i]);
        lemma_undo_chain_contains(rest, i, tx_id);
        let before = undo_chain(rest, tx_id);
        let k = choose|k: int| 0 <= k < before.len() && before[k] == unend(chain[i], tx_id);
        assert(all[k] == before[k]);
    }
}

/// What a transaction sees and conflicts with does not depend on the
/// write sets and read sets of the live transactions.
pub proof fn lemma_same_owners(
    txs: Map<u64, TxView>,
    other: Map<u64, TxView>,
    tx: TxView,
    other_tx: TxView,
    rv: RowVersion,
)
    requires
        tx.tx_id == other_tx.tx_id,
        tx.begin_ts == other_tx.begin_ts,
        rv.begin matches TxTimestampOrID::TxID(owner) ==> txs[owner].tx_id == other[owner].tx_id,
        rv.end matches Some(TxTimestampOrID::TxID(owner)) ==> txs[owner].tx_id
            == other[owner].tx_id,
    ensures
        version_visible(txs, tx, rv) == version_visible(other, other_tx, rv),
        write_write_conflict(txs, tx, rv) == write_write_conflict(other, other_tx, rv),
{
}

/// The first writer wins. Let two live transactions set out to end a
/// version of the same row, and let the second see no version of the row
/// that is newer than the one the first ends. Then the first succeeds, and
/// the second fails with a write-write conflict and is rolled back: it is
/// no longer live, while the first still is, and the version still carries
/// the end marker of the first.
pub proof fn lemma_first_writer_wins(s: DbState, first: u64, second: u64, id: RowID, i: int)
    requires
        s.inv(),
        s.txs.contains_key(first),
        s.txs.contains_key(second),
        first != second,
        s.target(first, id) == WriteTarget::Version(i),
        forall|j: int|
            i < j < s.rows[id].len() ==> !version_visible(
                s.txs,
                s.txs[second],
                #[trigger] s.rows[id][j],
            ),
    ensures
        ({
            let later = s.delete(first, id);
            let last = later.delete(second, id);
            &&& s.delete_result(first, id) == Ok::<bool, DatabaseError>(true)
            &&& later.delete_result(second, id) == Err::<bool, DatabaseError>(
                DatabaseError::WriteWriteConflict,
            )
            &&& last == later.rollback(second)
            &&& !last.txs.contains_key(second)
            &&& last.txs.contains_key(first)
            &&& last.rows.contains_key(id)
            &&& last.rows[id].contains(ended_by(s.rows[id][i], first))
        }),
{
    let chain = s.rows[id];
    let later = s.delete(first, id);
    let later_chain = later.rows[id];
    lemma_write_target(s.txs, s.txs[first], chain);
    lemma_write_target(later.txs, later.txs[second], later_chain);
    assert(s.tx_ok(first));
    assert(s.tx_ok(second));
    assert(s.version_ok(id, s.rows[id][i]));
    assert(later_chain[i] == ended_by(chain[i], first));
    assert(write_write_conflict(later.txs, later.txs[second], later_chain[i]));
    match write_target(later.txs, later.txs[second], later_chain) {
        WriteTarget::Conflict => {},
        WriteTarget::Version(k) => {
            assert(k > i);
            assert(later_chain[k] == chain[k]);
            assert(s.version_ok(id, s.rows[id][k]));
            lemma_same_owners(s.txs, later.txs, s.txs[second], later.txs[second], chain[k]);
        },
        WriteTarget::Nothing => {},
    }
    if let TxTimestampOrID::TxID(owner) = chain[i].begin {
        assert(s.txs.contains_key(owner));
        assert(s.tx_ok(owner));
    }
    lemma_undo_chain_contains(later_chain, i, second);
    assert(unend(later_chain[i], second) == later_chain[i]);
}

/// The first writer wins an update as well: where the first transaction
/// updates the row, the second cannot update it either.
pub proof fn lemma_first_update_wins(
    s: DbState,
    first: u64,
    second: u64,
    row: Row,
    other_row: Row,
    i: int,
)
    requires
        s.inv(),
        s.txs.contains_key(first),
        s.txs.contains_key(second),
        first != second,
        row.id == other_row.id,
        s.target(first, row.id) == WriteTarget::Version(i),
        forall|j: int|
            i < j < s.rows[row.id].len() ==> !version_visible(
                s.txs,
                s.txs[second],
                #[trigger] s.rows[row.id][j],
            ),
    ensures
        ({
            let later = s.update(first, row);
            let last = later.update(second, other_row);
            &&& s.delete_result(first, row.id) == Ok::<bool, DatabaseError>(true)
            &&& later.delete_result(second, row.id) == Err::<bool, DatabaseError>(
                DatabaseError::WriteWriteConflict,
            )
            &&& last == later.rollback(second)
            &&& !last.txs.contains_key(second)
            &&& last.txs.contains_key(first)
        }),
{
    let id = row.id;
    let ended = s.delete(first, id);
    let later = s.update(first, row);
    lemma_first_writer_wins(s, first, second, id, i);
    lemma_delete_inv(s, first, id);
    assert(ended.tx_ok(first));
    assert(ended.tx_ok(second));
    let made = later.rows[id].last();
    assert(later.rows[id].drop_last() =~= ended.rows[id]);
    assert(!write_write_conflict(later.txs, later.txs[second], made));
    assert(!version_visible(later.txs, later.txs[second], made));
    lemma_same_targets(ended.txs, later.txs, ended.txs[second], later.txs[second], ended.rows[id]);
}

/// The walk for a version to end finds the same in two tables of
/// transactions that give the owners of the markers the same IDs.
pub proof fn lemma_same_targets(
    txs: Map<u64, TxView>,
    other: Map<u64, TxView>,
    tx: TxView,
    other_tx: TxView,
    chain: Seq<RowVersion>,
)
    requires
        tx.tx_id == other_tx.tx_id,
        tx.begin_ts == other_tx.begin_ts,
        forall|owner: u64| (#[trigger] txs[owner]).tx_id == other[owner].tx_id,
    ensures
        write_target(txs, tx, chain) == write_target(other, other_tx, chain),
    decreases chain.len(),
{
    if chain.len() > 0 {
        lemma_same_owners(txs, other, tx, other_tx, chain.last());
        lemma_same_targets(txs, other, tx, other_tx, chain.drop_last());
    }
}

} // verus!
