//! Every operation of the engine keeps the invariant of its state.

use crate::chain::owners_active;
use crate::row::{
    settled_by, well_formed_log, RecordView, Row, RowID, RowVersion, TxTimestampOrID,
};
use crate::rewrite::untouched;
use crate::state::{
    append_version, append_versions, newest_visible, raised, retained, settle, sweep_chain,
    touched_by, undo_chain, unend, write_target, DbState, WriteTarget,
};
use crate::transaction::TxView;
use crate::visibility::{
    end_owner_active, owner_active, version_visible, write_write_conflict,
};
use crate::transaction::lemma_with_id;
use vstd::prelude::*;

verus! {

/// A database without rows or transactions meets the invariant.
pub proof fn lemma_empty_inv(now: u64)
    ensures
        DbState::empty(now).inv(),
{
}

/// Beginning a transaction keeps the invariant.
pub proof fn lemma_begin_inv(s: DbState, after: u64)
    requires
        s.inv(),
        s.next_tx_id < u64::MAX,
        s.now < after,
    ensures
        s.begin(after).inv(),
{
    let t = s.begin(after);
    assert forall|tx_id: u64| #[trigger] t.txs.contains_key(tx_id) implies t.tx_ok(tx_id) by {
        if tx_id != s.next_tx_id {
            assert(s.txs.contains_key(tx_id));
            assert(s.tx_ok(tx_id));
        }
    }
    assert forall|id: RowID, i: int|
        t.rows.contains_key(id) && 0 <= i < t.rows[id].len() implies t.version_ok(
        id,
        #[trigger] t.rows[id][i],
    ) by {
        let rv = s.rows[id][i];
        assert(s.version_ok(id, rv));
        lemma_marker_stays_ok(s, t, id, rv.begin);
        if let Some(marker) = rv.end {
            lemma_marker_stays_ok(s, t, id, marker);
        }
    }
}

/// A marker that is in order stays in order when the clock moves on and
/// every live transaction stays live, with at least the rows it had in its
/// write set.
pub proof fn lemma_marker_stays_ok(s: DbState, t: DbState, id: RowID, marker: TxTimestampOrID)
    requires
        s.marker_ok(id, marker),
        s.now <= t.now,
        forall|tx_id: u64| #[trigger]
            s.txs.contains_key(tx_id) && s.txs[tx_id].write_set.contains(id)
                ==> t.txs.contains_key(tx_id) && t.txs[tx_id].write_set.contains(id),
    ensures
        t.marker_ok(id, marker),
{
    if let TxTimestampOrID::TxID(owner) = marker {
        assert(s.txs.contains_key(owner));
    }
}

/// Inserting a row keeps the invariant.
pub proof fn lemma_insert_inv(s: DbState, tx_id: u64, row: Row)
    requires
        s.inv(),
    ensures
        s.insert(tx_id, row).inv(),
{
    if s.txs.contains_key(tx_id) {
        let t = s.insert(tx_id, row);
        let made = RowVersion { begin: TxTimestampOrID::TxID(tx_id), end: None, row };
        lemma_wrote(s, tx_id, row.id);
        assert forall|id: RowID, i: int|
            t.rows.contains_key(id) && 0 <= i < t.rows[id].len() implies t.version_ok(
            id,
            #[trigger] t.rows[id][i],
        ) by {
            let rv = t.rows[id][i];
            if id == row.id && i == t.rows[id].len() - 1 {
                assert(rv == made);
            } else {
                assert(s.rows.contains_key(id));
                assert(rv == s.rows[id][i]);
                assert(s.version_ok(id, rv));
                lemma_marker_stays_ok(s, t, id, rv.begin);
                if let Some(marker) = rv.end {
                    lemma_marker_stays_ok(s, t, id, marker);
                }
            }
        }
    }
}

/// After a live transaction has written a row, the table of transactions
/// is in order as before, the row is in the write set of the transaction,
/// and every write set holds what it held.
pub proof fn lemma_wrote(s: DbState, tx_id: u64, id: RowID)
    requires
        s.inv(),
        s.txs.contains_key(tx_id),
    ensures
        ({
            let t = DbState { txs: s.wrote(tx_id, id), ..s };
            &&& forall|other: u64| #[trigger] t.txs.contains_key(other) ==> t.tx_ok(other)
            &&& t.txs.dom() == s.txs.dom()
            &&& t.txs[tx_id].write_set.contains(id)
            &&& forall|other: u64, row: RowID|
                s.txs.contains_key(other) && #[trigger] s.txs[other].write_set.contains(row)
                    ==> t.txs[other].write_set.contains(row)
        }),
{
    let t = DbState { txs: s.wrote(tx_id, id), ..s };
    lemma_with_id(s.txs[tx_id].write_set, id);
    assert(s.tx_ok(tx_id));
    assert forall|other: u64| #[trigger] t.txs.contains_key(other) implies t.tx_ok(other) by {
        assert(s.txs.contains_key(other));
        assert(s.tx_ok(other));
    }
    assert(t.txs.dom() =~= s.txs.dom());
}

/// In a state that meets the invariant, every marker on a version that
/// names a transaction names an active one.
pub proof fn lemma_owners_active(s: DbState, id: RowID)
    requires
        s.inv(),
        s.rows.contains_key(id),
    ensures
        owners_active(s.txs, s.rows[id]),
{
    let chain = s.rows[id];
    assert forall|i: int| 0 <= i < chain.len() implies owner_active(
        s.txs,
        (#[trigger] chain[i]).begin,
    ) && end_owner_active(s.txs, chain[i]) by {
        assert(s.version_ok(id, s.rows[id][i]));
        if let TxTimestampOrID::TxID(owner) = chain[i].begin {
            assert(s.txs.contains_key(owner));
            assert(s.tx_ok(owner));
        }
        if let Some(TxTimestampOrID::TxID(owner)) = chain[i].end {
            assert(s.txs.contains_key(owner));
            assert(s.tx_ok(owner));
        }
    }
}

/// Reading a row keeps the invariant.
pub proof fn lemma_read_inv(s: DbState, tx_id: u64, id: RowID)
    requires
        s.inv(),
    ensures
        s.read(tx_id, id).inv(),
{
    let t = s.read(tx_id, id);
    if t != s {
        lemma_with_id(s.txs[tx_id].read_set, id);
        assert(s.tx_ok(tx_id));
        assert forall|other: u64| #[trigger] t.txs.contains_key(other) implies t.tx_ok(other) by {
            assert(s.txs.contains_key(other));
            assert(s.tx_ok(other));
        }
        assert forall|row: RowID, i: int|
            t.rows.contains_key(row) && 0 <= i < t.rows[row].len() implies t.version_ok(
            row,
            #[trigger] t.rows[row][i],
        ) by {
            let rv = s.rows[row][i];
            assert(s.version_ok(row, rv));
            lemma_marker_stays_ok(s, t, row, rv.begin);
            if let Some(marker) = rv.end {
                lemma_marker_stays_ok(s, t, row, marker);
            }
        }
    }
}

/// Every version of a chain after a rollback is a version that the
/// transaction did not create, with the end that the transaction gave it
/// taken off.
pub proof fn lemma_undo_chain_versions(chain: Seq<RowVersion>, tx_id: u64)
    ensures
        forall|j: int|
            0 <= j < undo_chain(chain, tx_id).len() ==> exists|k: int|
                0 <= k < chain.len() && chain[k].begin != TxTimestampOrID::TxID(tx_id)
                    && #[trigger] undo_chain(chain, tx_id)[j] == unend(chain[k], tx_id),
    decreases chain.len(),
{
    if chain.len() > 0 {
        let rest = chain.drop_last();
        lemma_undo_chain_versions(rest, tx_id);
        let undone = undo_chain(chain, tx_id);
        assert forall|j: int| 0 <= j < undone.len() implies exists|k: int|
            0 <= k < chain.len() && chain[k].begin != TxTimestampOrID::TxID(tx_id)
                && #[trigger] undone[j] == unend(chain[k], tx_id) by {
            if j < undo_chain(rest, tx_id).len() {
                assert(undone[j] == undo_chain(rest, tx_id)[j]);
                let k = choose|k: int|
                    0 <= k < rest.len() && rest[k].begin != TxTimestampOrID::TxID(tx_id)
                        && undo_chain(rest, tx_id)[j] == unend(rest[k], tx_id);
                assert(chain[k] == rest[k]);
            } else {
                let k = chain.len() - 1;
                assert(undone[j] == unend(chain[k], tx_id));
            }
        }
    }
}

/// Rolling a transaction back keeps the invariant.
pub proof fn lemma_rollback_inv(s: DbState, tx_id: u64)
    requires
        s.inv(),
    ensures
        s.rollback(tx_id).inv(),
{
    if s.txs.contains_key(tx_id) {
        let t = s.rollback(tx_id);
        assert forall|other: u64| #[trigger] t.txs.contains_key(other) implies t.tx_ok(other) by {
            assert(s.txs.contains_key(other));
            assert(s.tx_ok(other));
        }
        assert forall|id: RowID, j: int|
            t.rows.contains_key(id) && 0 <= j < t.rows[id].len() implies t.version_ok(
            id,
            #[trigger] t.rows[id][j],
        ) by {
            let chain = s.rows[id];
            lemma_undo_chain_versions(chain, tx_id);
            let k = choose|k: int|
                0 <= k < chain.len() && chain[k].begin != TxTimestampOrID::TxID(tx_id)
                    && undo_chain(chain, tx_id)[j] == unend(chain[k], tx_id);
            assert(s.version_ok(id, s.rows[id][k]));
        }
    }
}

/// What the walk for a version to end has found: the newest version that
/// conflicts with the transaction or that the transaction sees. No newer
/// version does either.
pub proof fn lemma_write_target(txs: Map<u64, TxView>, tx: TxView, chain: Seq<RowVersion>)
    ensures
        match write_target(txs, tx, chain) {
            WriteTarget::Conflict => exists|i: int|
                0 <= i < chain.len() && write_write_conflict(txs, tx, #[trigger] chain[i])
                    && forall|j: int|
                    i < j < chain.len() ==> !version_visible(txs, tx, #[trigger] chain[j])
                        && !write_write_conflict(txs, tx, chain[j]),
            WriteTarget::Version(i) => 0 <= i < chain.len() && version_visible(txs, tx, chain[i])
                && !write_write_conflict(txs, tx, chain[i]) && forall|j: int|
                i < j < chain.len() ==> !version_visible(txs, tx, #[trigger] chain[j])
                    && !write_write_conflict(txs, tx, chain[j]),
            WriteTarget::Nothing => forall|j: int|
                0 <= j < chain.len() ==> !version_visible(txs, tx, #[trigger] chain[j])
                    && !write_write_conflict(txs, tx, chain[j]),
        },
    decreases chain.len(),
{
    if chain.len() > 0 {
        let rest = chain.drop_last();
        let last = chain.len() - 1;
        if write_write_conflict(txs, tx, chain.last()) {
            assert(write_write_conflict(txs, tx, chain[last]));
        } else if version_visible(txs, tx, chain.last()) {
        } else {
            lemma_write_target(txs, tx, rest);
            assert forall|j: int| 0 <= j < rest.len() implies rest[j] == chain[j] by {}
            match write_target(txs, tx, rest) {
                WriteTarget::Conflict => {
                    let i = choose|i: int|
                        0 <= i < rest.len() && write_write_conflict(txs, tx, #[trigger] rest[i])
                            && forall|j: int|
                            i < j < rest.len() ==> !version_visible(txs, tx, #[trigger] rest[j])
                                && !write_write_conflict(txs, tx, rest[j]);
                    assert(write_write_conflict(txs, tx, chain[i]));
                    assert forall|j: int| i < j < chain.len() implies !version_visible(
                        txs,
                        tx,
                        #[trigger] chain[j],
                    ) && !write_write_conflict(txs, tx, chain[j]) by {
                        if j < rest.len() {
                            assert(rest[j] == chain[j]);
                        }
                    }
                },
                WriteTarget::Version(i) => {
                    assert(rest[i] == chain[i]);
                    assert forall|j: int| i < j < chain.len() implies !version_visible(
                        txs,
                        tx,
                        #[trigger] chain[j],
                    ) && !write_write_conflict(txs, tx, chain[j]) by {
                        if j < rest.len() {
                            assert(rest[j] == chain[j]);
                        }
                    }
                },
                WriteTarget::Nothing => {
                    assert forall|j: int| 0 <= j < chain.len() implies !version_visible(
                        txs,
                        tx,
                        #[trigger] chain[j],
                    ) && !write_write_conflict(txs, tx, chain[j]) by {
                        if j < rest.len() {
                            assert(rest[j] == chain[j]);
                        }
                    }
                },
            }
        }
    }
}

/// What a read has found: the newest version that the transaction sees.
pub proof fn lemma_newest_visible(txs: Map<u64, TxView>, tx: TxView, chain: Seq<RowVersion>)
    ensures
        match newest_visible(txs, tx, chain) {
            Some(i) => 0 <= i < chain.len() && version_visible(txs, tx, chain[i]) && forall|j: int|
                i < j < chain.len() ==> !version_visible(txs, tx, #[trigger] chain[j]),
            None => forall|j: int|
                0 <= j < chain.len() ==> !version_visible(txs, tx, #[trigger] chain[j]),
        },
    decreases chain.len(),
{
    if chain.len() > 0 {
        let rest = chain.drop_last();
        if !version_visible(txs, tx, chain.last()) {
            lemma_newest_visible(txs, tx, rest);
            assert forall|j: int| 0 <= j < rest.len() implies rest[j] == chain[j] by {}
            match newest_visible(txs, tx, rest) {
                Some(i) => {
                    assert(rest[i] == chain[i]);
                    assert forall|j: int| i < j < chain.len() implies !version_visible(
                        txs,
                        tx,
                        #[trigger] chain[j],
                    ) by {
                        if j < rest.len() {
                            assert(rest[j] == chain[j]);
                        }
                    }
                },
                None => {
                    assert forall|j: int| 0 <= j < chain.len() implies !version_visible(
                        txs,
                        tx,
                        #[trigger] chain[j],
                    ) by {
                        if j < rest.len() {
                            assert(rest[j] == chain[j]);
                        }
                    }
                },
            }
        }
    }
}

/// Ending the version that a transaction sees keeps the invariant.
pub proof fn lemma_delete_inv(s: DbState, tx_id: u64, id: RowID)
    requires
        s.inv(),
    ensures
        s.delete(tx_id, id).inv(),
{
    if s.txs.contains_key(tx_id) {
        match s.target(tx_id, id) {
            WriteTarget::Conflict => {
                lemma_rollback_inv(s, tx_id);
            },
            WriteTarget::Version(i) => {
                let t = s.end_version(tx_id, id, i);
                let chain = s.rows[id];
                lemma_write_target(s.txs, s.txs[tx_id], chain);
                lemma_wrote(s, tx_id, id);
                assert(s.tx_ok(tx_id));
                assert(s.version_ok(id, s.rows[id][i]));
                assert forall|row: RowID, j: int|
                    t.rows.contains_key(row) && 0 <= j < t.rows[row].len() implies t.version_ok(
                    row,
                    #[trigger] t.rows[row][j],
                ) by {
                    let rv = s.rows[row][j];
                    assert(s.version_ok(row, rv));
                    lemma_marker_stays_ok(s, t, row, rv.begin);
                    if let Some(marker) = rv.end {
                        lemma_marker_stays_ok(s, t, row, marker);
                    }
                    if row == id && j == i {
                        if let TxTimestampOrID::TxID(owner) = rv.begin {
                            assert(s.txs.contains_key(owner));
                            assert(s.tx_ok(owner));
                        }
                    }
                }
            },
            WriteTarget::Nothing => {},
        }
    }
}

/// In a state that meets the invariant, a transaction has left no marker on
/// a row that is not in its write set.
pub proof fn lemma_untouched_outside(s: DbState, tx_id: u64, id: RowID)
    requires
        s.inv(),
        s.txs.contains_key(tx_id),
        s.rows.contains_key(id),
        !s.txs[tx_id].write_set.contains(id),
    ensures
        untouched(s.rows[id], tx_id),
{
    let chain = s.rows[id];
    assert forall|i: int| 0 <= i < chain.len() implies !touched_by(
        #[trigger] chain[i],
        tx_id,
    ) by {
        assert(s.version_ok(id, s.rows[id][i]));
    }
}

/// Committing a transaction keeps the invariant.
pub proof fn lemma_commit_inv(s: DbState, tx_id: u64, after: u64)
    requires
        s.inv(),
        s.now < after,
    ensures
        s.commit(tx_id, after).inv(),
{
    let t = s.commit(tx_id, after);
    assert forall|other: u64| #[trigger] t.txs.contains_key(other) implies t.tx_ok(other) by {
        assert(s.txs.contains_key(other));
        assert(s.tx_ok(other));
    }
    assert forall|id: RowID, i: int|
        t.rows.contains_key(id) && 0 <= i < t.rows[id].len() implies t.version_ok(
        id,
        #[trigger] t.rows[id][i],
    ) by {
        assert(s.rows.contains_key(id));
        let rv = s.rows[id][i];
        assert(s.version_ok(id, rv));
        if s.txs.contains_key(tx_id) {
            assert(s.tx_ok(tx_id));
            assert(t.rows[id][i] == settle(
                rv,
                tx_id,
                s.txs[tx_id].begin_ts,
                s.now,
            ));
        } else {
            assert(t.rows[id][i] == rv);
        }
    }
    assert forall|id: RowID| #[trigger] t.rows.contains_key(id) implies t.rows[id].len() > 0 by {
        assert(s.rows.contains_key(id));
    }
}

/// Every version of a chain after garbage collection is a version of the
/// chain that is kept.
pub proof fn lemma_sweep_chain_versions(txs: Map<u64, TxView>, chain: Seq<RowVersion>)
    ensures
        forall|j: int|
            0 <= j < sweep_chain(txs, chain).len() ==> exists|k: int|
                0 <= k < chain.len() && retained(txs, chain[k]) && #[trigger] sweep_chain(
                    txs,
                    chain,
                )[j] == chain[k],
    decreases chain.len(),
{
    if chain.len() > 0 {
        let rest = chain.drop_last();
        lemma_sweep_chain_versions(txs, rest);
        let swept = sweep_chain(txs, chain);
        assert forall|j: int| 0 <= j < swept.len() implies exists|k: int|
            0 <= k < chain.len() && retained(txs, chain[k]) && #[trigger] swept[j] == chain[k] by {
            if j < sweep_chain(txs, rest).len() {
                assert(swept[j] == sweep_chain(txs, rest)[j]);
                let k = choose|k: int|
                    0 <= k < rest.len() && retained(txs, rest[k]) && sweep_chain(txs, rest)[j]
                        == rest[k];
                assert(chain[k] == rest[k]);
            } else {
                let k = chain.len() - 1;
                assert(swept[j] == chain[k]);
            }
        }
    }
}

/// Garbage collection keeps the invariant.
pub proof fn lemma_sweep_inv(s: DbState)
    requires
        s.inv(),
    ensures
        s.sweep().inv(),
{
    let t = s.sweep();
    assert forall|id: RowID, j: int|
        t.rows.contains_key(id) && 0 <= j < t.rows[id].len() implies t.version_ok(
        id,
        #[trigger] t.rows[id][j],
    ) by {
        let chain = s.rows[id];
        lemma_sweep_chain_versions(s.txs, chain);
        let k = choose|k: int|
            0 <= k < chain.len() && retained(s.txs, chain[k]) && sweep_chain(s.txs, chain)[j]
                == chain[k];
        assert(s.version_ok(id, s.rows[id][k]));
    }
}

/// Adding versions whose markers are timestamps of the past to the ends of
/// their chains keeps the invariant.
pub proof fn lemma_append_versions_inv(s: DbState, versions: Seq<RowVersion>, ts: u64)
    requires
        s.inv(),
        ts < s.now,
        forall|i: int| 0 <= i < versions.len() ==> settled_by(#[trigger] versions[i], ts),
    ensures
        (DbState { rows: append_versions(s.rows, versions), ..s }).inv(),
    decreases versions.len(),
{
    if versions.len() > 0 {
        let rest = versions.drop_last();
        let rv = versions.last();
        assert forall|i: int| 0 <= i < rest.len() implies settled_by(#[trigger] rest[i], ts) by {
            assert(rest[i] == versions[i]);
        }
        lemma_append_versions_inv(s, rest, ts);
        let mid = DbState { rows: append_versions(s.rows, rest), ..s };
        let t = DbState { rows: append_version(mid.rows, rv), ..s };
        assert(settled_by(versions[versions.len() - 1], ts));
        assert forall|id: RowID, i: int|
            t.rows.contains_key(id) && 0 <= i < t.rows[id].len() implies t.version_ok(
            id,
            #[trigger] t.rows[id][i],
        ) by {
            if id == rv.row.id && i == t.rows[id].len() - 1 {
                assert(t.rows[id][i] == rv);
            } else {
                assert(mid.rows.contains_key(id));
                assert(t.rows[id][i] == mid.rows[id][i]);
                assert(mid.version_ok(id, mid.rows[id][i]));
            }
        }
        assert forall|id: RowID| #[trigger] t.rows.contains_key(id) implies t.rows[id].len()
            > 0 by {
            if id != rv.row.id {
                assert(mid.rows.contains_key(id));
            }
        }
    }
}

/// The invariant still holds when the clock has moved on.
pub proof fn lemma_later_inv(s: DbState, now: u64)
    requires
        s.inv(),
        s.now <= now,
    ensures
        (DbState { now, ..s }).inv(),
{
    let t = DbState { now, ..s };
    assert forall|tx_id: u64| #[trigger] t.txs.contains_key(tx_id) implies t.tx_ok(tx_id) by {
        assert(s.txs.contains_key(tx_id));
        assert(s.tx_ok(tx_id));
    }
    assert forall|id: RowID, i: int|
        t.rows.contains_key(id) && 0 <= i < t.rows[id].len() implies t.version_ok(
        id,
        #[trigger] t.rows[id][i],
    ) by {
        assert(s.version_ok(id, s.rows[id][i]));
    }
}

/// Replaying a well-formed log record keeps the invariant.
pub proof fn lemma_replay_record_inv(s: DbState, record: RecordView)
    requires
        s.inv(),
        record.is_well_formed(),
    ensures
        s.replay_record(record).inv(),
{
    let now = raised(s.now, record.tx_timestamp);
    lemma_later_inv(s, now);
    lemma_append_versions_inv(DbState { now, ..s }, record.row_versions, record.tx_timestamp);
}

/// Replaying a log of well-formed records keeps the invariant.
pub proof fn lemma_replay_inv(s: DbState, log: Seq<RecordView>)
    requires
        s.inv(),
        well_formed_log(log),
    ensures
        s.replay(log).inv(),
    decreases log.len(),
{
    if log.len() > 0 {
        let rest = log.drop_last();
        assert forall|i: int| 0 <= i < rest.len() implies (#[trigger] rest[i]).is_well_formed() by {
            assert(rest[i] == log[i]);
        }
        lemma_replay_inv(s, rest);
        assert(log[log.len() - 1].is_well_formed());
        lemma_replay_record_inv(s.replay(rest), log.last());
    }
}

} // verus!
