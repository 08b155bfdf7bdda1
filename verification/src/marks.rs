//! Write sets and markers go together: every row in the write set of a live
//! transaction has a version that carries a marker of the transaction.
//!
//! The invariant of the engine holds the converse: a marker of a
//! transaction is found only on rows of its write set.

use crate::invariants::{lemma_delete_inv, lemma_write_target};
use crate::laws::{
    allowed, lemma_run_inv, lemma_sweep_chain_contains, lemma_undo_chain_contains, run, runs, step,
    Op,
};
use crate::row::{Row, RowID, RowVersion, TxTimestampOrID};
use crate::state::{
    ended_by, retained, settle, sweep_chain, touched_by, undo_chain, unend, DbState, WriteTarget,
};
use crate::transaction::{lemma_with_id, TxView};
use vstd::prelude::*;

verus! {

/// Whether some version of `chain` carries a marker of transaction `tx_id`.
pub open spec fn marked(chain: Seq<RowVersion>, tx_id: u64) -> bool {
    exists|i: int| 0 <= i < chain.len() && touched_by(#[trigger] chain[i], tx_id)
}

/// Whether every row in the write set of a live transaction has a chain
/// with a version that carries a marker of the transaction.
pub open spec fn write_sets_marked(s: DbState) -> bool {
    forall|tx_id: u64, id: RowID|
        s.txs.contains_key(tx_id) && #[trigger] s.txs[tx_id].write_set.contains(id)
            ==> s.rows.contains_key(id) && marked(s.rows[id], tx_id)
}

/// A chain that carries a marker still does so with a version added at
/// its end.
pub proof fn lemma_marked_push(chain: Seq<RowVersion>, rv: RowVersion, tx_id: u64)
    requires
        marked(chain, tx_id) || touched_by(rv, tx_id),
    ensures
        marked(chain.push(rv), tx_id),
{
    if marked(chain, tx_id) {
        let i = choose|i: int| 0 <= i < chain.len() && touched_by(#[trigger] chain[i], tx_id);
        assert(chain.push(rv)[i] == chain[i]);
    } else {
        assert(chain.push(rv)[chain.len() as int] == rv);
    }
}

/// A chain that carries a marker of a transaction still does so after the
/// rollback of another transaction.
pub proof fn lemma_marked_undo(chain: Seq<RowVersion>, gone: u64, tx_id: u64)
    requires
        tx_id != gone,
        marked(chain, tx_id),
        forall|i: int|
            0 <= i < chain.len() && (#[trigger] chain[i]).begin == TxTimestampOrID::TxID(gone)
                ==> chain[i].end != Some(TxTimestampOrID::TxID(tx_id)),
    ensures
        marked(undo_chain(chain, gone), tx_id),
{
    let i = choose|i: int| 0 <= i < chain.len() && touched_by(#[trigger] chain[i], tx_id);
    lemma_undo_chain_contains(chain, i, gone);
    let undone = undo_chain(chain, gone);
    let k = choose|k: int| 0 <= k < undone.len() && undone[k] == unend(chain[i], gone);
    assert(touched_by(undone[k], tx_id));
}

/// A chain that carries a marker of a live transaction still does so after
/// garbage collection.
pub proof fn lemma_marked_sweep(txs: Map<u64, TxView>, chain: Seq<RowVersion>, tx_id: u64)
    requires
        txs.contains_key(tx_id),
        marked(chain, tx_id),
        forall|i: int|
            0 <= i < chain.len() && (#[trigger] chain[i]).begin == TxTimestampOrID::TxID(tx_id)
                ==> chain[i].end is None || chain[i].end == Some(TxTimestampOrID::TxID(tx_id)),
    ensures
        marked(sweep_chain(txs, chain), tx_id),
{
    let i = choose|i: int| 0 <= i < chain.len() && touched_by(#[trigger] chain[i], tx_id);
    assert(retained(txs, chain[i]));
    lemma_sweep_chain_contains(txs, chain, chain[i]);
    let swept = sweep_chain(txs, chain);
    let k = choose|k: int| 0 <= k < swept.len() && swept[k] == chain[i];
    assert(touched_by(swept[k], tx_id));
}

/// An insert keeps write sets and markers together.
pub proof fn lemma_insert_marked(s: DbState, tx_id: u64, row: Row)
    requires
        s.inv(),
        write_sets_marked(s),
    ensures
        write_sets_marked(s.insert(tx_id, row)),
{
    let t = s.insert(tx_id, row);
    if s.txs.contains_key(tx_id) {
        let made = RowVersion { begin: TxTimestampOrID::TxID(tx_id), end: None, row };
        lemma_with_id(s.txs[tx_id].write_set, row.id);
        assert forall|other: u64, id: RowID|
            t.txs.contains_key(other) && #[trigger] t.txs[other].write_set.contains(
                id,
            ) implies t.rows.contains_key(id) && marked(t.rows[id], other) by {
            if other == tx_id && id == row.id {
                if s.rows.contains_key(id) {
                    lemma_marked_push(s.rows[id], made, other);
                } else {
                    lemma_marked_push(Seq::empty(), made, other);
                    assert(Seq::<RowVersion>::empty().push(made) =~= seq![made]);
                }
            } else {
                assert(s.txs[other].write_set.contains(id));
                if id == row.id {
                    lemma_marked_push(s.rows[id], made, other);
                }
            }
        }
    }
}

/// A rollback keeps write sets and markers together.
pub proof fn lemma_rollback_marked(s: DbState, tx_id: u64)
    requires
        s.inv(),
        write_sets_marked(s),
    ensures
        write_sets_marked(s.rollback(tx_id)),
{
    let t = s.rollback(tx_id);
    if s.txs.contains_key(tx_id) {
        assert forall|other: u64, id: RowID|
            t.txs.contains_key(other) && #[trigger] t.txs[other].write_set.contains(
                id,
            ) implies t.rows.contains_key(id) && marked(t.rows[id], other) by {
            assert(s.txs[other].write_set.contains(id));
            let chain = s.rows[id];
            assert forall|i: int|
                0 <= i < chain.len() && (#[trigger] chain[i]).begin == TxTimestampOrID::TxID(
                    tx_id,
                ) implies chain[i].end != Some(TxTimestampOrID::TxID(other)) by {
                assert(s.version_ok(id, s.rows[id][i]));
            }
            lemma_marked_undo(chain, tx_id, other);
        }
    }
}

/// A delete keeps write sets and markers together.
pub proof fn lemma_delete_marked(s: DbState, tx_id: u64, target: RowID)
    requires
        s.inv(),
        write_sets_marked(s),
    ensures
        write_sets_marked(s.delete(tx_id, target)),
{
    let t = s.delete(tx_id, target);
    if s.txs.contains_key(tx_id) {
        match s.target(tx_id, target) {
            WriteTarget::Conflict => lemma_rollback_marked(s, tx_id),
            WriteTarget::Version(i) => {
                let chain = s.rows[target];
                let marked_chain = t.rows[target];
                lemma_write_target(s.txs, s.txs[tx_id], chain);
                lemma_with_id(s.txs[tx_id].write_set, target);
                assert(s.tx_ok(tx_id));
                assert(s.version_ok(target, s.rows[target][i]));
                assert(marked_chain[i] == ended_by(chain[i], tx_id));
                assert forall|other: u64, id: RowID|
                    t.txs.contains_key(other) && #[trigger] t.txs[other].write_set.contains(
                        id,
                    ) implies t.rows.contains_key(id) && marked(t.rows[id], other) by {
                    if other == tx_id && id == target {
                        assert(touched_by(marked_chain[i], tx_id));
                    } else {
                        assert(s.txs[other].write_set.contains(id));
                        if id == target {
                            let k = choose|k: int|
                                0 <= k < chain.len() && touched_by(#[trigger] chain[k], other);
                            if k == i {
                                if let TxTimestampOrID::TxID(owner) = chain[i].begin {
                                    assert(s.txs.contains_key(owner));
                                    assert(s.tx_ok(owner));
                                }
                                if let Some(TxTimestampOrID::TxID(owner)) = chain[i].end {
                                    assert(s.txs.contains_key(owner));
                                    assert(s.tx_ok(owner));
                                }
                                assert(touched_by(marked_chain[i], other));
                            } else {
                                assert(marked_chain[k] == chain[k]);
                            }
                        }
                    }
                }
            },
            WriteTarget::Nothing => {},
        }
    }
}

/// A commit keeps write sets and markers together.
pub proof fn lemma_commit_marked(s: DbState, tx_id: u64, after: u64)
    requires
        s.inv(),
        write_sets_marked(s),
    ensures
        write_sets_marked(s.commit(tx_id, after)),
{
    let t = s.commit(tx_id, after);
    if s.txs.contains_key(tx_id) {
        let tx = s.txs[tx_id];
        assert forall|other: u64, id: RowID|
            t.txs.contains_key(other) && #[trigger] t.txs[other].write_set.contains(
                id,
            ) implies t.rows.contains_key(id) && marked(t.rows[id], other) by {
            assert(s.txs[other].write_set.contains(id));
            let chain = s.rows[id];
            let k = choose|k: int| 0 <= k < chain.len() && touched_by(#[trigger] chain[k], other);
            assert(t.rows[id][k] == settle(chain[k], tx_id, tx.begin_ts, s.now));
            assert(touched_by(t.rows[id][k], other));
        }
    }
}

/// Garbage collection keeps write sets and markers together.
pub proof fn lemma_sweep_marked(s: DbState)
    requires
        s.inv(),
        write_sets_marked(s),
    ensures
        write_sets_marked(s.sweep()),
{
    let t = s.sweep();
    assert forall|other: u64, id: RowID|
        t.txs.contains_key(other) && #[trigger] t.txs[other].write_set.contains(
            id,
        ) implies t.rows.contains_key(id) && marked(t.rows[id], other) by {
        let chain = s.rows[id];
        assert forall|i: int|
            0 <= i < chain.len() && (#[trigger] chain[i]).begin == TxTimestampOrID::TxID(
                other,
            ) implies chain[i].end is None || chain[i].end == Some(
            TxTimestampOrID::TxID(other),
        ) by {
            assert(s.version_ok(id, s.rows[id][i]));
        }
        lemma_marked_sweep(s.txs, chain, other);
    }
}

/// Every operation keeps write sets and markers together.
pub proof fn lemma_step_marked(s: DbState, op: Op)
    requires
        s.inv(),
        write_sets_marked(s),
        allowed(s, op),
    ensures
        write_sets_marked(step(s, op)),
{
    match op {
        Op::Begin { after } => {
            let t = s.begin(after);
            assert forall|other: u64, id: RowID|
                t.txs.contains_key(other) && #[trigger] t.txs[other].write_set.contains(
                    id,
                ) implies t.rows.contains_key(id) && marked(t.rows[id], other) by {
                assert(s.txs[other].write_set.contains(id));
            }
        },
        Op::Insert { tx_id, row } => lemma_insert_marked(s, tx_id, row),
        Op::Update { tx_id, row } => {
            lemma_delete_marked(s, tx_id, row.id);
            lemma_delete_inv(s, tx_id, row.id);
            lemma_insert_marked(s.delete(tx_id, row.id), tx_id, row);
        },
        Op::Delete { tx_id, id } => lemma_delete_marked(s, tx_id, id),
        Op::Read { tx_id, id } => {
            let t = s.read(tx_id, id);
            assert forall|other: u64, row: RowID|
                t.txs.contains_key(other) && #[trigger] t.txs[other].write_set.contains(
                    row,
                ) implies t.rows.contains_key(row) && marked(t.rows[row], other) by {
                assert(s.txs[other].write_set.contains(row));
            }
        },
        Op::Commit { tx_id, after } => lemma_commit_marked(s, tx_id, after),
        Op::Rollback { tx_id } => lemma_rollback_marked(s, tx_id),
        Op::Sweep => lemma_sweep_marked(s),
    }
}

/// Through every workload on a new database, each row in the write set of
/// a live transaction has a version that carries a marker of the
/// transaction.
pub proof fn lemma_write_sets_marked(now: u64, ops: Seq<Op>)
    requires
        runs(DbState::empty(now), ops),
    ensures
        write_sets_marked(run(DbState::empty(now), ops)),
    decreases ops.len(),
{
    if ops.len() > 0 {
        lemma_write_sets_marked(now, ops.drop_last());
        lemma_run_inv(DbState::empty(now), ops.drop_last());
        lemma_step_marked(run(DbState::empty(now), ops.drop_last()), ops.last());
    }
}

} // verus!
