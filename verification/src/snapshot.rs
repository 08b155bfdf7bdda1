//! Repeatable reads: what a transaction reads for a row stays the same
//! while the transaction lives, whatever other transactions do, with two
//! exceptions that follow from the way commits and deletes mark versions.
//! The exceptions are spelled out in [`disturbs`].

use crate::errors::DatabaseError;
use crate::invariants::{lemma_delete_inv, lemma_newest_visible, lemma_write_target};
use crate::laws::{allowed, lemma_run_inv, run, runs, step, Op};
use crate::row::{Row, RowID, RowVersion, TxTimestampOrID};
use crate::state::{
    newest_visible, retained, settle, sweep_chain, undo_chain, unend, DbState, WriteTarget,
};
use crate::transaction::TxView;
use crate::visibility::version_visible;
use vstd::prelude::*;

verus! {

/// The row that `tx` sees in `chain`: the payload of the newest version it
/// sees.
pub open spec fn seen(txs: Map<u64, TxView>, tx: TxView, chain: Seq<RowVersion>) -> Option<Row> {
    match newest_visible(txs, tx, chain) {
        Some(i) => Some(chain[i].row),
        None => None,
    }
}

/// Whether `writer`, by a delete of row `id`, would put its end marker on
/// a version that had ended, at a timestamp, before `reader` began. Such a
/// version is out of sight of `reader` until the marker of `writer` hides
/// the timestamp.
pub open spec fn unhides(s: DbState, writer: u64, reader: u64, id: RowID) -> bool {
    &&& s.txs.contains_key(writer)
    &&& s.target(writer, id) matches WriteTarget::Version(i)
    &&& s.rows[id][i].end matches Some(TxTimestampOrID::Timestamp(end_ts))
    &&& end_ts <= s.txs[reader].begin_ts
}

/// Whether the commit of `writer` would bring a version of row `id` into
/// the sight of `reader`: the writer has created a version of the row, and
/// began no later than the reader. A version begins, once committed, at the
/// begin timestamp of its transaction.
pub open spec fn reveals(s: DbState, writer: u64, reader: u64, id: RowID) -> bool {
    &&& s.txs.contains_key(writer)
    &&& s.txs[writer].begin_ts <= s.txs[reader].begin_ts
    &&& s.rows.contains_key(id)
    &&& exists|i: int|
        0 <= i < s.rows[id].len() && (#[trigger] s.rows[id][i]).begin == TxTimestampOrID::TxID(
            writer,
        )
}

/// Whether `op`, performed in state `s`, can change what live transaction
/// `reader` reads for row `id`: the reader itself writes the row, or
/// another transaction unhides or reveals a version of the row.
pub open spec fn disturbs(s: DbState, op: Op, reader: u64, id: RowID) -> bool {
    match op {
        Op::Insert { tx_id, row } => tx_id == reader && row.id == id,
        Op::Update { tx_id, row } => row.id == id && (tx_id == reader || unhides(
            s,
            tx_id,
            reader,
            id,
        )),
        Op::Delete { tx_id, id: target } => target == id && (tx_id == reader || unhides(
            s,
            tx_id,
            reader,
            id,
        )),
        Op::Commit { tx_id, after } => tx_id != reader && reveals(s, tx_id, reader, id),
        _ => false,
    }
}

/// Whether `reader` lives through the workload `ops`, and no operation of
/// the workload disturbs what it reads for row `id`.
pub open spec fn undisturbed(s: DbState, ops: Seq<Op>, reader: u64, id: RowID) -> bool
    decreases ops.len(),
{
    if ops.len() == 0 {
        s.txs.contains_key(reader)
    } else {
        &&& undisturbed(s, ops.drop_last(), reader, id)
        &&& !disturbs(run(s, ops.drop_last()), ops.last(), reader, id)
        &&& run(s, ops).txs.contains_key(reader)
    }
}

/// Two chains of the same length, whose versions carry the same rows and
/// are seen alike, show the same row.
pub proof fn lemma_seen_alike(
    txs: Map<u64, TxView>,
    tx: TxView,
    chain: Seq<RowVersion>,
    other_txs: Map<u64, TxView>,
    other_tx: TxView,
    other: Seq<RowVersion>,
)
    requires
        chain.len() == other.len(),
        forall|i: int|
            0 <= i < chain.len() ==> (#[trigger] other[i]).row == chain[i].row && version_visible(
                other_txs,
                other_tx,
                other[i],
            ) == version_visible(txs, tx, chain[i]),
    ensures
        seen(other_txs, other_tx, other) == seen(txs, tx, chain),
    decreases chain.len(),
{
    if chain.len() > 0 {
        let last = chain.len() - 1;
        assert(other[last].row == chain[last].row);
        assert forall|i: int| 0 <= i < chain.drop_last().len() implies (#[trigger] other.drop_last()[i]).row
            == chain.drop_last()[i].row && version_visible(
            other_txs,
            other_tx,
            other.drop_last()[i],
        ) == version_visible(txs, tx, chain.drop_last()[i]) by {
            assert(other.drop_last()[i] == other[i]);
            assert(chain.drop_last()[i] == chain[i]);
        }
        lemma_seen_alike(txs, tx, chain.drop_last(), other_txs, other_tx, other.drop_last());
        lemma_newest_visible(txs, tx, chain.drop_last());
        lemma_newest_visible(other_txs, other_tx, other.drop_last());
    }
}

/// A chain shows the same row after a rollback, if the versions that the
/// rollback drops were out of sight and the others are seen as before.
pub proof fn lemma_seen_undone(
    txs: Map<u64, TxView>,
    tx: TxView,
    chain: Seq<RowVersion>,
    other_txs: Map<u64, TxView>,
    gone: u64,
)
    requires
        forall|i: int|
            0 <= i < chain.len() ==> if (#[trigger] chain[i]).begin == TxTimestampOrID::TxID(gone) {
                !version_visible(txs, tx, chain[i])
            } else {
                version_visible(other_txs, tx, unend(chain[i], gone)) == version_visible(
                    txs,
                    tx,
                    chain[i],
                )
            },
    ensures
        seen(other_txs, tx, undo_chain(chain, gone)) == seen(txs, tx, chain),
    decreases chain.len(),
{
    if chain.len() > 0 {
        let rest = chain.drop_last();
        let last = chain.len() - 1;
        assert(chain[last] == chain.last());
        assert forall|i: int| 0 <= i < rest.len() implies if (#[trigger] rest[i]).begin
            == TxTimestampOrID::TxID(gone) {
            !version_visible(txs, tx, rest[i])
        } else {
            version_visible(other_txs, tx, unend(rest[i], gone)) == version_visible(
                txs,
                tx,
                rest[i],
            )
        } by {
            assert(rest[i] == chain[i]);
        }
        lemma_seen_undone(txs, tx, rest, other_txs, gone);
        lemma_newest_visible(txs, tx, rest);
        lemma_newest_visible(other_txs, tx, undo_chain(rest, gone));
        if chain.last().begin != TxTimestampOrID::TxID(gone) {
            let undone = undo_chain(chain, gone);
            assert(undone.drop_last() =~= undo_chain(rest, gone));
            assert(undone.last() == unend(chain.last(), gone));
        }
    }
}

/// A chain shows the same row after garbage collection, if the versions
/// that are not kept were out of sight.
pub proof fn lemma_seen_swept(txs: Map<u64, TxView>, tx: TxView, chain: Seq<RowVersion>)
    requires
        forall|i: int|
            0 <= i < chain.len() && !retained(txs, #[trigger] chain[i]) ==> !version_visible(
                txs,
                tx,
                chain[i],
            ),
    ensures
        seen(txs, tx, sweep_chain(txs, chain)) == seen(txs, tx, chain),
    decreases chain.len(),
{
    if chain.len() > 0 {
        let rest = chain.drop_last();
        let last = chain.len() - 1;
        assert(chain[last] == chain.last());
        assert forall|i: int| 0 <= i < rest.len() && !retained(
            txs,
            #[trigger] rest[i],
        ) implies !version_visible(txs, tx, rest[i]) by {
            assert(rest[i] == chain[i]);
        }
        lemma_seen_swept(txs, tx, rest);
        lemma_newest_visible(txs, tx, rest);
        lemma_newest_visible(txs, tx, sweep_chain(txs, rest));
        if retained(txs, chain.last()) {
            let swept = sweep_chain(txs, chain);
            assert(swept.drop_last() =~= sweep_chain(txs, rest));
            assert(swept.last() == chain.last());
        }
    }
}

/// Where only the write sets and read sets of the transactions change,
/// and the chain of a row stays as it is, a reader sees the same row.
pub proof fn lemma_stable_sets(s: DbState, t: DbState, reader: u64, id: RowID)
    requires
        s.inv(),
        s.txs.contains_key(reader),
        t.rows.contains_key(id) == s.rows.contains_key(id),
        s.rows.contains_key(id) ==> t.rows[id] == s.rows[id],
        forall|tx_id: u64| #[trigger]
            s.txs.contains_key(tx_id) ==> t.txs[tx_id].tx_id == s.txs[tx_id].tx_id
                && t.txs[tx_id].begin_ts == s.txs[tx_id].begin_ts,
    ensures
        t.visible_row(reader, id) == s.visible_row(reader, id),
{
    if s.rows.contains_key(id) {
        let chain = s.rows[id];
        assert forall|i: int| 0 <= i < chain.len() implies version_visible(
            t.txs,
            t.txs[reader],
            #[trigger] chain[i],
        ) == version_visible(s.txs, s.txs[reader], chain[i]) by {
            assert(s.version_ok(id, s.rows[id][i]));
            if let TxTimestampOrID::TxID(owner) = chain[i].begin {
                assert(s.txs.contains_key(owner));
            }
            if let Some(TxTimestampOrID::TxID(owner)) = chain[i].end {
                assert(s.txs.contains_key(owner));
            }
        }
        lemma_seen_alike(s.txs, s.txs[reader], chain, t.txs, t.txs[reader], chain);
    }
}

/// A transaction that begins leaves what a reader sees as it is.
pub proof fn lemma_stable_begin(s: DbState, after: u64, reader: u64, id: RowID)
    requires
        s.inv(),
        s.txs.contains_key(reader),
    ensures
        s.begin(after).visible_row(reader, id) == s.visible_row(reader, id),
{
    assert forall|tx_id: u64| #[trigger] s.txs.contains_key(tx_id) implies tx_id
        != s.next_tx_id by {
        assert(s.tx_ok(tx_id));
    }
    lemma_stable_sets(s, s.begin(after), reader, id);
}

/// An insert leaves what a reader sees as it is, unless the reader itself
/// inserts the row.
pub proof fn lemma_stable_insert(s: DbState, tx_id: u64, row: Row, reader: u64, id: RowID)
    requires
        s.inv(),
        s.txs.contains_key(reader),
        !(tx_id == reader && row.id == id),
    ensures
        s.insert(tx_id, row).visible_row(reader, id) == s.visible_row(reader, id),
{
    let t = s.insert(tx_id, row);
    if s.txs.contains_key(tx_id) {
        assert(s.tx_ok(tx_id));
        assert(s.tx_ok(reader));
        if row.id == id {
            let made = RowVersion { begin: TxTimestampOrID::TxID(tx_id), end: None, row };
            let mid = DbState { rows: s.rows, ..t };
            lemma_stable_sets(s, mid, reader, id);
            assert(!version_visible(t.txs, t.txs[reader], made));
            assert(t.rows[id].last() == made);
            assert(newest_visible(t.txs, t.txs[reader], t.rows[id]) == newest_visible(
                t.txs,
                t.txs[reader],
                t.rows[id].drop_last(),
            ));
            if s.rows.contains_key(id) {
                assert(t.rows[id].drop_last() =~= s.rows[id]);
                lemma_newest_visible(t.txs, t.txs[reader], s.rows[id]);
                assert(mid.visible_row(reader, id) == seen(t.txs, t.txs[reader], s.rows[id]));
                assert(t.visible_row(reader, id) == seen(t.txs, t.txs[reader], s.rows[id]));
            } else {
                assert(t.rows[id].drop_last() =~= Seq::<RowVersion>::empty());
                assert(t.visible_row(reader, id) is None);
            }
        } else {
            lemma_stable_sets(s, t, reader, id);
        }
    }
}

/// A read leaves what a reader sees as it is.
pub proof fn lemma_stable_read(s: DbState, tx_id: u64, row: RowID, reader: u64, id: RowID)
    requires
        s.inv(),
        s.txs.contains_key(reader),
    ensures
        s.read(tx_id, row).visible_row(reader, id) == s.visible_row(reader, id),
{
    lemma_stable_sets(s, s.read(tx_id, row), reader, id);
}

/// The rollback of another transaction leaves what a reader sees as it is.
pub proof fn lemma_stable_rollback(s: DbState, tx_id: u64, reader: u64, id: RowID)
    requires
        s.inv(),
        s.txs.contains_key(reader),
        tx_id != reader,
    ensures
        s.rollback(tx_id).visible_row(reader, id) == s.visible_row(reader, id),
{
    let t = s.rollback(tx_id);
    if s.txs.contains_key(tx_id) && s.rows.contains_key(id) {
        let chain = s.rows[id];
        let tx = s.txs[reader];
        assert(s.tx_ok(tx_id));
        assert forall|i: int| 0 <= i < chain.len() implies if (#[trigger] chain[i]).begin
            == TxTimestampOrID::TxID(tx_id) {
            !version_visible(s.txs, tx, chain[i])
        } else {
            version_visible(t.txs, tx, unend(chain[i], tx_id)) == version_visible(
                s.txs,
                tx,
                chain[i],
            )
        } by {
            assert(s.version_ok(id, s.rows[id][i]));
            if let TxTimestampOrID::TxID(owner) = chain[i].begin {
                assert(s.txs.contains_key(owner));
                assert(s.tx_ok(owner));
            }
            if let Some(TxTimestampOrID::TxID(owner)) = chain[i].end {
                assert(s.txs.contains_key(owner));
                assert(s.tx_ok(owner));
            }
        }
        lemma_seen_undone(s.txs, tx, chain, t.txs, tx_id);
    }
}

/// A delete leaves what a reader sees as it is, unless the reader itself
/// deletes the row, or the delete unhides a version of the row. The reader
/// is assumed to live on: a delete that conflicts rolls its transaction
/// back.
pub proof fn lemma_stable_delete(s: DbState, tx_id: u64, target: RowID, reader: u64, id: RowID)
    requires
        s.inv(),
        s.txs.contains_key(reader),
        s.delete(tx_id, target).txs.contains_key(reader),
        !(target == id && (tx_id == reader || unhides(s, tx_id, reader, id))),
    ensures
        s.delete(tx_id, target).visible_row(reader, id) == s.visible_row(reader, id),
{
    let t = s.delete(tx_id, target);
    if s.txs.contains_key(tx_id) {
        assert(s.tx_ok(tx_id));
        assert(s.tx_ok(reader));
        match s.target(tx_id, target) {
            WriteTarget::Conflict => {
                lemma_stable_rollback(s, tx_id, reader, id);
            },
            WriteTarget::Version(i) => {
                if target == id {
                    let chain = s.rows[id];
                    let ended = t.rows[id];
                    lemma_write_target(s.txs, s.txs[tx_id], chain);
                    assert forall|j: int| 0 <= j < chain.len() implies (#[trigger] ended[j]).row
                        == chain[j].row && version_visible(t.txs, t.txs[reader], ended[j])
                        == version_visible(s.txs, s.txs[reader], chain[j]) by {
                        assert(s.version_ok(id, s.rows[id][j]));
                        if let TxTimestampOrID::TxID(owner) = chain[j].begin {
                            assert(s.txs.contains_key(owner));
                            assert(s.tx_ok(owner));
                        }
                        if let Some(TxTimestampOrID::TxID(owner)) = chain[j].end {
                            assert(s.txs.contains_key(owner));
                            assert(s.tx_ok(owner));
                        }
                    }
                    lemma_seen_alike(s.txs, s.txs[reader], chain, t.txs, t.txs[reader], ended);
                } else {
                    lemma_stable_sets(s, t, reader, id);
                }
            },
            WriteTarget::Nothing => {},
        }
    }
}

/// The commit of another transaction leaves what a reader sees as it is,
/// unless the commit reveals a version of the row.
pub proof fn lemma_stable_commit(s: DbState, tx_id: u64, after: u64, reader: u64, id: RowID)
    requires
        s.inv(),
        s.txs.contains_key(reader),
        tx_id != reader,
        !reveals(s, tx_id, reader, id),
    ensures
        s.commit(tx_id, after).visible_row(reader, id) == s.visible_row(reader, id),
{
    let t = s.commit(tx_id, after);
    if s.rows.contains_key(id) {
        let chain = s.rows[id];
        let settled = t.rows[id];
        assert(s.tx_ok(reader));
        if s.txs.contains_key(tx_id) {
            assert(s.tx_ok(tx_id));
            assert forall|j: int| 0 <= j < chain.len() implies (#[trigger] settled[j]).row
                == chain[j].row && version_visible(t.txs, t.txs[reader], settled[j])
                == version_visible(s.txs, s.txs[reader], chain[j]) by {
                assert(s.version_ok(id, s.rows[id][j]));
                assert(settled[j] == settle(chain[j], tx_id, s.txs[tx_id].begin_ts, s.now));
                if let TxTimestampOrID::TxID(owner) = chain[j].begin {
                    assert(s.txs.contains_key(owner));
                    assert(s.tx_ok(owner));
                }
                if let Some(TxTimestampOrID::TxID(owner)) = chain[j].end {
                    assert(s.txs.contains_key(owner));
                    assert(s.tx_ok(owner));
                }
            }
            lemma_seen_alike(s.txs, s.txs[reader], chain, t.txs, t.txs[reader], settled);
        }
    }
}

/// What a commit shows to the transactions that live on. Let the newest
/// version of a row be one that the committing transaction has created and
/// not ended. After the commit, a live transaction that began no earlier
/// than the committing one reads that version; one that began earlier reads
/// what it read before.
pub proof fn lemma_commit_shows(s: DbState, tx_id: u64, after: u64, reader: u64, id: RowID)
    requires
        s.inv(),
        s.txs.contains_key(tx_id),
        s.txs.contains_key(reader),
        tx_id != reader,
        s.rows.contains_key(id),
        s.rows[id].last().begin == TxTimestampOrID::TxID(tx_id),
        s.rows[id].last().end is None,
    ensures
        s.commit(tx_id, after).read_result(reader, id) == (if s.txs[tx_id].begin_ts
            <= s.txs[reader].begin_ts {
            Ok::<Option<Row>, DatabaseError>(Some(s.rows[id].last().row))
        } else {
            s.read_result(reader, id)
        }),
{
    let t = s.commit(tx_id, after);
    let chain = s.rows[id];
    if s.txs[tx_id].begin_ts <= s.txs[reader].begin_ts {
        assert(s.tx_ok(reader));
        assert(t.rows[id].last() == settle(chain.last(), tx_id, s.txs[tx_id].begin_ts, s.now));
        assert(version_visible(t.txs, t.txs[reader], t.rows[id].last()));
    } else {
        lemma_stable_commit(s, tx_id, after, reader, id);
    }
}

/// Garbage collection leaves what a reader sees as it is.
pub proof fn lemma_stable_sweep(s: DbState, reader: u64, id: RowID)
    requires
        s.inv(),
        s.txs.contains_key(reader),
    ensures
        s.sweep().visible_row(reader, id) == s.visible_row(reader, id),
{
    if s.rows.contains_key(id) {
        let chain = s.rows[id];
        let tx = s.txs[reader];
        assert forall|i: int| 0 <= i < chain.len() && !retained(
            s.txs,
            #[trigger] chain[i],
        ) implies !version_visible(s.txs, tx, chain[i]) by {
            assert(s.version_ok(id, s.rows[id][i]));
        }
        lemma_seen_swept(s.txs, tx, chain);
    }
}

/// One operation leaves what a reader sees for a row as it is, if the
/// reader lives on and the operation does not disturb the row.
pub proof fn lemma_read_stable_step(s: DbState, op: Op, reader: u64, id: RowID)
    requires
        s.inv(),
        allowed(s, op),
        s.txs.contains_key(reader),
        step(s, op).txs.contains_key(reader),
        !disturbs(s, op, reader, id),
    ensures
        step(s, op).visible_row(reader, id) == s.visible_row(reader, id),
{
    match op {
        Op::Begin { after } => lemma_stable_begin(s, after, reader, id),
        Op::Insert { tx_id, row } => lemma_stable_insert(s, tx_id, row, reader, id),
        Op::Update { tx_id, row } => {
            let ended = s.delete(tx_id, row.id);
            if s.delete_result(tx_id, row.id) == Ok::<bool, DatabaseError>(true) {
                lemma_delete_inv(s, tx_id, row.id);
                lemma_stable_delete(s, tx_id, row.id, reader, id);
                lemma_stable_insert(ended, tx_id, row, reader, id);
            } else {
                lemma_stable_delete(s, tx_id, row.id, reader, id);
            }
        },
        Op::Delete { tx_id, id: target } => lemma_stable_delete(s, tx_id, target, reader, id),
        Op::Read { tx_id, id: row } => lemma_stable_read(s, tx_id, row, reader, id),
        Op::Commit { tx_id, after } => lemma_stable_commit(s, tx_id, after, reader, id),
        Op::Rollback { tx_id } => lemma_stable_rollback(s, tx_id, reader, id),
        Op::Sweep => lemma_stable_sweep(s, reader, id),
    }
}

/// Reads repeat. Whatever a workload does, a transaction that lives through
/// it reads for a row at the end what it read at the start, if no
/// operation of the workload disturbs the row.
pub proof fn lemma_reads_repeat(s: DbState, ops: Seq<Op>, reader: u64, id: RowID)
    requires
        s.inv(),
        runs(s, ops),
        undisturbed(s, ops, reader, id),
    ensures
        run(s, ops).read_result(reader, id) == s.read_result(reader, id),
    decreases ops.len(),
{
    if ops.len() > 0 {
        let before = run(s, ops.drop_last());
        lemma_reads_repeat(s, ops.drop_last(), reader, id);
        lemma_run_inv(s, ops.drop_last());
        lemma_undisturbed_lives(s, ops.drop_last(), reader, id);
        lemma_read_stable_step(before, ops.last(), reader, id);
    }
}

/// A reader that lives through a workload undisturbed is live at its end.
pub proof fn lemma_undisturbed_lives(s: DbState, ops: Seq<Op>, reader: u64, id: RowID)
    requires
        undisturbed(s, ops, reader, id),
    ensures
        s.txs.contains_key(reader),
        run(s, ops).txs.contains_key(reader),
    decreases ops.len(),
{
    if ops.len() > 0 {
        lemma_undisturbed_lives(s, ops.drop_last(), reader, id);
    }
}

} // verus!
