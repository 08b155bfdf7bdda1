//! Recovery gives back what was committed.
//!
//! A transaction that begins after everything else sees, of each row, the
//! newest version that is committed and has not ended at a timestamp. The
//! law at the end of this module says when a database that was rebuilt from
//! the log shows such a transaction the same rows as the database that
//! wrote the log.

use crate::errors::DatabaseError;
use crate::invariants::{
    lemma_commit_inv, lemma_newest_visible, lemma_replay_inv, lemma_untouched_outside,
    lemma_write_target,
};
use crate::laws::{
    lemma_commit_record_well_formed, lemma_logged_versions, lemma_step_inv, run, runs, step, Op,
};
use crate::rewrite::lemma_untouched;
use crate::row::{well_formed_log, RecordView, Row, RowID, RowVersion, TxTimestampOrID};
use crate::snapshot::seen;
use crate::state::{
    append_version, append_versions, ended_by, logged, logged_rows, retained, settle, settle_chain,
    sweep_chain, touched_by, undo_chain, unend, DbState, WriteTarget,
};
use crate::transaction::TxView;
use crate::visibility::version_visible;
use vstd::prelude::*;

verus! {

/// Whether `rv` has ended at a timestamp.
pub open spec fn ended(rv: RowVersion) -> bool {
    rv.end matches Some(TxTimestampOrID::Timestamp(_))
}

/// Whether a transaction that begins after every timestamp in the store
/// sees `rv`: the version is committed, and has not ended at a timestamp.
pub open spec fn fresh_visible(rv: RowVersion) -> bool {
    rv.begin is Timestamp && !ended(rv)
}

/// The row that a transaction which begins after every timestamp in the
/// store sees in `chain`.
pub open spec fn fresh(chain: Seq<RowVersion>) -> Option<Row>
    decreases chain.len(),
{
    if chain.len() == 0 {
        None
    } else if fresh_visible(chain.last()) {
        Some(chain.last().row)
    } else {
        fresh(chain.drop_last())
    }
}

/// Whether every version of `chain` that has ended at a timestamp is
/// followed by a newer version that a fresh transaction sees.
pub open spec fn capped(chain: Seq<RowVersion>) -> bool
    decreases chain.len(),
{
    if chain.len() == 0 {
        true
    } else if fresh_visible(chain.last()) {
        true
    } else if ended(chain.last()) {
        false
    } else {
        capped(chain.drop_last())
    }
}

/// The chain of row `id`, which is empty where the row has none.
pub open spec fn chain_of(rows: Map<RowID, Seq<RowVersion>>, id: RowID) -> Seq<RowVersion> {
    if rows.contains_key(id) {
        rows[id]
    } else {
        Seq::empty()
    }
}

/// A version at the end of a chain that is neither committed nor ended at
/// a timestamp changes nothing for a fresh transaction.
pub proof fn lemma_push_hidden(chain: Seq<RowVersion>, rv: RowVersion)
    requires
        !fresh_visible(rv),
        !ended(rv),
    ensures
        fresh(chain.push(rv)) == fresh(chain),
        capped(chain.push(rv)) == capped(chain),
{
    assert(chain.push(rv).drop_last() =~= chain);
    assert(chain.push(rv).last() == rv);
}

/// A version that a fresh transaction sees, at the end of a chain, is what
/// it sees of the chain.
pub proof fn lemma_push_shown(chain: Seq<RowVersion>, rv: RowVersion)
    requires
        fresh_visible(rv),
    ensures
        fresh(chain.push(rv)) == Some(rv.row),
        capped(chain.push(rv)),
{
    assert(chain.push(rv).last() == rv);
}

/// A rollback changes nothing for a fresh transaction.
pub proof fn lemma_undo_steady(chain: Seq<RowVersion>, tx_id: u64)
    requires
        forall|i: int| 0 <= i < chain.len() && (#[trigger] chain[i]).begin is TxID ==> !ended(chain[i]),
    ensures
        fresh(undo_chain(chain, tx_id)) == fresh(chain),
        capped(chain) ==> capped(undo_chain(chain, tx_id)),
    decreases chain.len(),
{
    if chain.len() > 0 {
        let rest = chain.drop_last();
        let last = chain.last();
        assert(chain[chain.len() - 1] == last);
        assert forall|i: int| 0 <= i < rest.len() && (#[trigger] rest[i]).begin is TxID implies !ended(
            rest[i],
        ) by {
            assert(rest[i] == chain[i]);
        }
        lemma_undo_steady(rest, tx_id);
        if last.begin != TxTimestampOrID::TxID(tx_id) {
            let kept = unend(last, tx_id);
            assert(undo_chain(chain, tx_id) == undo_chain(rest, tx_id).push(kept));
            if fresh_visible(kept) {
                lemma_push_shown(undo_chain(rest, tx_id), kept);
            } else if !ended(kept) {
                lemma_push_hidden(undo_chain(rest, tx_id), kept);
            } else {
                assert(undo_chain(chain, tx_id).drop_last() =~= undo_chain(rest, tx_id));
            }
        }
    }
}

/// Garbage collection changes nothing for a fresh transaction, where it
/// drops only versions that have ended at a timestamp.
pub proof fn lemma_sweep_steady(txs: Map<u64, TxView>, chain: Seq<RowVersion>)
    requires
        forall|i: int| 0 <= i < chain.len() && !retained(txs, #[trigger] chain[i]) ==> ended(chain[i]),
    ensures
        fresh(sweep_chain(txs, chain)) == fresh(chain),
        capped(chain) ==> capped(sweep_chain(txs, chain)),
    decreases chain.len(),
{
    if chain.len() > 0 {
        let rest = chain.drop_last();
        let last = chain.last();
        assert(chain[chain.len() - 1] == last);
        assert forall|i: int| 0 <= i < rest.len() && !retained(txs, #[trigger] rest[i]) implies ended(
            rest[i],
        ) by {
            assert(rest[i] == chain[i]);
        }
        lemma_sweep_steady(txs, rest);
        if retained(txs, last) {
            assert(sweep_chain(txs, chain) == sweep_chain(txs, rest).push(last));
            if fresh_visible(last) {
                lemma_push_shown(sweep_chain(txs, rest), last);
            } else if !ended(last) {
                lemma_push_hidden(sweep_chain(txs, rest), last);
            } else {
                assert(sweep_chain(txs, chain).drop_last() =~= sweep_chain(txs, rest));
            }
        }
    }
}

/// An end marker of a transaction, put on a version of a capped chain,
/// changes nothing for a fresh transaction.
pub proof fn lemma_mark_steady(chain: Seq<RowVersion>, i: int, tx_id: u64)
    requires
        0 <= i < chain.len(),
        capped(chain),
        !(chain[i].end matches Some(TxTimestampOrID::TxID(_))),
        chain[i].begin is TxID ==> chain[i].end is None,
    ensures
        fresh(chain.update(i, ended_by(chain[i], tx_id))) == fresh(chain),
        capped(chain.update(i, ended_by(chain[i], tx_id))),
    decreases chain.len(),
{
    let marked = chain.update(i, ended_by(chain[i], tx_id));
    let rest = chain.drop_last();
    if i == chain.len() - 1 {
        assert(marked.drop_last() =~= rest);
        assert(marked.last() == ended_by(chain[i], tx_id));
    } else {
        assert(marked.last() == chain.last());
        assert(marked.drop_last() =~= rest.update(i, ended_by(rest[i], tx_id)));
        if !fresh_visible(chain.last()) {
            lemma_mark_steady(rest, i, tx_id);
        }
    }
}

/// Where the newest version of a chain is one that the committing
/// transaction has created and not ended, a fresh transaction sees that
/// version after the commit, and the version is the last that the commit
/// logs for the chain.
pub proof fn lemma_settle_led(chain: Seq<RowVersion>, tx_id: u64, begin_ts: u64, end_ts: u64)
    requires
        chain.len() > 0,
        chain.last().begin == TxTimestampOrID::TxID(tx_id),
        chain.last().end is None,
    ensures
        fresh(settle_chain(chain, tx_id, begin_ts, end_ts)) == Some(chain.last().row),
        capped(settle_chain(chain, tx_id, begin_ts, end_ts)),
        logged(chain, tx_id, begin_ts, end_ts).len() > 0,
        fresh_visible(logged(chain, tx_id, begin_ts, end_ts).last()),
        logged(chain, tx_id, begin_ts, end_ts).last().row == chain.last().row,
{
    let settled = settle_chain(chain, tx_id, begin_ts, end_ts);
    assert(settled.last() == settle(chain.last(), tx_id, begin_ts, end_ts));
}

/// What a fresh transaction sees of a chain that ends in a version it
/// sees is that version, whatever comes before.
pub proof fn lemma_fresh_tail(chain: Seq<RowVersion>, tail: Seq<RowVersion>)
    requires
        tail.len() > 0,
        fresh_visible(tail.last()),
    ensures
        fresh(chain + tail) == Some(tail.last().row),
{
    assert((chain + tail).last() == tail.last());
}

/// A chain whose versions are seen by a transaction exactly where a fresh
/// transaction would see them shows that transaction what it shows a fresh
/// one.
pub proof fn lemma_seen_fresh(txs: Map<u64, TxView>, tx: TxView, chain: Seq<RowVersion>)
    requires
        forall|i: int|
            0 <= i < chain.len() ==> version_visible(txs, tx, #[trigger] chain[i]) == fresh_visible(
                chain[i],
            ),
    ensures
        seen(txs, tx, chain) == fresh(chain),
    decreases chain.len(),
{
    if chain.len() > 0 {
        let rest = chain.drop_last();
        assert(chain[chain.len() - 1] == chain.last());
        assert forall|i: int| 0 <= i < rest.len() implies version_visible(
            txs,
            tx,
            #[trigger] rest[i],
        ) == fresh_visible(rest[i]) by {
            assert(rest[i] == chain[i]);
        }
        lemma_seen_fresh(txs, tx, rest);
        lemma_newest_visible(txs, tx, rest);
    }
}

/// A transaction that begins now is a fresh transaction: what it reads for
/// a row is what a fresh transaction sees in the chain of the row.
pub proof fn lemma_fresh_reader(s: DbState, after: u64, id: RowID)
    requires
        s.inv(),
    ensures
        s.begin(after).visible_row(s.next_tx_id, id) == fresh(chain_of(s.rows, id)),
{
    let t = s.begin(after);
    let reader = t.txs[s.next_tx_id];
    if s.rows.contains_key(id) {
        let chain = s.rows[id];
        assert forall|i: int| 0 <= i < chain.len() implies version_visible(
            t.txs,
            reader,
            #[trigger] chain[i],
        ) == fresh_visible(chain[i]) by {
            assert(s.version_ok(id, s.rows[id][i]));
            if let TxTimestampOrID::TxID(owner) = chain[i].begin {
                assert(s.txs.contains_key(owner));
                assert(s.tx_ok(owner));
            }
            if let Some(TxTimestampOrID::TxID(owner)) = chain[i].end {
                assert(s.txs.contains_key(owner));
                assert(s.tx_ok(owner));
            }
        }
        lemma_seen_fresh(t.txs, reader, chain);
    }
}

/// A commit shows to every transaction that begins later. Let the newest
/// version of a row be one that the committing transaction has created and
/// not ended. A transaction that begins after the commit reads that
/// version.
pub proof fn lemma_commit_shows_later(s: DbState, tx_id: u64, after: u64, later: u64, id: RowID)
    requires
        s.inv(),
        s.txs.contains_key(tx_id),
        s.now < after,
        s.rows.contains_key(id),
        s.rows[id].last().begin == TxTimestampOrID::TxID(tx_id),
        s.rows[id].last().end is None,
    ensures
        ({
            let committed = s.commit(tx_id, after);
            committed.begin(later).read_result(committed.next_tx_id, id) == Ok::<
                Option<Row>,
                DatabaseError,
            >(Some(s.rows[id].last().row))
        }),
{
    let committed = s.commit(tx_id, after);
    let tx = s.txs[tx_id];
    lemma_commit_inv(s, tx_id, after);
    lemma_fresh_reader(committed, later, id);
    lemma_settle_led(s.rows[id], tx_id, tx.begin_ts, s.now);
}

/// Whether every chain of `rows` is capped.
pub open spec fn all_capped(rows: Map<RowID, Seq<RowVersion>>) -> bool {
    forall|id: RowID| capped(#[trigger] chain_of(rows, id))
}

/// Whether a fresh transaction sees the same of every row in `rows` and in
/// `other`.
pub open spec fn agree(
    rows: Map<RowID, Seq<RowVersion>>,
    other: Map<RowID, Seq<RowVersion>>,
) -> bool {
    forall|id: RowID| fresh(#[trigger] chain_of(rows, id)) == fresh(chain_of(other, id))
}

/// Whether the step from `rows` to `later` changes nothing for a fresh
/// transaction, and leaves capped chains capped.
pub open spec fn steady(
    rows: Map<RowID, Seq<RowVersion>>,
    later: Map<RowID, Seq<RowVersion>>,
) -> bool {
    forall|id: RowID|
        fresh(#[trigger] chain_of(later, id)) == fresh(chain_of(rows, id)) && (capped(
            chain_of(rows, id),
        ) ==> capped(chain_of(later, id)))
}

/// An insert changes nothing for a fresh transaction.
pub proof fn lemma_steady_insert(s: DbState, tx_id: u64, row: Row)
    ensures
        steady(s.rows, s.insert(tx_id, row).rows),
{
    let t = s.insert(tx_id, row);
    if s.txs.contains_key(tx_id) {
        let made = RowVersion { begin: TxTimestampOrID::TxID(tx_id), end: None, row };
        assert forall|id: RowID|
            fresh(#[trigger] chain_of(t.rows, id)) == fresh(chain_of(s.rows, id)) && (capped(
                chain_of(s.rows, id),
            ) ==> capped(chain_of(t.rows, id))) by {
            if id == row.id {
                lemma_push_hidden(chain_of(s.rows, id), made);
                assert(chain_of(t.rows, id) =~= chain_of(s.rows, id).push(made));
            }
        }
    }
}

/// A rollback changes nothing for a fresh transaction.
pub proof fn lemma_steady_rollback(s: DbState, tx_id: u64)
    requires
        s.inv(),
    ensures
        steady(s.rows, s.rollback(tx_id).rows),
{
    let t = s.rollback(tx_id);
    if s.txs.contains_key(tx_id) {
        assert forall|id: RowID|
            fresh(#[trigger] chain_of(t.rows, id)) == fresh(chain_of(s.rows, id)) && (capped(
                chain_of(s.rows, id),
            ) ==> capped(chain_of(t.rows, id))) by {
            if s.rows.contains_key(id) {
                let chain = s.rows[id];
                assert forall|i: int|
                    0 <= i < chain.len() && (#[trigger] chain[i]).begin is TxID implies !ended(
                    chain[i],
                ) by {
                    assert(s.version_ok(id, s.rows[id][i]));
                }
                lemma_undo_steady(chain, tx_id);
                assert(chain_of(t.rows, id) =~= undo_chain(chain, tx_id));
            }
        }
    }
}

/// A delete changes nothing for a fresh transaction, where the chains are
/// capped.
pub proof fn lemma_steady_delete(s: DbState, tx_id: u64, target: RowID)
    requires
        s.inv(),
        all_capped(s.rows),
    ensures
        steady(s.rows, s.delete(tx_id, target).rows),
{
    let t = s.delete(tx_id, target);
    if s.txs.contains_key(tx_id) {
        match s.target(tx_id, target) {
            WriteTarget::Conflict => lemma_steady_rollback(s, tx_id),
            WriteTarget::Version(i) => {
                let chain = s.rows[target];
                lemma_write_target(s.txs, s.txs[tx_id], chain);
                assert(s.tx_ok(tx_id));
                assert(s.version_ok(target, s.rows[target][i]));
                if let Some(TxTimestampOrID::TxID(owner)) = chain[i].end {
                    assert(s.txs.contains_key(owner));
                    assert(s.tx_ok(owner));
                }
                if let TxTimestampOrID::TxID(owner) = chain[i].begin {
                    assert(s.txs.contains_key(owner));
                    assert(s.tx_ok(owner));
                }
                assert(capped(chain_of(s.rows, target)));
                lemma_mark_steady(chain, i, tx_id);
                assert forall|id: RowID|
                    fresh(#[trigger] chain_of(t.rows, id)) == fresh(chain_of(s.rows, id))
                        && (capped(chain_of(s.rows, id)) ==> capped(chain_of(t.rows, id))) by {
                    if id == target {
                        assert(chain_of(t.rows, id) == chain.update(i, ended_by(chain[i], tx_id)));
                    }
                }
            },
            WriteTarget::Nothing => {},
        }
    }
}

/// Garbage collection changes nothing for a fresh transaction.
pub proof fn lemma_steady_sweep(s: DbState)
    requires
        s.inv(),
    ensures
        steady(s.rows, s.sweep().rows),
{
    let t = s.sweep();
    assert forall|id: RowID|
        fresh(#[trigger] chain_of(t.rows, id)) == fresh(chain_of(s.rows, id)) && (capped(
            chain_of(s.rows, id),
        ) ==> capped(chain_of(t.rows, id))) by {
        if s.rows.contains_key(id) {
            let chain = s.rows[id];
            assert forall|i: int| 0 <= i < chain.len() && !retained(
                s.txs,
                #[trigger] chain[i],
            ) implies ended(chain[i]) by {
                assert(s.version_ok(id, s.rows[id][i]));
            }
            lemma_sweep_steady(s.txs, chain);
            assert(chain_of(t.rows, id) =~= sweep_chain(s.txs, chain));
        }
    }
}

/// Steps that change nothing for a fresh transaction can be chained.
pub proof fn lemma_steady_chain(
    rows: Map<RowID, Seq<RowVersion>>,
    later: Map<RowID, Seq<RowVersion>>,
    last: Map<RowID, Seq<RowVersion>>,
)
    requires
        steady(rows, later),
        steady(later, last),
    ensures
        steady(rows, last),
{
    assert forall|id: RowID|
        fresh(#[trigger] chain_of(last, id)) == fresh(chain_of(rows, id)) && (capped(
            chain_of(rows, id),
        ) ==> capped(chain_of(last, id))) by {
        assert(fresh(chain_of(later, id)) == fresh(chain_of(rows, id)));
        assert(fresh(chain_of(last, id)) == fresh(chain_of(later, id)));
    }
}

/// Whether the commit of live transaction `tx_id` leaves, in every row of
/// its write set, a version of its own as the newest: one that it has
/// created and not ended.
pub open spec fn leads(s: DbState, tx_id: u64) -> bool {
    forall|id: RowID| #[trigger]
        s.txs[tx_id].write_set.contains(id) ==> s.rows.contains_key(id) && s.rows[id].last().begin
            == TxTimestampOrID::TxID(tx_id) && s.rows[id].last().end is None
}

/// Whether every commit of the workload `ops`, started in state `s`,
/// leads.
pub open spec fn led(s: DbState, ops: Seq<Op>) -> bool
    decreases ops.len(),
{
    if ops.len() == 0 {
        true
    } else {
        &&& led(s, ops.drop_last())
        &&& ops.last() matches Op::Commit { tx_id, after } ==> (run(
            s,
            ops.drop_last(),
        ).txs.contains_key(tx_id) ==> leads(run(s, ops.drop_last()), tx_id))
    }
}

/// The log that the workload `ops` writes when it starts in state `s`:
/// the record of each commit that has a record, in the order of the
/// commits.
pub open spec fn log_of(s: DbState, ops: Seq<Op>) -> Seq<RecordView>
    decreases ops.len(),
{
    if ops.len() == 0 {
        Seq::empty()
    } else {
        let before = run(s, ops.drop_last());
        let log = log_of(s, ops.drop_last());
        match ops.last() {
            Op::Commit { tx_id, after } => if before.txs.contains_key(tx_id) && before.commit_log(
                tx_id,
            ).len() > 0 {
                log.push(before.commit_record(tx_id))
            } else {
                log
            },
            _ => log,
        }
    }
}

/// The versions of `versions` that belong to row `id`, in their order.
pub open spec fn of_row(versions: Seq<RowVersion>, id: RowID) -> Seq<RowVersion>
    decreases versions.len(),
{
    if versions.len() == 0 {
        Seq::empty()
    } else if versions.last().row.id == id {
        of_row(versions.drop_last(), id).push(versions.last())
    } else {
        of_row(versions.drop_last(), id)
    }
}

/// Of two lists in a row, the versions of a row are those of the first
/// followed by those of the second.
pub proof fn lemma_of_row_add(first: Seq<RowVersion>, second: Seq<RowVersion>, id: RowID)
    ensures
        of_row(first + second, id) == of_row(first, id) + of_row(second, id),
    decreases second.len(),
{
    if second.len() == 0 {
        assert(first + second =~= first);
        assert(of_row(first, id) + of_row(second, id) =~= of_row(first, id));
    } else {
        let rest = second.drop_last();
        lemma_of_row_add(first, rest, id);
        assert((first + second).drop_last() =~= first + rest);
        assert((first + second).last() == second.last());
        if second.last().row.id == id {
            assert(of_row(first, id) + of_row(rest, id).push(second.last()) =~= (of_row(first, id)
                + of_row(rest, id)).push(second.last()));
        }
    }
}

/// A list of versions that all belong to one row holds, of that row, all
/// its versions, and of another row, none.
pub proof fn lemma_of_row_one(versions: Seq<RowVersion>, owner: RowID, id: RowID)
    requires
        forall|i: int| 0 <= i < versions.len() ==> (#[trigger] versions[i]).row.id == owner,
    ensures
        of_row(versions, id) == (if id == owner {
            versions
        } else {
            Seq::empty()
        }),
    decreases versions.len(),
{
    if versions.len() > 0 {
        let rest = versions.drop_last();
        assert forall|i: int| 0 <= i < rest.len() implies (#[trigger] rest[i]).row.id == owner by {
            assert(rest[i] == versions[i]);
        }
        lemma_of_row_one(rest, owner, id);
        assert(versions[versions.len() - 1].row.id == owner);
        if id == owner {
            assert(rest.push(versions.last()) =~= versions);
        }
    }
}

/// After a replay of `versions`, the chain of a row is what it was,
/// followed by the versions of `versions` that belong to the row.
pub proof fn lemma_append_versions_chain(
    rows: Map<RowID, Seq<RowVersion>>,
    versions: Seq<RowVersion>,
    id: RowID,
)
    ensures
        chain_of(append_versions(rows, versions), id) == chain_of(rows, id) + of_row(versions, id),
    decreases versions.len(),
{
    if versions.len() == 0 {
        assert(chain_of(rows, id) + of_row(versions, id) =~= chain_of(rows, id));
    } else {
        let rest = versions.drop_last();
        let rv = versions.last();
        lemma_append_versions_chain(rows, rest, id);
        let mid = append_versions(rows, rest);
        if rv.row.id == id {
            assert(chain_of(append_version(mid, rv), id) =~= chain_of(mid, id).push(rv));
            assert(chain_of(rows, id) + of_row(rest, id).push(rv) =~= (chain_of(rows, id) + of_row(
                rest,
                id,
            )).push(rv));
        }
    }
}

/// What a commit logs for a write set holds, of each row of the write
/// set, what it logs for the chain of the row, and of other rows nothing.
pub proof fn lemma_of_row_logged_rows(
    rows: Map<RowID, Seq<RowVersion>>,
    ids: Seq<RowID>,
    tx_id: u64,
    begin_ts: u64,
    end_ts: u64,
    id: RowID,
)
    requires
        ids.no_duplicates(),
        forall|row: RowID, i: int|
            rows.contains_key(row) && 0 <= i < rows[row].len() ==> (#[trigger] rows[row][i]).row.id
                == row,
    ensures
        of_row(logged_rows(rows, ids, tx_id, begin_ts, end_ts), id) == (if ids.contains(id)
            && rows.contains_key(id) {
            logged(rows[id], tx_id, begin_ts, end_ts)
        } else {
            Seq::empty()
        }),
    decreases ids.len(),
{
    if ids.len() > 0 {
        let rest = ids.drop_last();
        let last = ids.last();
        assert(ids[ids.len() - 1] == last);
        assert forall|other: RowID| ids.contains(other) <==> other == last || rest.contains(
            other,
        ) by {
            if ids.contains(other) {
                let j = choose|j: int| 0 <= j < ids.len() && ids[j] == other;
                if j < rest.len() {
                    assert(rest[j] == other);
                }
            }
            if rest.contains(other) {
                let j = choose|j: int| 0 <= j < rest.len() && rest[j] == other;
                assert(ids[j] == other);
            }
        }
        assert(!rest.contains(last)) by {
            if rest.contains(last) {
                let j = choose|j: int| 0 <= j < rest.len() && rest[j] == last;
                assert(ids[j] == ids[ids.len() - 1]);
            }
        }
        lemma_of_row_logged_rows(rows, rest, tx_id, begin_ts, end_ts, id);
        let before = logged_rows(rows, rest, tx_id, begin_ts, end_ts);
        if rows.contains_key(last) {
            let part = logged(rows[last], tx_id, begin_ts, end_ts);
            assert forall|k: int| 0 <= k < part.len() implies (#[trigger] part[k]).row.id == last by {
                lemma_logged_versions(rows[last], tx_id, begin_ts, end_ts, k);
                let i = choose|i: int|
                    0 <= i < rows[last].len() && touched_by(
                        #[trigger] rows[last][i],
                        tx_id,
                    ) && part[k] == settle(rows[last][i], tx_id, begin_ts, end_ts);
                assert(rows[last][i].row.id == last);
            }
            lemma_of_row_one(part, last, id);
            lemma_of_row_add(before, part, id);
            if id == last {
                assert(Seq::<RowVersion>::empty() + part =~= part);
            } else {
                assert(of_row(before, id) + Seq::<RowVersion>::empty() =~= of_row(before, id));
            }
        }
    }
}

/// After a commit that leads and the replay of its record, a fresh
/// transaction sees the same of every row in the store that has committed
/// and in the store that has replayed, if it did so before.
pub proof fn lemma_commit_agrees(
    s: DbState,
    tx_id: u64,
    after: u64,
    replayed: Map<RowID, Seq<RowVersion>>,
)
    requires
        s.inv(),
        s.txs.contains_key(tx_id),
        leads(s, tx_id),
        all_capped(s.rows),
        agree(s.rows, replayed),
    ensures
        all_capped(s.commit(tx_id, after).rows),
        agree(s.commit(tx_id, after).rows, append_versions(replayed, s.commit_log(tx_id))),
{
    let t = s.commit(tx_id, after);
    let tx = s.txs[tx_id];
    let log = s.commit_log(tx_id);
    assert(s.tx_ok(tx_id));
    assert forall|row: RowID, i: int|
        s.rows.contains_key(row) && 0 <= i < s.rows[row].len() implies (#[trigger] s.rows[row][i]).row.id
        == row by {
        assert(s.version_ok(row, s.rows[row][i]));
    }
    assert forall|id: RowID|
        capped(#[trigger] chain_of(t.rows, id)) && fresh(chain_of(t.rows, id)) == fresh(
            chain_of(append_versions(replayed, log), id),
        ) by {
        lemma_append_versions_chain(replayed, log, id);
        lemma_of_row_logged_rows(s.rows, tx.write_set, tx_id, tx.begin_ts, s.now, id);
        assert(capped(chain_of(s.rows, id)));
        assert(fresh(chain_of(s.rows, id)) == fresh(chain_of(replayed, id)));
        if tx.write_set.contains(id) {
            let chain = s.rows[id];
            lemma_settle_led(chain, tx_id, tx.begin_ts, s.now);
            lemma_fresh_tail(chain_of(replayed, id), logged(chain, tx_id, tx.begin_ts, s.now));
            assert(chain_of(t.rows, id) == settle_chain(chain, tx_id, tx.begin_ts, s.now));
        } else {
            assert(chain_of(replayed, id) + Seq::<RowVersion>::empty() =~= chain_of(replayed, id));
            if s.rows.contains_key(id) {
                lemma_untouched_outside(s, tx_id, id);
                lemma_untouched(s.rows[id], tx_id, tx.begin_ts, s.now);
                assert(chain_of(t.rows, id) == s.rows[id]);
            }
        }
    }
}

/// One operation, other than the commit of a live transaction, changes
/// nothing for a fresh transaction.
pub proof fn lemma_steady_step(s: DbState, op: Op)
    requires
        s.inv(),
        all_capped(s.rows),
        op matches Op::Commit { tx_id, after } ==> !s.txs.contains_key(tx_id),
    ensures
        steady(s.rows, step(s, op).rows),
{
    match op {
        Op::Begin { after } => {},
        Op::Insert { tx_id, row } => lemma_steady_insert(s, tx_id, row),
        Op::Update { tx_id, row } => {
            lemma_steady_delete(s, tx_id, row.id);
            lemma_steady_insert(s.delete(tx_id, row.id), tx_id, row);
            lemma_steady_chain(s.rows, s.delete(tx_id, row.id).rows, step(s, op).rows);
        },
        Op::Delete { tx_id, id } => lemma_steady_delete(s, tx_id, id),
        Op::Read { tx_id, id } => {},
        Op::Commit { tx_id, after } => {},
        Op::Rollback { tx_id } => lemma_steady_rollback(s, tx_id),
        Op::Sweep => lemma_steady_sweep(s),
    }
}

/// Through a workload whose commits lead, the store that runs the workload
/// and a store that replays its log keep showing a fresh transaction the
/// same of every row; and every record of the log is well formed.
pub proof fn lemma_replay_agrees(s: DbState, replayed: DbState, ops: Seq<Op>)
    requires
        s.inv(),
        all_capped(s.rows),
        agree(s.rows, replayed.rows),
        runs(s, ops),
        led(s, ops),
    ensures
        run(s, ops).inv(),
        all_capped(run(s, ops).rows),
        agree(run(s, ops).rows, replayed.replay(log_of(s, ops)).rows),
        well_formed_log(log_of(s, ops)),
    decreases ops.len(),
{
    if ops.len() > 0 {
        let before = run(s, ops.drop_last());
        let log = log_of(s, ops.drop_last());
        let op = ops.last();
        lemma_replay_agrees(s, replayed, ops.drop_last());
        lemma_step_inv(before, op);
        let base = replayed.replay(log);
        let live = match op {
            Op::Commit { tx_id, after } => before.txs.contains_key(tx_id),
            _ => false,
        };
        if live {
            let tx_id = op->Commit_tx_id;
            let after = op->Commit_after;
            lemma_commit_agrees(before, tx_id, after, base.rows);
            lemma_commit_record_well_formed(before, tx_id);
            if before.commit_log(tx_id).len() > 0 {
                let record = before.commit_record(tx_id);
                assert(log.push(record).drop_last() =~= log);
                assert(log.push(record).last() == record);
                assert forall|i: int| 0 <= i < log.push(record).len() implies (#[trigger] log.push(
                    record,
                )[i]).is_well_formed() by {
                    if i < log.len() {
                        assert(log[i].is_well_formed());
                    }
                }
            }
        } else {
            lemma_steady_step(before, op);
            let after_step = step(before, op);
            assert forall|id: RowID| capped(#[trigger] chain_of(after_step.rows, id)) by {
                assert(capped(chain_of(before.rows, id)));
            }
            assert forall|id: RowID|
                fresh(#[trigger] chain_of(after_step.rows, id)) == fresh(
                    chain_of(base.rows, id),
                ) by {
                assert(fresh(chain_of(before.rows, id)) == fresh(chain_of(base.rows, id)));
            }
        }
    }
}

/// Recovery round trip. Let a workload run on a new database, and let
/// every commit of the workload lead. Then the log of the workload is one
/// that recovery accepts, and a database that is rebuilt from the log shows
/// a transaction that begins after the recovery, for every row, what the
/// database that ran the workload shows a transaction that begins after
/// the workload.
pub proof fn lemma_recovery_round_trip(
    now: u64,
    ops: Seq<Op>,
    after: u64,
    restart: u64,
    after_recovery: u64,
    id: RowID,
)
    requires
        runs(DbState::empty(now), ops),
        led(DbState::empty(now), ops),
    ensures
        ({
            let log = log_of(DbState::empty(now), ops);
            let ran = run(DbState::empty(now), ops);
            let recovered = DbState::empty(restart).replay(log);
            &&& well_formed_log(log)
            &&& recovered.begin(after_recovery).read_result(recovered.next_tx_id, id) == ran.begin(
                after,
            ).read_result(ran.next_tx_id, id)
        }),
{
    let start = DbState::empty(now);
    let base = DbState::empty(restart);
    let log = log_of(start, ops);
    assert forall|row: RowID| capped(#[trigger] chain_of(start.rows, row)) by {}
    assert forall|row: RowID|
        fresh(#[trigger] chain_of(start.rows, row)) == fresh(chain_of(base.rows, row)) by {}
    lemma_replay_agrees(start, base, ops);
    lemma_replay_inv(base, log);
    let ran = run(start, ops);
    let recovered = base.replay(log);
    lemma_fresh_reader(ran, after, id);
    lemma_fresh_reader(recovered, after_recovery, id);
    assert(fresh(chain_of(ran.rows, id)) == fresh(chain_of(recovered.rows, id)));
}

} // verus!
