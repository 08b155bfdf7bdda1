//! The walks over one version chain that the operations of the engine are
//! made of.

use crate::row::{LogRecord, RowVersion, TxTimestampOrID};
use crate::state::{
    begun_by, ended_by, logged, newest_visible, retained, settle, settle_chain, sweep_chain,
    touched_by, undo_chain, write_target, WriteTarget,
};
use crate::transaction::{tx_views, Transaction, TxView};
use crate::visibility::{
    end_owner_active, is_version_visible, is_write_write_conflict, owner_active,
};
use std::collections::HashMap;
use vstd::prelude::*;

verus! {

/// Whether every marker in `chain` that names a transaction names an active
/// transaction of `txs`.
pub open spec fn owners_active(txs: Map<u64, TxView>, chain: Seq<RowVersion>) -> bool {
    forall|i: int|
        0 <= i < chain.len() ==> owner_active(txs, (#[trigger] chain[i]).begin) && end_owner_active(
            txs,
            chain[i],
        )
}

/// The index of the newest version of `versions` that `tx` sees.
pub fn find_visible(
    txs: &HashMap<u64, Transaction>,
    tx: &Transaction,
    versions: &Vec<RowVersion>,
) -> (found: Option<usize>)
    requires
        owners_active(tx_views(txs@), versions@),
    ensures
        match found {
            Some(i) => newest_visible(tx_views(txs@), tx@, versions@) == Some(i as int) && i
                < versions@.len(),
            None => newest_visible(tx_views(txs@), tx@, versions@) is None,
        },
{
    let mut i: usize = versions.len();
    assert(versions@.take(i as int) =~= versions@);
    while i > 0
        invariant
            i <= versions.len(),
            owners_active(tx_views(txs@), versions@),
            newest_visible(tx_views(txs@), tx@, versions@) == newest_visible(
                tx_views(txs@),
                tx@,
                versions@.take(i as int),
            ),
        decreases i,
    {
        i -= 1;
        assert(versions@.take(i + 1).drop_last() =~= versions@.take(i as int));
        assert(versions@.take(i + 1).last() == versions@[i as int]);
        if is_version_visible(txs, tx, &versions[i]) {
            return Some(i);
        }
    }
    None
}

/// What a walk from the newest version of a chain to its oldest has found
/// for a transaction that wants to end the version it sees.
pub enum Found {
    /// Another active transaction is ending a version of the row.
    Conflict,
    /// The version at this index is the one to end.
    Version(usize),
    /// The transaction sees no version.
    Nothing,
}

impl View for Found {
    type V = WriteTarget;

    open spec fn view(&self) -> WriteTarget {
        match *self {
            Found::Conflict => WriteTarget::Conflict,
            Found::Version(i) => WriteTarget::Version(i as int),
            Found::Nothing => WriteTarget::Nothing,
        }
    }
}

/// Walks `versions` from the newest to the oldest and stops at the first
/// one that conflicts with `tx` or that `tx` sees.
pub fn find_target(
    txs: &HashMap<u64, Transaction>,
    tx: &Transaction,
    versions: &Vec<RowVersion>,
) -> (found: Found)
    requires
        owners_active(tx_views(txs@), versions@),
    ensures
        found@ == write_target(tx_views(txs@), tx@, versions@),
        found matches Found::Version(i) ==> i < versions@.len(),
{
    let mut i: usize = versions.len();
    assert(versions@.take(i as int) =~= versions@);
    while i > 0
        invariant
            i <= versions.len(),
            owners_active(tx_views(txs@), versions@),
            write_target(tx_views(txs@), tx@, versions@) == write_target(
                tx_views(txs@),
                tx@,
                versions@.take(i as int),
            ),
        decreases i,
    {
        i -= 1;
        assert(versions@.take(i + 1).drop_last() =~= versions@.take(i as int));
        assert(versions@.take(i + 1).last() == versions@[i as int]);
        if is_write_write_conflict(txs, tx, &versions[i]) {
            return Found::Conflict;
        }
        if is_version_visible(txs, tx, &versions[i]) {
            return Found::Version(i);
        }
    }
    Found::Nothing
}

/// Ends the version at index `i` in the name of transaction `tx_id`.
pub fn end_version(versions: &mut Vec<RowVersion>, i: usize, tx_id: u64)
    requires
        i < old(versions)@.len(),
    ensures
        final(versions)@ == old(versions)@.update(i as int, ended_by(old(versions)@[i as int], tx_id)),
{
    versions[i].end = Some(TxTimestampOrID::TxID(tx_id));
    assert(versions@ =~= old(versions)@.update(i as int, ended_by(old(versions)@[i as int], tx_id)));
}

/// Commits transaction `tx_id` on one chain: replaces each marker that
/// names the transaction by its timestamp, and adds a copy of each version
/// that changes to `record`.
pub fn settle_versions(
    versions: &mut Vec<RowVersion>,
    tx_id: u64,
    begin_ts: u64,
    end_ts: u64,
    record: &mut LogRecord,
)
    ensures
        final(versions)@ == settle_chain(old(versions)@, tx_id, begin_ts, end_ts),
        final(record).tx_timestamp == old(record).tx_timestamp,
        final(record).row_versions@ == old(record).row_versions@ + logged(
            old(versions)@,
            tx_id,
            begin_ts,
            end_ts,
        ),
{
    let mut i: usize = 0;
    assert(old(versions)@.take(0) =~= Seq::<RowVersion>::empty());
    while i < versions.len()
        invariant
            i <= versions.len(),
            versions@.len() == old(versions)@.len(),
            forall|j: int|
                0 <= j < i ==> #[trigger] versions@[j] == settle(
                    old(versions)@[j],
                    tx_id,
                    begin_ts,
                    end_ts,
                ),
            forall|j: int| i <= j < versions@.len() ==> #[trigger] versions@[j] == old(versions)@[j],
            record.tx_timestamp == old(record).tx_timestamp,
            record.row_versions@ == old(record).row_versions@ + logged(
                old(versions)@.take(i as int),
                tx_id,
                begin_ts,
                end_ts,
            ),
        decreases versions.len() - i,
    {
        assert(old(versions)@.take(i + 1).drop_last() =~= old(versions)@.take(i as int));
        assert(old(versions)@.take(i + 1).last() == old(versions)@[i as int]);
        let mut touched = false;
        if versions[i].begin == TxTimestampOrID::TxID(tx_id) {
            versions[i].begin = TxTimestampOrID::Timestamp(begin_ts);
            touched = true;
        }
        if versions[i].end == Some(TxTimestampOrID::TxID(tx_id)) {
            versions[i].end = Some(TxTimestampOrID::Timestamp(end_ts));
            touched = true;
        }
        if touched {
            record.row_versions.push(versions[i].clone());
        }
        assert(touched == touched_by(old(versions)@[i as int], tx_id));
        assert(record.row_versions@ =~= old(record).row_versions@ + logged(
            old(versions)@.take(i + 1),
            tx_id,
            begin_ts,
            end_ts,
        ));
        i += 1;
    }
    assert(old(versions)@.take(i as int) =~= old(versions)@);
    assert(versions@ =~= settle_chain(old(versions)@, tx_id, begin_ts, end_ts));
}

/// Rolls transaction `tx_id` back on one chain: drops the versions that the
/// transaction created, and takes the end off the versions that it ended.
pub fn undo_versions(versions: Vec<RowVersion>, tx_id: u64) -> (kept: Vec<RowVersion>)
    ensures
        kept@ == undo_chain(versions@, tx_id),
{
    let mut kept: Vec<RowVersion> = Vec::new();
    assert(versions@.take(0) =~= Seq::<RowVersion>::empty());
    for rv in it: versions
        invariant
            it.seq() == versions@,
            kept@ == undo_chain(versions@.take(it.index() as int), tx_id),
    {
        assert(versions@.take(it.index() + 1).drop_last() =~= versions@.take(it.index() as int));
        assert(versions@.take(it.index() + 1).last() == rv);
        let mut rv = rv;
        if rv.begin != TxTimestampOrID::TxID(tx_id) {
            if rv.end == Some(TxTimestampOrID::TxID(tx_id)) {
                rv.end = None;
            }
            kept.push(rv);
        }
    }
    assert(versions@.take(versions@.len() as int) =~= versions@);
    kept
}

/// Collects garbage on one chain: keeps the versions that may still be
/// seen. `oldest` is the oldest begin timestamp of a live transaction.
pub fn sweep_versions(
    versions: Vec<RowVersion>,
    txs: &HashMap<u64, Transaction>,
    oldest: Option<u64>,
) -> (kept: Vec<RowVersion>)
    requires
        forall|end_ts: u64| #[trigger]
            begun_by(tx_views(txs@), end_ts) <==> (oldest matches Some(least) && least <= end_ts),
    ensures
        kept@ == sweep_chain(tx_views(txs@), versions@),
{
    let mut kept: Vec<RowVersion> = Vec::new();
    assert(versions@.take(0) =~= Seq::<RowVersion>::empty());
    for rv in it: versions
        invariant
            it.seq() == versions@,
            kept@ == sweep_chain(tx_views(txs@), versions@.take(it.index() as int)),
            forall|end_ts: u64| #[trigger]
                begun_by(tx_views(txs@), end_ts) <==> (oldest matches Some(least) && least
                    <= end_ts),
    {
        assert(versions@.take(it.index() + 1).drop_last() =~= versions@.take(it.index() as int));
        assert(versions@.take(it.index() + 1).last() == rv);
        let should_stay = match rv.end {
            Some(TxTimestampOrID::Timestamp(version_end_ts)) => match oldest {
                Some(begin_ts) => version_end_ts >= begin_ts,
                None => false,
            },
            Some(TxTimestampOrID::TxID(owner)) => txs.contains_key(&owner),
            None => true,
        };
        assert(should_stay == retained(tx_views(txs@), rv));
        if should_stay {
            kept.push(rv);
        }
    }
    assert(versions@.take(versions@.len() as int) =~= versions@);
    kept
}

} // verus!
