//! The visibility rules: which versions a transaction sees, and which
//! versions it may not write.
//!
//! A marker that names a transaction is judged by that transaction's entry
//! in the table of live transactions. The rules cover owners that are
//! active; the engine removes a transaction from the table in the same step
//! that rewrites or removes its markers, so no other owner is ever met.

use crate::row::{RowVersion, TxTimestampOrID};
use crate::transaction::{tx_views, Transaction, TransactionState, TxView};
use std::collections::HashMap;
use vstd::prelude::*;

verus! {

/// Whether `marker`, if it names a transaction, names an active transaction
/// of `txs`.
pub open spec fn owner_active(txs: Map<u64, TxView>, marker: TxTimestampOrID) -> bool {
    match marker {
        TxTimestampOrID::Timestamp(_) => true,
        TxTimestampOrID::TxID(owner) => txs.contains_key(owner) && txs[owner].state
            == TransactionState::Active,
    }
}

/// Whether the owner of the end marker of `rv`, if it has one, is active.
pub open spec fn end_owner_active(txs: Map<u64, TxView>, rv: RowVersion) -> bool {
    match rv.end {
        Some(marker) => owner_active(txs, marker),
        None => true,
    }
}

/// Whether `rv` began early enough for `tx` to see it: it was committed by
/// a transaction that began no later than `tx`, or it is the current
/// version that `tx` itself has written.
pub open spec fn begin_visible(txs: Map<u64, TxView>, tx: TxView, rv: RowVersion) -> bool {
    match rv.begin {
        TxTimestampOrID::Timestamp(begin_ts) => tx.begin_ts >= begin_ts,
        TxTimestampOrID::TxID(owner) => tx.tx_id == txs[owner].tx_id && rv.end is None,
    }
}

/// Whether `rv` has not ended for `tx`: it has no end, it was ended at a
/// timestamp after `tx` began, or another transaction is still about to
/// end it.
pub open spec fn end_visible(txs: Map<u64, TxView>, tx: TxView, rv: RowVersion) -> bool {
    match rv.end {
        Some(TxTimestampOrID::Timestamp(end_ts)) => tx.begin_ts < end_ts,
        Some(TxTimestampOrID::TxID(owner)) => tx.tx_id != txs[owner].tx_id,
        None => true,
    }
}

/// Whether `tx` sees `rv`.
pub open spec fn version_visible(txs: Map<u64, TxView>, tx: TxView, rv: RowVersion) -> bool {
    begin_visible(txs, tx, rv) && end_visible(txs, tx, rv)
}

/// Whether `rv` is being ended by an active transaction other than `tx`.
pub open spec fn write_write_conflict(txs: Map<u64, TxView>, tx: TxView, rv: RowVersion) -> bool {
    match rv.end {
        Some(TxTimestampOrID::TxID(owner)) => tx.tx_id != txs[owner].tx_id,
        Some(TxTimestampOrID::Timestamp(_)) => false,
        None => false,
    }
}

/// A write-write conflict happens when transaction `tx` attempts to update
/// a row version that is currently being updated by another active
/// transaction.
pub fn is_write_write_conflict(
    txs: &HashMap<u64, Transaction>,
    tx: &Transaction,
    rv: &RowVersion,
) -> (conflict: bool)
    requires
        end_owner_active(tx_views(txs@), *rv),
    ensures
        conflict == write_write_conflict(tx_views(txs@), tx@, *rv),
{
    match rv.end {
        Some(TxTimestampOrID::TxID(rv_end)) => {
            let te = txs.get(&rv_end).unwrap();
            tx.tx_id != te.tx_id
        },
        Some(TxTimestampOrID::Timestamp(_)) => false,
        None => false,
    }
}

/// Whether transaction `tx` sees the version `rv`.
pub fn is_version_visible(
    txs: &HashMap<u64, Transaction>,
    tx: &Transaction,
    rv: &RowVersion,
) -> (visible: bool)
    requires
        owner_active(tx_views(txs@), rv.begin),
        end_owner_active(tx_views(txs@), *rv),
    ensures
        visible == version_visible(tx_views(txs@), tx@, *rv),
{
    is_begin_visible(txs, tx, rv) && is_end_visible(txs, tx, rv)
}

/// Whether the begin marker of `rv` lets transaction `tx` see the version.
pub fn is_begin_visible(
    txs: &HashMap<u64, Transaction>,
    tx: &Transaction,
    rv: &RowVersion,
) -> (visible: bool)
    requires
        owner_active(tx_views(txs@), rv.begin),
    ensures
        visible == begin_visible(tx_views(txs@), tx@, *rv),
{
    match rv.begin {
        TxTimestampOrID::Timestamp(rv_begin_ts) => tx.begin_ts >= rv_begin_ts,
        TxTimestampOrID::TxID(rv_begin) => {
            let tb = txs.get(&rv_begin).unwrap();
            tx.tx_id == tb.tx_id && rv.end.is_none()
        },
    }
}

/// Whether the end marker of `rv` lets transaction `tx` see the version.
pub fn is_end_visible(
    txs: &HashMap<u64, Transaction>,
    tx: &Transaction,
    rv: &RowVersion,
) -> (visible: bool)
    requires
        end_owner_active(tx_views(txs@), *rv),
    ensures
        visible == end_visible(tx_views(txs@), tx@, *rv),
{
    match rv.end {
        Some(TxTimestampOrID::Timestamp(rv_end_ts)) => tx.begin_ts < rv_end_ts,
        Some(TxTimestampOrID::TxID(rv_end)) => {
            let te = txs.get(&rv_end).unwrap();
            tx.tx_id != te.tx_id
        },
        None => true,
    }
}

} // verus!
