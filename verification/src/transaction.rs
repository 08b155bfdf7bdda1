//! Transactions and the table of live transactions.

use crate::row::RowID;
use vstd::prelude::*;

verus! {

/// The state of a transaction.
#[derive(Clone, Copy, Debug, PartialEq, Eq, Structural)]
pub enum TransactionState {
    Active,
    Preparing,
    Committed,
    Aborted,
    Terminated,
}

/// A transaction: its identity, its snapshot and the rows it has touched.
///
/// The write set and the read set hold each row ID at most once, in the
/// order in which the transaction first touched the rows.
#[derive(Debug)]
pub struct Transaction {
    /// The state of the transaction.
    pub state: TransactionState,
    /// The transaction ID.
    pub tx_id: u64,
    /// The transaction begin timestamp.
    pub begin_ts: u64,
    /// The transaction write set.
    pub write_set: Vec<RowID>,
    /// The transaction read set.
    pub read_set: Vec<RowID>,
}

/// What a transaction is, as a mathematical value.
pub struct TxView {
    pub state: TransactionState,
    pub tx_id: u64,
    pub begin_ts: u64,
    pub write_set: Seq<RowID>,
    pub read_set: Seq<RowID>,
}

impl View for Transaction {
    type V = TxView;

    open spec fn view(&self) -> TxView {
        TxView {
            state: self.state,
            tx_id: self.tx_id,
            begin_ts: self.begin_ts,
            write_set: self.write_set@,
            read_set: self.read_set@,
        }
    }
}

/// `ids` with `id` added at the end, unless it is in `ids` already.
pub open spec fn with_id(ids: Seq<RowID>, id: RowID) -> Seq<RowID> {
    if ids.contains(id) {
        ids
    } else {
        ids.push(id)
    }
}

/// Adding to a list without duplicates leaves it without duplicates, and
/// the list then holds `id` and what it held before.
pub proof fn lemma_with_id(ids: Seq<RowID>, id: RowID)
    ensures
        with_id(ids, id).contains(id),
        forall|other: RowID| ids.contains(other) ==> with_id(ids, id).contains(other),
        forall|other: RowID| with_id(ids, id).contains(other) ==> other == id || ids.contains(other),
        ids.no_duplicates() ==> with_id(ids, id).no_duplicates(),
{
    if !ids.contains(id) {
        let longer = ids.push(id);
        assert(longer[ids.len() as int] == id);
        assert forall|other: RowID| ids.contains(other) implies longer.contains(other) by {
            let i = choose|i: int| 0 <= i < ids.len() && ids[i] == other;
            assert(longer[i] == other);
        }
    }
}

/// A copy of `ids`.
fn copy_ids(ids: &Vec<RowID>) -> (copy: Vec<RowID>)
    ensures
        copy@ == ids@,
{
    let mut copy: Vec<RowID> = Vec::new();
    let mut i: usize = 0;
    while i < ids.len()
        invariant
            i <= ids.len(),
            copy@ == ids@.take(i as int),
        decreases ids.len() - i,
    {
        copy.push(ids[i]);
        assert(ids@.take(i + 1) =~= ids@.take(i as int).push(ids@[i as int]));
        i += 1;
    }
    assert(ids@.take(i as int) =~= ids@);
    copy
}

impl Clone for Transaction {
    fn clone(&self) -> (copy: Transaction)
        ensures
            copy@ == self@,
    {
        Transaction {
            state: self.state,
            tx_id: self.tx_id,
            begin_ts: self.begin_ts,
            write_set: copy_ids(&self.write_set),
            read_set: copy_ids(&self.read_set),
        }
    }
}

/// Adds `id` to `ids` unless it is there already.
fn add_id(ids: &mut Vec<RowID>, id: RowID)
    ensures
        final(ids)@ == with_id(old(ids)@, id),
{
    let mut i: usize = 0;
    while i < ids.len()
        invariant
            i <= ids.len(),
            ids@ == old(ids)@,
            forall|j: int| 0 <= j < i ==> ids@[j] != id,
        decreases ids.len() - i,
    {
        if ids[i] == id {
            return ;
        }
        i += 1;
    }
    ids.push(id);
}

impl Transaction {
    /// A transaction that has just begun: active, with nothing read or
    /// written.
    pub fn new(tx_id: u64, begin_ts: u64) -> (tx: Transaction)
        ensures
            tx@ == (TxView {
                state: TransactionState::Active,
                tx_id,
                begin_ts,
                write_set: Seq::empty(),
                read_set: Seq::empty(),
            }),
    {
        Transaction {
            state: TransactionState::Active,
            tx_id,
            begin_ts,
            write_set: Vec::new(),
            read_set: Vec::new(),
        }
    }

    /// Records that the transaction has read row `id`.
    pub fn insert_to_read_set(&mut self, id: RowID)
        ensures
            final(self)@ == (TxView { read_set: with_id(old(self)@.read_set, id), ..old(self)@ }),
    {
        add_id(&mut self.read_set, id);
    }

    /// Records that the transaction has written row `id`.
    pub fn insert_to_write_set(&mut self, id: RowID)
        ensures
            final(self)@ == (TxView { write_set: with_id(old(self)@.write_set, id), ..old(self)@ }),
    {
        add_id(&mut self.write_set, id);
    }
}

/// The live transactions as mathematical values, by transaction ID.
pub open spec fn tx_views(txs: Map<u64, Transaction>) -> Map<u64, TxView> {
    txs.map_values(|tx: Transaction| tx@)
}

} // verus!
