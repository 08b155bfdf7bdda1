//! Rows, row versions and log records.

use vstd::prelude::*;

verus! {

/// The identity of a row: a table and a row number in it.
///
/// Row IDs are ordered by table first and by row number second.
#[derive(Clone, Copy, Debug, PartialEq, Eq, Structural, PartialOrd, Ord, Hash)]
pub struct RowID {
    pub table_id: u64,
    pub row_id: u64,
}

impl RowID {
    /// The order of row IDs: by table, then by row number.
    pub open spec fn lt(self, other: RowID) -> bool {
        self.table_id < other.table_id || (self.table_id == other.table_id && self.row_id
            < other.row_id)
    }
}

/// A row: its identity and its payload, which the engine never interprets.
#[derive(Debug, PartialEq)]
pub struct Row {
    pub id: RowID,
    pub data: String,
}

impl Clone for Row {
    fn clone(&self) -> (copy: Row)
        ensures
            copy == *self,
    {
        Row { id: self.id, data: self.data.clone() }
    }
}

/// A transaction timestamp or ID.
///
/// While a transaction is active, the versions it creates or ends carry its
/// ID. When it commits, each of those markers is replaced by a timestamp.
#[derive(Clone, Copy, Debug, PartialEq, Eq, Structural)]
pub enum TxTimestampOrID {
    Timestamp(u64),
    TxID(u64),
}

/// A row version: a row together with the markers that say from when and
/// until when it is the row's value.
#[derive(Debug, PartialEq)]
pub struct RowVersion {
    pub begin: TxTimestampOrID,
    pub end: Option<TxTimestampOrID>,
    pub row: Row,
}

impl Clone for RowVersion {
    fn clone(&self) -> (copy: RowVersion)
        ensures
            copy == *self,
    {
        RowVersion { begin: self.begin, end: self.end, row: self.row.clone() }
    }
}

/// A log record: the versions that one committed transaction created or
/// ended, with the markers they carry after the commit.
#[derive(Debug, PartialEq)]
pub struct LogRecord {
    /// The commit timestamp of the transaction.
    pub tx_timestamp: u64,
    /// The versions that the transaction created or ended.
    pub row_versions: Vec<RowVersion>,
}

impl Clone for LogRecord {
    fn clone(&self) -> (copy: LogRecord)
        ensures
            copy@ == self@,
    {
        let mut row_versions: Vec<RowVersion> = Vec::new();
        let mut i: usize = 0;
        while i < self.row_versions.len()
            invariant
                i <= self.row_versions.len(),
                row_versions@ == self.row_versions@.take(i as int),
            decreases self.row_versions.len() - i,
        {
            row_versions.push(self.row_versions[i].clone());
            assert(self.row_versions@.take(i + 1) =~= self.row_versions@.take(i as int).push(
                self.row_versions@[i as int],
            ));
            i += 1;
        }
        assert(self.row_versions@.take(i as int) =~= self.row_versions@);
        LogRecord { tx_timestamp: self.tx_timestamp, row_versions }
    }
}

/// Whether both markers of `rv` are timestamps no later than `ts`.
pub open spec fn settled_by(rv: RowVersion, ts: u64) -> bool {
    &&& rv.begin matches TxTimestampOrID::Timestamp(begin_ts) && begin_ts <= ts
    &&& match rv.end {
        Some(TxTimestampOrID::Timestamp(end_ts)) => end_ts <= ts,
        Some(TxTimestampOrID::TxID(_)) => false,
        None => true,
    }
}

/// What a log record is, as a mathematical value.
pub struct RecordView {
    pub tx_timestamp: u64,
    pub row_versions: Seq<RowVersion>,
}

impl View for LogRecord {
    type V = RecordView;

    open spec fn view(&self) -> RecordView {
        RecordView { tx_timestamp: self.tx_timestamp, row_versions: self.row_versions@ }
    }
}

impl RecordView {
    /// Whether the record can have come from a commit: a later timestamp
    /// exists, and every marker in the record is a timestamp that is not
    /// later than the commit.
    pub open spec fn is_well_formed(self) -> bool {
        &&& self.tx_timestamp < u64::MAX
        &&& forall|i: int|
            0 <= i < self.row_versions.len() ==> settled_by(
                #[trigger] self.row_versions[i],
                self.tx_timestamp,
            )
    }
}

/// Whether every record of `log` is well formed.
pub open spec fn well_formed_log(log: Seq<RecordView>) -> bool {
    forall|i: int| 0 <= i < log.len() ==> (#[trigger] log[i]).is_well_formed()
}

/// The records of a log as mathematical values, in their order.
pub open spec fn log_view(records: Seq<LogRecord>) -> Seq<RecordView> {
    records.map_values(|record: LogRecord| record@)
}

impl LogRecord {
    /// An empty record for the transaction that committed at `tx_timestamp`.
    pub fn new(tx_timestamp: u64) -> (record: LogRecord)
        ensures
            record.tx_timestamp == tx_timestamp,
            record.row_versions@ == Seq::<RowVersion>::empty(),
    {
        LogRecord { tx_timestamp, row_versions: Vec::new() }
    }

    /// Checks that the record is well formed.
    pub fn check(&self) -> (ok: bool)
        ensures
            ok == self@.is_well_formed(),
    {
        if self.tx_timestamp == u64::MAX {
            return false;
        }
        let mut i: usize = 0;
        while i < self.row_versions.len()
            invariant
                i <= self.row_versions.len(),
                forall|j: int|
                    0 <= j < i ==> settled_by(#[trigger] self.row_versions@[j], self.tx_timestamp),
            decreases self.row_versions.len() - i,
        {
            let rv = &self.row_versions[i];
            let begin_ok = match rv.begin {
                TxTimestampOrID::Timestamp(begin_ts) => begin_ts <= self.tx_timestamp,
                TxTimestampOrID::TxID(_) => false,
            };
            let end_ok = match rv.end {
                Some(TxTimestampOrID::Timestamp(end_ts)) => end_ts <= self.tx_timestamp,
                Some(TxTimestampOrID::TxID(_)) => false,
                None => true,
            };
            if !(begin_ok && end_ok) {
                assert(!settled_by(self@.row_versions[i as int], self@.tx_timestamp));
                return false;
            }
            i += 1;
        }
        true
    }
}

} // verus!
