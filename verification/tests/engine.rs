use mvcc_rs::active_begins::ActiveBegins;
use mvcc_rs::clock::{LocalClock, LogicalClock};
use mvcc_rs::database::{Database, DatabaseInner};
use mvcc_rs::errors::DatabaseError;
use mvcc_rs::row::{LogRecord, Row, RowID, RowVersion, TxTimestampOrID};
use mvcc_rs::transaction::{Transaction, TransactionState};
use mvcc_rs::version_store::VersionStore;
use mvcc_rs::visibility::{
    is_begin_visible, is_end_visible, is_version_visible, is_write_write_conflict,
};
use std::collections::HashMap;

fn new_db() -> Database<LocalClock> {
    Database::new(LocalClock::new())
}

fn id(table_id: u64, row_id: u64) -> RowID {
    RowID { table_id, row_id }
}

fn row(table_id: u64, row_id: u64, data: &str) -> Row {
    Row { id: id(table_id, row_id), data: data.to_string() }
}

fn version(begin: TxTimestampOrID, end: Option<TxTimestampOrID>, row: Row) -> RowVersion {
    RowVersion { begin, end, row }
}

#[test]
fn test_local_clock_counts_up_from_zero() {
    let mut clock = LocalClock::new();
    assert!(!clock.is_exhausted());
    assert_eq!(clock.get_timestamp(), 0);
    assert_eq!(clock.get_timestamp(), 1);
    assert_eq!(clock.get_timestamp(), 2);
}

#[test]
fn test_local_clock_reset_raises_the_floor() {
    let mut clock = LocalClock::new();
    clock.reset(10);
    assert_eq!(clock.get_timestamp(), 11);
    clock.reset(5);
    assert_eq!(clock.get_timestamp(), 12);
    clock.reset(12);
    assert_eq!(clock.get_timestamp(), 13);
}

#[test]
fn test_local_clock_exhausted_at_the_last_timestamp() {
    let mut clock = LocalClock::new();
    clock.reset(u64::MAX - 1);
    assert!(clock.is_exhausted());
}

#[test]
fn test_error_messages() {
    assert_eq!(DatabaseError::NoSuchTransactionID(7).message(), "no such transaction ID");
    assert_eq!(
        DatabaseError::WriteWriteConflict.message(),
        "transaction aborted because of a write-write conflict"
    );
    assert_eq!(DatabaseError::TxTerminated.message(), "transaction is terminated");
    assert_eq!(DatabaseError::Corrupt.message(), "corrupt log record");
}

#[test]
fn test_transaction_new_is_active_and_empty() {
    let tx = Transaction::new(3, 9);
    assert_eq!(tx.state, TransactionState::Active);
    assert_eq!(tx.tx_id, 3);
    assert_eq!(tx.begin_ts, 9);
    assert!(tx.write_set.is_empty());
    assert!(tx.read_set.is_empty());
}

#[test]
fn test_transaction_sets_hold_each_row_once() {
    let mut tx = Transaction::new(1, 0);
    tx.insert_to_write_set(id(1, 2));
    tx.insert_to_write_set(id(1, 1));
    tx.insert_to_write_set(id(1, 2));
    assert_eq!(tx.write_set, vec![id(1, 2), id(1, 1)]);
    tx.insert_to_read_set(id(2, 1));
    tx.insert_to_read_set(id(2, 1));
    assert_eq!(tx.read_set, vec![id(2, 1)]);
    assert_eq!(tx.write_set, vec![id(1, 2), id(1, 1)]);
}

#[test]
fn test_log_record_new_is_empty() {
    let record = LogRecord::new(5);
    assert_eq!(record.tx_timestamp, 5);
    assert!(record.row_versions.is_empty());
    assert!(record.check());
}

#[test]
fn test_log_record_check() {
    let mut record = LogRecord::new(5);
    record.row_versions.push(version(
        TxTimestampOrID::Timestamp(3),
        Some(TxTimestampOrID::Timestamp(5)),
        row(1, 1, "a"),
    ));
    record.row_versions.push(version(TxTimestampOrID::Timestamp(5), None, row(1, 2, "b")));
    assert!(record.check());

    let mut late_begin = LogRecord::new(5);
    late_begin.row_versions.push(version(TxTimestampOrID::Timestamp(6), None, row(1, 1, "a")));
    assert!(!late_begin.check());

    let mut late_end = LogRecord::new(5);
    late_end.row_versions.push(version(
        TxTimestampOrID::Timestamp(1),
        Some(TxTimestampOrID::Timestamp(6)),
        row(1, 1, "a"),
    ));
    assert!(!late_end.check());

    let mut open_begin = LogRecord::new(5);
    open_begin.row_versions.push(version(TxTimestampOrID::TxID(1), None, row(1, 1, "a")));
    assert!(!open_begin.check());

    let mut open_end = LogRecord::new(5);
    open_end.row_versions.push(version(
        TxTimestampOrID::Timestamp(1),
        Some(TxTimestampOrID::TxID(1)),
        row(1, 1, "a"),
    ));
    assert!(!open_end.check());

    assert!(!LogRecord::new(u64::MAX).check());
}

#[test]
fn test_begin_visible() {
    let mut txs: HashMap<u64, Transaction> = HashMap::new();
    txs.insert(1, Transaction::new(1, 10));
    txs.insert(2, Transaction::new(2, 20));
    let observer = Transaction::new(2, 20);

    let committed_before = version(TxTimestampOrID::Timestamp(20), None, row(1, 1, "a"));
    assert!(is_begin_visible(&txs, &observer, &committed_before));
    let committed_after = version(TxTimestampOrID::Timestamp(21), None, row(1, 1, "a"));
    assert!(!is_begin_visible(&txs, &observer, &committed_after));

    let own = version(TxTimestampOrID::TxID(2), None, row(1, 1, "a"));
    assert!(is_begin_visible(&txs, &observer, &own));
    let own_ended = version(
        TxTimestampOrID::TxID(2),
        Some(TxTimestampOrID::TxID(2)),
        row(1, 1, "a"),
    );
    assert!(!is_begin_visible(&txs, &observer, &own_ended));
    let foreign = version(TxTimestampOrID::TxID(1), None, row(1, 1, "a"));
    assert!(!is_begin_visible(&txs, &observer, &foreign));
}

#[test]
fn test_end_visible() {
    let mut txs: HashMap<u64, Transaction> = HashMap::new();
    txs.insert(1, Transaction::new(1, 10));
    txs.insert(2, Transaction::new(2, 20));
    let observer = Transaction::new(2, 20);

    let current = version(TxTimestampOrID::Timestamp(1), None, row(1, 1, "a"));
    assert!(is_end_visible(&txs, &observer, &current));
    let ended_later = version(
        TxTimestampOrID::Timestamp(1),
        Some(TxTimestampOrID::Timestamp(21)),
        row(1, 1, "a"),
    );
    assert!(is_end_visible(&txs, &observer, &ended_later));
    let ended_at_begin = version(
        TxTimestampOrID::Timestamp(1),
        Some(TxTimestampOrID::Timestamp(20)),
        row(1, 1, "a"),
    );
    assert!(!is_end_visible(&txs, &observer, &ended_at_begin));
    let ended_by_self = version(
        TxTimestampOrID::Timestamp(1),
        Some(TxTimestampOrID::TxID(2)),
        row(1, 1, "a"),
    );
    assert!(!is_end_visible(&txs, &observer, &ended_by_self));
    let ended_by_other = version(
        TxTimestampOrID::Timestamp(1),
        Some(TxTimestampOrID::TxID(1)),
        row(1, 1, "a"),
    );
    assert!(is_end_visible(&txs, &observer, &ended_by_other));
}

#[test]
fn test_version_visible_needs_both_markers() {
    let mut txs: HashMap<u64, Transaction> = HashMap::new();
    txs.insert(1, Transaction::new(1, 10));
    let observer = Transaction::new(1, 10);
    let seen = version(
        TxTimestampOrID::Timestamp(10),
        Some(TxTimestampOrID::Timestamp(11)),
        row(1, 1, "a"),
    );
    assert!(is_version_visible(&txs, &observer, &seen));
    let ended = version(
        TxTimestampOrID::Timestamp(10),
        Some(TxTimestampOrID::Timestamp(10)),
        row(1, 1, "a"),
    );
    assert!(!is_version_visible(&txs, &observer, &ended));
    let not_begun = version(TxTimestampOrID::Timestamp(11), None, row(1, 1, "a"));
    assert!(!is_version_visible(&txs, &observer, &not_begun));
}

#[test]
fn test_write_write_conflict() {
    let mut txs: HashMap<u64, Transaction> = HashMap::new();
    txs.insert(1, Transaction::new(1, 10));
    txs.insert(2, Transaction::new(2, 20));
    let observer = Transaction::new(2, 20);

    let by_other = version(
        TxTimestampOrID::Timestamp(1),
        Some(TxTimestampOrID::TxID(1)),
        row(1, 1, "a"),
    );
    assert!(is_write_write_conflict(&txs, &observer, &by_other));
    let by_self = version(
        TxTimestampOrID::Timestamp(1),
        Some(TxTimestampOrID::TxID(2)),
        row(1, 1, "a"),
    );
    assert!(!is_write_write_conflict(&txs, &observer, &by_self));
    let committed = version(
        TxTimestampOrID::Timestamp(1),
        Some(TxTimestampOrID::Timestamp(5)),
        row(1, 1, "a"),
    );
    assert!(!is_write_write_conflict(&txs, &observer, &committed));
    let current = version(TxTimestampOrID::Timestamp(1), None, row(1, 1, "a"));
    assert!(!is_write_write_conflict(&txs, &observer, &current));
}

#[test]
fn test_version_store_get_put_remove() {
    let mut store = VersionStore::new();
    assert_eq!(store.get(id(1, 1)), None);
    assert_eq!(store.row_ids(), Vec::<RowID>::new());

    let chain = vec![version(TxTimestampOrID::Timestamp(1), None, row(1, 1, "a"))];
    store.put(id(1, 1), chain);
    let found = store.get(id(1, 1)).unwrap();
    assert_eq!(found.len(), 1);
    assert_eq!(found[0].row.data, "a");
    assert_eq!(store.get(id(1, 2)), None);

    let longer = vec![
        version(TxTimestampOrID::Timestamp(1), Some(TxTimestampOrID::Timestamp(2)), row(1, 1, "a")),
        version(TxTimestampOrID::Timestamp(2), None, row(1, 1, "b")),
    ];
    store.put(id(1, 1), longer);
    let found = store.get(id(1, 1)).unwrap();
    assert_eq!(found.len(), 2);
    assert_eq!(found[1].row.data, "b");

    store.remove(id(1, 1));
    assert_eq!(store.get(id(1, 1)), None);
    store.remove(id(1, 1));
    assert_eq!(store.row_ids(), Vec::<RowID>::new());
}

#[test]
fn test_version_store_get_or_create() {
    let mut store = VersionStore::new();
    let created = store.get_or_create(id(4, 4));
    assert!(created.is_empty());
    assert_eq!(store.get(id(4, 4)), Some(Vec::new()));
    assert_eq!(store.row_ids(), vec![id(4, 4)]);

    store.put(id(4, 4), vec![version(TxTimestampOrID::Timestamp(1), None, row(4, 4, "x"))]);
    let kept = store.get_or_create(id(4, 4));
    assert_eq!(kept.len(), 1);
    assert_eq!(kept[0].row.data, "x");
    assert_eq!(store.get(id(4, 4)).unwrap().len(), 1);
}

#[test]
fn test_version_store_scans_in_row_id_order() {
    let mut store = VersionStore::new();
    for key in [id(2, 1), id(1, u64::MAX), id(3, 0), id(1, 0), id(2, 7), id(0, 9)] {
        store.put(key, vec![version(TxTimestampOrID::Timestamp(1), None, row(key.table_id, key.row_id, "v"))]);
    }
    assert_eq!(
        store.row_ids(),
        vec![id(0, 9), id(1, 0), id(1, u64::MAX), id(2, 1), id(2, 7), id(3, 0)]
    );
    assert_eq!(store.row_ids_for_table(1), vec![id(1, 0), id(1, u64::MAX)]);
    assert_eq!(store.row_ids_for_table(2), vec![id(2, 1), id(2, 7)]);
    assert_eq!(store.row_ids_for_table(3), vec![id(3, 0)]);
    assert_eq!(store.row_ids_for_table(4), Vec::<RowID>::new());
}

#[test]
fn test_active_begins_counts_and_oldest() {
    let mut begins = ActiveBegins::new();
    assert_eq!(begins.oldest(), None);
    begins.increment(7);
    begins.increment(3);
    begins.increment(7);
    begins.increment(9);
    assert_eq!(begins.oldest(), Some(3));
    begins.decrement(3);
    assert_eq!(begins.oldest(), Some(7));
    begins.decrement(7);
    assert_eq!(begins.oldest(), Some(7));
    begins.decrement(7);
    assert_eq!(begins.oldest(), Some(9));
    begins.decrement(5);
    assert_eq!(begins.oldest(), Some(9));
    begins.decrement(9);
    assert_eq!(begins.oldest(), None);
}

#[test]
fn test_tx_ids_are_strictly_increasing_from_one() {
    let mut db = new_db();
    let tx1 = db.begin_tx();
    let tx2 = db.begin_tx();
    db.commit_tx(tx1).unwrap();
    db.rollback_tx(tx2);
    let tx3 = db.begin_tx();
    assert_eq!((tx1, tx2, tx3), (1, 2, 3));
}

#[test]
fn test_unknown_transaction_is_refused() {
    let mut db = new_db();
    let tx = db.begin_tx();
    assert_eq!(tx, 1);
    assert_eq!(db.insert(42, row(1, 1, "a")), Err(DatabaseError::NoSuchTransactionID(42)));
    assert_eq!(db.insert(0, row(1, 1, "a")), Err(DatabaseError::NoSuchTransactionID(0)));
    assert_eq!(db.read(2, id(1, 1)), Err(DatabaseError::NoSuchTransactionID(2)));
    assert_eq!(db.delete(42, id(1, 1)), Err(DatabaseError::NoSuchTransactionID(42)));
    assert_eq!(db.update(42, row(1, 1, "a")), Err(DatabaseError::NoSuchTransactionID(42)));
    assert_eq!(db.commit_tx(42), Err(DatabaseError::NoSuchTransactionID(42)));
    db.rollback_tx(42);
    assert_eq!(db.scan_row_ids().unwrap(), Vec::<RowID>::new());
    assert_eq!(db.read(tx, id(1, 1)), Ok(None));
}

#[test]
fn test_ended_transaction_is_refused() {
    let mut db = new_db();
    let committed = db.begin_tx();
    db.insert(committed, row(1, 1, "a")).unwrap();
    db.commit_tx(committed).unwrap();
    let rolled_back = db.begin_tx();
    db.rollback_tx(rolled_back);
    for tx in [committed, rolled_back] {
        assert_eq!(db.insert(tx, row(1, 2, "b")), Err(DatabaseError::TxTerminated));
        assert_eq!(db.read(tx, id(1, 1)), Err(DatabaseError::TxTerminated));
        assert_eq!(db.delete(tx, id(1, 1)), Err(DatabaseError::TxTerminated));
        assert_eq!(db.update(tx, row(1, 1, "c")), Err(DatabaseError::TxTerminated));
        assert_eq!(db.commit_tx(tx), Err(DatabaseError::TxTerminated));
        db.rollback_tx(tx);
    }
    let tx = db.begin_tx();
    assert_eq!(db.read(tx, id(1, 1)).unwrap().unwrap().data, "a");
    assert_eq!(db.read(tx, id(1, 2)), Ok(None));
}

#[test]
fn test_commit_record_of_an_insert() {
    let mut db = new_db();
    let tx1 = db.begin_tx();
    db.insert(tx1, row(1, 1, "Hello")).unwrap();
    let record = db.commit_tx(tx1).unwrap().unwrap();
    assert_eq!(record.tx_timestamp, 1);
    assert_eq!(
        record.row_versions,
        vec![version(TxTimestampOrID::Timestamp(0), None, row(1, 1, "Hello"))]
    );
    assert!(record.check());
}

#[test]
fn test_commit_record_of_an_update() {
    let mut db = new_db();
    let tx1 = db.begin_tx();
    db.insert(tx1, row(1, 1, "Hello")).unwrap();
    db.commit_tx(tx1).unwrap();
    let tx2 = db.begin_tx();
    assert_eq!(db.update(tx2, row(1, 1, "World")), Ok(true));
    let record = db.commit_tx(tx2).unwrap().unwrap();
    assert_eq!(record.tx_timestamp, 3);
    assert_eq!(
        record.row_versions,
        vec![
            version(
                TxTimestampOrID::Timestamp(0),
                Some(TxTimestampOrID::Timestamp(3)),
                row(1, 1, "Hello")
            ),
            version(TxTimestampOrID::Timestamp(2), None, row(1, 1, "World")),
        ]
    );
}

#[test]
fn test_commit_record_holds_a_version_once() {
    let mut db = new_db();
    let tx1 = db.begin_tx();
    db.insert(tx1, row(1, 1, "Hello")).unwrap();
    assert_eq!(db.delete(tx1, id(1, 1)), Ok(true));
    let record = db.commit_tx(tx1).unwrap().unwrap();
    assert_eq!(
        record.row_versions,
        vec![version(
            TxTimestampOrID::Timestamp(0),
            Some(TxTimestampOrID::Timestamp(1)),
            row(1, 1, "Hello")
        )]
    );
}

#[test]
fn test_commit_record_follows_the_write_set() {
    let mut db = new_db();
    let tx1 = db.begin_tx();
    db.insert(tx1, row(1, 2, "two")).unwrap();
    db.insert(tx1, row(1, 1, "one")).unwrap();
    db.insert(tx1, row(1, 2, "deux")).unwrap();
    let record = db.commit_tx(tx1).unwrap().unwrap();
    assert_eq!(
        record.row_versions,
        vec![
            version(TxTimestampOrID::Timestamp(0), None, row(1, 2, "two")),
            version(TxTimestampOrID::Timestamp(0), None, row(1, 2, "deux")),
            version(TxTimestampOrID::Timestamp(0), None, row(1, 1, "one")),
        ]
    );
}

#[test]
fn test_commit_without_writes_has_no_record() {
    let mut db = new_db();
    let tx1 = db.begin_tx();
    assert_eq!(db.read(tx1, id(1, 1)), Ok(None));
    assert_eq!(db.delete(tx1, id(1, 1)), Ok(false));
    assert_eq!(db.commit_tx(tx1), Ok(None));
}

#[test]
fn test_commit_ticks_the_clock_even_when_refused() {
    let mut db = new_db();
    assert_eq!(db.commit_tx(9), Err(DatabaseError::NoSuchTransactionID(9)));
    let tx1 = db.begin_tx();
    db.insert(tx1, row(1, 1, "a")).unwrap();
    let record = db.commit_tx(tx1).unwrap().unwrap();
    assert_eq!(record.row_versions[0].begin, TxTimestampOrID::Timestamp(1));
    assert_eq!(record.tx_timestamp, 2);
}

#[test]
fn test_conflict_rolls_the_loser_back() {
    let mut db = new_db();
    let tx1 = db.begin_tx();
    db.insert(tx1, row(1, 1, "10")).unwrap();
    db.commit_tx(tx1).unwrap();

    let winner = db.begin_tx();
    let loser = db.begin_tx();
    db.insert(loser, row(1, 2, "mine")).unwrap();
    assert_eq!(db.delete(winner, id(1, 1)), Ok(true));
    assert_eq!(db.delete(loser, id(1, 1)), Err(DatabaseError::WriteWriteConflict));
    assert_eq!(db.read(loser, id(1, 2)), Err(DatabaseError::TxTerminated));
    assert_eq!(db.scan_row_ids().unwrap(), vec![id(1, 1)]);
    assert_eq!(db.read(winner, id(1, 1)), Ok(None));
    db.commit_tx(winner).unwrap();

    let tx4 = db.begin_tx();
    assert_eq!(db.read(tx4, id(1, 1)), Ok(None));
    assert_eq!(db.read(tx4, id(1, 2)), Ok(None));
}

#[test]
fn test_rollback_takes_the_end_marker_off() {
    let mut db = new_db();
    let tx1 = db.begin_tx();
    db.insert(tx1, row(1, 1, "Hello")).unwrap();
    db.commit_tx(tx1).unwrap();

    let tx2 = db.begin_tx();
    assert_eq!(db.delete(tx2, id(1, 1)), Ok(true));
    assert_eq!(db.read(tx2, id(1, 1)), Ok(None));
    db.rollback_tx(tx2);

    let tx3 = db.begin_tx();
    assert_eq!(db.read(tx3, id(1, 1)).unwrap().unwrap().data, "Hello");
    assert_eq!(db.delete(tx3, id(1, 1)), Ok(true));
    db.commit_tx(tx3).unwrap();
    let tx4 = db.begin_tx();
    assert_eq!(db.read(tx4, id(1, 1)), Ok(None));
}

#[test]
fn test_rollback_drops_rows_that_it_empties() {
    let mut db = new_db();
    let tx1 = db.begin_tx();
    db.insert(tx1, row(1, 1, "a")).unwrap();
    db.insert(tx1, row(2, 1, "b")).unwrap();
    assert_eq!(db.scan_row_ids().unwrap(), vec![id(1, 1), id(2, 1)]);
    db.rollback_tx(tx1);
    assert_eq!(db.scan_row_ids().unwrap(), Vec::<RowID>::new());
    db.rollback_tx(tx1);
    assert_eq!(db.scan_row_ids().unwrap(), Vec::<RowID>::new());
}

#[test]
fn test_insert_over_a_visible_row_shadows_it() {
    let mut db = new_db();
    let tx1 = db.begin_tx();
    db.insert(tx1, row(1, 1, "old")).unwrap();
    db.insert(tx1, row(1, 1, "new")).unwrap();
    assert_eq!(db.read(tx1, id(1, 1)).unwrap().unwrap().data, "new");
    db.commit_tx(tx1).unwrap();
    let tx2 = db.begin_tx();
    assert_eq!(db.read(tx2, id(1, 1)).unwrap().unwrap().data, "new");
}

#[test]
fn test_committed_version_begins_at_the_begin_timestamp() {
    let mut db = new_db();
    let older = db.begin_tx();
    let younger = db.begin_tx();
    assert_eq!(db.read(younger, id(1, 1)), Ok(None));
    db.insert(older, row(1, 1, "late")).unwrap();
    assert_eq!(db.read(younger, id(1, 1)), Ok(None));
    db.commit_tx(older).unwrap();
    assert_eq!(db.read(younger, id(1, 1)).unwrap().unwrap().data, "late");
}

#[test]
fn test_scan_row_ids() {
    let mut db = new_db();
    let tx1 = db.begin_tx();
    db.insert(tx1, row(2, 5, "a")).unwrap();
    db.insert(tx1, row(1, u64::MAX, "b")).unwrap();
    db.insert(tx1, row(1, 0, "c")).unwrap();
    db.insert(tx1, row(3, 1, "d")).unwrap();
    assert_eq!(
        db.scan_row_ids().unwrap(),
        vec![id(1, 0), id(1, u64::MAX), id(2, 5), id(3, 1)]
    );
    assert_eq!(db.scan_row_ids_for_table(1).unwrap(), vec![id(1, 0), id(1, u64::MAX)]);
    assert_eq!(db.scan_row_ids_for_table(2).unwrap(), vec![id(2, 5)]);
    assert_eq!(db.scan_row_ids_for_table(9).unwrap(), Vec::<RowID>::new());
}

#[test]
fn test_garbage_collection_drops_versions_out_of_sight() {
    let mut db = new_db();
    let tx1 = db.begin_tx();
    db.insert(tx1, row(1, 1, "gone")).unwrap();
    db.insert(tx1, row(1, 2, "kept")).unwrap();
    db.commit_tx(tx1).unwrap();
    let tx2 = db.begin_tx();
    assert_eq!(db.delete(tx2, id(1, 1)), Ok(true));
    db.commit_tx(tx2).unwrap();

    db.drop_unused_row_versions();
    assert_eq!(db.scan_row_ids().unwrap(), vec![id(1, 2)]);
    let tx3 = db.begin_tx();
    assert_eq!(db.read(tx3, id(1, 1)), Ok(None));
    assert_eq!(db.read(tx3, id(1, 2)).unwrap().unwrap().data, "kept");
}

#[test]
fn test_garbage_collection_keeps_what_a_live_transaction_sees() {
    let mut db = new_db();
    let tx1 = db.begin_tx();
    db.insert(tx1, row(1, 1, "old")).unwrap();
    db.commit_tx(tx1).unwrap();
    let reader = db.begin_tx();
    let tx3 = db.begin_tx();
    assert_eq!(db.update(tx3, row(1, 1, "new")), Ok(true));
    db.commit_tx(tx3).unwrap();

    db.drop_unused_row_versions();
    assert_eq!(db.read(reader, id(1, 1)).unwrap().unwrap().data, "old");
    db.commit_tx(reader).unwrap();

    db.drop_unused_row_versions();
    let tx5 = db.begin_tx();
    assert_eq!(db.read(tx5, id(1, 1)).unwrap().unwrap().data, "new");
    assert_eq!(db.scan_row_ids().unwrap(), vec![id(1, 1)]);
}

#[test]
fn test_garbage_collection_keeps_versions_that_a_live_transaction_ends() {
    let mut db = new_db();
    let tx1 = db.begin_tx();
    db.insert(tx1, row(1, 1, "a")).unwrap();
    db.commit_tx(tx1).unwrap();
    let tx2 = db.begin_tx();
    assert_eq!(db.delete(tx2, id(1, 1)), Ok(true));
    db.drop_unused_row_versions();
    assert_eq!(db.scan_row_ids().unwrap(), vec![id(1, 1)]);
    db.rollback_tx(tx2);
    let tx3 = db.begin_tx();
    assert_eq!(db.read(tx3, id(1, 1)).unwrap().unwrap().data, "a");
}

#[test]
fn test_storage1() {
    let mut log: Vec<LogRecord> = Vec::new();
    let mut db = new_db();

    let tx1 = db.begin_tx();
    let tx2 = db.begin_tx();
    let tx3 = db.begin_tx();

    db.insert(tx3, row(1, 1, "testme")).unwrap();

    log.extend(db.commit_tx(tx1).unwrap());
    db.rollback_tx(tx2);
    log.extend(db.commit_tx(tx3).unwrap());

    let tx4 = db.begin_tx();
    db.insert(tx4, row(1, 2, "testme2")).unwrap();
    db.insert(tx4, row(1, 3, "testme3")).unwrap();

    assert_eq!(db.read(tx4, id(1, 1)).unwrap().unwrap().data, "testme");
    assert_eq!(db.read(tx4, id(1, 2)).unwrap().unwrap().data, "testme2");
    assert_eq!(db.read(tx4, id(1, 3)).unwrap().unwrap().data, "testme3");
    log.extend(db.commit_tx(tx4).unwrap());

    let mut db = new_db();
    db.recover(log).unwrap();

    let tx5 = db.begin_tx();
    assert_eq!(db.read(tx5, id(1, 1)).unwrap().unwrap().data, "testme");
    assert_eq!(db.read(tx5, id(1, 2)).unwrap().unwrap().data, "testme2");
    assert_eq!(db.read(tx5, id(1, 3)).unwrap().unwrap().data, "testme3");
}

#[test]
fn test_recovery_leaves_rolled_back_writes_out() {
    let mut log: Vec<LogRecord> = Vec::new();
    let mut db = new_db();

    let tx1 = db.begin_tx();
    let tx2 = db.begin_tx();
    db.insert(tx1, row(1, 1, "kept")).unwrap();
    db.insert(tx2, row(1, 4, "rolled back")).unwrap();
    db.rollback_tx(tx2);
    log.extend(db.commit_tx(tx1).unwrap());
    assert_eq!(log.len(), 1);

    let mut db = new_db();
    db.recover(log).unwrap();

    let tx = db.begin_tx();
    assert_eq!(db.read(tx, id(1, 1)).unwrap().unwrap().data, "kept");
    assert_eq!(db.read(tx, id(1, 4)), Ok(None));
    assert_eq!(db.scan_row_ids().unwrap(), vec![id(1, 1)]);
}

#[test]
fn test_recovery_moves_the_clock_past_the_log() {
    let mut record = LogRecord::new(41);
    record.row_versions.push(version(TxTimestampOrID::Timestamp(40), None, row(1, 1, "a")));
    let mut db = new_db();
    db.recover(vec![record]).unwrap();

    let tx1 = db.begin_tx();
    db.insert(tx1, row(1, 2, "b")).unwrap();
    let committed = db.commit_tx(tx1).unwrap().unwrap();
    assert_eq!(committed.row_versions[0].begin, TxTimestampOrID::Timestamp(42));
    assert_eq!(committed.tx_timestamp, 43);
}

#[test]
fn test_recovery_replays_updates_in_log_order() {
    let mut log: Vec<LogRecord> = Vec::new();
    let mut db = new_db();
    let tx1 = db.begin_tx();
    db.insert(tx1, row(1, 1, "first")).unwrap();
    log.push(db.commit_tx(tx1).unwrap().unwrap());
    let tx2 = db.begin_tx();
    assert_eq!(db.update(tx2, row(1, 1, "second")), Ok(true));
    log.push(db.commit_tx(tx2).unwrap().unwrap());

    let mut db = new_db();
    db.recover(log).unwrap();
    let tx = db.begin_tx();
    assert_eq!(db.read(tx, id(1, 1)).unwrap().unwrap().data, "second");
}

#[test]
fn test_recovery_refuses_a_corrupt_log() {
    let mut good = LogRecord::new(3);
    good.row_versions.push(version(TxTimestampOrID::Timestamp(2), None, row(1, 1, "a")));
    let mut bad = LogRecord::new(5);
    bad.row_versions.push(version(TxTimestampOrID::TxID(1), None, row(1, 2, "b")));

    let mut db = new_db();
    assert_eq!(db.recover(vec![good, bad]), Err(DatabaseError::Corrupt));
    assert_eq!(db.scan_row_ids().unwrap(), Vec::<RowID>::new());
    let tx1 = db.begin_tx();
    db.insert(tx1, row(1, 3, "c")).unwrap();
    let record = db.commit_tx(tx1).unwrap().unwrap();
    assert_eq!(record.row_versions[0].begin, TxTimestampOrID::Timestamp(0));
}

#[test]
fn test_read_adds_to_the_read_set_only() {
    let mut db = new_db();
    let tx1 = db.begin_tx();
    db.insert(tx1, row(1, 1, "a")).unwrap();
    assert_eq!(db.read(tx1, id(1, 1)).unwrap().unwrap().data, "a");
    assert_eq!(db.read(tx1, id(1, 1)).unwrap().unwrap().data, "a");
    assert_eq!(db.commit_tx(tx1).unwrap().unwrap().row_versions.len(), 1);
}

#[test]
fn test_exhaustion_is_reported() {
    let db = new_db();
    assert!(!db.is_exhausted());
    let mut clock = LocalClock::new();
    clock.reset(u64::MAX - 1);
    let db = Database::new(clock);
    assert!(db.is_exhausted());
    let inner = DatabaseInner::new(LocalClock::new());
    assert!(!inner.is_exhausted());
}

#[test]
fn test_inner_engine_runs_a_transaction() {
    let mut db = DatabaseInner::new(LocalClock::new());
    let tx1 = db.begin_tx();
    db.insert(tx1, row(1, 1, "a")).unwrap();
    assert_eq!(db.read(tx1, id(1, 1)).unwrap().unwrap().data, "a");
    let record = db.commit_tx(tx1).unwrap().unwrap();
    let mut other = DatabaseInner::new(LocalClock::new());
    other.recover(vec![record]).unwrap();
    let tx = other.begin_tx();
    assert_eq!(other.read(tx, id(1, 1)).unwrap().unwrap().data, "a");
    assert_eq!(other.scan_row_ids_for_table(1).unwrap(), vec![id(1, 1)]);
}

#[test]
fn test_clones_are_equal() {
    let mut record = LogRecord::new(5);
    record.row_versions.push(version(
        TxTimestampOrID::Timestamp(3),
        Some(TxTimestampOrID::Timestamp(5)),
        row(1, 1, "a"),
    ));
    record.row_versions.push(version(TxTimestampOrID::Timestamp(5), None, row(1, 2, "b")));
    assert_eq!(record.clone(), record);

    let mut tx = Transaction::new(4, 8);
    tx.insert_to_write_set(id(1, 1));
    tx.insert_to_write_set(id(1, 2));
    tx.insert_to_read_set(id(3, 3));
    let copy = tx.clone();
    assert_eq!(copy.state, TransactionState::Active);
    assert_eq!(copy.tx_id, 4);
    assert_eq!(copy.begin_ts, 8);
    assert_eq!(copy.write_set, vec![id(1, 1), id(1, 2)]);
    assert_eq!(copy.read_set, vec![id(3, 3)]);
}

#[test]
fn test_dirty_write_then_commit() {
    let mut db = new_db();
    let tx1 = db.begin_tx();
    db.insert(tx1, row(1, 1, "Hello")).unwrap();
    let tx2 = db.begin_tx();
    assert_eq!(db.update(tx2, row(1, 1, "World")), Ok(false));
    db.commit_tx(tx1).unwrap();
    let tx3 = db.begin_tx();
    assert_eq!(db.read(tx3, id(1, 1)).unwrap().unwrap().data, "Hello");
}

#[test]
fn test_lost_update_is_prevented() {
    let mut db = new_db();
    let tx1 = db.begin_tx();
    db.insert(tx1, row(1, 1, "10")).unwrap();
    db.commit_tx(tx1).unwrap();

    let tx2 = db.begin_tx();
    assert_eq!(db.update(tx2, row(1, 1, "20")), Ok(true));
    let tx3 = db.begin_tx();
    assert_eq!(db.update(tx3, row(1, 1, "X")), Err(DatabaseError::WriteWriteConflict));
    assert!(db.commit_tx(tx2).is_ok());
    assert_eq!(db.commit_tx(tx3), Err(DatabaseError::TxTerminated));

    let tx4 = db.begin_tx();
    assert_eq!(db.read(tx4, id(1, 1)).unwrap().unwrap().data, "20");
}

#[test]
fn test_concurrent_inserts_do_not_conflict() {
    let mut db = new_db();
    let tx1 = db.begin_tx();
    let tx2 = db.begin_tx();
    assert_eq!(db.insert(tx1, row(1, 1, "one")), Ok(()));
    assert_eq!(db.insert(tx2, row(1, 1, "two")), Ok(()));
    assert_eq!(db.read(tx1, id(1, 1)).unwrap().unwrap().data, "one");
    assert_eq!(db.read(tx2, id(1, 1)).unwrap().unwrap().data, "two");
    assert!(db.commit_tx(tx1).is_ok());
    assert!(db.commit_tx(tx2).is_ok());
    let tx3 = db.begin_tx();
    assert_eq!(db.read(tx3, id(1, 1)).unwrap().unwrap().data, "two");
}
