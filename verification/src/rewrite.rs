//! Rewriting the chains of some rows, one row at a time.
//!
//! Commit and rollback walk the write set of a transaction, and garbage
//! collection walks all rows. Each of them replaces one chain at a time, and
//! drops a chain that comes out empty. This module says what the store
//! holds when such a walk is under way, and what it holds when it is done.

use crate::row::{RowID, RowVersion};
use crate::state::{logged, logged_rows, settle_chain, touched_by, undo_chain};
use vstd::prelude::*;

verus! {

/// `rows` with the chain of every row of `ids` replaced by what `f` makes of
/// it, and without the rows of `ids` whose chain `f` empties.
pub open spec fn rewritten(
    rows: Map<RowID, Seq<RowVersion>>,
    ids: Seq<RowID>,
    f: spec_fn(Seq<RowVersion>) -> Seq<RowVersion>,
) -> Map<RowID, Seq<RowVersion>> {
    Map::new(
        |id: RowID| rows.contains_key(id) && (ids.contains(id) ==> f(rows[id]).len() > 0),
        |id: RowID|
            if ids.contains(id) {
                f(rows[id])
            } else {
                rows[id]
            },
    )
}

/// Before the walk has visited a row, the store is as it was.
pub proof fn lemma_rewritten_none(
    rows: Map<RowID, Seq<RowVersion>>,
    ids: Seq<RowID>,
    f: spec_fn(Seq<RowVersion>) -> Seq<RowVersion>,
)
    ensures
        rewritten(rows, ids.take(0), f) == rows,
{
    assert(rewritten(rows, ids.take(0), f) =~= rows);
}

/// What one step of the walk does: the row at index `i` still has the chain
/// it had at the start, and gets its new chain or is dropped.
pub proof fn lemma_rewritten_next(
    rows: Map<RowID, Seq<RowVersion>>,
    ids: Seq<RowID>,
    i: int,
    f: spec_fn(Seq<RowVersion>) -> Seq<RowVersion>,
)
    requires
        0 <= i < ids.len(),
        ids.no_duplicates(),
    ensures
        ({
            let before = rewritten(rows, ids.take(i), f);
            let after = rewritten(rows, ids.take(i + 1), f);
            let id = ids[i];
            &&& before.contains_key(id) == rows.contains_key(id)
            &&& rows.contains_key(id) ==> before[id] == rows[id]
            &&& after == (if !rows.contains_key(id) {
                before
            } else if f(rows[id]).len() > 0 {
                before.insert(id, f(rows[id]))
            } else {
                before.remove(id)
            })
        }),
{
    let before = rewritten(rows, ids.take(i), f);
    let after = rewritten(rows, ids.take(i + 1), f);
    let id = ids[i];
    assert(!ids.take(i).contains(id)) by {
        if ids.take(i).contains(id) {
            let j = choose|j: int| 0 <= j < ids.take(i).len() && ids.take(i)[j] == id;
            assert(ids[j] == ids[i]);
        }
    }
    let shorter = ids.take(i);
    let longer = ids.take(i + 1);
    assert(longer[i] == id);
    assert forall|other: RowID|
        longer.contains(other) <==> other == id || shorter.contains(other) by {
        if longer.contains(other) {
            let j = choose|j: int| 0 <= j < longer.len() && longer[j] == other;
            if j < i {
                assert(shorter[j] == other);
            }
        }
        if shorter.contains(other) {
            let j = choose|j: int| 0 <= j < shorter.len() && shorter[j] == other;
            assert(longer[j] == other);
        }
    }
    if !rows.contains_key(id) {
        assert(after =~= before);
    } else if f(rows[id]).len() > 0 {
        assert(after =~= before.insert(id, f(rows[id])));
    } else {
        assert(after =~= before.remove(id));
    }
}

/// Whether no marker in `chain` names transaction `tx_id`.
pub open spec fn untouched(chain: Seq<RowVersion>, tx_id: u64) -> bool {
    forall|i: int| 0 <= i < chain.len() ==> !touched_by(#[trigger] chain[i], tx_id)
}

/// A chain in which no marker names a transaction is left as it is by the
/// commit and by the rollback of that transaction, and nothing of it is
/// logged.
pub proof fn lemma_untouched(chain: Seq<RowVersion>, tx_id: u64, begin_ts: u64, end_ts: u64)
    requires
        untouched(chain, tx_id),
    ensures
        undo_chain(chain, tx_id) == chain,
        settle_chain(chain, tx_id, begin_ts, end_ts) == chain,
        logged(chain, tx_id, begin_ts, end_ts) == Seq::<RowVersion>::empty(),
    decreases chain.len(),
{
    if chain.len() > 0 {
        let rest = chain.drop_last();
        assert forall|i: int| 0 <= i < rest.len() implies !touched_by(#[trigger] rest[i], tx_id) by {
            assert(rest[i] == chain[i]);
        }
        lemma_untouched(rest, tx_id, begin_ts, end_ts);
        assert(!touched_by(chain[chain.len() - 1], tx_id));
        assert(undo_chain(chain, tx_id) =~= chain);
    }
    assert forall|i: int| 0 <= i < chain.len() implies settle_chain(
        chain,
        tx_id,
        begin_ts,
        end_ts,
    )[i] == chain[i] by {
        assert(!touched_by(chain[i], tx_id));
    }
    assert(settle_chain(chain, tx_id, begin_ts, end_ts) =~= chain);
}

/// What a commit logs for the first `i + 1` rows of a write set is what it
/// logs for the first `i`, followed by what it logs for the row at index
/// `i`.
pub proof fn lemma_logged_rows_next(
    rows: Map<RowID, Seq<RowVersion>>,
    ids: Seq<RowID>,
    i: int,
    tx_id: u64,
    begin_ts: u64,
    end_ts: u64,
)
    requires
        0 <= i < ids.len(),
    ensures
        logged_rows(rows, ids.take(i + 1), tx_id, begin_ts, end_ts) == logged_rows(
            rows,
            ids.take(i),
            tx_id,
            begin_ts,
            end_ts,
        ) + (if rows.contains_key(ids[i]) {
            logged(rows[ids[i]], tx_id, begin_ts, end_ts)
        } else {
            Seq::empty()
        }),
{
    assert(ids.take(i + 1).drop_last() =~= ids.take(i));
    assert(ids.take(i + 1).last() == ids[i]);
    if !rows.contains_key(ids[i]) {
        assert(logged_rows(rows, ids.take(i), tx_id, begin_ts, end_ts) + Seq::<RowVersion>::empty()
            =~= logged_rows(rows, ids.take(i), tx_id, begin_ts, end_ts));
    }
}

} // verus!
