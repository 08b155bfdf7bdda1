//! The framing of the durable log.
//!
//! The log is a list of records, each written as its bytes followed by a
//! line feed. The bytes of a record hold no line feed, so the end of every
//! record can be told. A log that was cut off in the middle of a record
//! ends in bytes without a line feed after them; those bytes are no record
//! and are left out when the log is read.

use vstd::prelude::*;

verus! {

/// The byte that ends a record.
pub const RECORD_END: u8 = 0x0A;

/// Whether `payload` holds no byte that ends a record.
pub open spec fn unbroken(payload: Seq<u8>) -> bool {
    forall|i: int| 0 <= i < payload.len() ==> payload[i] != RECORD_END
}

/// The log that holds the records `payloads`, in their order.
pub open spec fn framed(payloads: Seq<Seq<u8>>) -> Seq<u8>
    decreases payloads.len(),
{
    if payloads.len() == 0 {
        Seq::empty()
    } else {
        framed(payloads.drop_last()) + payloads.last().push(RECORD_END)
    }
}

/// Where the last, unfinished record of `log` starts: after the last byte
/// that ends a record, or at the start of a log that holds no such byte.
pub open spec fn tail_start(log: Seq<u8>) -> int
    decreases log.len(),
{
    if log.len() == 0 {
        0
    } else if log.last() == RECORD_END {
        log.len() as int
    } else {
        tail_start(log.drop_last())
    }
}

/// The records that `log` holds in full, in their order.
pub open spec fn frames(log: Seq<u8>) -> Seq<Seq<u8>>
    decreases log.len(),
{
    let end = tail_start(log);
    if 0 < end <= log.len() {
        let body = log.take(end - 1);
        let start = tail_start(body);
        if 0 <= start <= body.len() {
            frames(log.take(start)).push(body.skip(start))
        } else {
            Seq::empty()
        }
    } else {
        Seq::empty()
    }
}

/// The unfinished record of a log starts at `start`, if no record ends at
/// `start` or later and one ends just before `start`.
pub proof fn lemma_tail_start(log: Seq<u8>, start: int)
    requires
        0 <= start <= log.len(),
        start > 0 ==> log[start - 1] == RECORD_END,
        forall|i: int| start <= i < log.len() ==> log[i] != RECORD_END,
    ensures
        tail_start(log) == start,
    decreases log.len(),
{
    if log.len() > start {
        lemma_tail_start(log.drop_last(), start);
    }
}

/// The views of the payloads of `payloads`, in their order.
pub open spec fn payload_views(payloads: Seq<Vec<u8>>) -> Seq<Seq<u8>> {
    payloads.map_values(|payload: Vec<u8>| payload@)
}

/// Frames a record for the log: its bytes, followed by the byte that ends
/// a record. A payload that holds that byte cannot be framed.
pub fn frame(payload: &Vec<u8>) -> (bytes: Option<Vec<u8>>)
    ensures
        match bytes {
            Some(bytes) => unbroken(payload@) && bytes@ == payload@.push(RECORD_END),
            None => !unbroken(payload@),
        },
{
    let mut bytes: Vec<u8> = Vec::new();
    let mut i: usize = 0;
    while i < payload.len()
        invariant
            i <= payload.len(),
            bytes@ == payload@.take(i as int),
            unbroken(payload@.take(i as int)),
        decreases payload.len() - i,
    {
        if payload[i] == RECORD_END {
            return None;
        }
        bytes.push(payload[i]);
        assert(payload@.take(i + 1) =~= payload@.take(i as int).push(payload@[i as int]));
        i += 1;
    }
    assert(payload@.take(i as int) =~= payload@);
    bytes.push(RECORD_END);
    Some(bytes)
}

/// Reads the records that `log` holds in full. Bytes at the end of the
/// log that no record end follows are left out.
pub fn complete_frames(log: &Vec<u8>) -> (payloads: Vec<Vec<u8>>)
    ensures
        payload_views(payloads@) == frames(log@),
{
    let mut payloads: Vec<Vec<u8>> = Vec::new();
    let mut current: Vec<u8> = Vec::new();
    let mut start: usize = 0;
    let mut i: usize = 0;
    assert(payload_views(payloads@) =~= frames(log@.take(0)));
    while i < log.len()
        invariant
            start <= i <= log.len(),
            start > 0 ==> log@[start - 1] == RECORD_END,
            forall|j: int| start <= j < i ==> log@[j] != RECORD_END,
            current@ == log@.subrange(start as int, i as int),
            payload_views(payloads@) == frames(log@.take(start as int)),
        decreases log.len() - i,
    {
        if log[i] == RECORD_END {
            proof {
                let whole = log@.take(i + 1);
                let body = whole.take(i as int);
                lemma_tail_start(whole, i + 1);
                assert(body =~= log@.take(i as int));
                lemma_tail_start(body, start as int);
                assert(whole.take(start as int) =~= log@.take(start as int));
                assert(body.skip(start as int) =~= current@);
                assert(payload_views(payloads@.push(current)) =~= payload_views(payloads@).push(
                    current@,
                ));
            }
            payloads.push(current);
            current = Vec::new();
            start = i + 1;
            assert(current@ =~= log@.subrange(start as int, i + 1));
        } else {
            current.push(log[i]);
            assert(current@ =~= log@.subrange(start as int, i + 1));
        }
        i += 1;
    }
    proof {
        assert(log@.take(i as int) =~= log@);
        lemma_frames_ignore_tail(log@, start as int);
    }
    payloads
}

/// The records that a log holds in full are those before its unfinished
/// record.
pub proof fn lemma_frames_ignore_tail(log: Seq<u8>, start: int)
    requires
        0 <= start <= log.len(),
        start > 0 ==> log[start - 1] == RECORD_END,
        forall|i: int| start <= i < log.len() ==> log[i] != RECORD_END,
    ensures
        frames(log) == frames(log.take(start)),
{
    lemma_tail_start(log, start);
    let prefix = log.take(start);
    lemma_tail_start(prefix, start);
    if start > 0 {
        assert(log.take(start - 1) =~= prefix.take(start - 1));
        let body = log.take(start - 1);
        let inner = tail_start(body);
        lemma_tail_start_bounds(body);
        assert(log.take(inner) =~= prefix.take(inner));
    }
}

/// The unfinished record of a log starts within the log.
pub proof fn lemma_tail_start_bounds(log: Seq<u8>)
    ensures
        0 <= tail_start(log) <= log.len(),
        tail_start(log) > 0 ==> log[tail_start(log) - 1] == RECORD_END,
        forall|i: int| tail_start(log) <= i < log.len() ==> log[i] != RECORD_END,
    decreases log.len(),
{
    if log.len() > 0 && log.last() != RECORD_END {
        let rest = log.drop_last();
        lemma_tail_start_bounds(rest);
        assert forall|i: int| tail_start(log) <= i < log.len() implies log[i] != RECORD_END by {
            if i < rest.len() {
                assert(rest[i] == log[i]);
            }
        }
        if tail_start(log) > 0 {
            assert(rest[tail_start(log) - 1] == log[tail_start(log) - 1]);
        }
    }
}

/// Reading gives back what was written. A log that was made by framing
/// records, and that may end in the first bytes of a further record, holds
/// exactly those records in full.
pub proof fn lemma_frames_of_framed(payloads: Seq<Seq<u8>>, tail: Seq<u8>)
    requires
        forall|i: int| 0 <= i < payloads.len() ==> unbroken(#[trigger] payloads[i]),
        unbroken(tail),
    ensures
        frames(framed(payloads) + tail) == payloads,
    decreases payloads.len(),
{
    let log = framed(payloads) + tail;
    let written = framed(payloads);
    if payloads.len() == 0 {
        assert(log =~= tail);
        lemma_tail_start(log, 0);
    } else {
        let rest = payloads.drop_last();
        let last = payloads.last();
        let before = framed(rest);
        assert(unbroken(payloads[payloads.len() - 1]));
        assert forall|i: int| 0 <= i < rest.len() implies unbroken(#[trigger] rest[i]) by {
            assert(rest[i] == payloads[i]);
        }
        lemma_framed_ends(rest);
        lemma_tail_start(log, written.len() as int);
        let body = log.take(written.len() - 1);
        assert(body =~= before + last);
        lemma_tail_start(body, before.len() as int);
        assert(log.take(before.len() as int) =~= before + Seq::<u8>::empty());
        lemma_frames_of_framed(rest, Seq::empty());
        assert(body.skip(before.len() as int) =~= last);
        assert(rest.push(last) =~= payloads);
    }
}

/// A log that was made by framing records is empty or ends with the end
/// of a record.
pub proof fn lemma_framed_ends(payloads: Seq<Seq<u8>>)
    ensures
        framed(payloads).len() > 0 ==> framed(payloads).last() == RECORD_END,
        payloads.len() > 0 ==> framed(payloads).len() > 0,
    decreases payloads.len(),
{
}

} // verus!
