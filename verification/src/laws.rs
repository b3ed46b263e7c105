//! The store's laws, stated and proved over the same spec functions the
//! engine's contracts use.

use crate::codec::encodable;
use crate::codec::rec_end;
use crate::codec::rec_key;
use crate::codec::rec_value;
use crate::codec::record_bytes;
use crate::codec::valid_record_at;
use crate::recovery::fault_pos;
use crate::recovery::latest;
use crate::recovery::lemma_aligned_no_fault;
use crate::recovery::lemma_record_bytes_at;
use crate::recovery::lemma_scan_append;
use crate::recovery::log_index;
use crate::recovery::scan_aligned;
use vstd::prelude::*;

verus! {

/// Round trip: an encoded record, read back from where it was written,
/// yields exactly the key and value it was built from — for every key and
/// value the length fields can describe, the empty ones included.
pub proof fn lemma_round_trip(key: Seq<u8>, value: Seq<u8>)
    requires
        encodable(key, value),
    ensures
        ({
            let r = record_bytes(key, value);
            &&& valid_record_at(r, 0)
            &&& rec_key(r, 0) == key
            &&& rec_value(r, 0) == value
            &&& rec_end(r, 0) == r.len()
        }),
{
    lemma_record_bytes_at(Seq::empty(), key, value);
    assert(Seq::<u8>::empty() + record_bytes(key, value) =~= record_bytes(key, value));
}

/// An empty log is aligned on a record boundary and indexes nothing.
pub proof fn lemma_empty_log()
    ensures
        scan_aligned(Seq::<u8>::empty(), 0),
        fault_pos(Seq::<u8>::empty(), 0) == -1,
        log_index(Seq::<u8>::empty()) == Map::<Seq<u8>, u64>::empty(),
        forall|k: Seq<u8>| latest(Seq::<u8>::empty(), k) is None,
{
}

/// Recovery equivalence: appending one record to an aligned log changes the
/// scan-derived index exactly as the engine changes its in-memory index —
/// the key now maps to the old end offset. So an index rebuilt from scratch
/// by `load` equals the one maintained insert by insert.
pub proof fn lemma_recovery_equivalence(log: Seq<u8>, key: Seq<u8>, value: Seq<u8>)
    requires
        scan_aligned(log, 0),
        encodable(key, value),
    ensures
        ({
            let nl = log + record_bytes(key, value);
            &&& scan_aligned(nl, 0)
            &&& fault_pos(nl, 0) == -1
            &&& log_index(nl) == log_index(log).insert(key, log.len() as u64)
        }),
{
    lemma_scan_append(log, key, value, 0, Map::empty(), key, None);
    lemma_aligned_no_fault(log + record_bytes(key, value), 0);
}

/// Appending a record moves the last match for its own key to the new
/// record and leaves the last match of every other key alone.
pub proof fn lemma_append_latest(log: Seq<u8>, key: Seq<u8>, value: Seq<u8>, other: Seq<u8>)
    requires
        scan_aligned(log, 0),
        encodable(key, value),
    ensures
        ({
            let nl = log + record_bytes(key, value);
            &&& latest(nl, key) == Some((log.len() as u64, value))
            &&& other != key ==> latest(nl, other) == latest(log, other)
        }),
{
    lemma_scan_append(log, key, value, 0, Map::empty(), key, None);
    lemma_scan_append(log, key, value, 0, Map::empty(), other, None);
}

/// Last write wins: after writing key `k` with value `a` and then again
/// with value `b`, both the index and a full scan answer with `b`, at the
/// offset of the second record.
pub proof fn lemma_last_write_wins(log: Seq<u8>, k: Seq<u8>, a: Seq<u8>, b: Seq<u8>)
    requires
        scan_aligned(log, 0),
        encodable(k, a),
        encodable(k, b),
        log.len() + k.len() + a.len() + 12 <= u64::MAX,
    ensures
        ({
            let l1 = log + record_bytes(k, a);
            let l2 = l1 + record_bytes(k, b);
            let off = l1.len() as u64;
            &&& scan_aligned(l2, 0)
            &&& fault_pos(l2, 0) == -1
            &&& log_index(l2).contains_key(k)
            &&& log_index(l2)[k] == off
            &&& rec_value(l2, off as int) == b
            &&& latest(l2, k) == Some((off, b))
        }),
{
    let l1 = log + record_bytes(k, a);
    let l2 = l1 + record_bytes(k, b);
    vstd::bytes::lemma_auto_spec_u32_to_from_le_bytes();
    assert(l1.len() == log.len() + 12 + k.len() + a.len());
    lemma_recovery_equivalence(log, k, a);
    lemma_recovery_equivalence(l1, k, b);
    lemma_append_latest(l1, k, b, k);
    lemma_record_bytes_at(l1, k, b);
    assert(l1.len() as u64 as int == l1.len());
}

/// Delete then get: deleting a key appends a record with an empty value, so
/// the key stays present — the index points at the new record, whose value
/// is empty, and a full scan agrees. It does not become "not found".
pub proof fn lemma_delete_then_get(log: Seq<u8>, k: Seq<u8>)
    requires
        scan_aligned(log, 0),
        k.len() <= u32::MAX,
        log.len() <= u64::MAX,
    ensures
        ({
            let nl = log + record_bytes(k, Seq::<u8>::empty());
            let off = log.len() as u64;
            &&& scan_aligned(nl, 0)
            &&& log_index(nl).contains_key(k)
            &&& log_index(nl)[k] == off
            &&& rec_value(nl, off as int) == Seq::<u8>::empty()
            &&& latest(nl, k) == Some((off, Seq::<u8>::empty()))
        }),
{
    lemma_recovery_equivalence(log, k, Seq::empty());
    lemma_append_latest(log, k, Seq::empty(), k);
    lemma_record_bytes_at(log, k, Seq::empty());
    assert(log.len() as u64 as int == log.len());
}

/// Absent key: a key is missing from the recovery-derived index exactly
/// when a full scan finds no record for it, so `get` and `find` agree on
/// "not found" — and on the found offset and value otherwise.
pub proof fn lemma_absent_key(log: Seq<u8>, k: Seq<u8>)
    requires
        log.len() <= usize::MAX,
    ensures
        log_index(log).contains_key(k) <==> latest(log, k) is Some,
        ({
            match latest(log, k) {
                Some(p) => log_index(log)[k] == p.0 && valid_record_at(log, p.0 as int) && rec_key(
                    log,
                    p.0 as int,
                ) == k && rec_value(log, p.0 as int) == p.1,
                None => true,
            }
        }),
{
    crate::recovery::lemma_index_find_agree(log, k);
}

} // verus!
