//! The meaning of a whole log: the forward scan that recovery performs,
//! the index it derives, and the last-match answer a full-scan lookup gives.
//!
//! `fault_pos` walks the records from an offset and reports where the first
//! corrupt record lies, or -1 when the scan reaches a clean end. `scan_map`
//! folds the records into a key-to-offset mapping, later records superseding
//! earlier ones; `scan_found` tracks the last record whose key equals a
//! target. `scan_aligned` additionally demands that the log end exactly on a
//! record boundary, which is what appending records to an empty log always
//! produces, and what makes further appends safe to scan.

use crate::checksum::crc32_cksum;
use crate::codec::encodable;
use crate::codec::header_ok;
use crate::codec::key_len_at;
use crate::codec::payload_ok;
use crate::codec::rec_end;
use crate::codec::rec_key;
use crate::codec::rec_value;
use crate::codec::record_bytes;
use crate::codec::stored_sum;
use crate::codec::valid_record_at;
use crate::codec::value_len_at;
use vstd::prelude::*;

verus! {

/// The offset of the first corrupt record reachable from `pos`, or -1 when
/// the scan reaches a clean end of data.
pub open spec fn fault_pos(log: Seq<u8>, pos: int) -> int
    decreases log.len() - pos,
{
    if !header_ok(log, pos) {
        -1
    } else if !valid_record_at(log, pos) {
        pos
    } else {
        fault_pos(log, rec_end(log, pos))
    }
}

/// The key-to-offset mapping accumulated by scanning from `pos`.
pub open spec fn scan_map(log: Seq<u8>, pos: int, acc: Map<Seq<u8>, u64>) -> Map<Seq<u8>, u64>
    decreases log.len() - pos,
{
    if !valid_record_at(log, pos) {
        acc
    } else {
        scan_map(log, rec_end(log, pos), acc.insert(rec_key(log, pos), pos as u64))
    }
}

/// The last record with key `target` seen by scanning from `pos`, given the
/// last match `acc` seen so far.
pub open spec fn scan_found(
    log: Seq<u8>,
    pos: int,
    target: Seq<u8>,
    acc: Option<(u64, Seq<u8>)>,
) -> Option<(u64, Seq<u8>)>
    decreases log.len() - pos,
{
    if !valid_record_at(log, pos) {
        acc
    } else {
        scan_found(
            log,
            rec_end(log, pos),
            target,
            if rec_key(log, pos) == target {
                Some((pos as u64, rec_value(log, pos)))
            } else {
                acc
            },
        )
    }
}

/// Whether the log from `pos` on is a clean sequence of records that ends
/// exactly at the log's last byte.
pub open spec fn scan_aligned(log: Seq<u8>, pos: int) -> bool
    decreases log.len() - pos,
{
    if !header_ok(log, pos) {
        pos == log.len()
    } else if !valid_record_at(log, pos) {
        false
    } else {
        scan_aligned(log, rec_end(log, pos))
    }
}

/// The index a full recovery scan of the log derives.
pub open spec fn log_index(log: Seq<u8>) -> Map<Seq<u8>, u64> {
    scan_map(log, 0, Map::empty())
}

/// The offset and value of the last record for `key`, if the log has one.
pub open spec fn latest(log: Seq<u8>, key: Seq<u8>) -> Option<(u64, Seq<u8>)> {
    scan_found(log, 0, key, None)
}

/// Whether every entry of an index points at a complete, checksum-verified
/// record that carries exactly that key.
pub open spec fn valid_index_for(log: Seq<u8>, m: Map<Seq<u8>, u64>) -> bool {
    forall|kk: Seq<u8>| #[trigger]
        m.contains_key(kk) ==> valid_record_at(log, m[kk] as int) && rec_key(log, m[kk] as int)
            == kk
}

/// A record already inside the log reads the same after bytes are appended:
/// the log is append-only, so nothing before the old end ever changes.
pub proof fn lemma_record_unchanged_by_append(log: Seq<u8>, ext: Seq<u8>, pos: int)
    requires
        header_ok(log, pos),
    ensures
        header_ok(log + ext, pos),
        stored_sum(log + ext, pos) == stored_sum(log, pos),
        key_len_at(log + ext, pos) == key_len_at(log, pos),
        value_len_at(log + ext, pos) == value_len_at(log, pos),
        payload_ok(log, pos) ==> payload_ok(log + ext, pos) && rec_key(log + ext, pos) == rec_key(
            log,
            pos,
        ) && rec_value(log + ext, pos) == rec_value(log, pos) && rec_end(log + ext, pos) == rec_end(
            log,
            pos,
        ) && (valid_record_at(log, pos) ==> valid_record_at(log + ext, pos)),
{
    let nl = log + ext;
    assert(nl.subrange(pos, pos + 4) =~= log.subrange(pos, pos + 4));
    assert(nl.subrange(pos + 4, pos + 8) =~= log.subrange(pos + 4, pos + 8));
    assert(nl.subrange(pos + 8, pos + 12) =~= log.subrange(pos + 8, pos + 12));
    if payload_ok(log, pos) {
        let kl = key_len_at(log, pos);
        let vl = value_len_at(log, pos);
        assert(nl.subrange(pos + 12, pos + 12 + kl) =~= log.subrange(pos + 12, pos + 12 + kl));
        assert(nl.subrange(pos + 12 + kl, pos + 12 + kl + vl) =~= log.subrange(
            pos + 12 + kl,
            pos + 12 + kl + vl,
        ));
    }
}

/// An encoded record placed right after a prefix reads back as exactly the
/// key and value it was built from, and ends at the new end of the bytes.
pub proof fn lemma_record_bytes_at(prefix: Seq<u8>, k: Seq<u8>, v: Seq<u8>)
    requires
        encodable(k, v),
    ensures
        ({
            let nl = prefix + record_bytes(k, v);
            let at = prefix.len() as int;
            &&& valid_record_at(nl, at)
            &&& stored_sum(nl, at) == crc32_cksum(k + v)
            &&& key_len_at(nl, at) == k.len()
            &&& value_len_at(nl, at) == v.len()
            &&& rec_key(nl, at) == k
            &&& rec_value(nl, at) == v
            &&& rec_end(nl, at) == nl.len()
        }),
{
    vstd::bytes::lemma_auto_spec_u32_to_from_le_bytes();
    let a = vstd::bytes::spec_u32_to_le_bytes(crc32_cksum(k + v));
    let b = vstd::bytes::spec_u32_to_le_bytes(k.len() as u32);
    let c = vstd::bytes::spec_u32_to_le_bytes(v.len() as u32);
    let nl = prefix + record_bytes(k, v);
    let at = prefix.len() as int;
    assert(record_bytes(k, v) == a + b + c + k + v);
    assert(nl.len() == at + 12 + k.len() + v.len());
    assert(nl.subrange(at, at + 4) =~= a);
    assert(nl.subrange(at + 4, at + 8) =~= b);
    assert(nl.subrange(at + 8, at + 12) =~= c);
    assert(stored_sum(nl, at) == crc32_cksum(k + v));
    assert(key_len_at(nl, at) == k.len());
    assert(value_len_at(nl, at) == v.len());
    assert(nl.subrange(at + 12, at + 12 + k.len()) =~= k);
    assert(nl.subrange(at + 12 + k.len(), at + 12 + k.len() + v.len()) =~= v);
    assert(rec_key(nl, at) + rec_value(nl, at) == k + v);
}

/// A clean, boundary-aligned scan reports no fault.
pub proof fn lemma_aligned_no_fault(log: Seq<u8>, pos: int)
    requires
        scan_aligned(log, pos),
    ensures
        fault_pos(log, pos) == -1,
    decreases log.len() - pos,
{
    if !header_ok(log, pos) {
    } else {
        lemma_aligned_no_fault(log, rec_end(log, pos));
    }
}

/// Appending one record to a boundary-aligned log extends every scan by
/// exactly that record: the derived index gains the new key at the old end
/// offset, and the last match for the appended key becomes the new record
/// while every other key's last match is unchanged.
pub proof fn lemma_scan_append(
    log: Seq<u8>,
    k: Seq<u8>,
    v: Seq<u8>,
    pos: int,
    acc: Map<Seq<u8>, u64>,
    target: Seq<u8>,
    facc: Option<(u64, Seq<u8>)>,
)
    requires
        0 <= pos <= log.len(),
        scan_aligned(log, pos),
        encodable(k, v),
    ensures
        ({
            let nl = log + record_bytes(k, v);
            let off = log.len() as u64;
            &&& scan_aligned(nl, pos)
            &&& scan_map(nl, pos, acc) == scan_map(log, pos, acc).insert(k, off)
            &&& (target == k ==> scan_found(nl, pos, target, facc) == Some((off, v)))
            &&& (target != k ==> scan_found(nl, pos, target, facc) == scan_found(
                log,
                pos,
                target,
                facc,
            ))
        }),
    decreases log.len() - pos,
{
    let nl = log + record_bytes(k, v);
    let off = log.len() as u64;
    lemma_record_bytes_at(log, k, v);
    if !header_ok(log, pos) {
        assert(pos == log.len());
        assert(valid_record_at(nl, pos));
        assert(rec_end(nl, pos) == nl.len());
        assert(!header_ok(nl, nl.len() as int));
        assert(scan_aligned(nl, nl.len() as int));
        assert(scan_aligned(nl, pos));
        assert(!valid_record_at(log, pos));
        assert(scan_map(log, pos, acc) == acc);
        assert(rec_key(nl, pos) == k);
        let acc2 = acc.insert(rec_key(nl, pos), pos as u64);
        assert(scan_map(nl, nl.len() as int, acc2) == acc2);
        assert(scan_map(nl, pos, acc) == acc2);
        assert(scan_found(log, pos, target, facc) == facc);
        if rec_key(nl, pos) == target {
            let facc2 = Some((pos as u64, rec_value(nl, pos)));
            assert(scan_found(nl, nl.len() as int, target, facc2) == facc2);
            assert(scan_found(nl, pos, target, facc) == facc2);
        } else {
            assert(scan_found(nl, nl.len() as int, target, facc) == facc);
            assert(scan_found(nl, pos, target, facc) == facc);
        }
    } else {
        assert(valid_record_at(log, pos));
        lemma_record_unchanged_by_append(log, record_bytes(k, v), pos);
        let e = rec_end(log, pos);
        let acc2 = acc.insert(rec_key(log, pos), pos as u64);
        let facc2 = if rec_key(log, pos) == target {
            Some((pos as u64, rec_value(log, pos)))
        } else {
            facc
        };
        lemma_scan_append(log, k, v, e, acc2, target, facc2);
        assert(scan_map(nl, pos, acc) == scan_map(nl, e, acc2));
        assert(scan_found(nl, pos, target, facc) == scan_found(nl, e, target, facc2));
    }
}

/// The scan-derived mapping and the scan-derived last match agree: a key is
/// in the mapping exactly when a scan for it finds a record, and then the
/// mapping's offset points at a verified record that holds the found value.
pub proof fn lemma_scan_coherent(
    log: Seq<u8>,
    pos: int,
    target: Seq<u8>,
    acc: Map<Seq<u8>, u64>,
    facc: Option<(u64, Seq<u8>)>,
)
    requires
        log.len() <= usize::MAX,
        (acc.contains_key(target) <==> facc is Some),
        ({
            match facc {
                Some(p) => acc.contains_key(target) && acc[target] == p.0 && valid_record_at(
                    log,
                    p.0 as int,
                ) && rec_key(log, p.0 as int) == target && rec_value(log, p.0 as int) == p.1,
                None => true,
            }
        }),
    ensures
        ({
            let m = scan_map(log, pos, acc);
            let f = scan_found(log, pos, target, facc);
            &&& (m.contains_key(target) <==> f is Some)
            &&& (match f {
                Some(p) => m.contains_key(target) && m[target] == p.0 && valid_record_at(
                    log,
                    p.0 as int,
                ) && rec_key(log, p.0 as int) == target && rec_value(log, p.0 as int) == p.1,
                None => true,
            })
        }),
    decreases log.len() - pos,
{
    if !valid_record_at(log, pos) {
    } else {
        let acc2 = acc.insert(rec_key(log, pos), pos as u64);
        let facc2 = if rec_key(log, pos) == target {
            Some((pos as u64, rec_value(log, pos)))
        } else {
            facc
        };
        lemma_scan_coherent(log, rec_end(log, pos), target, acc2, facc2);
    }
}

/// The recovery-derived index and a full-scan lookup give the same answer
/// for every key.
pub proof fn lemma_index_find_agree(log: Seq<u8>, target: Seq<u8>)
    requires
        log.len() <= usize::MAX,
    ensures
        log_index(log).contains_key(target) <==> latest(log, target) is Some,
        ({
            match latest(log, target) {
                Some(p) => log_index(log)[target] == p.0 && valid_record_at(log, p.0 as int)
                    && rec_key(log, p.0 as int) == target && rec_value(log, p.0 as int) == p.1,
                None => true,
            }
        }),
{
    lemma_scan_coherent(log, 0, target, Map::empty(), None);
}

} // verus!
