//! The engine: an append-only byte log plus the in-memory index.
//!
//! The store owns the log as plain bytes. Opening hands it the current file
//! contents; `load` rebuilds the index by one forward scan; lookups consult
//! the index and decode one record; mutations append one encoded record and
//! update the index in memory. Deleting a key appends a record with an empty
//! value, so a deleted key reads back as present with an empty value.

use crate::codec::encodable;
use crate::codec::header_ok;
use crate::codec::payload_ok;
use crate::codec::process_record;
use crate::codec::rec_key;
use crate::codec::rec_value;
use crate::codec::record_bytes;
use crate::codec::stored_sum;
use crate::codec::valid_record_at;
use crate::codec::computed_sum;
use crate::codec::encode;
use crate::codec::DecodeOutcome;
use crate::codec::KeyValuePair;
use crate::codec::StoreError;
use crate::keyindex::KeyIndex;
use crate::recovery::fault_pos;
use crate::recovery::latest;
use crate::recovery::lemma_aligned_no_fault;
use crate::recovery::lemma_record_bytes_at;
use crate::recovery::lemma_record_unchanged_by_append;
use crate::recovery::lemma_scan_append;
use crate::recovery::log_index;
use crate::recovery::scan_aligned;
use crate::recovery::scan_found;
use crate::recovery::scan_map;
use crate::recovery::valid_index_for;
use vstd::prelude::*;

verus! {

/// The ghost form of a full-scan lookup's answer.
pub open spec fn found_view(o: Option<(u64, Vec<u8>)>) -> Option<(u64, Seq<u8>)> {
    match o {
        None => None,
        Some(p) => Some((p.0, p.1@)),
    }
}

/// A Bitcask-style key/value store over one append-only log.
pub struct MiniRedis {
    log: Vec<u8>,
    pub index: KeyIndex,
}

impl MiniRedis {
    /// The bytes of the log.
    pub closed spec fn log_view(&self) -> Seq<u8> {
        self.log@
    }

    /// The mapping the index currently holds.
    pub closed spec fn index_view(&self) -> Map<Seq<u8>, u64> {
        self.index@
    }

    /// Every index entry points at a verified record carrying its key.
    pub closed spec fn wf(&self) -> bool {
        &&& self.index.wf()
        &&& valid_index_for(self.log_view(), self.index_view())
    }

    /// The index agrees with what a full recovery scan of the log derives.
    pub open spec fn loaded(&self) -> bool {
        &&& fault_pos(self.log_view(), 0) == -1
        &&& self.index_view() == log_index(self.log_view())
    }

    /// Opens a store over the given log bytes with an empty index; `load`
    /// rebuilds the index from the log when the caller wants it.
    pub fn open(log: Vec<u8>) -> (s: Self)
        ensures
            s.log_view() == log@,
            s.index_view() == Map::<Seq<u8>, u64>::empty(),
            s.wf(),
    {
        MiniRedis { log, index: KeyIndex::new() }
    }

    /// The log bytes, for callers that persist them.
    pub fn log_bytes(&self) -> (r: &Vec<u8>)
        ensures
            r@ == self.log_view(),
    {
        &self.log
    }

    /// The offset one past the last log byte: where the next record goes.
    pub fn seek_to_end(&self) -> (r: u64)
        ensures
            r == self.log_view().len() as u64,
    {
        self.log.len() as u64
    }

    /// Rebuilds the index by scanning the log from the start. On a clean
    /// scan the new index maps every key in the log to the offset of its
    /// last record; a corrupt record aborts the scan, reports where and how
    /// it failed, and leaves the store untouched.
    pub fn load(&mut self) -> (r: Result<(), StoreError>)
        ensures
            final(self).log_view() == old(self).log_view(),
            ({
                let l = old(self).log_view();
                let fp = fault_pos(l, 0);
                match r {
                    Ok(()) => fp == -1 && final(self).index_view() == log_index(l) && final(self).wf()
                        && final(self).loaded(),
                    Err(e) => fp >= 0 && *final(self) == *old(self) && e == (
                    if !payload_ok(l, fp) {
                        StoreError::Truncated
                    } else {
                        StoreError::ChecksumMismatch {
                            stored: stored_sum(l, fp),
                            computed: computed_sum(l, fp),
                        }
                    }),
                }
            }),
    {
        let ghost l = self.log@;
        let mut idx = KeyIndex::new();
        let mut pos: usize = 0;
        loop
            invariant
                *self == *old(self),
                l == self.log@,
                idx.wf(),
                pos <= self.log@.len(),
                valid_index_for(l, idx@),
                scan_map(l, 0, Map::empty()) == scan_map(l, pos as int, idx@),
                fault_pos(l, 0) == fault_pos(l, pos as int),
            decreases self.log@.len() - pos,
        {
            match process_record(&self.log, pos) {
                DecodeOutcome::EndOfData => {
                    proof {
                        assert(!valid_record_at(l, pos as int));
                        assert(scan_map(l, pos as int, idx@) == idx@);
                        assert(fault_pos(l, pos as int) == -1);
                    }
                    self.index = idx;
                    return Ok(());
                },
                DecodeOutcome::Record { kv, next } => {
                    proof {
                        assert(valid_record_at(l, pos as int));
                        let m2 = idx@.insert(kv.key@, pos as u64);
                        assert(scan_map(l, pos as int, idx@) == scan_map(l, next as int, m2));
                        assert(fault_pos(l, pos as int) == fault_pos(l, next as int));
                        assert forall|kk: Seq<u8>| #[trigger]
                            m2.contains_key(kk) implies valid_record_at(l, m2[kk] as int)
                            && rec_key(l, m2[kk] as int) == kk by {
                            if kk != kv.key@ {
                                assert(idx@.contains_key(kk));
                            }
                        }
                    }
                    idx.set(kv.key.as_slice(), pos as u64);
                    pos = next;
                },
                DecodeOutcome::Truncated => {
                    proof {
                        assert(fault_pos(l, pos as int) == pos as int);
                    }
                    return Err(StoreError::Truncated);
                },
                DecodeOutcome::Corrupt { stored, computed } => {
                    proof {
                        assert(fault_pos(l, pos as int) == pos as int);
                    }
                    return Err(StoreError::ChecksumMismatch { stored, computed });
                },
            }
        }
    }

    /// Looks the key up in the index; on a hit, reads and decodes the one
    /// record the index points at. A key with no index entry is "not found",
    /// which is a normal answer, not an error.
    pub fn get(&self, key: &[u8]) -> (r: Result<Option<Vec<u8>>, StoreError>)
        requires
            self.wf(),
        ensures
            ({
                let l = self.log_view();
                let m = self.index_view();
                match r {
                    Ok(None) => !m.contains_key(key@),
                    Ok(Some(v)) => m.contains_key(key@) && v@ == rec_value(l, m[key@] as int),
                    Err(_) => false,
                }
            }),
    {
        let off = match self.index.get(key) {
            None => {
                return Ok(None);
            },
            Some(off) => off,
        };
        assert(valid_record_at(self.log_view(), off as int));
        let n = self.log.len();
        assert(off + 12 <= n as u64);
        match process_record(&self.log, off as usize) {
            DecodeOutcome::Record { kv, next: _ } => Ok(Some(kv.value)),
            _ => {
                proof {
                    assert(false);
                }
                Err(StoreError::UnexpectedEof)
            },
        }
    }

    /// Reads and decodes the record at the given offset, bypassing the
    /// index. Fails exactly when no complete, checksum-verified record lies
    /// there: no full header, a payload the log cannot hold, or a mismatch.
    pub fn get_at(&self, position: u64) -> (r: Result<KeyValuePair, StoreError>)
        ensures
            ({
                let l = self.log_view();
                let p = position as int;
                match r {
                    Ok(kv) => valid_record_at(l, p) && kv.key@ == rec_key(l, p) && kv.value@
                        == rec_value(l, p),
                    Err(StoreError::UnexpectedEof) => !header_ok(l, p),
                    Err(StoreError::Truncated) => header_ok(l, p) && !payload_ok(l, p),
                    Err(StoreError::ChecksumMismatch { stored, computed }) => payload_ok(l, p)
                        && stored != computed && stored == stored_sum(l, p) && computed
                        == computed_sum(l, p),
                    Err(StoreError::KeyOrValueTooLarge) => false,
                }
            }),
    {
        let n = self.log.len();
        if position > n as u64 {
            return Err(StoreError::UnexpectedEof);
        }
        match process_record(&self.log, position as usize) {
            DecodeOutcome::Record { kv, next: _ } => Ok(kv),
            DecodeOutcome::EndOfData => Err(StoreError::UnexpectedEof),
            DecodeOutcome::Truncated => Err(StoreError::Truncated),
            DecodeOutcome::Corrupt { stored, computed } => Err(
                StoreError::ChecksumMismatch { stored, computed },
            ),
        }
    }

    /// Scans the whole log and returns the offset and value of the last
    /// record whose key equals the target, independently of the index. A
    /// corrupt record aborts the scan with the same fault `load` reports.
    pub fn find(&self, target: &[u8]) -> (r: Result<Option<(u64, Vec<u8>)>, StoreError>)
        ensures
            ({
                let l = self.log_view();
                let fp = fault_pos(l, 0);
                match r {
                    Ok(found) => fp == -1 && found_view(found) == latest(l, target@),
                    Err(e) => fp >= 0 && e == (if !payload_ok(l, fp) {
                        StoreError::Truncated
                    } else {
                        StoreError::ChecksumMismatch {
                            stored: stored_sum(l, fp),
                            computed: computed_sum(l, fp),
                        }
                    }),
                }
            }),
    {
        let ghost l = self.log@;
        let mut found: Option<(u64, Vec<u8>)> = None;
        let mut pos: usize = 0;
        loop
            invariant
                l == self.log@,
                pos <= self.log@.len(),
                scan_found(l, 0, target@, None) == scan_found(
                    l,
                    pos as int,
                    target@,
                    found_view(found),
                ),
                fault_pos(l, 0) == fault_pos(l, pos as int),
            decreases self.log@.len() - pos,
        {
            match process_record(&self.log, pos) {
                DecodeOutcome::EndOfData => {
                    proof {
                        assert(!valid_record_at(l, pos as int));
                        assert(scan_found(l, pos as int, target@, found_view(found)) == found_view(
                            found,
                        ));
                        assert(fault_pos(l, pos as int) == -1);
                    }
                    return Ok(found);
                },
                DecodeOutcome::Record { kv, next } => {
                    proof {
                        assert(valid_record_at(l, pos as int));
                        assert(fault_pos(l, pos as int) == fault_pos(l, next as int));
                    }
                    if crate::keyindex::bytes_eq(kv.key.as_slice(), target) {
                        found = Some((pos as u64, kv.value));
                    }
                    pos = next;
                },
                DecodeOutcome::Truncated => {
                    proof {
                        assert(fault_pos(l, pos as int) == pos as int);
                    }
                    return Err(StoreError::Truncated);
                },
                DecodeOutcome::Corrupt { stored, computed } => {
                    proof {
                        assert(fault_pos(l, pos as int) == pos as int);
                    }
                    return Err(StoreError::ChecksumMismatch { stored, computed });
                },
            }
        }
    }

    /// Encodes the pair and appends the record to the log, returning the
    /// offset where it begins; the index is deliberately left alone. Fails
    /// exactly when a length does not fit a 32-bit field, and then changes
    /// nothing.
    pub fn insert_but_ignore_index(&mut self, key: &[u8], value: &[u8]) -> (r: Result<
        u64,
        StoreError,
    >)
        requires
            old(self).log_view().len() + key@.len() + value@.len() + 12 <= usize::MAX,
        ensures
            final(self).index_view() == old(self).index_view(),
            old(self).wf() ==> final(self).wf(),
            ({
                let l = old(self).log_view();
                if encodable(key@, value@) {
                    &&& r == Ok::<u64, StoreError>(l.len() as u64)
                    &&& final(self).log_view() == l + record_bytes(key@, value@)
                } else {
                    &&& r == Err::<u64, StoreError>(StoreError::KeyOrValueTooLarge)
                    &&& *final(self) == *old(self)
                }
            }),
    {
        let ghost l = self.log@;
        let mut bytes = match encode(key, value) {
            Err(e) => {
                return Err(e);
            },
            Ok(bytes) => bytes,
        };
        let off = self.log.len();
        self.log.append(&mut bytes);
        proof {
            let ext = record_bytes(key@, value@);
            let m = self.index@;
            if old(self).wf() {
                assert forall|kk: Seq<u8>| #[trigger]
                    m.contains_key(kk) implies valid_record_at(l + ext, m[kk] as int) && rec_key(
                    l + ext,
                    m[kk] as int,
                ) == kk by {
                    lemma_record_unchanged_by_append(l, ext, m[kk] as int);
                }
            }
        }
        Ok(off as u64)
    }

    /// Appends a record for the pair and points the index entry for the key
    /// at it, superseding any earlier record. On a store whose index agrees
    /// with the log, the agreement is preserved: the scan-derived index of
    /// the grown log is exactly the updated in-memory index. A failed append
    /// leaves both the log and the index unchanged.
    pub fn insert(&mut self, key: &[u8], value: &[u8]) -> (r: Result<(), StoreError>)
        requires
            old(self).wf(),
            old(self).log_view().len() + key@.len() + value@.len() + 12 <= usize::MAX,
        ensures
            final(self).wf(),
            ({
                let l = old(self).log_view();
                if encodable(key@, value@) {
                    &&& r == Ok::<(), StoreError>(())
                    &&& final(self).log_view() == l + record_bytes(key@, value@)
                    &&& final(self).index_view() == old(self).index_view().insert(key@, l.len() as u64)
                    &&& (old(self).loaded() && scan_aligned(l, 0) ==> final(self).loaded()
                        && scan_aligned(final(self).log_view(), 0))
                } else {
                    &&& r == Err::<(), StoreError>(StoreError::KeyOrValueTooLarge)
                    &&& *final(self) == *old(self)
                }
            }),
    {
        let ghost l = self.log@;
        let off = match self.insert_but_ignore_index(key, value) {
            Err(e) => {
                return Err(e);
            },
            Ok(off) => off,
        };
        self.index.set(key, off);
        proof {
            let nl = self.log@;
            let m2 = old(self).index@.insert(key@, off);
            lemma_record_bytes_at(l, key@, value@);
            assert forall|kk: Seq<u8>| #[trigger]
                m2.contains_key(kk) implies valid_record_at(nl, m2[kk] as int) && rec_key(
                nl,
                m2[kk] as int,
            ) == kk by {
                if kk != key@ {
                    assert(old(self).index@.contains_key(kk));
                    lemma_record_unchanged_by_append(l, record_bytes(key@, value@), m2[kk] as int);
                }
            }
            if old(self).loaded() && scan_aligned(l, 0) {
                lemma_scan_append(l, key@, value@, 0, Map::empty(), key@, None);
                lemma_aligned_no_fault(nl, 0);
            }
        }
        Ok(())
    }

    /// Writes the pair exactly as `insert` does: the log has no notion of
    /// updating in place, so an update is one more appended record.
    pub fn update(&mut self, key: &[u8], value: &[u8]) -> (r: Result<(), StoreError>)
        requires
            old(self).wf(),
            old(self).log_view().len() + key@.len() + value@.len() + 12 <= usize::MAX,
        ensures
            final(self).wf(),
            ({
                let l = old(self).log_view();
                if encodable(key@, value@) {
                    &&& r == Ok::<(), StoreError>(())
                    &&& final(self).log_view() == l + record_bytes(key@, value@)
                    &&& final(self).index_view() == old(self).index_view().insert(key@, l.len() as u64)
                    &&& (old(self).loaded() && scan_aligned(l, 0) ==> final(self).loaded()
                        && scan_aligned(final(self).log_view(), 0))
                } else {
                    &&& r == Err::<(), StoreError>(StoreError::KeyOrValueTooLarge)
                    &&& *final(self) == *old(self)
                }
            }),
    {
        self.insert(key, value)
    }

    /// Deletes by appending a record with an empty value: the key stays in
    /// the index and a later `get` answers with an empty value, not with
    /// "not found".
    pub fn delete(&mut self, key: &[u8]) -> (r: Result<(), StoreError>)
        requires
            old(self).wf(),
            old(self).log_view().len() + key@.len() + 12 <= usize::MAX,
        ensures
            final(self).wf(),
            ({
                let l = old(self).log_view();
                if encodable(key@, Seq::<u8>::empty()) {
                    &&& r == Ok::<(), StoreError>(())
                    &&& final(self).log_view() == l + record_bytes(key@, Seq::<u8>::empty())
                    &&& final(self).index_view() == old(self).index_view().insert(key@, l.len() as u64)
                    &&& (old(self).loaded() && scan_aligned(l, 0) ==> final(self).loaded()
                        && scan_aligned(final(self).log_view(), 0))
                } else {
                    &&& r == Err::<(), StoreError>(StoreError::KeyOrValueTooLarge)
                    &&& *final(self) == *old(self)
                }
            }),
    {
        let empty_value: Vec<u8> = Vec::new();
        self.insert(key, empty_value.as_slice())
    }
}

} // verus!
