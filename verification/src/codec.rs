//! The record codec: the fixed 12-byte header followed by the payload.
//!
//! A record on the wire is `checksum`, `key_length`, `value_length` — three
//! little-endian 32-bit integers — followed by the key bytes and the value
//! bytes with no padding. The checksum covers the key and value together.

use crate::checksum::crc32_checksum;
use crate::checksum::crc32_cksum;
use vstd::bytes::*;
use vstd::prelude::*;

verus! {

/// One decoded key/value pair: the in-memory form of a record's payload.
#[derive(Debug)]
pub struct KeyValuePair {
    pub key: Vec<u8>,
    pub value: Vec<u8>,
}

/// The failures the store surfaces to its callers.
#[derive(Debug, Clone, Copy, PartialEq, Eq, Structural)]
pub enum StoreError {
    /// A key or value is longer than a 32-bit length field can describe.
    KeyOrValueTooLarge,
    /// A positional read found no complete record header at the offset.
    UnexpectedEof,
    /// A record declares more payload bytes than the log holds.
    Truncated,
    /// A record's stored checksum disagrees with the recomputed one.
    ChecksumMismatch { stored: u32, computed: u32 },
}

/// Whether a key and value fit the 32-bit length fields of the header.
pub open spec fn encodable(key: Seq<u8>, value: Seq<u8>) -> bool {
    key.len() <= u32::MAX && value.len() <= u32::MAX
}

/// The exact bytes of one encoded record.
pub open spec fn record_bytes(key: Seq<u8>, value: Seq<u8>) -> Seq<u8> {
    spec_u32_to_le_bytes(crc32_cksum(key + value)) + spec_u32_to_le_bytes(key.len() as u32)
        + spec_u32_to_le_bytes(value.len() as u32) + key + value
}

/// Whether a complete 12-byte header lies at `pos`.
pub open spec fn header_ok(log: Seq<u8>, pos: int) -> bool {
    0 <= pos && pos + 12 <= log.len()
}

/// The checksum stored in the header at `pos`.
pub open spec fn stored_sum(log: Seq<u8>, pos: int) -> u32 {
    spec_u32_from_le_bytes(log.subrange(pos, pos + 4))
}

/// The key length declared by the header at `pos`.
pub open spec fn key_len_at(log: Seq<u8>, pos: int) -> int {
    spec_u32_from_le_bytes(log.subrange(pos + 4, pos + 8)) as int
}

/// The value length declared by the header at `pos`.
pub open spec fn value_len_at(log: Seq<u8>, pos: int) -> int {
    spec_u32_from_le_bytes(log.subrange(pos + 8, pos + 12)) as int
}

/// Whether the payload the header declares lies entirely within the log.
pub open spec fn payload_ok(log: Seq<u8>, pos: int) -> bool {
    header_ok(log, pos) && pos + 12 + key_len_at(log, pos) + value_len_at(log, pos) <= log.len()
}

/// The key bytes of the record at `pos`.
pub open spec fn rec_key(log: Seq<u8>, pos: int) -> Seq<u8> {
    log.subrange(pos + 12, pos + 12 + key_len_at(log, pos))
}

/// The value bytes of the record at `pos`.
pub open spec fn rec_value(log: Seq<u8>, pos: int) -> Seq<u8> {
    log.subrange(
        pos + 12 + key_len_at(log, pos),
        pos + 12 + key_len_at(log, pos) + value_len_at(log, pos),
    )
}

/// The offset just past the record at `pos`.
pub open spec fn rec_end(log: Seq<u8>, pos: int) -> int {
    pos + 12 + key_len_at(log, pos) + value_len_at(log, pos)
}

/// The checksum recomputed over the payload of the record at `pos`.
pub open spec fn computed_sum(log: Seq<u8>, pos: int) -> u32 {
    crc32_cksum(rec_key(log, pos) + rec_value(log, pos))
}

/// Whether the stored checksum matches the recomputed one.
pub open spec fn sum_ok(log: Seq<u8>, pos: int) -> bool {
    computed_sum(log, pos) == stored_sum(log, pos)
}

/// Whether a complete, checksum-verified record lies at `pos`.
pub open spec fn valid_record_at(log: Seq<u8>, pos: int) -> bool {
    payload_ok(log, pos) && sum_ok(log, pos)
}

/// The outcome of decoding one record at a given offset.
pub enum DecodeOutcome {
    /// A complete, checksum-verified record, and the offset just past it.
    Record { kv: KeyValuePair, next: usize },
    /// Fewer than 12 header bytes remain: the clean end of the log.
    EndOfData,
    /// The header declares more payload bytes than the log holds.
    Truncated,
    /// The stored checksum disagrees with the recomputed one.
    Corrupt { stored: u32, computed: u32 },
}

/// Reads the little-endian 32-bit integer at `pos`.
fn read_u32_at(log: &Vec<u8>, pos: usize) -> (r: u32)
    requires
        pos + 4 <= log@.len(),
    ensures
        r == spec_u32_from_le_bytes(log@.subrange(pos as int, pos as int + 4)),
{
    let n = log.len();
    assert(pos + 4 <= n);
    let s = log.as_slice();
    let w = &s[pos..pos + 4];
    u32_from_le_bytes(w)
}

/// Encodes one key/value pair as a record: checksum and lengths first, then
/// the key and value bytes verbatim. Fails exactly when a length does not fit
/// a 32-bit field.
pub fn encode(key: &[u8], value: &[u8]) -> (r: Result<Vec<u8>, StoreError>)
    requires
        key@.len() + value@.len() + 12 <= usize::MAX,
    ensures
        ({
            match r {
                Ok(bytes) => encodable(key@, value@) && bytes@ == record_bytes(key@, value@),
                Err(e) => !encodable(key@, value@) && e == StoreError::KeyOrValueTooLarge,
            }
        }),
{
    if key.len() as u64 > u32::MAX as u64 || value.len() as u64 > u32::MAX as u64 {
        return Err(StoreError::KeyOrValueTooLarge);
    }
    let mut payload: Vec<u8> = Vec::new();
    let mut i: usize = 0;
    assert(payload@ =~= key@.subrange(0, 0));
    while i < key.len()
        invariant
            i <= key@.len(),
            payload@ == key@.subrange(0, i as int),
        decreases key@.len() - i,
    {
        payload.push(key[i]);
        proof {
            assert(payload@ =~= key@.subrange(0, i + 1));
        }
        i = i + 1;
    }
    assert(payload@ =~= key@);
    let mut j: usize = 0;
    assert(payload@ =~= key@ + value@.subrange(0, 0));
    while j < value.len()
        invariant
            j <= value@.len(),
            payload@ == key@ + value@.subrange(0, j as int),
        decreases value@.len() - j,
    {
        payload.push(value[j]);
        proof {
            assert(payload@ =~= key@ + value@.subrange(0, j + 1));
        }
        j = j + 1;
    }
    assert(payload@ =~= key@ + value@);
    let checksum = crc32_checksum(&payload);
    let mut out = u32_to_le_bytes(checksum);
    let mut key_len_bytes = u32_to_le_bytes(key.len() as u32);
    out.append(&mut key_len_bytes);
    let mut value_len_bytes = u32_to_le_bytes(value.len() as u32);
    out.append(&mut value_len_bytes);
    let mut body = payload;
    out.append(&mut body);
    proof {
        assert(out@ =~= record_bytes(key@, value@));
    }
    Ok(out)
}

/// Decodes the record at `pos`, reporting a clean end of data when no full
/// header remains, and truncation or a checksum mismatch as corruption.
pub fn process_record(log: &Vec<u8>, pos: usize) -> (r: DecodeOutcome)
    ensures
        ({
            let l = log@;
            let p = pos as int;
            match r {
                DecodeOutcome::EndOfData => !header_ok(l, p),
                DecodeOutcome::Truncated => header_ok(l, p) && !payload_ok(l, p),
                DecodeOutcome::Corrupt { stored, computed } => payload_ok(l, p) && !sum_ok(l, p)
                    && stored == stored_sum(l, p) && computed == computed_sum(l, p),
                DecodeOutcome::Record { kv, next } => valid_record_at(l, p) && kv.key@ == rec_key(
                    l,
                    p,
                ) && kv.value@ == rec_value(l, p) && next as int == rec_end(l, p),
            }
        }),
{
    if log.len() < 12 || pos > log.len() - 12 {
        return DecodeOutcome::EndOfData;
    }
    let stored = read_u32_at(log, pos);
    let klen = read_u32_at(log, pos + 4);
    let vlen = read_u32_at(log, pos + 8);
    let avail = log.len() - pos - 12;
    if klen as u64 + vlen as u64 > avail as u64 {
        return DecodeOutcome::Truncated;
    }
    let kstart = pos + 12;
    let kend = kstart + klen as usize;
    let vend = kend + vlen as usize;
    let ghost l = log@;
    let ghost p = pos as int;
    assert(kend as int == p + 12 + key_len_at(l, p));
    assert(vend as int == rec_end(l, p));
    let mut payload: Vec<u8> = Vec::new();
    let mut i: usize = kstart;
    assert(payload@ =~= l.subrange(kstart as int, kstart as int));
    while i < vend
        invariant
            kstart <= i <= vend,
            vend <= log@.len(),
            l == log@,
            payload@ == l.subrange(kstart as int, i as int),
        decreases vend - i,
    {
        payload.push(log[i]);
        proof {
            assert(payload@ =~= l.subrange(kstart as int, i + 1));
        }
        i = i + 1;
    }
    proof {
        assert(rec_key(l, p) + rec_value(l, p) =~= l.subrange(kstart as int, vend as int));
    }
    let computed = crc32_checksum(&payload);
    if computed != stored {
        return DecodeOutcome::Corrupt { stored, computed };
    }
    let mut key: Vec<u8> = Vec::new();
    let mut a: usize = kstart;
    assert(key@ =~= l.subrange(kstart as int, kstart as int));
    while a < kend
        invariant
            kstart <= a <= kend,
            kend <= log@.len(),
            l == log@,
            key@ == l.subrange(kstart as int, a as int),
        decreases kend - a,
    {
        key.push(log[a]);
        proof {
            assert(key@ =~= l.subrange(kstart as int, a + 1));
        }
        a = a + 1;
    }
    let mut value: Vec<u8> = Vec::new();
    let mut b: usize = kend;
    assert(value@ =~= l.subrange(kend as int, kend as int));
    while b < vend
        invariant
            kend <= b <= vend,
            vend <= log@.len(),
            l == log@,
            value@ == l.subrange(kend as int, b as int),
        decreases vend - b,
    {
        value.push(log[b]);
        proof {
            assert(value@ =~= l.subrange(kend as int, b + 1));
        }
        b = b + 1;
    }
    DecodeOutcome::Record { kv: KeyValuePair { key, value }, next: vend }
}

} // verus!
