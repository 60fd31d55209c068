//! The record codec: the fixed binary layout of one log record, and the
//! functions that turn a key/value pair into bytes and bytes back into a pair.
//!
//! A record is laid out as
//! `checksum (u32 le) | key_len (u32 le) | val_len (u32 le) | key | value`,
//! where the checksum is the CRC32 (Castagnoli) of `key ++ value`.

use vstd::prelude::*;
use vstd::bytes::*;
use vstd::slice::*;

verus! {

/// The CRC32 checksum (Castagnoli / iSCSI polynomial) of a byte sequence.
pub uninterp spec fn crc32_of(data: Seq<u8>) -> u32;

/// Relies on `crc::Crc::<u32>::checksum` with the `crc::CRC_32_ISCSI`
/// algorithm: a table-driven computation whose result is a function of the
/// input bytes alone.
#[verifier::external_body]
pub(crate) fn crc32_iscsi(data: &[u8]) -> (r: u32)
    ensures
        r == crc32_of(data@),
{
    crc::Crc::<u32>::new(&crc::CRC_32_ISCSI).checksum(data)
}

/// One decoded key/value pair.
#[derive(Debug)]
pub struct KeyValuePair {
    pub key: Vec<u8>,
    pub value: Vec<u8>,
}

/// The bytes that `encode` produces for a key/value pair.
pub open spec fn spec_encode(key: Seq<u8>, value: Seq<u8>) -> Seq<u8> {
    spec_u32_to_le_bytes(crc32_of(key + value)) + spec_u32_to_le_bytes(key.len() as u32)
        + spec_u32_to_le_bytes(value.len() as u32) + key + value
}

/// A record as read back out of a log, together with where it lies.
pub struct SpecRecord {
    pub start: int,
    pub stored: u32,
    pub key: Seq<u8>,
    pub value: Seq<u8>,
    pub end: int,
}

/// The checksum that decoding recomputes for a record.
pub open spec fn rec_computed(r: SpecRecord) -> u32 {
    crc32_of(r.key + r.value)
}

/// A record is intact when its stored checksum matches the recomputed one.
pub open spec fn rec_ok(r: SpecRecord) -> bool {
    r.stored == rec_computed(r)
}

/// The record whose header starts at `pos` in `log`, or `None` when fewer
/// bytes remain than the header and its declared payload need. The checksum
/// is not inspected here.
pub open spec fn parse_at(log: Seq<u8>, pos: int) -> Option<SpecRecord> {
    if 0 <= pos && pos + 12 <= log.len() {
        let stored = spec_u32_from_le_bytes(log.subrange(pos, pos + 4));
        let klen = spec_u32_from_le_bytes(log.subrange(pos + 4, pos + 8)) as int;
        let vlen = spec_u32_from_le_bytes(log.subrange(pos + 8, pos + 12)) as int;
        let end = pos + 12 + klen + vlen;
        if end <= log.len() {
            Some(
                SpecRecord {
                    start: pos,
                    stored,
                    key: log.subrange(pos + 12, pos + 12 + klen),
                    value: log.subrange(pos + 12 + klen, end),
                    end,
                },
            )
        } else {
            None
        }
    } else {
        None
    }
}

/// What a full sequential scan of a log yields: either every record down to
/// the end of the log (or to a torn tail) is intact, or the scan stops at the
/// first record whose checksum does not match.
pub enum SpecScan {
    /// The intact records, in log order.
    Clean(Seq<SpecRecord>),
    /// The intact records before the first corrupt one, and that record.
    Corrupt(Seq<SpecRecord>, SpecRecord),
}

/// Puts a record in front of a scan result.
pub open spec fn scan_cons(r: SpecRecord, s: SpecScan) -> SpecScan {
    match s {
        SpecScan::Clean(recs) => SpecScan::Clean(seq![r] + recs),
        SpecScan::Corrupt(recs, bad) => SpecScan::Corrupt(seq![r] + recs, bad),
    }
}

/// Puts already-scanned records in front of a scan result.
pub open spec fn scan_app(done: Seq<SpecRecord>, s: SpecScan) -> SpecScan {
    match s {
        SpecScan::Clean(recs) => SpecScan::Clean(done + recs),
        SpecScan::Corrupt(recs, bad) => SpecScan::Corrupt(done + recs, bad),
    }
}

/// The records of a scan result, corrupt tail record excluded.
pub open spec fn recs_of(s: SpecScan) -> Seq<SpecRecord> {
    match s {
        SpecScan::Clean(recs) => recs,
        SpecScan::Corrupt(recs, _) => recs,
    }
}

/// Scanning a log from `pos`: records are decoded back to back until fewer
/// bytes remain than a whole record needs, or until a checksum mismatch.
pub open spec fn scan_from(log: Seq<u8>, pos: int) -> SpecScan
    decreases log.len() - pos,
{
    match parse_at(log, pos) {
        None => SpecScan::Clean(Seq::empty()),
        Some(r) => if !rec_ok(r) {
            SpecScan::Corrupt(Seq::empty(), r)
        } else {
            scan_cons(r, scan_from(log, r.end))
        },
    }
}

/// Scanning a whole log from its start.
pub open spec fn scan(log: Seq<u8>) -> SpecScan {
    scan_from(log, 0)
}

/// Where a scan that started at `pos` and yielded `recs` stopped reading.
pub open spec fn scan_end(pos: int, recs: Seq<SpecRecord>) -> int {
    if recs.len() == 0 {
        pos
    } else {
        recs.last().end
    }
}

/// A log is clean when a scan of it finds only intact records and stops
/// exactly at the end: the log is a concatenation of intact records.
pub open spec fn log_clean(log: Seq<u8>) -> bool {
    &&& scan(log) is Clean
    &&& scan_end(0, recs_of(scan(log))) == log.len()
}

/// What one decoding step at a log position reports.
pub enum DecodeNext {
    /// An intact record, and the position just past it.
    Record { kv: KeyValuePair, next: usize },
    /// Fewer bytes remain than one whole record needs: the normal end of a
    /// scan, whether the log ends exactly here or a record was torn short.
    EndOfLog,
    /// The stored checksum does not match the recomputed one.
    Corruption { stored: u32, computed: u32 },
}

/// Encodes a key/value pair as one record: checksum, key length and value
/// length as 32-bit little-endian integers, then the key and value bytes.
pub fn encode(key: &[u8], value: &[u8]) -> (r: Vec<u8>)
    requires
        key@.len() <= u32::MAX,
        value@.len() <= u32::MAX,
        key@.len() + value@.len() + 12 <= usize::MAX,
    ensures
        r@ == spec_encode(key@, value@),
        r@.len() == 12 + key@.len() + value@.len(),
{
    let mut payload: Vec<u8> = Vec::new();
    payload.extend_from_slice(key);
    payload.extend_from_slice(value);
    proof {
        assert(payload@ =~= key@ + value@);
    }
    let checksum = crc32_iscsi(payload.as_slice());
    let mut out = u32_to_le_bytes(checksum);
    let mut key_len_bytes = u32_to_le_bytes(key.len() as u32);
    let mut val_len_bytes = u32_to_le_bytes(value.len() as u32);
    out.append(&mut key_len_bytes);
    out.append(&mut val_len_bytes);
    out.append(&mut payload);
    proof {
        assert(out@ =~= spec_encode(key@, value@));
    }
    out
}

/// Decodes the record starting at `pos`: reads the three header fields, then
/// the payload the header declares, splits it into key and value, recomputes
/// the checksum and compares it with the stored one.
pub fn decode_next(log: &Vec<u8>, pos: usize) -> (r: DecodeNext)
    ensures
        match parse_at(log@, pos as int) {
            None => r == DecodeNext::EndOfLog,
            Some(rec) => if rec_ok(rec) {
                &&& r matches DecodeNext::Record { kv, next }
                &&& kv.key@ == rec.key
                &&& kv.value@ == rec.value
                &&& next == rec.end
            } else {
                r == (DecodeNext::Corruption { stored: rec.stored, computed: rec_computed(rec) })
            },
        },
{
    let n = log.len();
    if pos > n || n - pos < 12 {
        return DecodeNext::EndOfLog;
    }
    let stored = u32_from_le_bytes(slice_subrange(log.as_slice(), pos, pos + 4));
    let key_len = u32_from_le_bytes(slice_subrange(log.as_slice(), pos + 4, pos + 8)) as usize;
    let val_len = u32_from_le_bytes(slice_subrange(log.as_slice(), pos + 8, pos + 12)) as usize;
    let remaining = n - (pos + 12);
    if key_len > remaining || val_len > remaining - key_len {
        return DecodeNext::EndOfLog;
    }
    let ghost rec = parse_at(log@, pos as int).unwrap();
    let key = slice_to_vec(slice_subrange(log.as_slice(), pos + 12, pos + 12 + key_len));
    let value = slice_to_vec(
        slice_subrange(log.as_slice(), pos + 12 + key_len, pos + 12 + key_len + val_len),
    );
    let payload = slice_to_vec(
        slice_subrange(log.as_slice(), pos + 12, pos + 12 + key_len + val_len),
    );
    proof {
        assert(payload@ =~= rec.key + rec.value);
    }
    let computed = crc32_iscsi(payload.as_slice());
    if computed != stored {
        return DecodeNext::Corruption { stored, computed };
    }
    DecodeNext::Record { kv: KeyValuePair { key, value }, next: pos + 12 + key_len + val_len }
}

} // verus!
