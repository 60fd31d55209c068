//! The laws the store obeys, proved over the same spec functions that the
//! contracts of [`crate::codec`] and [`crate::store`] are stated with.

use vstd::prelude::*;
use vstd::bytes::{
    lemma_auto_spec_u32_to_from_le_bytes, spec_u32_from_le_bytes, spec_u32_to_le_bytes,
};
use crate::codec::{
    SpecRecord, SpecScan, crc32_of, log_clean, parse_at, rec_ok, recs_of, scan, scan_cons,
    scan_end, scan_from, spec_encode,
};
use crate::store::{find_last, index_of_recs, lemma_find_last_push, lemma_index_push};

verus! {

/// A record encoded onto the end of a log parses back at the old end of the
/// log, exactly as written.
pub proof fn lemma_parse_encode_at(log: Seq<u8>, key: Seq<u8>, value: Seq<u8>)
    requires
        key.len() as int <= u32::MAX,
        value.len() as int <= u32::MAX,
    ensures
        spec_encode(key, value).len() == 12 + key.len() as int + value.len() as int,
        parse_at(log + spec_encode(key, value), log.len() as int) == Some(
            SpecRecord {
                start: log.len() as int,
                stored: crc32_of(key + value),
                key,
                value,
                end: log.len() + 12 + key.len() as int + value.len() as int,
            },
        ),
{
    lemma_auto_spec_u32_to_from_le_bytes();
    let enc = spec_encode(key, value);
    let full = log + enc;
    let n = log.len() as int;
    assert(enc.len() == 12 + key.len() as int + value.len() as int);
    assert(full.subrange(n, n + 4) =~= spec_u32_to_le_bytes(crc32_of(key + value)));
    assert(full.subrange(n + 4, n + 8) =~= spec_u32_to_le_bytes(key.len() as int as u32));
    assert(full.subrange(n + 8, n + 12) =~= spec_u32_to_le_bytes(value.len() as int as u32));
    assert(spec_u32_from_le_bytes(full.subrange(n + 4, n + 8)) == key.len() as int);
    assert(spec_u32_from_le_bytes(full.subrange(n + 8, n + 12)) == value.len() as int);
    assert(full.subrange(n + 12, n + 12 + key.len() as int) =~= key);
    assert(full.subrange(n + 12 + key.len() as int, n + 12 + key.len() as int + value.len() as int) =~= value);
}

/// A record that parses within a log still parses, unchanged, after any bytes
/// are appended: what is written is never rewritten.
pub proof fn lemma_parse_frame(log: Seq<u8>, ext: Seq<u8>, pos: int)
    requires
        parse_at(log, pos) is Some,
    ensures
        parse_at(log + ext, pos) == parse_at(log, pos),
{
    let full = log + ext;
    let klen = spec_u32_from_le_bytes(log.subrange(pos + 4, pos + 8)) as int;
    let vlen = spec_u32_from_le_bytes(log.subrange(pos + 8, pos + 12)) as int;
    assert(full.subrange(pos, pos + 4) =~= log.subrange(pos, pos + 4));
    assert(full.subrange(pos + 4, pos + 8) =~= log.subrange(pos + 4, pos + 8));
    assert(full.subrange(pos + 8, pos + 12) =~= log.subrange(pos + 8, pos + 12));
    assert(full.subrange(pos + 12, pos + 12 + klen) =~= log.subrange(pos + 12, pos + 12 + klen));
    assert(full.subrange(pos + 12 + klen, pos + 12 + klen + vlen) =~= log.subrange(
        pos + 12 + klen,
        pos + 12 + klen + vlen,
    ));
}

/// Round-trip: encoding any key/value pair — empty values and arbitrary
/// bytes included — and decoding the result from the start yields back
/// exactly that key and value, with a stored checksum that matches the
/// recomputed one.
pub proof fn lemma_encode_round_trip(key: Seq<u8>, value: Seq<u8>)
    requires
        key.len() as int <= u32::MAX,
        value.len() as int <= u32::MAX,
    ensures
        parse_at(spec_encode(key, value), 0) == Some(
            SpecRecord {
                start: 0,
                stored: crc32_of(key + value),
                key,
                value,
                end: 12 + key.len() as int + value.len() as int,
            },
        ),
        rec_ok(parse_at(spec_encode(key, value), 0).unwrap()),
{
    lemma_parse_encode_at(Seq::empty(), key, value);
    assert(Seq::<u8>::empty() + spec_encode(key, value) =~= spec_encode(key, value));
}

/// Appending one well-formed record to a clean scan extends the scan by
/// exactly that record: everything already scanned is unchanged and the new
/// record arrives last.
pub proof fn lemma_scan_extend(log: Seq<u8>, pos: int, key: Seq<u8>, value: Seq<u8>)
    requires
        key.len() as int <= u32::MAX,
        value.len() as int <= u32::MAX,
        0 <= pos <= log.len(),
        scan_from(log, pos) is Clean,
        scan_end(pos, recs_of(scan_from(log, pos))) == log.len(),
    ensures
        scan_from(log + spec_encode(key, value), pos) == SpecScan::Clean(
            recs_of(scan_from(log, pos)).push(
                SpecRecord {
                    start: log.len() as int,
                    stored: crc32_of(key + value),
                    key,
                    value,
                    end: log.len() + 12 + key.len() as int + value.len() as int,
                },
            ),
        ),
        log.len() + 12 + key.len() as int + value.len() as int == (log + spec_encode(key, value)).len(),
    decreases log.len() - pos,
{
    lemma_auto_spec_u32_to_from_le_bytes();
    let enc = spec_encode(key, value);
    let full = log + enc;
    let newrec = SpecRecord {
        start: log.len() as int,
        stored: crc32_of(key + value),
        key,
        value,
        end: log.len() + 12 + key.len() as int + value.len() as int,
    };
    assert(enc.len() == 12 + key.len() as int + value.len() as int);
    match parse_at(log, pos) {
        None => {
            assert(pos == log.len());
            lemma_parse_encode_at(log, key, value);
            assert(parse_at(full, newrec.end) is None);
            assert(scan_from(full, newrec.end) == SpecScan::Clean(Seq::<SpecRecord>::empty()));
            assert(scan_from(full, pos) == scan_cons(
                newrec,
                SpecScan::Clean(Seq::<SpecRecord>::empty()),
            ));
            assert(seq![newrec] + Seq::<SpecRecord>::empty() =~= recs_of(
                scan_from(log, pos),
            ).push(newrec));
        },
        Some(r) => {
            assert(rec_ok(r));
            let rest = recs_of(scan_from(log, r.end));
            assert(scan_from(log, pos) == scan_cons(r, scan_from(log, r.end)));
            assert(scan_from(log, r.end) is Clean);
            let recs = recs_of(scan_from(log, pos));
            assert(recs == seq![r] + rest);
            if rest.len() == 0 {
                assert(recs.last() == r);
            } else {
                assert(recs.last() == rest.last());
            }
            lemma_scan_extend(log, r.end, key, value);
            lemma_parse_frame(log, enc, pos);
            assert(scan_from(full, pos) == scan_cons(r, scan_from(full, r.end)));
            assert(seq![r] + rest.push(newrec) =~= (seq![r] + rest).push(newrec));
        },
    }
}

/// Every record a clean scan yields parses back, intact, at its own start
/// offset: random access through a scanned offset sees the scanned record.
pub proof fn lemma_scan_records_parse(log: Seq<u8>, pos: int)
    requires
        0 <= pos,
        scan_from(log, pos) is Clean,
    ensures
        forall|i: int|
            0 <= i < recs_of(scan_from(log, pos)).len() ==> {
                &&& parse_at(log, #[trigger] recs_of(scan_from(log, pos))[i].start) == Some(
                    recs_of(scan_from(log, pos))[i],
                )
                &&& rec_ok(recs_of(scan_from(log, pos))[i])
            },
    decreases log.len() - pos,
{
    match parse_at(log, pos) {
        None => {},
        Some(r) => {
            assert(rec_ok(r));
            assert(scan_from(log, pos) == scan_cons(r, scan_from(log, r.end)));
            assert(scan_from(log, r.end) is Clean);
            lemma_scan_records_parse(log, r.end);
            let rest = recs_of(scan_from(log, r.end));
            let recs = recs_of(scan_from(log, pos));
            assert(recs == seq![r] + rest);
            assert forall|i: int| 0 <= i < recs.len() implies {
                &&& parse_at(log, #[trigger] recs[i].start) == Some(recs[i])
                &&& rec_ok(recs[i])
            } by {
                if i == 0 {
                    assert(recs[0] == r);
                } else {
                    assert(recs[i] == rest[i - 1]);
                }
            }
        },
    }
}

/// For any key, the index built from scanned records holds a binding exactly
/// when some record has that key, and then it holds the start offset of the
/// last such record.
pub proof fn lemma_index_matches_find_last(recs: Seq<SpecRecord>, key: Seq<u8>)
    ensures
        index_of_recs(recs).contains_key(key) <==> find_last(recs, key) is Some,
        find_last(recs, key) matches Some(r) ==> {
            &&& index_of_recs(recs)[key] == r.start as u64
            &&& r.key == key
            &&& exists|i: int| 0 <= i < recs.len() && recs[i] == r
        },
    decreases recs.len(),
{
    if recs.len() == 0 {
    } else {
        lemma_index_matches_find_last(recs.drop_last(), key);
        if recs.last().key == key {
            assert(recs[recs.len() - 1] == recs.last());
        } else {
            if find_last(recs.drop_last(), key) is Some {
                let r = find_last(recs.drop_last(), key).unwrap();
                let i = choose|i: int| 0 <= i < recs.drop_last().len() && recs.drop_last()[i] == r;
                assert(recs[i] == recs.drop_last()[i]);
            }
        }
    }
}

/// Scan/index equivalence: after a clean scan, a key is indexed exactly when
/// a full scan would find it, the indexed offset is the offset the scan's
/// last matching record starts at, and decoding at that offset yields that
/// very record, intact. An index lookup and an index-free scan therefore
/// return the same value.
pub proof fn lemma_scan_index_equivalence(log: Seq<u8>, key: Seq<u8>)
    requires
        scan(log) is Clean,
    ensures
        index_of_recs(recs_of(scan(log))).contains_key(key) <==> find_last(
            recs_of(scan(log)),
            key,
        ) is Some,
        find_last(recs_of(scan(log)), key) matches Some(r) ==> {
            &&& index_of_recs(recs_of(scan(log)))[key] == r.start as u64
            &&& r.key == key
            &&& parse_at(log, r.start) == Some(r)
            &&& rec_ok(r)
        },
{
    let recs = recs_of(scan(log));
    lemma_index_matches_find_last(recs, key);
    lemma_scan_records_parse(log, 0);
    if find_last(recs, key) is Some {
        let r = find_last(recs, key).unwrap();
        let i = choose|i: int| 0 <= i < recs.len() && recs[i] == r;
        assert(parse_at(log, recs[i].start) == Some(recs[i]));
    }
}

/// Last write wins: appending a record for `key` with value `a` and then one
/// with value `b` onto any clean log leaves a clean log whose index binds
/// `key` to the start of the second record, whose scan finds that record
/// last, and whose bytes decode at that offset to `key` and `b`.
pub proof fn lemma_last_write_wins(log: Seq<u8>, key: Seq<u8>, a: Seq<u8>, b: Seq<u8>)
    requires
        log_clean(log),
        key.len() as int <= u32::MAX,
        a.len() as int <= u32::MAX,
        b.len() as int <= u32::MAX,
    ensures
        ({
            let log1 = log + spec_encode(key, a);
            let log2 = log1 + spec_encode(key, b);
            let rec2 = SpecRecord {
                start: log1.len() as int,
                stored: crc32_of(key + b),
                key,
                value: b,
                end: log1.len() + 12 + key.len() as int + b.len() as int,
            };
            &&& log1.len() == log.len() + 12 + key.len() as int + a.len() as int
            &&& log_clean(log2)
            &&& index_of_recs(recs_of(scan(log2))).contains_key(key)
            &&& index_of_recs(recs_of(scan(log2)))[key] == log1.len() as u64
            &&& find_last(recs_of(scan(log2)), key) == Some(rec2)
            &&& parse_at(log2, log1.len() as int) == Some(rec2)
            &&& rec_ok(rec2)
        }),
{
    lemma_auto_spec_u32_to_from_le_bytes();
    let log1 = log + spec_encode(key, a);
    let log2 = log1 + spec_encode(key, b);
    let recs0 = recs_of(scan(log));
    lemma_scan_extend(log, 0, key, a);
    let rec1 = SpecRecord {
        start: log.len() as int,
        stored: crc32_of(key + a),
        key,
        value: a,
        end: log.len() + 12 + key.len() as int + a.len() as int,
    };
    assert(recs_of(scan(log1)) == recs0.push(rec1));
    assert(recs0.push(rec1).last() == rec1);
    assert(log_clean(log1));
    lemma_scan_extend(log1, 0, key, b);
    let rec2 = SpecRecord {
        start: log1.len() as int,
        stored: crc32_of(key + b),
        key,
        value: b,
        end: log1.len() + 12 + key.len() as int + b.len() as int,
    };
    let recs1 = recs0.push(rec1);
    assert(recs_of(scan(log2)) == recs1.push(rec2));
    assert(recs1.push(rec2).last() == rec2);
    assert(log_clean(log2));
    lemma_index_push(recs1, rec2);
    lemma_find_last_push(recs1, rec2, key);
    lemma_parse_encode_at(log1, key, b);
}

/// Tombstone visibility: after a record for `key` and then a delete —
/// a record with an empty value — the key is still indexed, the indexed
/// record decodes intact, and its value is empty: a lookup reports the key
/// as present with an empty value, not as absent.
pub proof fn lemma_tombstone_visible(log: Seq<u8>, key: Seq<u8>, value: Seq<u8>)
    requires
        log_clean(log),
        key.len() as int <= u32::MAX,
        value.len() as int <= u32::MAX,
    ensures
        ({
            let log1 = log + spec_encode(key, value);
            let log2 = log1 + spec_encode(key, Seq::empty());
            let tomb = SpecRecord {
                start: log1.len() as int,
                stored: crc32_of(key + Seq::<u8>::empty()),
                key,
                value: Seq::empty(),
                end: log1.len() + 12 + key.len() as int,
            };
            &&& log_clean(log2)
            &&& index_of_recs(recs_of(scan(log2))).contains_key(key)
            &&& index_of_recs(recs_of(scan(log2)))[key] == log1.len() as u64
            &&& parse_at(log2, log1.len() as int) == Some(tomb)
            &&& rec_ok(tomb)
            &&& tomb.value.len() as int == 0
        }),
{
    lemma_last_write_wins(log, key, value, Seq::empty());
}

/// Empty-file bootstrap: a scan of an empty log yields no records at once,
/// the index it builds is empty, and the empty log is clean; every lookup on
/// it reports the key as absent.
pub proof fn lemma_empty_bootstrap()
    ensures
        scan(Seq::<u8>::empty()) == SpecScan::Clean(Seq::<SpecRecord>::empty()),
        log_clean(Seq::<u8>::empty()),
        forall|key: Seq<u8>| !index_of_recs(recs_of(scan(Seq::<u8>::empty()))).contains_key(key),
{
    assert(parse_at(Seq::<u8>::empty(), 0) is None);
}

/// Persistence across reopen: the index a load builds is a function of the
/// log bytes alone, and a fresh store starts from an empty index, which a
/// union changes nothing of — so reopening a store over the same bytes and
/// loading rebuilds exactly the same index, and every lookup the same value.
pub proof fn lemma_reopen_rebuilds_index(log: Seq<u8>)
    ensures
        Map::<Seq<u8>, u64>::empty().union_prefer_right(index_of_recs(recs_of(scan(log))))
            == index_of_recs(recs_of(scan(log))),
{
    assert(Map::<Seq<u8>, u64>::empty().union_prefer_right(index_of_recs(recs_of(scan(log))))
        =~= index_of_recs(recs_of(scan(log))));
}

/// Loading twice is idempotent: folding the same scanned records into an
/// index a second time changes nothing.
pub proof fn lemma_load_idempotent(index: Map<Seq<u8>, u64>, recs: Seq<SpecRecord>)
    ensures
        index.union_prefer_right(index_of_recs(recs)).union_prefer_right(index_of_recs(recs))
            == index.union_prefer_right(index_of_recs(recs)),
{
    assert(index.union_prefer_right(index_of_recs(recs)).union_prefer_right(index_of_recs(recs))
        =~= index.union_prefer_right(index_of_recs(recs)));
}

/// Any change to a record's stored-checksum field — the key and value bytes
/// unchanged — makes the scan report corruption: the recomputed checksum of
/// the unchanged payload no longer matches the stored one. (Whether a change
/// to the payload bytes themselves changes their CRC32 is a property of the
/// checksum itself, outside what these definitions fix.)
pub proof fn lemma_checksum_field_tamper_detected(key: Seq<u8>, value: Seq<u8>, header: Seq<u8>)
    requires
        key.len() as int <= u32::MAX,
        value.len() as int <= u32::MAX,
        header.len() == 4,
        header != spec_encode(key, value).subrange(0, 4),
    ensures
        ({
            let tampered = header + spec_encode(key, value).skip(4);
            &&& parse_at(tampered, 0) is Some
            &&& !rec_ok(parse_at(tampered, 0).unwrap())
            &&& scan(tampered) matches SpecScan::Corrupt(pre, bad) && pre.len() == 0 && bad
                == parse_at(tampered, 0).unwrap()
        }),
{
    lemma_auto_spec_u32_to_from_le_bytes();
    let enc = spec_encode(key, value);
    let tampered = header + enc.skip(4);
    lemma_encode_round_trip(key, value);
    assert(enc.len() == 12 + key.len() as int + value.len() as int);
    assert(tampered.len() == enc.len());
    assert(tampered.subrange(0, 4) =~= header);
    assert(tampered.subrange(4, 8) =~= enc.subrange(4, 8));
    assert(tampered.subrange(8, 12) =~= enc.subrange(8, 12));
    assert(tampered.subrange(12, 12 + key.len() as int) =~= enc.subrange(12, 12 + key.len() as int));
    assert(tampered.subrange(12 + key.len() as int, 12 + key.len() as int + value.len() as int) =~= enc.subrange(
        12 + key.len() as int,
        12 + key.len() as int + value.len() as int,
    ));
    let rec = parse_at(tampered, 0).unwrap();
    assert(rec.key == key && rec.value == value);
    if rec_ok(rec) {
        assert(spec_u32_from_le_bytes(header) == crc32_of(key + value));
        assert(spec_u32_to_le_bytes(spec_u32_from_le_bytes(header)) == header);
        assert(enc.subrange(0, 4) =~= spec_u32_to_le_bytes(crc32_of(key + value)));
        assert(false);
    }
}

} // verus!
