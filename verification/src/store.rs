//! The log store: the append-only log bytes and the in-memory index from
//! each key to the byte offset of its most recent record.
//!
//! The store works on the log as a byte vector handed in at `open`; every
//! mutation appends one encoded record and reports, through its contract,
//! exactly which bytes were appended, so a caller that keeps the log on disk
//! can append the same bytes there.

use vstd::prelude::*;
use vstd::slice::slice_index_get;
use crate::codec::{
    DecodeNext, KeyValuePair, SpecRecord, SpecScan, decode_next, encode, parse_at, rec_computed,
    rec_ok, scan, scan_app, scan_cons, scan_from, spec_encode,
};

verus! {

/// One entry of the in-memory index.
pub struct IndexEntry {
    pub key: Vec<u8>,
    pub offset: u64,
}

/// The in-memory index: a mapping from key to the byte offset of that key's
/// most recently recorded position, kept as a list of entries in which a
/// later entry for a key shadows an earlier one.
pub struct Index {
    entries: Vec<IndexEntry>,
}

/// The mapping that a list of index entries stands for: later entries win.
pub open spec fn map_of(entries: Seq<IndexEntry>) -> Map<Seq<u8>, u64>
    decreases entries.len(),
{
    if entries.len() == 0 {
        Map::empty()
    } else {
        map_of(entries.drop_last()).insert(entries.last().key@, entries.last().offset)
    }
}

impl View for Index {
    type V = Map<Seq<u8>, u64>;

    closed spec fn view(&self) -> Map<Seq<u8>, u64> {
        map_of(self.entries@)
    }
}

/// Compares two byte strings for equality.
pub fn bytes_eq(a: &[u8], b: &[u8]) -> (r: bool)
    ensures
        r == (a@ == b@),
{
    if a.len() != b.len() {
        return false;
    }
    let mut i: usize = 0;
    while i < a.len()
        invariant
            i <= a@.len(),
            a@.len() == b@.len(),
            forall|j: int| 0 <= j < i ==> a@[j] == b@[j],
        decreases a@.len() - i,
    {
        if *slice_index_get(a, i) != *slice_index_get(b, i) {
            return false;
        }
        i = i + 1;
    }
    proof {
        assert(a@ =~= b@);
    }
    true
}

/// If some entry at or after position `i` has key `k`, and no entry after it
/// does, the map holds that entry's offset for `k`.
proof fn lemma_map_of_last_match(entries: Seq<IndexEntry>, i: int, k: Seq<u8>)
    requires
        0 <= i < entries.len(),
        entries[i].key@ == k,
        forall|j: int| i < j < entries.len() ==> entries[j].key@ != k,
    ensures
        map_of(entries).contains_key(k),
        map_of(entries)[k] == entries[i].offset,
    decreases entries.len(),
{
    if i == entries.len() - 1 {
    } else {
        lemma_map_of_last_match(entries.drop_last(), i, k);
    }
}

/// If no entry has key `k`, the map has no binding for `k`.
proof fn lemma_map_of_no_match(entries: Seq<IndexEntry>, k: Seq<u8>)
    requires
        forall|j: int| 0 <= j < entries.len() ==> entries[j].key@ != k,
    ensures
        !map_of(entries).contains_key(k),
    decreases entries.len(),
{
    if entries.len() > 0 {
        lemma_map_of_no_match(entries.drop_last(), k);
    }
}

impl Index {
    /// An empty index.
    pub fn new() -> (r: Index)
        ensures
            r@ == Map::<Seq<u8>, u64>::empty(),
    {
        Index { entries: Vec::new() }
    }

    /// Binds `key` to `offset`, shadowing any earlier binding.
    pub fn insert(&mut self, key: Vec<u8>, offset: u64)
        ensures
            final(self)@ == old(self)@.insert(key@, offset),
    {
        let ghost entries0 = self.entries@;
        let entry = IndexEntry { key, offset };
        let ghost e = entry;
        self.entries.push(entry);
        proof {
            assert(self.entries@.drop_last() =~= entries0);
            assert(self.entries@.last() == e);
        }
    }

    /// The offset bound to `key`, if any.
    pub fn get(&self, key: &[u8]) -> (r: Option<u64>)
        ensures
            r == if self@.contains_key(key@) {
                Some(self@[key@])
            } else {
                None::<u64>
            },
    {
        let mut i: usize = self.entries.len();
        while i > 0
            invariant
                i <= self.entries@.len(),
                forall|j: int| i <= j < self.entries@.len() ==> self.entries@[j].key@ != key@,
            decreases i,
        {
            i = i - 1;
            let entry = &self.entries[i];
            if bytes_eq(entry.key.as_slice(), key) {
                proof {
                    lemma_map_of_last_match(self.entries@, i as int, key@);
                }
                return Some(entry.offset);
            }
        }
        proof {
            lemma_map_of_no_match(self.entries@, key@);
        }
        None
    }
}

/// The errors a store operation can surface.
#[derive(Clone, Copy, Debug, PartialEq, Eq, Structural)]
pub enum StoreError {
    /// A record's stored checksum does not match the one recomputed over its
    /// payload; both values are carried for diagnostics.
    Corruption { stored: u32, computed: u32 },
    /// A whole record was expected at an offset, but the log ends inside it.
    Truncated,
}

/// The append-only store: the log bytes and the index over them.
pub struct ActionKV {
    log: Vec<u8>,
    pub index: Index,
}

/// What a store looks like to a specification: its log bytes and its index
/// mapping.
pub struct StoreView {
    pub log: Seq<u8>,
    pub index: Map<Seq<u8>, u64>,
}

impl View for ActionKV {
    type V = StoreView;

    closed spec fn view(&self) -> StoreView {
        StoreView { log: self.log@, index: self.index@ }
    }
}

/// The index mapping that a sequence of scanned records builds: each record
/// binds its key to its start offset, and a later record wins.
pub open spec fn index_of_recs(recs: Seq<SpecRecord>) -> Map<Seq<u8>, u64>
    decreases recs.len(),
{
    if recs.len() == 0 {
        Map::empty()
    } else {
        index_of_recs(recs.drop_last()).insert(recs.last().key, recs.last().start as u64)
    }
}

/// The last record of `recs` whose key is `key`, if any: the record that
/// shadows all earlier ones for that key.
pub open spec fn find_last(recs: Seq<SpecRecord>, key: Seq<u8>) -> Option<SpecRecord>
    decreases recs.len(),
{
    if recs.len() == 0 {
        None
    } else if recs.last().key == key {
        Some(recs.last())
    } else {
        find_last(recs.drop_last(), key)
    }
}

/// Scanned records prepended one at a time or all at once come to the same.
proof fn lemma_scan_app_cons(done: Seq<SpecRecord>, r: SpecRecord, s: SpecScan)
    ensures
        scan_app(done, scan_cons(r, s)) == scan_app(done.push(r), s),
{
    match s {
        SpecScan::Clean(recs) => {
            assert(done + (seq![r] + recs) =~= done.push(r) + recs);
        },
        SpecScan::Corrupt(recs, bad) => {
            assert(done + (seq![r] + recs) =~= done.push(r) + recs);
        },
    }
}

/// Prepending no records changes nothing.
proof fn lemma_scan_app_nil(s: SpecScan)
    ensures
        scan_app(Seq::empty(), s) == s,
{
    match s {
        SpecScan::Clean(recs) => {
            assert(Seq::<SpecRecord>::empty() + recs =~= recs);
        },
        SpecScan::Corrupt(recs, bad) => {
            assert(Seq::<SpecRecord>::empty() + recs =~= recs);
        },
    }
}

/// One more scanned record binds its key to its start offset.
pub(crate) proof fn lemma_index_push(recs: Seq<SpecRecord>, r: SpecRecord)
    ensures
        index_of_recs(recs.push(r)) == index_of_recs(recs).insert(r.key, r.start as u64),
{
    assert(recs.push(r).drop_last() =~= recs);
    assert(recs.push(r).last() == r);
}

/// One more scanned record is the last match for its own key and changes no
/// other key's last match.
pub(crate) proof fn lemma_find_last_push(recs: Seq<SpecRecord>, r: SpecRecord, key: Seq<u8>)
    ensures
        find_last(recs.push(r), key) == if r.key == key {
            Some(r)
        } else {
            find_last(recs, key)
        },
{
    assert(recs.push(r).drop_last() =~= recs);
    assert(recs.push(r).last() == r);
}

/// Inserting into the right-hand side of a union inserts into the union.
proof fn lemma_union_insert(m: Map<Seq<u8>, u64>, n: Map<Seq<u8>, u64>, k: Seq<u8>, v: u64)
    ensures
        m.union_prefer_right(n.insert(k, v)) == m.union_prefer_right(n).insert(k, v),
{
    assert(m.union_prefer_right(n.insert(k, v)) =~= m.union_prefer_right(n).insert(k, v));
}

impl ActionKV {
    /// Every indexed offset points strictly inside the log.
    pub open spec fn wf(&self) -> bool {
        forall|k: Seq<u8>| #[trigger]
            self@.index.contains_key(k) ==> (self@.index[k] as int) < self@.log.len()
    }

    /// A store over the given log bytes, its index still empty. Reading the
    /// bytes out of a file, or creating an empty file for an empty store, is
    /// the caller's affair.
    pub fn open(contents: Vec<u8>) -> (s: ActionKV)
        ensures
            s@.log == contents@,
            s@.index == Map::<Seq<u8>, u64>::empty(),
            s.wf(),
    {
        ActionKV { log: contents, index: Index::new() }
    }

    /// The offset one past the last log byte: where the next record goes.
    pub fn seek_to_end(&mut self) -> (r: u64)
        ensures
            *final(self) == *old(self),
            r == old(self)@.log.len(),
    {
        self.log.len() as u64
    }

    /// The log bytes the store holds.
    pub fn log_bytes(&self) -> (r: &Vec<u8>)
        ensures
            r@ == self@.log,
    {
        &self.log
    }

    /// Appends one record for the pair to the end of the log, leaving the
    /// index alone, and returns the offset the record starts at.
    pub fn insert_but_ignore_index(&mut self, key: &[u8], value: &[u8]) -> (r: u64)
        requires
            key@.len() <= u32::MAX,
            value@.len() <= u32::MAX,
            old(self)@.log.len() + 12 + key@.len() + value@.len() <= usize::MAX,
        ensures
            r == old(self)@.log.len(),
            final(self)@.log == old(self)@.log + spec_encode(key@, value@),
            final(self)@.index == old(self)@.index,
    {
        let position = self.log.len() as u64;
        let mut record = encode(key, value);
        self.log.append(&mut record);
        position
    }

    /// Appends one record for the pair and points the index entry for the key
    /// at it.
    pub fn insert(&mut self, key: &[u8], value: &[u8])
        requires
            old(self).wf(),
            key@.len() <= u32::MAX,
            value@.len() <= u32::MAX,
            old(self)@.log.len() + 12 + key@.len() + value@.len() <= usize::MAX,
        ensures
            final(self).wf(),
            final(self)@.log == old(self)@.log + spec_encode(key@, value@),
            final(self)@.index == old(self)@.index.insert(key@, old(self)@.log.len() as u64),
    {
        let position = self.insert_but_ignore_index(key, value);
        let key_copy = vstd::slice::slice_to_vec(key);
        self.index.insert(key_copy, position);
        proof {
            vstd::bytes::lemma_auto_spec_u32_to_from_le_bytes();
            assert(self@.log.len() == old(self)@.log.len() + 12 + key@.len() + value@.len());
            assert forall|k: Seq<u8>| #[trigger] self@.index.contains_key(k) implies (
            self@.index[k] as int) < self@.log.len() by {
                if k != key@ {
                    assert(old(self)@.index.contains_key(k));
                }
            }
        }
    }

    /// An update is an insert: the new record shadows the old one.
    pub fn update(&mut self, key: &[u8], value: &[u8])
        requires
            old(self).wf(),
            key@.len() <= u32::MAX,
            value@.len() <= u32::MAX,
            old(self)@.log.len() + 12 + key@.len() + value@.len() <= usize::MAX,
        ensures
            final(self).wf(),
            final(self)@.log == old(self)@.log + spec_encode(key@, value@),
            final(self)@.index == old(self)@.index.insert(key@, old(self)@.log.len() as u64),
    {
        self.insert(key, value)
    }

    /// A delete appends a tombstone: a record with an empty value. The key
    /// stays in the index, pointing at the tombstone, so a later `get` finds
    /// an empty value rather than nothing.
    pub fn delete(&mut self, key: &[u8])
        requires
            old(self).wf(),
            key@.len() <= u32::MAX,
            old(self)@.log.len() + 12 + key@.len() <= usize::MAX,
        ensures
            final(self).wf(),
            final(self)@.log == old(self)@.log + spec_encode(key@, Seq::empty()),
            final(self)@.index == old(self)@.index.insert(key@, old(self)@.log.len() as u64),
    {
        let empty: Vec<u8> = Vec::new();
        self.insert(key, empty.as_slice())
    }

    /// Rebuilds the index by scanning the whole log from offset zero: every
    /// intact record overwrites the index entry for its key, so the last
    /// record per key wins. A torn record at the tail ends the scan cleanly;
    /// a checksum mismatch aborts it with a corruption error, the records
    /// before the mismatch already indexed. Loading twice is idempotent.
    #[verifier::loop_isolation(false)]
    pub fn load(&mut self) -> (r: Result<(), StoreError>)
        requires
            old(self).wf(),
        ensures
            final(self)@.log == old(self)@.log,
            final(self).wf(),
            match scan(old(self)@.log) {
                SpecScan::Clean(recs) => r is Ok && final(self)@.index == old(
                    self,
                )@.index.union_prefer_right(index_of_recs(recs)),
                SpecScan::Corrupt(recs, bad) => {
                    &&& r == Err::<(), StoreError>(
                        StoreError::Corruption { stored: bad.stored, computed: rec_computed(bad) },
                    )
                    &&& final(self)@.index == old(self)@.index.union_prefer_right(
                        index_of_recs(recs),
                    )
                },
            },
    {
        let ghost log0 = self@.log;
        let ghost index0 = old(self)@.index;
        let mut position: usize = 0;
        let ghost mut done: Seq<SpecRecord> = Seq::empty();
        proof {
            lemma_scan_app_nil(scan_from(log0, 0));
            assert(index0.union_prefer_right(index_of_recs(done)) =~= index0);
        }
        loop
            invariant
                self@.log == log0,
                self.wf(),
                position <= log0.len(),
                scan(log0) == scan_app(done, scan_from(log0, position as int)),
                self@.index == index0.union_prefer_right(index_of_recs(done)),
            decreases log0.len() - position,
        {
            match decode_next(&self.log, position) {
                DecodeNext::EndOfLog => {
                    proof {
                        assert(done + Seq::<SpecRecord>::empty() =~= done);
                    }
                    return Ok(());
                },
                DecodeNext::Corruption { stored, computed } => {
                    proof {
                        assert(done + Seq::<SpecRecord>::empty() =~= done);
                    }
                    return Err(StoreError::Corruption { stored, computed });
                },
                DecodeNext::Record { kv, next } => {
                    let ghost rec = parse_at(log0, position as int).unwrap();
                    self.index.insert(kv.key, position as u64);
                    proof {
                        lemma_scan_app_cons(done, rec, scan_from(log0, rec.end));
                        lemma_index_push(done, rec);
                        lemma_union_insert(index0, index_of_recs(done), rec.key, rec.start as u64);
                        done = done.push(rec);
                    }
                    position = next;
                },
            }
        }
    }

    /// Scans the whole log, ignoring the index, and returns the offset and
    /// value of the last record for the key, or nothing when no record
    /// matches. A checksum mismatch aborts the scan with a corruption error.
    #[verifier::loop_isolation(false)]
    pub fn find(&mut self, target: &[u8]) -> (r: Result<Option<(u64, Vec<u8>)>, StoreError>)
        ensures
            *final(self) == *old(self),
            match scan(old(self)@.log) {
                SpecScan::Clean(recs) => match find_last(recs, target@) {
                    None => r == Ok::<Option<(u64, Vec<u8>)>, StoreError>(None),
                    Some(rec) => {
                        &&& r matches Ok(found)
                        &&& found matches Some((offset, value))
                        &&& offset as int == rec.start
                        &&& value@ == rec.value
                    },
                },
                SpecScan::Corrupt(_, bad) => r == Err::<Option<(u64, Vec<u8>)>, StoreError>(
                    StoreError::Corruption { stored: bad.stored, computed: rec_computed(bad) },
                ),
            },
    {
        let ghost log0 = self@.log;
        let mut position: usize = 0;
        let mut found: Option<(u64, Vec<u8>)> = None;
        let ghost mut done: Seq<SpecRecord> = Seq::empty();
        proof {
            lemma_scan_app_nil(scan_from(log0, 0));
        }
        loop
            invariant
                position <= log0.len(),
                scan(log0) == scan_app(done, scan_from(log0, position as int)),
                match find_last(done, target@) {
                    None => found is None,
                    Some(rec) => {
                        &&& found matches Some((offset, value))
                        &&& offset as int == rec.start
                        &&& value@ == rec.value
                    },
                },
            decreases log0.len() - position,
        {
            match decode_next(&self.log, position) {
                DecodeNext::EndOfLog => {
                    proof {
                        assert(done + Seq::<SpecRecord>::empty() =~= done);
                    }
                    return Ok(found);
                },
                DecodeNext::Corruption { stored, computed } => {
                    return Err(StoreError::Corruption { stored, computed });
                },
                DecodeNext::Record { kv, next } => {
                    let ghost rec = parse_at(log0, position as int).unwrap();
                    if bytes_eq(kv.key.as_slice(), target) {
                        found = Some((position as u64, kv.value));
                    }
                    proof {
                        lemma_scan_app_cons(done, rec, scan_from(log0, rec.end));
                        lemma_find_last_push(done, rec, target@);
                        done = done.push(rec);
                    }
                    position = next;
                },
            }
        }
    }

    /// Decodes exactly the record starting at `position`.
    pub fn get_at(&mut self, position: u64) -> (r: Result<KeyValuePair, StoreError>)
        ensures
            *final(self) == *old(self),
            match parse_at(old(self)@.log, position as int) {
                None => r == Err::<KeyValuePair, StoreError>(StoreError::Truncated),
                Some(rec) => if rec_ok(rec) {
                    &&& r matches Ok(kv)
                    &&& kv.key@ == rec.key
                    &&& kv.value@ == rec.value
                } else {
                    r == Err::<KeyValuePair, StoreError>(
                        StoreError::Corruption { stored: rec.stored, computed: rec_computed(rec) },
                    )
                },
            },
    {
        if position >= self.log.len() as u64 {
            return Err(StoreError::Truncated);
        }
        match decode_next(&self.log, position as usize) {
            DecodeNext::Record { kv, next: _ } => Ok(kv),
            DecodeNext::EndOfLog => Err(StoreError::Truncated),
            DecodeNext::Corruption { stored, computed } => Err(
                StoreError::Corruption { stored, computed },
            ),
        }
    }

    /// Looks the key up in the index; absent keys are not an error. For a
    /// present key, decodes the record at the indexed offset and returns its
    /// value; the record's key is trusted to match the index entry.
    pub fn get(&mut self, key: &[u8]) -> (r: Result<Option<Vec<u8>>, StoreError>)
        ensures
            *final(self) == *old(self),
            !old(self)@.index.contains_key(key@) ==> r == Ok::<Option<Vec<u8>>, StoreError>(
                None,
            ),
            old(self)@.index.contains_key(key@) ==> match parse_at(
                old(self)@.log,
                old(self)@.index[key@] as int,
            ) {
                None => r == Err::<Option<Vec<u8>>, StoreError>(StoreError::Truncated),
                Some(rec) => if rec_ok(rec) {
                    &&& r matches Ok(v)
                    &&& v matches Some(value)
                    &&& value@ == rec.value
                } else {
                    r == Err::<Option<Vec<u8>>, StoreError>(
                        StoreError::Corruption { stored: rec.stored, computed: rec_computed(rec) },
                    )
                },
            },
    {
        let position = match self.index.get(key) {
            None => {
                return Ok(None);
            },
            Some(position) => position,
        };
        match self.get_at(position) {
            Ok(kv) => Ok(Some(kv.value)),
            Err(e) => Err(e),
        }
    }
}

} // verus!
