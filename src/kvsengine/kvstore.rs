//! The store: segments held as byte images, and an index from keys to the
//! frames that hold their latest records.
use crate::errors::KvsError;
use crate::frame::{
    append_frame, copy_range, frame_of, lemma_prefix_round_trip, lemma_read_appended, lemma_read_prefix_stable,
    overwrite_prefix, prefix_at, read_frame, read_prefix, signed_of, MAX_LIVE_LEN,
};
use crate::keyorder::{key_less, key_lt, lemma_key_lt_irreflexive, lemma_key_lt_total, lemma_key_lt_trans};
use crate::kvsengine::KvsEngine;
use vstd::bytes::*;
use vstd::prelude::*;

verus! {

/// The size past which the active segment is sealed and a new one opened.
pub const MAX_SIZE_THRESHOLD: u64 = 280;

/// A key and its value.
pub struct KvRecord {
    pub key: String,
    pub value: String,
}

impl KvRecord {
    pub fn new(key: String, value: String) -> (r: KvRecord)
        ensures
            r.key == key,
            r.value == value,
    {
        KvRecord { key, value }
    }
}

/// Where the latest record of a key lies: its segment, the offset of its
/// frame, and the payload length.
pub struct KvIndex {
    pub key: String,
    pub file_number: u64,
    pub record_offset: u64,
    pub record_length: u64,
}

impl KvIndex {
    pub fn new(key: String, file_number: u64, record_offset: u64, record_length: u64) -> (r: KvIndex)
        ensures
            r.key == key,
            r.file_number == file_number,
            r.record_offset == record_offset,
            r.record_length == record_length,
    {
        KvIndex { key, file_number, record_offset, record_length }
    }

    pub fn copy(&self) -> (r: KvIndex)
        ensures
            r == *self,
    {
        KvIndex {
            key: self.key.clone(),
            file_number: self.file_number,
            record_offset: self.record_offset,
            record_length: self.record_length,
        }
    }
}

/// A segment: its id and the bytes of its file.
pub struct Segment {
    pub id: u64,
    pub data: Vec<u8>,
}

impl Segment {
    pub fn new(id: u64, data: Vec<u8>) -> (r: Segment)
        ensures
            r.id == id,
            r.data == data,
    {
        Segment { id, data }
    }

    pub fn copy(&self) -> (r: Segment)
        ensures
            r.id == self.id,
            r.data@ == self.data@,
    {
        Segment { id: self.id, data: copy_range(self.data.as_slice(), 0, self.data.len()) }
    }
}

/// Some segment of `s` has id `id`.
pub open spec fn seg_in(s: Seq<Segment>, id: u64) -> bool {
    exists|i: int| 0 <= i < s.len() && #[trigger] s[i].id == id
}

/// The bytes of the segment of `s` with id `id`.
pub open spec fn seg_of(s: Seq<Segment>, id: u64) -> Seq<u8> {
    s[choose|i: int| 0 <= i < s.len() && #[trigger] s[i].id == id].data@
}

/// Every segment of `s` has a length that a `usize` holds.
pub open spec fn segs_fit(s: Seq<Segment>) -> bool {
    forall|i: int| 0 <= i < s.len() ==> (#[trigger] s[i]).data@.len() <= usize::MAX
}

pub proof fn lemma_fit_update(s: Seq<Segment>, i: int, t: Segment)
    requires
        segs_fit(s),
        0 <= i < s.len(),
        t.data@.len() <= usize::MAX,
    ensures
        segs_fit(s.update(i, t)),
{
    assert forall|j: int| 0 <= j < s.len() implies (#[trigger] s.update(i, t)[j]).data@.len() <= usize::MAX by {
        if j != i {
            assert(s.update(i, t)[j] == s[j]);
        }
    }
}

pub proof fn lemma_fit_push(s: Seq<Segment>, t: Segment)
    requires
        segs_fit(s),
        t.data@.len() <= usize::MAX,
    ensures
        segs_fit(s.push(t)),
{
    assert forall|j: int| 0 <= j < s.len() + 1 implies (#[trigger] s.push(t)[j]).data@.len() <= usize::MAX by {
        if j < s.len() {
            assert(s.push(t)[j] == s[j]);
        }
    }
}

/// No two segments of `s` share an id.
pub open spec fn ids_unique(s: Seq<Segment>) -> bool {
    forall|i: int, j: int|
        0 <= i < s.len() && 0 <= j < s.len() && #[trigger] s[i].id == #[trigger] s[j].id ==> i == j
}

/// Some entry of `s` is for key `k`.
pub open spec fn key_in(s: Seq<KvIndex>, k: Seq<char>) -> bool {
    exists|i: int| 0 <= i < s.len() && #[trigger] s[i].key@ == k
}

/// The entry of `s` for key `k`.
pub open spec fn entry_of(s: Seq<KvIndex>, k: Seq<char>) -> KvIndex {
    s[choose|i: int| 0 <= i < s.len() && #[trigger] s[i].key@ == k]
}

/// No two entries of `s` share a key.
pub open spec fn keys_unique(s: Seq<KvIndex>) -> bool {
    forall|i: int, j: int|
        0 <= i < s.len() && 0 <= j < s.len() && #[trigger] s[i].key@ == #[trigger] s[j].key@ ==> i == j
}

pub proof fn lemma_seg_at(s: Seq<Segment>, i: int)
    requires
        ids_unique(s),
        0 <= i < s.len(),
    ensures
        seg_in(s, s[i].id),
        seg_of(s, s[i].id) == s[i].data@,
{
    assert(s[i].id == s[i].id);
}

pub proof fn lemma_entry_at(s: Seq<KvIndex>, i: int)
    requires
        keys_unique(s),
        0 <= i < s.len(),
    ensures
        key_in(s, s[i].key@),
        entry_of(s, s[i].key@) == s[i],
{
    assert(s[i].key@ == s[i].key@);
}

pub proof fn lemma_segs_update(s: Seq<Segment>, i: int, t: Segment)
    requires
        ids_unique(s),
        0 <= i < s.len(),
        t.id == s[i].id,
    ensures
        ids_unique(s.update(i, t)),
        forall|id: u64| seg_in(s.update(i, t), id) == seg_in(s, id),
        forall|id: u64| id != t.id && seg_in(s, id) ==> seg_of(s.update(i, t), id) == seg_of(s, id),
        seg_of(s.update(i, t), t.id) == t.data@,
        forall|j: int| 0 <= j < s.len() ==> #[trigger] s.update(i, t)[j].id == s[j].id,
{
    let u = s.update(i, t);
    assert forall|j: int| 0 <= j < s.len() implies #[trigger] u[j].id == s[j].id by {}
    assert(ids_unique(u));
    assert forall|id: u64| seg_in(u, id) == seg_in(s, id) by {
        if seg_in(s, id) {
            let j = choose|j: int| 0 <= j < s.len() && #[trigger] s[j].id == id;
            assert(u[j].id == id);
        }
        if seg_in(u, id) {
            let j = choose|j: int| 0 <= j < u.len() && #[trigger] u[j].id == id;
            assert(s[j].id == id);
        }
    }
    assert forall|id: u64| id != t.id && seg_in(s, id) implies seg_of(u, id) == seg_of(s, id) by {
        let j = choose|j: int| 0 <= j < s.len() && #[trigger] s[j].id == id;
        lemma_seg_at(s, j);
        lemma_seg_at(u, j);
    }
    lemma_seg_at(u, i);
}

pub proof fn lemma_segs_push(s: Seq<Segment>, t: Segment)
    requires
        ids_unique(s),
        !seg_in(s, t.id),
    ensures
        ids_unique(s.push(t)),
        forall|id: u64| seg_in(s.push(t), id) == (seg_in(s, id) || id == t.id),
        forall|id: u64| seg_in(s, id) ==> seg_of(s.push(t), id) == seg_of(s, id),
        seg_of(s.push(t), t.id) == t.data@,
{
    let u = s.push(t);
    assert forall|a: int, b: int|
        0 <= a < u.len() && 0 <= b < u.len() && #[trigger] u[a].id == #[trigger] u[b].id implies a == b by {
        if a < s.len() && b < s.len() {
            assert(s[a].id == s[b].id);
        } else if a < s.len() {
            assert(s[a].id == t.id);
        } else if b < s.len() {
            assert(s[b].id == t.id);
        }
    }
    assert forall|id: u64| seg_in(u, id) == (seg_in(s, id) || id == t.id) by {
        if seg_in(s, id) {
            let j = choose|j: int| 0 <= j < s.len() && #[trigger] s[j].id == id;
            assert(u[j].id == id);
        }
        if id == t.id {
            assert(u[s.len() as int].id == id);
        }
        if seg_in(u, id) && id != t.id {
            let j = choose|j: int| 0 <= j < u.len() && #[trigger] u[j].id == id;
            assert(s[j].id == id);
        }
    }
    assert forall|id: u64| seg_in(s, id) implies seg_of(u, id) == seg_of(s, id) by {
        let j = choose|j: int| 0 <= j < s.len() && #[trigger] s[j].id == id;
        lemma_seg_at(s, j);
        lemma_seg_at(u, j);
    }
    lemma_seg_at(u, s.len() as int);
}

pub proof fn lemma_entries_update(s: Seq<KvIndex>, i: int, e: KvIndex)
    requires
        keys_unique(s),
        0 <= i < s.len(),
        e.key@ == s[i].key@,
    ensures
        keys_unique(s.update(i, e)),
        forall|k: Seq<char>| key_in(s.update(i, e), k) == key_in(s, k),
        forall|k: Seq<char>| k != e.key@ && key_in(s, k) ==> entry_of(s.update(i, e), k) == entry_of(s, k),
        entry_of(s.update(i, e), e.key@) == e,
{
    let u = s.update(i, e);
    assert forall|a: int, b: int|
        0 <= a < u.len() && 0 <= b < u.len() && #[trigger] u[a].key@ == #[trigger] u[b].key@ implies a == b by {
        assert(u[a].key@ == s[a].key@);
        assert(u[b].key@ == s[b].key@);
    }
    assert forall|k: Seq<char>| key_in(u, k) == key_in(s, k) by {
        if key_in(s, k) {
            let j = choose|j: int| 0 <= j < s.len() && #[trigger] s[j].key@ == k;
            assert(u[j].key@ == s[j].key@);
        }
        if key_in(u, k) {
            let j = choose|j: int| 0 <= j < u.len() && #[trigger] u[j].key@ == k;
            assert(u[j].key@ == s[j].key@);
        }
    }
    assert forall|k: Seq<char>| k != e.key@ && key_in(s, k) implies entry_of(u, k) == entry_of(s, k) by {
        let j = choose|j: int| 0 <= j < s.len() && #[trigger] s[j].key@ == k;
        lemma_entry_at(s, j);
        lemma_entry_at(u, j);
    }
    lemma_entry_at(u, i);
}

pub proof fn lemma_entries_push(s: Seq<KvIndex>, e: KvIndex)
    requires
        keys_unique(s),
        !key_in(s, e.key@),
    ensures
        keys_unique(s.push(e)),
        forall|k: Seq<char>| key_in(s.push(e), k) == (key_in(s, k) || k == e.key@),
        forall|k: Seq<char>| key_in(s, k) ==> entry_of(s.push(e), k) == entry_of(s, k),
        entry_of(s.push(e), e.key@) == e,
{
    let u = s.push(e);
    assert forall|a: int, b: int|
        0 <= a < u.len() && 0 <= b < u.len() && #[trigger] u[a].key@ == #[trigger] u[b].key@ implies a == b by {
        if a < s.len() && b < s.len() {
            assert(s[a].key@ == s[b].key@);
        } else if a < s.len() {
            assert(s[a].key@ == e.key@);
        } else if b < s.len() {
            assert(s[b].key@ == e.key@);
        }
    }
    assert forall|k: Seq<char>| key_in(u, k) == (key_in(s, k) || k == e.key@) by {
        if key_in(s, k) {
            let j = choose|j: int| 0 <= j < s.len() && #[trigger] s[j].key@ == k;
            assert(u[j].key@ == k);
        }
        if k == e.key@ {
            assert(u[s.len() as int].key@ == k);
        }
        if key_in(u, k) && k != e.key@ {
            let j = choose|j: int| 0 <= j < u.len() && #[trigger] u[j].key@ == k;
            assert(s[j].key@ == k);
        }
    }
    assert forall|k: Seq<char>| key_in(s, k) implies entry_of(u, k) == entry_of(s, k) by {
        let j = choose|j: int| 0 <= j < s.len() && #[trigger] s[j].key@ == k;
        lemma_entry_at(s, j);
        lemma_entry_at(u, j);
    }
    lemma_entry_at(u, s.len() as int);
}

/// The entries of `s` are in ascending key order.
pub open spec fn keys_sorted(s: Seq<KvIndex>) -> bool {
    forall|i: int, j: int| 0 <= i < j < s.len() ==> key_lt(#[trigger] s[i].key@, #[trigger] s[j].key@)
}

pub proof fn lemma_entries_insert(s: Seq<KvIndex>, p: int, e: KvIndex)
    requires
        keys_unique(s),
        !key_in(s, e.key@),
        0 <= p <= s.len(),
    ensures
        keys_unique(s.insert(p, e)),
        forall|k: Seq<char>| key_in(s.insert(p, e), k) == (key_in(s, k) || k == e.key@),
        forall|k: Seq<char>| key_in(s, k) ==> entry_of(s.insert(p, e), k) == entry_of(s, k),
        entry_of(s.insert(p, e), e.key@) == e,
{
    let u = s.insert(p, e);
    assert forall|j: int| 0 <= j < u.len() implies #[trigger] u[j] == if j < p { s[j] } else if j == p { e } else { s[j - 1] } by {}
    assert forall|a: int, b: int|
        0 <= a < u.len() && 0 <= b < u.len() && #[trigger] u[a].key@ == #[trigger] u[b].key@ implies a == b by {
        let sa = if a < p { a } else { a - 1 };
        let sb = if b < p { b } else { b - 1 };
        if a != p && b != p {
            assert(s[sa].key@ == s[sb].key@);
        } else if a != p {
            assert(s[sa].key@ == e.key@);
        } else if b != p {
            assert(s[sb].key@ == e.key@);
        }
    }
    assert forall|k: Seq<char>| key_in(u, k) == (key_in(s, k) || k == e.key@) by {
        if key_in(s, k) {
            let j = choose|j: int| 0 <= j < s.len() && #[trigger] s[j].key@ == k;
            let t = if j < p { j } else { j + 1 };
            assert(u[t].key@ == k);
        }
        if k == e.key@ {
            assert(u[p].key@ == k);
        }
        if key_in(u, k) && k != e.key@ {
            let j = choose|j: int| 0 <= j < u.len() && #[trigger] u[j].key@ == k;
            let t = if j < p { j } else { j - 1 };
            assert(s[t].key@ == k);
        }
    }
    assert forall|k: Seq<char>| key_in(s, k) implies entry_of(u, k) == entry_of(s, k) by {
        let j = choose|j: int| 0 <= j < s.len() && #[trigger] s[j].key@ == k;
        let t = if j < p { j } else { j + 1 };
        lemma_entry_at(s, j);
        assert(u[t] == s[j]);
        lemma_entry_at(u, t);
    }
    lemma_entry_at(u, p);
}

/// Puts `e` into the index `v`, in key order, in place of any entry for the
/// same key.
fn upsert_entry(v: &mut Vec<KvIndex>, e: KvIndex)
    requires
        keys_unique(old(v)@),
        keys_sorted(old(v)@),
    ensures
        keys_unique(final(v)@),
        keys_sorted(final(v)@),
        forall|k: Seq<char>| key_in(final(v)@, k) == (key_in(old(v)@, k) || k == e.key@),
        forall|k: Seq<char>| k != e.key@ && key_in(old(v)@, k) ==> entry_of(final(v)@, k) == entry_of(old(v)@, k),
        entry_of(final(v)@, e.key@) == e,
        final(v)@.len() == old(v)@.len() + if key_in(old(v)@, e.key@) {
            0int
        } else {
            1int
        },
{
    let ghost s = v@;
    let mut p: usize = 0;
    while p < v.len() && key_less(&v[p].key, &e.key)
        invariant
            v@ == s,
            0 <= p <= s.len(),
            forall|j: int| 0 <= j < p ==> key_lt(#[trigger] s[j].key@, e.key@),
        decreases s.len() - p,
    {
        p = p + 1;
    }
    if p < v.len() && v[p].key == e.key {
        proof {
            assert(s[p as int].key@ == e.key@);
            assert(key_in(s, e.key@));
            lemma_entries_update(s, p as int, e);
            assert forall|i: int, j: int| 0 <= i < j < s.len() implies key_lt(
                #[trigger] s.update(p as int, e)[i].key@,
                #[trigger] s.update(p as int, e)[j].key@,
            ) by {
                assert(s[i].key@ == s.update(p as int, e)[i].key@);
                assert(s[j].key@ == s.update(p as int, e)[j].key@);
            }
        }
        v.set(p, e);
    } else {
        proof {
            if p < s.len() {
                lemma_key_lt_total(s[p as int].key@, e.key@);
            }
            assert forall|j: int| p <= j < s.len() implies key_lt(e.key@, #[trigger] s[j].key@) by {
                if j > p {
                    lemma_key_lt_trans(e.key@, s[p as int].key@, s[j].key@);
                }
            }
            if key_in(s, e.key@) {
                let j = choose|j: int| 0 <= j < s.len() && #[trigger] s[j].key@ == e.key@;
                lemma_key_lt_irreflexive(e.key@);
                assert(j < p || j >= p);
            }
            lemma_entries_insert(s, p as int, e);
            let u = s.insert(p as int, e);
            assert forall|i: int, j: int| 0 <= i < j < u.len() implies key_lt(#[trigger] u[i].key@, #[trigger] u[j].key@) by {
                let si = if i < p { i } else { i - 1 };
                let sj = if j < p { j } else { j - 1 };
                if i != p && j != p {
                    assert(u[i] == s[si] && u[j] == s[sj]);
                } else if i == p {
                    assert(u[j] == s[sj]);
                } else {
                    assert(u[i] == s[si]);
                }
            }
        }
        v.insert(p, e);
    }
}

/// A frame read as the result of a lookup: a frame that does not fit is an
/// error.
pub open spec fn frame_result(f: Option<Option<Seq<u8>>>) -> Result<Option<Seq<u8>>, KvsError> {
    match f {
        None => Err(KvsError::NoValueOfSize),
        Some(r) => Ok(r),
    }
}

/// A lookup result with its bytes viewed as a sequence.
pub open spec fn bytes_result(r: Result<Option<Vec<u8>>, KvsError>) -> Result<Option<Seq<u8>>, KvsError> {
    match r {
        Ok(Some(v)) => Ok(Some(v@)),
        Ok(None) => Ok(None),
        Err(e) => Err(e),
    }
}

/// What reading the frame that `e` points at in `segs` gives.
pub open spec fn entry_read(segs: Seq<Segment>, e: KvIndex) -> Result<Option<Seq<u8>>, KvsError> {
    if !seg_in(segs, e.file_number) {
        Err(KvsError::OtherError)
    } else {
        frame_result(read_frame(seg_of(segs, e.file_number), e.record_offset as int))
    }
}

/// Reads the frame at `off` in `s`.
pub fn read_at(s: &Vec<u8>, off: u64) -> (r: Result<Option<Vec<u8>>, KvsError>)
    ensures
        bytes_result(r) == frame_result(read_frame(s@, off as int)),
{
    let n: usize = s.len();
    if off > n as u64 || (n as u64 - off) < 8 {
        return Err(KvsError::NoValueOfSize);
    }
    let o: usize = off as usize;
    let u: u64 = read_prefix(s.as_slice(), o);
    if u == 0 || u > MAX_LIVE_LEN {
        return Ok(None);
    }
    if u > (n - o - 8) as u64 {
        return Err(KvsError::NoValueOfSize);
    }
    let l: usize = u as usize;
    Ok(Some(copy_range(s.as_slice(), o + 8, o + 8 + l)))
}

/// The store. Every segment id is at most the active one, which is present.
pub struct KvStore {
    active_file_number: u64,
    threshold: u64,
    segments: Vec<Segment>,
    index_map: Vec<KvIndex>,
}

/// Whether `set` refuses a payload of `n` bytes: it is empty (a frame of
/// length 0 reads as dead), it cannot be framed, the active segment could
/// not hold it, or no id is left for the next segment.
pub open spec fn set_refused(a: KvStore, n: int) -> bool {
    let pos = seg_of(a.segs(), a.active()).len();
    ||| n == 0
    ||| n > MAX_LIVE_LEN
    ||| pos + 8 + n > usize::MAX
    ||| (pos + n > a.threshold() && a.active() == u64::MAX)
}

/// How `set(k, v)` takes store `a` to store `b`: the frame of `v` is
/// appended to the active segment, `k` points at it, and the active segment
/// is sealed once it has grown past the threshold.
pub open spec fn set_post(a: KvStore, b: KvStore, k: Seq<char>, v: Seq<u8>) -> bool {
    let pos = seg_of(a.segs(), a.active()).len();
    let e = entry_of(b.entries(), k);
    &&& 0 < v.len() <= MAX_LIVE_LEN
    &&& b.entries().len() == a.entries().len() + if key_in(a.entries(), k) {
        0int
    } else {
        1int
    }
    &&& key_in(b.entries(), k)
    &&& e.key@ == k
    &&& e.file_number == a.active()
    &&& e.record_offset == pos
    &&& e.record_length == v.len()
    &&& forall|k2: Seq<char>| k2 != k ==> key_in(b.entries(), k2) == key_in(a.entries(), k2)
    &&& forall|k2: Seq<char>| k2 != k && key_in(a.entries(), k2) ==> entry_of(b.entries(), k2) == entry_of(a.entries(), k2)
    &&& seg_in(b.segs(), a.active())
    &&& seg_of(b.segs(), a.active()) == seg_of(a.segs(), a.active()) + frame_of(v)
    &&& forall|id: u64| id != a.active() && seg_in(a.segs(), id) ==> seg_in(b.segs(), id) && seg_of(b.segs(), id) == seg_of(a.segs(), id)
    &&& forall|id: u64| seg_in(b.segs(), id) ==> seg_in(a.segs(), id) || id == b.active()
    &&& if pos + v.len() > a.threshold() {
        &&& b.active() == a.active() + 1
        &&& seg_in(b.segs(), b.active())
        &&& seg_of(b.segs(), b.active()) == Seq::<u8>::empty()
    } else {
        b.active() == a.active()
    }
    &&& b.threshold() == a.threshold()
}

/// The prefix that marks a live payload of `u` bytes as dead: `-u` as a
/// signed integer.
pub open spec fn negated(u: u64) -> u64 {
    (0x1_0000_0000_0000_0000 - u) as u64
}

/// `d` with the prefix at `off` replaced by its negation.
pub open spec fn tombstoned(d: Seq<u8>, off: int) -> Seq<u8> {
    d.subrange(0, off) + spec_u64_to_le_bytes(negated(prefix_at(d, off))) + d.subrange(off + 8, d.len() as int)
}

/// How `remove(k)` takes store `a` to store `b` with result `r`: the
/// prefix of the frame that `k` points at is negated in place if it was
/// positive; the index is left as it was.
pub open spec fn remove_post(a: KvStore, b: KvStore, k: Seq<char>, r: Result<(), KvsError>) -> bool {
    if k.len() == 0 || !key_in(a.entries(), k) {
        r == Ok::<(), KvsError>(()) && b == a
    } else {
        let e = entry_of(a.entries(), k);
        let f = e.file_number;
        let off = e.record_offset as int;
        if !seg_in(a.segs(), f) {
            r == Err::<(), KvsError>(KvsError::OtherError) && b == a
        } else if off + 8 > seg_of(a.segs(), f).len() {
            r == Err::<(), KvsError>(KvsError::NoValueOfSize) && b == a
        } else {
            let d = seg_of(a.segs(), f);
            &&& r == Ok::<(), KvsError>(())
            &&& b.entries() == a.entries()
            &&& b.active() == a.active()
            &&& b.threshold() == a.threshold()
            &&& forall|id: u64| seg_in(b.segs(), id) == seg_in(a.segs(), id)
            &&& forall|id: u64| id != f && seg_in(a.segs(), id) ==> seg_of(b.segs(), id) == seg_of(a.segs(), id)
            &&& seg_of(b.segs(), f) == if signed_of(prefix_at(d, off)) > 0 { tombstoned(d, off) } else { d }
        }
    }
}

/// `s[j]` is the last entry of `s` for key `k`.
pub open spec fn last_at(s: Seq<KvIndex>, j: int, k: Seq<char>) -> bool {
    &&& 0 <= j < s.len()
    &&& s[j].key@ == k
    &&& forall|m: int| j < m < s.len() ==> #[trigger] s[m].key@ != k
}

/// The index that replaying `s` in order builds: each key present in `s`
/// points where its last entry there points.
pub open spec fn replays(out: Seq<KvIndex>, s: Seq<KvIndex>) -> bool {
    &&& keys_unique(out)
    &&& forall|k: Seq<char>| key_in(out, k) == key_in(s, k)
    &&& forall|k: Seq<char>| key_in(s, k) ==> exists|j: int| last_at(s, j, k) && entry_of(out, k) == s[j]
}

/// How `open` builds store `r` from the segments and the index entries it
/// is given: the highest id becomes active (0 when there is none, which is
/// then created empty), the segments are kept as they are, and the index
/// is the replay of the entries.
pub open spec fn open_post(segments: Seq<Segment>, entries: Seq<KvIndex>, threshold: u64, r: KvStore) -> bool {
    &&& r.threshold() == threshold
    &&& replays(r.entries(), entries)
    &&& forall|i: int| 0 <= i < segments.len() ==> #[trigger] segments[i].id <= r.active()
    &&& segments.len() > 0 ==> seg_in(segments, r.active())
    &&& segments.len() == 0 ==> r.active() == 0 && seg_of(r.segs(), 0) == Seq::<u8>::empty()
    &&& forall|id: u64| seg_in(r.segs(), id) == (seg_in(segments, id) || id == r.active())
    &&& forall|id: u64| seg_in(segments, id) ==> seg_of(r.segs(), id) == seg_of(segments, id)
}

proof fn lemma_replay_step(s: Seq<KvIndex>, k: int, before: Seq<KvIndex>, out: Seq<KvIndex>)
    requires
        0 <= k < s.len(),
        replays(before, s.subrange(0, k)),
        keys_unique(out),
        forall|q: Seq<char>| key_in(out, q) == (key_in(before, q) || q == s[k].key@),
        forall|q: Seq<char>| q != s[k].key@ && key_in(before, q) ==> entry_of(out, q) == entry_of(before, q),
        entry_of(out, s[k].key@) == s[k],
    ensures
        replays(out, s.subrange(0, k + 1)),
{
    let pre = s.subrange(0, k);
    let post = s.subrange(0, k + 1);
    let ke = s[k].key@;
    assert(post[k] == s[k]);
    assert forall|q: Seq<char>| key_in(out, q) == key_in(post, q) by {
        if key_in(pre, q) {
            let j = choose|j: int| 0 <= j < pre.len() && #[trigger] pre[j].key@ == q;
            assert(post[j].key@ == q);
        }
        if q == ke {
            assert(post[k].key@ == q);
        }
        if key_in(post, q) && q != ke {
            let j = choose|j: int| 0 <= j < post.len() && #[trigger] post[j].key@ == q;
            assert(pre[j].key@ == q);
        }
    }
    assert forall|q: Seq<char>| key_in(post, q) implies exists|j: int|
        last_at(post, j, q) && entry_of(out, q) == post[j] by {
        if q == ke {
            assert(last_at(post, k, q));
        } else {
            assert(key_in(pre, q));
            let j = choose|j: int| last_at(pre, j, q) && entry_of(before, q) == pre[j];
            assert(last_at(post, j, q));
        }
    }
}

/// The bytes that the frames of the entries of `s` pointing into segment
/// `id` take up.
pub open spec fn live_bytes(s: Seq<KvIndex>, id: u64) -> int
    decreases s.len(),
{
    if s.len() == 0 {
        0
    } else {
        live_bytes(s.drop_last(), id) + if s.last().file_number == id {
            8 + s.last().record_length
        } else {
            0int
        }
    }
}

/// The size of the live frame that `e` points at in `segs`; 0 where it
/// points at no live frame.
pub open spec fn live_len(segs: Seq<Segment>, e: KvIndex) -> int {
    match entry_read(segs, e) {
        Ok(Some(p)) => 8 + p.len() as int,
        _ => 0,
    }
}

/// The bytes that the live frames pointed at by the entries of `s` take up
/// in segment `id` of `segs`.
pub open spec fn pointed_bytes(s: Seq<KvIndex>, segs: Seq<Segment>, id: u64) -> int
    decreases s.len(),
{
    if s.len() == 0 {
        0
    } else {
        pointed_bytes(s.drop_last(), segs, id) + if s.last().file_number == id {
            live_len(segs, s.last())
        } else {
            0int
        }
    }
}

/// No two entries of `s` point at overlapping live frames of `segs`.
pub open spec fn disjoint_in(s: Seq<KvIndex>, segs: Seq<Segment>) -> bool {
    forall|i: int, j: int|
        0 <= i < s.len() && 0 <= j < s.len() && i != j && (#[trigger] s[i]).file_number == (#[trigger] s[j]).file_number
            && live_len(segs, s[i]) > 0 && live_len(segs, s[j]) > 0 ==> {
            ||| s[i].record_offset + live_len(segs, s[i]) <= s[j].record_offset
            ||| s[j].record_offset + live_len(segs, s[j]) <= s[i].record_offset
        }
}

/// No two index entries of `a` point at overlapping live frames.
pub open spec fn frames_disjoint(a: KvStore) -> bool {
    disjoint_in(a.entries(), a.segs())
}

/// The live payload that `e` points at in `segs`, if any.
pub open spec fn live_payload(segs: Seq<Segment>, e: KvIndex) -> Option<Seq<u8>> {
    match entry_read(segs, e) {
        Ok(Some(p)) => Some(p),
        _ => None,
    }
}

/// The frames of the live payloads that the entries of `s` point at in
/// segment `id` of `segs`, one after the other in the order of `s`: what
/// compaction rewrites that segment to.
pub open spec fn live_frames(s: Seq<KvIndex>, segs: Seq<Segment>, id: u64) -> Seq<u8>
    decreases s.len(),
{
    if s.len() == 0 {
        Seq::empty()
    } else {
        live_frames(s.drop_last(), segs, id) + match live_payload(segs, s.last()) {
            Some(p) => if s.last().file_number == id {
                frame_of(p)
            } else {
                Seq::empty()
            },
            None => Seq::empty(),
        }
    }
}

/// The index that compaction builds from `s`, in the order of `s`: entries
/// of the active segment as they are, each entry of a sealed segment with a
/// live frame pointed at its copy, entries with a dead frame left out.
pub open spec fn kept(s: Seq<KvIndex>, segs: Seq<Segment>, active: u64) -> Seq<KvIndex>
    decreases s.len(),
{
    if s.len() == 0 {
        Seq::empty()
    } else {
        let e = s.last();
        let rest = kept(s.drop_last(), segs, active);
        if e.file_number == active {
            rest.push(e)
        } else {
            match live_payload(segs, e) {
                Some(p) => rest.push(
                    KvIndex {
                        key: e.key,
                        file_number: e.file_number,
                        record_offset: live_frames(s.drop_last(), segs, e.file_number).len() as u64,
                        record_length: p.len() as u64,
                    },
                ),
                None => rest,
            }
        }
    }
}

/// Whether compaction meets an entry of a sealed segment whose frame cannot
/// be read.
pub open spec fn compaction_blocked(a: KvStore) -> bool {
    exists|j: int|
        0 <= j < a.entries().len() && (#[trigger] a.entries()[j]).file_number != a.active() && entry_read(
            a.segs(),
            a.entries()[j],
        ) is Err
}

/// How a successful compaction takes store `a` to store `b`: the same
/// segments and active segment, and every key answers as before.
pub open spec fn compact_post(a: KvStore, b: KvStore) -> bool {
    &&& b.active() == a.active()
    &&& b.threshold() == a.threshold()
    &&& forall|id: u64| seg_in(b.segs(), id) == seg_in(a.segs(), id)
    &&& seg_of(b.segs(), a.active()) == seg_of(a.segs(), a.active())
    &&& forall|k: Seq<char>| key_in(b.entries(), k) ==> key_in(a.entries(), k)
    &&& forall|k: Seq<char>| b.lookup(k) == a.lookup(k)
    &&& forall|id: u64| id != b.active() && seg_in(b.segs(), id) ==> seg_of(b.segs(), id).len() == live_bytes(b.entries(), id)
    &&& forall|id: u64| id != b.active() ==> live_bytes(b.entries(), id) == pointed_bytes(a.entries(), a.segs(), id)
    &&& forall|id: u64| id != b.active() && seg_in(b.segs(), id) ==> seg_of(b.segs(), id) == live_frames(a.entries(), a.segs(), id)
    &&& compacted_upto(a.segs(), a.entries(), a.active(), a.entries().len() as int, b.segs(), b.entries())
    &&& b.entries() == kept(a.entries(), a.segs(), a.active())
}

/// The state of a compaction after the first `i` entries of `old_entries`:
/// entries of the active segment are carried over, live frames of sealed
/// segments are copied into `segs`, dead ones are dropped.
pub open spec fn compacted_upto(
    old_segs: Seq<Segment>,
    old_entries: Seq<KvIndex>,
    active: u64,
    i: int,
    segs: Seq<Segment>,
    entries: Seq<KvIndex>,
) -> bool {
    &&& keys_unique(entries)
    &&& forall|k: Seq<char>| key_in(entries, k) ==> key_in(old_entries.subrange(0, i), k)
    &&& forall|j: int|
        0 <= j < i ==> {
            let e = #[trigger] old_entries[j];
            &&& e.file_number == active ==> key_in(entries, e.key@) && entry_of(entries, e.key@) == e
            &&& e.file_number != active ==> entry_read(old_segs, e) is Ok
            &&& e.file_number != active && entry_read(old_segs, e) == Ok::<Option<Seq<u8>>, KvsError>(None)
                ==> !key_in(entries, e.key@)
            &&& e.file_number != active && entry_read(old_segs, e) != Ok::<Option<Seq<u8>>, KvsError>(None)
                ==> key_in(entries, e.key@) && entry_of(entries, e.key@).file_number == e.file_number
                && entry_read(segs, entry_of(entries, e.key@)) == entry_read(old_segs, e)
            &&& e.file_number != active && live_payload(old_segs, e) is Some ==> {
                &&& entry_of(entries, e.key@).record_length == live_payload(old_segs, e)->Some_0.len()
                &&& entry_of(entries, e.key@).record_offset == live_frames(
                    old_entries.subrange(0, j),
                    old_segs,
                    e.file_number,
                ).len()
            }
        }
}

impl KvStore {
    pub closed spec fn active(self) -> u64 {
        self.active_file_number
    }

    pub closed spec fn threshold(self) -> u64 {
        self.threshold
    }

    pub closed spec fn segs(self) -> Seq<Segment> {
        self.segments@
    }

    pub closed spec fn entries(self) -> Seq<KvIndex> {
        self.index_map@
    }

    pub open spec fn wf(self) -> bool {
        &&& ids_unique(self.segs())
        &&& keys_unique(self.entries())
        &&& keys_sorted(self.entries())
        &&& seg_in(self.segs(), self.active())
        &&& forall|i: int| 0 <= i < self.segs().len() ==> #[trigger] self.segs()[i].id <= self.active()
        &&& segs_fit(self.segs())
    }

    /// What `get` answers for `k`.
    pub open spec fn lookup(self, k: Seq<char>) -> Result<Option<Seq<u8>>, KvsError> {
        if k.len() == 0 || !key_in(self.entries(), k) {
            Ok(None)
        } else {
            entry_read(self.segs(), entry_of(self.entries(), k))
        }
    }

    fn find_segment(&self, id: u64) -> (r: Option<usize>)
        requires
            ids_unique(self.segs()),
        ensures
            match r {
                Some(i) => i < self.segs().len() && self.segs()[i as int].id == id && seg_in(self.segs(), id)
                    && seg_of(self.segs(), id) == self.segs()[i as int].data@,
                None => !seg_in(self.segs(), id),
            },
    {
        let mut i: usize = 0;
        while i < self.segments.len()
            invariant
                0 <= i <= self.segments@.len(),
                ids_unique(self.segs()),
                forall|j: int| 0 <= j < i ==> self.segments@[j].id != id,
            decreases self.segments@.len() - i,
        {
            if self.segments[i].id == id {
                proof {
                    lemma_seg_at(self.segments@, i as int);
                }
                return Some(i);
            }
            i = i + 1;
        }
        None
    }

    fn find_entry(&self, key: &String) -> (r: Option<usize>)
        requires
            keys_unique(self.entries()),
        ensures
            match r {
                Some(i) => i < self.entries().len() && self.entries()[i as int].key@ == key@
                    && key_in(self.entries(), key@) && entry_of(self.entries(), key@) == self.entries()[i as int],
                None => !key_in(self.entries(), key@),
            },
    {
        let mut i: usize = 0;
        while i < self.index_map.len()
            invariant
                0 <= i <= self.index_map@.len(),
                keys_unique(self.entries()),
                forall|j: int| 0 <= j < i ==> self.index_map@[j].key@ != key@,
            decreases self.index_map@.len() - i,
        {
            if self.index_map[i].key == *key {
                proof {
                    lemma_entry_at(self.index_map@, i as int);
                }
                return Some(i);
            }
            i = i + 1;
        }
        None
    }

    /// Appends the frame of `value` to the active segment and points `key`
    /// at it; returns the new index entry.
    pub fn set(&mut self, key: String, value: Vec<u8>) -> (r: Result<KvIndex, KvsError>)
        requires
            old(self).wf(),
        ensures
            final(self).wf(),
            r.is_err() <==> set_refused(*old(self), value@.len() as int),
            match r {
                Ok(e) => set_post(*old(self), *final(self), key@, value@) && e == entry_of(
                    final(self).entries(),
                    key@,
                ),
                Err(err) => err == KvsError::OtherError && *final(self) == *old(self),
            },
    {
        let n: usize = value.len();
        let si: usize = match self.find_segment(self.active_file_number) {
            Some(i) => i,
            None => {
                return Err(KvsError::OtherError);
            },
        };
        let pos: usize = self.segments[si].data.len();
        if n == 0 || n as u64 > MAX_LIVE_LEN || n > usize::MAX - 8 || pos > usize::MAX - 8 - n {
            return Err(KvsError::OtherError);
        }
        let rotate: bool = pos as u64 + n as u64 > self.threshold;
        if rotate && self.active_file_number == u64::MAX {
            return Err(KvsError::OtherError);
        }
        let active: u64 = self.active_file_number;
        let ghost a = *self;
        let mut seg = Segment::new(active, Vec::new());
        std::mem::swap(&mut seg, &mut self.segments[si]);
        assert(seg.data@ == seg_of(a.segs(), active));
        append_frame(&mut seg.data, value.as_slice());
        // reading the length records that it fits in a usize
        let _size: usize = seg.data.len();
        let ghost seg_g = seg;
        proof {
            lemma_segs_update(a.segments@, si as int, seg);
            lemma_fit_update(a.segments@, si as int, seg);
        }
        self.segments.set(si, seg);
        assert(self.segments@ =~= a.segments@.update(si as int, seg_g));
        let e = KvIndex::new(key, active, pos as u64, n as u64);
        upsert_entry(&mut self.index_map, e.copy());
        if rotate {
            let fresh = Segment::new(active + 1, Vec::new());
            let ghost c = self.segments@;
            proof {
                assert forall|j: int| 0 <= j < c.len() implies c[j].id <= active by {
                    assert(c[j].id == a.segments@[j].id);
                }
                if seg_in(c, (active + 1) as u64) {
                    let j = choose|j: int| 0 <= j < c.len() && #[trigger] c[j].id == (active + 1) as u64;
                    assert(c[j].id <= active);
                }
                lemma_segs_push(c, fresh);
                lemma_fit_push(c, fresh);
            }
            self.active_file_number = active + 1;
            self.segments.push(fresh);
        }
        proof {
            assert(seg_in(self.segs(), active));
            assert(seg_of(self.segs(), active) == seg_of(a.segs(), active) + frame_of(value@));
            assert(key_in(self.entries(), key@));
            assert(entry_of(self.entries(), key@) == e);
            assert forall|j: int| 0 <= j < self.segs().len() implies #[trigger] self.segs()[j].id <= self.active() by {
                if j < a.segments@.len() {
                    assert(self.segments@[j].id == a.segments@[j].id);
                }
            }
        }
        Ok(e)
    }

    /// Marks the frame that `key` points at as dead by negating its prefix
    /// in place. The empty key and a key without an entry change nothing.
    pub fn remove(&mut self, key: String) -> (r: Result<(), KvsError>)
        requires
            old(self).wf(),
        ensures
            final(self).wf(),
            remove_post(*old(self), *final(self), key@, r),
    {
        if key.as_str().is_empty() {
            return Ok(());
        }
        let i: usize = match self.find_entry(&key) {
            None => {
                return Ok(());
            },
            Some(i) => i,
        };
        let f: u64 = self.index_map[i].file_number;
        let off: u64 = self.index_map[i].record_offset;
        let si: usize = match self.find_segment(f) {
            None => {
                return Err(KvsError::OtherError);
            },
            Some(si) => si,
        };
        let n: usize = self.segments[si].data.len();
        if off > n as u64 || (n as u64 - off) < 8 {
            return Err(KvsError::NoValueOfSize);
        }
        let o: usize = off as usize;
        let u: u64 = read_prefix(self.segments[si].data.as_slice(), o);
        if u == 0 || u > MAX_LIVE_LEN {
            return Ok(());
        }
        let ghost a = *self;
        let mut seg = Segment::new(f, Vec::new());
        std::mem::swap(&mut seg, &mut self.segments[si]);
        overwrite_prefix(&mut seg.data, o, u64::MAX - u + 1);
        // reading the length records that it fits in a usize
        let _size: usize = seg.data.len();
        let ghost seg_g = seg;
        proof {
            assert(u64::MAX - u + 1 == negated(u));
            lemma_segs_update(a.segments@, si as int, seg);
            lemma_fit_update(a.segments@, si as int, seg);
        }
        self.segments.set(si, seg);
        assert(self.segments@ =~= a.segments@.update(si as int, seg_g));
        proof {
            assert forall|j: int| 0 <= j < self.segs().len() implies #[trigger] self.segs()[j].id <= self.active() by {
                assert(self.segments@[j].id == a.segments@[j].id);
            }
        }
        Ok(())
    }

    /// A store over the given segments whose index is rebuilt by replaying
    /// `entries`, with the default threshold.
    pub fn open(segments: Vec<Segment>, entries: Vec<KvIndex>) -> (r: KvStore)
        requires
            ids_unique(segments@),
        ensures
            r.wf(),
            open_post(segments@, entries@, MAX_SIZE_THRESHOLD, r),
    {
        KvStore::open_with_threshold(segments, entries, MAX_SIZE_THRESHOLD)
    }

    /// A store over the given segments whose index is rebuilt by replaying
    /// `entries`; the active segment is sealed once it grows past
    /// `threshold` bytes.
    #[verifier::rlimit(30)]
    pub fn open_with_threshold(segments: Vec<Segment>, entries: Vec<KvIndex>, threshold: u64) -> (r: KvStore)
        requires
            ids_unique(segments@),
        ensures
            r.wf(),
            open_post(segments@, entries@, threshold, r),
    {
        let ghost input = segments@;
        let mut mx: u64 = 0;
        let mut i: usize = 0;
        let ghost mut w: int = 0;
        while i < segments.len()
            invariant
                0 <= i <= segments@.len(),
                forall|j: int| 0 <= j < i ==> #[trigger] segments@[j].id <= mx,
                i > 0 ==> 0 <= w < i && segments@[w].id == mx,
                i == 0 ==> mx == 0,
                forall|j: int| 0 <= j < i ==> (#[trigger] segments@[j]).data@.len() <= usize::MAX,
            decreases segments@.len() - i,
        {
            // reading the length records that it fits in a usize
            let _size: usize = segments[i].data.len();
            if segments[i].id >= mx {
                mx = segments[i].id;
                proof {
                    w = i as int;
                }
            }
            i = i + 1;
        }
        proof {
            if segments@.len() > 0 {
                assert(segments@[w].id == mx);
            }
        }
        let mut store = KvStore {
            active_file_number: mx,
            threshold,
            segments,
            index_map: Vec::new(),
        };
        if store.find_segment(mx).is_none() {
            let fresh = Segment::new(mx, Vec::new());
            proof {
                lemma_segs_push(input, fresh);
                lemma_fit_push(input, fresh);
            }
            store.segments.push(fresh);
        }
        let mut k: usize = 0;
        while k < entries.len()
            invariant
                0 <= k <= entries@.len(),
                store.active_file_number == mx,
                store.threshold == threshold,
                ids_unique(store.segments@),
                segs_fit(store.segments@),
                seg_in(store.segments@, mx),
                forall|j: int| 0 <= j < store.segments@.len() ==> #[trigger] store.segments@[j].id <= mx,
                input.len() > 0 ==> seg_in(input, mx),
                forall|j: int| 0 <= j < input.len() ==> #[trigger] input[j].id <= mx,
                input.len() == 0 ==> mx == 0 && seg_of(store.segments@, 0) == Seq::<u8>::empty(),
                forall|id: u64| seg_in(store.segments@, id) == (seg_in(input, id) || id == mx),
                forall|id: u64| seg_in(input, id) ==> seg_of(store.segments@, id) == seg_of(input, id),
                replays(store.index_map@, entries@.subrange(0, k as int)),
                keys_sorted(store.index_map@),
            decreases entries@.len() - k,
        {
            let e = entries[k].copy();
            let ghost before = store.index_map@;
            upsert_entry(&mut store.index_map, e);
            proof {
                lemma_replay_step(entries@, k as int, before, store.index_map@);
            }
            k = k + 1;
        }
        assert(entries@.subrange(0, entries@.len() as int) =~= entries@);
        store
    }

    proof fn lemma_compaction_keep(self, i: int, before: Seq<KvIndex>, after: Seq<KvIndex>, segs: Seq<Segment>)
        requires
            self.wf(),
            0 <= i < self.entries().len(),
            self.entries()[i].file_number == self.active(),
            compacted_upto(self.segs(), self.entries(), self.active(), i, segs, before),
            !key_in(before, self.entries()[i].key@),
            after == before.push(self.entries()[i]),
        ensures
            compacted_upto(self.segs(), self.entries(), self.active(), i + 1, segs, after),
    {
        let olds = self.entries();
        let e = olds[i];
        lemma_entries_push(before, e);
        assert forall|k: Seq<char>| key_in(after, k) implies key_in(olds.subrange(0, i + 1), k) by {
            if k == e.key@ {
                assert(olds.subrange(0, i + 1)[i].key@ == k);
            } else {
                assert(key_in(before, k));
                let pre = olds.subrange(0, i);
                assert(key_in(pre, k));
                let j = choose|j: int| 0 <= j < pre.len() && #[trigger] pre[j].key@ == k;
                assert(olds.subrange(0, i + 1)[j].key@ == k);
            }
        }
        assert forall|j: int| 0 <= j < i implies #[trigger] olds[j].key@ != e.key@ by {}
    }

    proof fn lemma_compaction_drop(self, i: int, before: Seq<KvIndex>, segs: Seq<Segment>)
        requires
            self.wf(),
            0 <= i < self.entries().len(),
            self.entries()[i].file_number != self.active(),
            entry_read(self.segs(), self.entries()[i]) == Ok::<Option<Seq<u8>>, KvsError>(None),
            compacted_upto(self.segs(), self.entries(), self.active(), i, segs, before),
            !key_in(before, self.entries()[i].key@),
        ensures
            compacted_upto(self.segs(), self.entries(), self.active(), i + 1, segs, before),
    {
        let olds = self.entries();
        assert forall|k: Seq<char>| key_in(before, k) implies key_in(olds.subrange(0, i + 1), k) by {
            let pre = olds.subrange(0, i);
            assert(key_in(pre, k));
            let j = choose|j: int| 0 <= j < pre.len() && #[trigger] pre[j].key@ == k;
            assert(olds.subrange(0, i + 1)[j].key@ == k);
        }
    }

    proof fn lemma_compaction_copy(
        self,
        i: int,
        before: Seq<KvIndex>,
        c: KvIndex,
        after: Seq<KvIndex>,
        before_segs: Seq<Segment>,
        segs: Seq<Segment>,
        p: Seq<u8>,
    )
        requires
            self.wf(),
            0 <= i < self.entries().len(),
            self.entries()[i].file_number != self.active(),
            entry_read(self.segs(), self.entries()[i]) == Ok::<Option<Seq<u8>>, KvsError>(Some(p)),
            0 < p.len() <= MAX_LIVE_LEN,
            compacted_upto(self.segs(), self.entries(), self.active(), i, before_segs, before),
            !key_in(before, self.entries()[i].key@),
            seg_in(before_segs, self.entries()[i].file_number),
            forall|id: u64| seg_in(segs, id) == seg_in(before_segs, id),
            forall|id: u64| id != self.entries()[i].file_number && seg_in(before_segs, id)
                ==> seg_of(segs, id) == seg_of(before_segs, id),
            seg_of(segs, self.entries()[i].file_number) == seg_of(before_segs, self.entries()[i].file_number)
                + frame_of(p),
            c.key@ == self.entries()[i].key@,
            c.file_number == self.entries()[i].file_number,
            c.record_offset == seg_of(before_segs, self.entries()[i].file_number).len(),
            c.record_length == p.len(),
            seg_of(before_segs, self.entries()[i].file_number) == live_frames(
                self.entries().subrange(0, i),
                self.segs(),
                self.entries()[i].file_number,
            ),
            after == before.push(c),
        ensures
            compacted_upto(self.segs(), self.entries(), self.active(), i + 1, segs, after),
    {
        let olds = self.entries();
        let e = olds[i];
        let f = e.file_number;
        lemma_entries_push(before, c);
        lemma_read_appended(seg_of(before_segs, f), p);
        assert forall|k: Seq<char>| key_in(after, k) implies key_in(olds.subrange(0, i + 1), k) by {
            if k == e.key@ {
                assert(olds.subrange(0, i + 1)[i].key@ == k);
            } else {
                assert(key_in(before, k));
                let pre = olds.subrange(0, i);
                assert(key_in(pre, k));
                let j = choose|j: int| 0 <= j < pre.len() && #[trigger] pre[j].key@ == k;
                assert(olds.subrange(0, i + 1)[j].key@ == k);
            }
        }
        assert forall|j: int| 0 <= j < i implies #[trigger] olds[j].key@ != e.key@ by {}
        assert forall|j: int| 0 <= j < i + 1 implies {
            let ej = #[trigger] olds[j];
            &&& ej.file_number != self.active() && entry_read(self.segs(), ej) != Ok::<Option<Seq<u8>>, KvsError>(None)
                ==> key_in(after, ej.key@) && entry_of(after, ej.key@).file_number == ej.file_number
                && entry_read(segs, entry_of(after, ej.key@)) == entry_read(self.segs(), ej)
        } by {
            let ej = olds[j];
            if j < i && ej.file_number != self.active() && entry_read(self.segs(), ej) != Ok::<Option<Seq<u8>>, KvsError>(None) {
                let ne = entry_of(before, ej.key@);
                if ne.file_number == f {
                    lemma_read_prefix_stable(seg_of(before_segs, f), frame_of(p), ne.record_offset as int);
                }
            }
        }
    }

    proof fn lemma_compaction_done(self, a: KvStore)
        requires
            a.wf(),
            self.active() == a.active(),
            self.threshold() == a.threshold(),
            ids_unique(self.segs()),
            segs_fit(self.segs()),
            self.segs().len() == a.segs().len(),
            forall|m: int| 0 <= m < self.segs().len() ==> #[trigger] self.segs()[m].id == a.segs()[m].id,
            forall|id: u64| seg_in(self.segs(), id) == seg_in(a.segs(), id),
            seg_of(self.segs(), a.active()) == seg_of(a.segs(), a.active()),
            forall|j: int| 0 <= j < a.entries().len() ==> !(#[trigger] a.entries()[j].file_number != a.active()
                && entry_read(a.segs(), a.entries()[j]) is Err),
            compacted_upto(a.segs(), a.entries(), a.active(), a.entries().len() as int, self.segs(), self.entries()),
            forall|id: u64| id != a.active() && seg_in(self.segs(), id) ==> seg_of(self.segs(), id).len() == live_bytes(self.entries(), id),
            forall|id: u64| id != a.active() ==> live_bytes(self.entries(), id) == pointed_bytes(a.entries(), a.segs(), id),
            forall|id: u64| id != a.active() && seg_in(self.segs(), id) ==> seg_of(self.segs(), id) == live_frames(
                a.entries().subrange(0, a.entries().len() as int),
                a.segs(),
                id,
            ),
            self.entries() == kept(a.entries().subrange(0, a.entries().len() as int), a.segs(), a.active()),
            keys_sorted(self.entries()),
        ensures
            self.wf(),
            compact_post(a, self),
            !compaction_blocked(a),
    {
        let olds = a.entries();
        assert(olds.subrange(0, olds.len() as int) =~= olds);
        assert forall|m: int| 0 <= m < self.segs().len() implies #[trigger] self.segs()[m].id <= self.active() by {
            assert(a.segs()[m].id <= a.active());
        }
        assert forall|k: Seq<char>| self.lookup(k) == a.lookup(k) by {
            if k.len() > 0 && key_in(olds, k) {
                let j = choose|j: int| 0 <= j < olds.len() && #[trigger] olds[j].key@ == k;
                lemma_entry_at(olds, j);
                let e = olds[j];
                if e.file_number == a.active() {
                    assert(entry_read(self.segs(), e) == entry_read(a.segs(), e));
                }
            }
        }
    }

    /// Rewrites every sealed segment so that it holds only the live frames
    /// that the index points at, and points the index at the copies. Entries
    /// whose frame is dead are dropped; the active segment is left alone.
    pub fn compaction(&mut self) -> (r: Result<(), KvsError>)
        requires
            old(self).wf(),
        ensures
            final(self).wf(),
            r.is_err() <==> compaction_blocked(*old(self)),
            r.is_ok() ==> compact_post(*old(self), *final(self)),
            r.is_err() ==> *final(self) == *old(self),
    {
        let active: u64 = self.active_file_number;
        let ghost old_segs = self.segments@;
        let ghost old_entries = self.index_map@;
        let mut outs: Vec<Segment> = Vec::new();
        let mut j: usize = 0;
        while j < self.segments.len()
            invariant
                0 <= j <= old_segs.len(),
                self.segments@ == old_segs,
                self.active_file_number == active,
                outs@.len() == j,
                forall|m: int| 0 <= m < j ==> (#[trigger] outs@[m]).id == old_segs[m].id,
                forall|m: int| 0 <= m < j && old_segs[m].id == active ==> (#[trigger] outs@[m]).data@ == old_segs[m].data@,
                forall|m: int| 0 <= m < j && old_segs[m].id != active ==> (#[trigger] outs@[m]).data@ == Seq::<u8>::empty(),
                segs_fit(old_segs),
                segs_fit(outs@),
            decreases old_segs.len() - j,
        {
            let ghost before = outs@;
            let piece = if self.segments[j].id == active {
                self.segments[j].copy()
            } else {
                Segment::new(self.segments[j].id, Vec::new())
            };
            proof {
                assert(old_segs[j as int].data@.len() <= usize::MAX);
                lemma_fit_push(before, piece);
            }
            outs.push(piece);
            j = j + 1;
        }
        proof {
            assert forall|a: int, b: int|
                0 <= a < outs@.len() && 0 <= b < outs@.len() && #[trigger] outs@[a].id == #[trigger] outs@[b].id implies a == b by {
                assert(old_segs[a].id == old_segs[b].id);
            }
            assert forall|id: u64| seg_in(outs@, id) == seg_in(old_segs, id) by {
                if seg_in(old_segs, id) {
                    let m = choose|m: int| 0 <= m < old_segs.len() && #[trigger] old_segs[m].id == id;
                    assert(outs@[m].id == id);
                }
                if seg_in(outs@, id) {
                    let m = choose|m: int| 0 <= m < outs@.len() && #[trigger] outs@[m].id == id;
                    assert(old_segs[m].id == id);
                }
            }
            let m = choose|m: int| 0 <= m < old_segs.len() && #[trigger] old_segs[m].id == active;
            lemma_seg_at(old_segs, m);
            lemma_seg_at(outs@, m);
            assert(compacted_upto(old_segs, old_entries, active, 0, outs@, Seq::<KvIndex>::empty()));
            assert forall|id: u64| id != active && seg_in(outs@, id) implies seg_of(outs@, id).len() == live_bytes(
                Seq::<KvIndex>::empty(),
                id,
            ) by {
                let m = choose|m: int| 0 <= m < outs@.len() && #[trigger] outs@[m].id == id;
                lemma_seg_at(outs@, m);
            }
            assert forall|id: u64| id != active && seg_in(outs@, id) implies seg_of(outs@, id) == live_frames(
                old_entries.subrange(0, 0),
                old_segs,
                id,
            ) by {
                let m = choose|m: int| 0 <= m < outs@.len() && #[trigger] outs@[m].id == id;
                lemma_seg_at(outs@, m);
            }
        }
        let mut fresh: Vec<KvIndex> = Vec::new();
        assert(old_entries.subrange(0, 0) =~= Seq::<KvIndex>::empty());
        let mut i: usize = 0;
        while i < self.index_map.len()
            invariant
                0 <= i <= old_entries.len(),
                self.segments@ == old_segs,
                self.index_map@ == old_entries,
                self.active_file_number == active,
                self.wf(),
                outs@.len() == old_segs.len(),
                forall|m: int| 0 <= m < outs@.len() ==> #[trigger] outs@[m].id == old_segs[m].id,
                ids_unique(outs@),
                segs_fit(outs@),
                forall|id: u64| seg_in(outs@, id) == seg_in(old_segs, id),
                seg_of(outs@, active) == seg_of(old_segs, active),
                forall|j: int| 0 <= j < i ==> !(#[trigger] old_entries[j].file_number != active
                    && entry_read(old_segs, old_entries[j]) is Err),
                compacted_upto(old_segs, old_entries, active, i as int, outs@, fresh@),
                forall|id: u64| id != active && seg_in(outs@, id) ==> seg_of(outs@, id).len() == live_bytes(fresh@, id),
                forall|id: u64| id != active ==> live_bytes(fresh@, id) == pointed_bytes(old_entries.subrange(0, i as int), old_segs, id),
                forall|id: u64| id != active && seg_in(outs@, id) ==> seg_of(outs@, id) == live_frames(old_entries.subrange(0, i as int), old_segs, id),
                fresh@ == kept(old_entries.subrange(0, i as int), old_segs, active),
                keys_sorted(fresh@),
                forall|m: int, j: int| 0 <= m < fresh@.len() && i <= j < old_entries.len() ==> key_lt(
                    #[trigger] fresh@[m].key@,
                    #[trigger] old_entries[j].key@,
                ),
            decreases old_entries.len() - i,
        {
            let ghost e = old_entries[i as int];
            let ghost before = fresh@;
            let ghost before_segs = outs@;
            proof {
                lemma_entry_at(old_entries, i as int);
                if key_in(before, e.key@) {
                    let j = choose|j: int| 0 <= j < i && #[trigger] old_entries.subrange(0, i as int)[j].key@ == e.key@;
                    assert(old_entries[j].key@ == e.key@);
                }
            }
            let f: u64 = self.index_map[i].file_number;
            if f == active {
                let c = self.index_map[i].copy();
                proof {
                    lemma_entries_push(before, c);
                }
                fresh.push(c);
                proof {
                    self.lemma_compaction_keep(i as int, before, fresh@, outs@);
                    assert(fresh@.drop_last() =~= before);
                    assert forall|id: u64| id != active && seg_in(outs@, id) implies seg_of(outs@, id).len()
                        == live_bytes(fresh@, id) by {
                        assert(live_bytes(fresh@, id) == live_bytes(before, id));
                    }
                    let pre = old_entries.subrange(0, i as int);
                    let post = old_entries.subrange(0, i + 1);
                    assert(post.drop_last() =~= pre);
                    assert forall|id: u64| id != active implies live_bytes(fresh@, id) == pointed_bytes(post, old_segs, id) by {
                        assert(live_bytes(fresh@, id) == live_bytes(before, id));
                        assert(pointed_bytes(post, old_segs, id) == pointed_bytes(pre, old_segs, id));
                    }
                    assert forall|id: u64| id != active && seg_in(outs@, id) implies seg_of(outs@, id) == live_frames(post, old_segs, id) by {
                        assert(live_frames(post, old_segs, id) == live_frames(pre, old_segs, id));
                    }
                    assert(post.last() == e);
                    assert(fresh@ == kept(post, old_segs, active));
                }
            } else {
                let si: usize = match self.find_segment(f) {
                    None => {
                        assert(self.entries()[i as int].file_number != self.active());
                        return Err(KvsError::OtherError);
                    },
                    Some(si) => si,
                };
                let got = read_at(&self.segments[si].data, self.index_map[i].record_offset);
                match got {
                    Err(x) => {
                        assert(entry_read(self.segs(), self.entries()[i as int]) is Err);
                        return Err(x);
                    },
                    Ok(None) => {
                        proof {
                            self.lemma_compaction_drop(i as int, fresh@, outs@);
                            let pre = old_entries.subrange(0, i as int);
                            let post = old_entries.subrange(0, i + 1);
                            assert(post.drop_last() =~= pre);
                            assert forall|id: u64| id != active implies live_bytes(fresh@, id) == pointed_bytes(post, old_segs, id) by {
                                assert(pointed_bytes(post, old_segs, id) == pointed_bytes(pre, old_segs, id));
                            }
                            assert forall|id: u64| id != active && seg_in(outs@, id) implies seg_of(outs@, id) == live_frames(post, old_segs, id) by {
                                assert(live_frames(post, old_segs, id) == live_frames(pre, old_segs, id));
                            }
                            assert(post.last() == e);
                            assert(fresh@ == kept(post, old_segs, active));
                        }
                    },
                    Ok(Some(p)) => {
                        let off: usize = outs[si].data.len();
                        let mut seg = Segment::new(f, Vec::new());
                        std::mem::swap(&mut seg, &mut outs[si]);
                        append_frame(&mut seg.data, p.as_slice());
                        // reading the length records that it fits in a usize
                        let _size: usize = seg.data.len();
                        let ghost seg_g = seg;
                        proof {
                            lemma_fit_update(before_segs, si as int, seg);
                            lemma_seg_at(before_segs, si as int);
                            lemma_segs_update(before_segs, si as int, seg);
                        }
                        outs.set(si, seg);
                        assert(outs@ =~= before_segs.update(si as int, seg_g));
                        let c = KvIndex::new(self.index_map[i].key.clone(), f, off as u64, p.len() as u64);
                        let ghost c_g = c;
                        fresh.push(c);
                        proof {
                            self.lemma_compaction_copy(i as int, before, c_g, fresh@, before_segs, outs@, p@);
                            assert(fresh@.drop_last() =~= before);
                            assert forall|id: u64| id != active && seg_in(outs@, id) implies seg_of(outs@, id).len()
                                == live_bytes(fresh@, id) by {
                                assert(seg_in(before_segs, id));
                                if id == f {
                                    lemma_prefix_round_trip(p@.len() as u64);
                                    assert(frame_of(p@).len() == 8 + p@.len());
                                    assert(live_bytes(fresh@, id) == live_bytes(before, id) + 8 + p@.len());
                                } else {
                                    assert(live_bytes(fresh@, id) == live_bytes(before, id));
                                }
                            }
                            let pre = old_entries.subrange(0, i as int);
                            let post = old_entries.subrange(0, i + 1);
                            assert(post.drop_last() =~= pre);
                            assert forall|id: u64| id != active implies live_bytes(fresh@, id) == pointed_bytes(post, old_segs, id) by {
                                if id == f {
                                    assert(live_bytes(fresh@, id) == live_bytes(before, id) + 8 + p@.len());
                                    assert(pointed_bytes(post, old_segs, id) == pointed_bytes(pre, old_segs, id) + 8 + p@.len());
                                } else {
                                    assert(live_bytes(fresh@, id) == live_bytes(before, id));
                                    assert(pointed_bytes(post, old_segs, id) == pointed_bytes(pre, old_segs, id));
                                }
                            }
                            assert forall|id: u64| id != active && seg_in(outs@, id) implies seg_of(outs@, id) == live_frames(post, old_segs, id) by {
                                assert(seg_in(before_segs, id));
                                if id != f {
                                    assert(live_frames(post, old_segs, id) == live_frames(pre, old_segs, id));
                                }
                            }
                            assert(post.last() == e);
                            assert(fresh@ == kept(post, old_segs, active));
                        }
                    },
                }
            }
            i = i + 1;
        }
        proof {
            assert(old_entries.subrange(0, old_entries.len() as int) =~= old_entries);
        }
        self.segments = outs;
        self.index_map = fresh;
        proof {
            self.lemma_compaction_done(*old(self));
        }
        Ok(())
    }

    /// The index entries, one per key in ascending key order: what a
    /// checkpoint of the index holds.
    pub fn sync_index(&self) -> (r: Vec<KvIndex>)
        ensures
            r@ == self.entries(),
            self.wf() ==> keys_sorted(r@),
    {
        let mut r: Vec<KvIndex> = Vec::new();
        let mut i: usize = 0;
        while i < self.index_map.len()
            invariant
                0 <= i <= self.index_map@.len(),
                r@ == self.index_map@.subrange(0, i as int),
            decreases self.index_map@.len() - i,
        {
            r.push(self.index_map[i].copy());
            i = i + 1;
            assert(r@ =~= self.index_map@.subrange(0, i as int));
        }
        assert(r@ =~= self.index_map@);
        r
    }

    /// A copy of every segment, in the order the store holds them.
    pub fn segment_images(&self) -> (r: Vec<Segment>)
        ensures
            r@.len() == self.segs().len(),
            forall|i: int| 0 <= i < r@.len() ==> (#[trigger] r@[i]).id == self.segs()[i].id && r@[i].data@ == self.segs()[i].data@,
    {
        let mut r: Vec<Segment> = Vec::new();
        let mut i: usize = 0;
        while i < self.segments.len()
            invariant
                0 <= i <= self.segments@.len(),
                r@.len() == i,
                forall|j: int| 0 <= j < i ==> (#[trigger] r@[j]).id == self.segments@[j].id && r@[j].data@ == self.segments@[j].data@,
            decreases self.segments@.len() - i,
        {
            r.push(self.segments[i].copy());
            i = i + 1;
        }
        r
    }

    /// The bytes of segment `id`, if the store holds it.
    pub fn segment(&self, id: u64) -> (r: Option<Vec<u8>>)
        requires
            self.wf(),
        ensures
            match r {
                Some(d) => seg_in(self.segs(), id) && d@ == seg_of(self.segs(), id),
                None => !seg_in(self.segs(), id),
            },
    {
        match self.find_segment(id) {
            Some(i) => Some(copy_range(self.segments[i].data.as_slice(), 0, self.segments[i].data.len())),
            None => None,
        }
    }

    /// The id of the segment that takes appends.
    pub fn active_file_number(&self) -> (r: u64)
        ensures
            r == self.active(),
    {
        self.active_file_number
    }

    /// The size past which the active segment is sealed.
    pub fn size_threshold(&self) -> (r: u64)
        ensures
            r == self.threshold(),
    {
        self.threshold
    }

    /// The record of `key`: `None` for the empty key, a key without an
    /// entry, or an entry whose frame is dead.
    pub fn get(&self, key: String) -> (r: Result<Option<Vec<u8>>, KvsError>)
        requires
            self.wf(),
        ensures
            bytes_result(r) == self.lookup(key@),
    {
        if key.as_str().is_empty() {
            return Ok(None);
        }
        match self.find_entry(&key) {
            None => Ok(None),
            Some(i) => {
                let e = &self.index_map[i];
                match self.find_segment(e.file_number) {
                    None => Err(KvsError::OtherError),
                    Some(si) => read_at(&self.segments[si].data, e.record_offset),
                }
            }
        }
    }
}

/// A successful `set(k, v)` leaves every other key that answered without
/// error answering as before.
pub proof fn lemma_set_keeps_others(a: KvStore, b: KvStore, k: Seq<char>, v: Seq<u8>)
    requires
        a.wf(),
        set_post(a, b, k, v),
    ensures
        forall|k2: Seq<char>| k2 != k && (#[trigger] a.lookup(k2)) is Ok ==> b.lookup(k2) == a.lookup(k2),
{
    assert forall|k2: Seq<char>| k2 != k && (#[trigger] a.lookup(k2)) is Ok implies b.lookup(k2) == a.lookup(k2) by {
        if k2.len() > 0 && key_in(a.entries(), k2) {
            let e = entry_of(a.entries(), k2);
            let f = e.file_number;
            if f == a.active() {
                lemma_read_prefix_stable(seg_of(a.segs(), f), frame_of(v), e.record_offset as int);
            }
        }
    }
}

/// After a successful `remove(k)` nothing is found for `k`.
pub proof fn lemma_remove_clears(a: KvStore, b: KvStore, k: Seq<char>, r: Result<(), KvsError>)
    requires
        a.wf(),
        remove_post(a, b, k, r),
        r is Ok,
    ensures
        b.lookup(k) == Ok::<Option<Seq<u8>>, KvsError>(None),
{
    if k.len() > 0 && key_in(a.entries(), k) {
        let e = entry_of(a.entries(), k);
        let d = seg_of(a.segs(), e.file_number);
        let off = e.record_offset as int;
        let u = prefix_at(d, off);
        if signed_of(u) > 0 {
            let t = tombstoned(d, off);
            lemma_prefix_round_trip(negated(u));
            assert(t.subrange(off, off + 8) =~= spec_u64_to_le_bytes(negated(u)));
        }
    }
}

impl KvsEngine for KvStore {
    open spec fn well_formed(&self) -> bool {
        self.wf()
    }

    open spec fn lookup_of(&self, k: Seq<char>) -> Result<Option<Seq<u8>>, KvsError> {
        self.lookup(k)
    }

    fn set(&mut self, key: String, value: Vec<u8>) -> (r: Result<(), KvsError>) {
        let ghost k = key@;
        let ghost v = value@;
        let ghost a = *self;
        match KvStore::set(self, key, value) {
            Ok(_) => {
                proof {
                    lemma_set_keeps_others(a, *self, k, v);
                    lemma_read_appended(seg_of(a.segs(), a.active()), v);
                }
                Ok(())
            },
            Err(e) => Err(e),
        }
    }

    fn get(&mut self, key: String) -> (r: Result<Option<Vec<u8>>, KvsError>) {
        KvStore::get(self, key)
    }

    fn remove(&mut self, key: String) -> (r: Result<(), KvsError>)
        ensures
            remove_post(*old(self), *final(self), key@, r),
    {
        let ghost k = key@;
        let ghost a = *self;
        let r = KvStore::remove(self, key);
        proof {
            if r is Ok {
                lemma_remove_clears(a, *self, k, r);
            }
        }
        r
    }
}

} // verus!
