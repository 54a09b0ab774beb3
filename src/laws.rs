//! What holds of the store across several operations.
use crate::errors::KvsError;
use crate::frame::{
    lemma_read_prefix_stable, all_live, frame_of, frames_of, lemma_prefix_round_trip, lemma_read_appended, lemma_scan_frames,
    prefix_at, read_frame, scan_from, signed_of,
};
use crate::kvsengine::kvstore::{
    compact_post, compaction_blocked, entry_of, entry_read, ids_unique, key_in, last_at, lemma_entry_at,
    lemma_seg_at, disjoint_in, frames_disjoint, live_bytes, kept, live_frames, live_len, live_payload, negated, pointed_bytes, open_post, remove_post, seg_in, seg_of, set_post, tombstoned, KvIndex, KvStore,
    Segment,
};
use vstd::bytes::*;
use vstd::set_lib::{lemma_int_range, lemma_len_subset, lemma_set_disjoint_lens, set_int_range};
use vstd::prelude::*;

verus! {

/// After `set(k, v)` the frame that `k` points at holds `v`.
proof fn lemma_set_frame(a: KvStore, b: KvStore, k: Seq<char>, v: Seq<u8>)
    requires
        a.wf(),
        set_post(a, b, k, v),
    ensures
        entry_read(b.segs(), entry_of(b.entries(), k)) == Ok::<Option<Seq<u8>>, KvsError>(Some(v)),
{
    lemma_read_appended(seg_of(a.segs(), a.active()), v);
}

/// Round trip: once `set(k, v)` has succeeded, `get(k)` returns `v` for
/// every key but the empty one, which is never found.
pub proof fn law_round_trip(a: KvStore, b: KvStore, k: Seq<char>, v: Seq<u8>)
    requires
        a.wf(),
        set_post(a, b, k, v),
        k.len() > 0,
    ensures
        b.lookup(k) == Ok::<Option<Seq<u8>>, KvsError>(Some(v)),
{
    lemma_set_frame(a, b, k, v);
}

/// Overwrite: `set(k, v1)` then `set(k, v2)` leaves `get(k)` returning
/// `v2`, exactly one index entry for `k`, and the index no larger.
pub proof fn law_overwrite(a: KvStore, b: KvStore, c: KvStore, k: Seq<char>, v1: Seq<u8>, v2: Seq<u8>)
    requires
        a.wf(),
        set_post(a, b, k, v1),
        b.wf(),
        set_post(b, c, k, v2),
        c.wf(),
        k.len() > 0,
    ensures
        c.lookup(k) == Ok::<Option<Seq<u8>>, KvsError>(Some(v2)),
        c.entries().len() == b.entries().len(),
        key_in(c.entries(), k),
        forall|i: int, j: int|
            0 <= i < c.entries().len() && 0 <= j < c.entries().len() && (#[trigger] c.entries()[i]).key@ == k
                && (#[trigger] c.entries()[j]).key@ == k ==> i == j,
{
    lemma_set_frame(b, c, k, v2);
}

/// Tombstone: `set(k, v)` then `remove(k)` succeeds, leaves `get(k)` with
/// nothing to return, and the prefix where the entry points reads as the
/// negated length of `v`.
pub proof fn law_tombstone(
    a: KvStore,
    b: KvStore,
    c: KvStore,
    k: Seq<char>,
    v: Seq<u8>,
    r: Result<(), KvsError>,
)
    requires
        a.wf(),
        set_post(a, b, k, v),
        b.wf(),
        remove_post(b, c, k, r),
        k.len() > 0,
    ensures
        r == Ok::<(), KvsError>(()),
        c.lookup(k) == Ok::<Option<Seq<u8>>, KvsError>(None),
        signed_of(
            prefix_at(
                seg_of(c.segs(), entry_of(b.entries(), k).file_number),
                entry_of(b.entries(), k).record_offset as int,
            ),
        ) == -(v.len() as int),
{
    let e = entry_of(b.entries(), k);
    let d = seg_of(b.segs(), e.file_number);
    let off = e.record_offset as int;
    lemma_set_frame(a, b, k, v);
    assert(prefix_at(d, off) == v.len() as u64);
    let u = prefix_at(d, off);
    let t = tombstoned(d, off);
    lemma_prefix_round_trip(negated(u));
    assert(t.subrange(off, off + 8) =~= spec_u64_to_le_bytes(negated(u)));
}

/// Removing a key that has no entry succeeds and changes nothing.
pub proof fn law_remove_absent(a: KvStore, b: KvStore, k: Seq<char>, r: Result<(), KvsError>)
    requires
        a.wf(),
        remove_post(a, b, k, r),
        !key_in(a.entries(), k),
    ensures
        r == Ok::<(), KvsError>(()),
        b == a,
{
}

/// Rotation: a `set` that takes the active segment past the threshold
/// opens the segment with the next id; the sealed one keeps the record just
/// written and no later `set` appends to it.
pub proof fn law_rotation(
    a: KvStore,
    b: KvStore,
    c: KvStore,
    k: Seq<char>,
    v: Seq<u8>,
    k2: Seq<char>,
    v2: Seq<u8>,
)
    requires
        a.wf(),
        set_post(a, b, k, v),
        seg_of(a.segs(), a.active()).len() + v.len() > a.threshold(),
        b.wf(),
        set_post(b, c, k2, v2),
    ensures
        b.active() == a.active() + 1,
        seg_in(b.segs(), a.active()),
        seg_in(c.segs(), a.active()),
        seg_of(b.segs(), a.active()) == seg_of(a.segs(), a.active()) + frame_of(v),
        seg_of(c.segs(), a.active()) == seg_of(b.segs(), a.active()),
{
}

/// Compaction keeps every live record where `get` finds it.
pub proof fn law_compaction_preserves(a: KvStore, b: KvStore, k: Seq<char>, v: Seq<u8>)
    requires
        compact_post(a, b),
        a.lookup(k) == Ok::<Option<Seq<u8>>, KvsError>(Some(v)),
    ensures
        b.lookup(k) == Ok::<Option<Seq<u8>>, KvsError>(Some(v)),
{
}

/// Compaction reclaims dead space: afterwards every sealed segment holds
/// exactly the frames that index entries point at, and nothing else.
pub proof fn law_compaction_reclaims(a: KvStore, b: KvStore, id: u64)
    requires
        compact_post(a, b),
        id != b.active(),
        seg_in(b.segs(), id),
    ensures
        seg_of(b.segs(), id).len() == live_bytes(b.entries(), id),
{
}

/// The positions of segment `id` covered by the live frames that the
/// entries of `s` point at.
pub open spec fn covered(s: Seq<KvIndex>, segs: Seq<Segment>, id: u64) -> Set<int> {
    Set::new(
        |x: int|
            exists|j: int|
                0 <= j < s.len() && (#[trigger] s[j]).file_number == id && live_len(segs, s[j]) > 0
                    && s[j].record_offset <= x < s[j].record_offset + live_len(segs, s[j]),
    )
}

proof fn lemma_covered(s: Seq<KvIndex>, segs: Seq<Segment>, id: u64)
    requires
        seg_in(segs, id),
        disjoint_in(s, segs),
    ensures
        covered(s, segs, id).subset_of(set_int_range(0, seg_of(segs, id).len() as int)),
        covered(s, segs, id).finite(),
        covered(s, segs, id).len() == pointed_bytes(s, segs, id),
    decreases s.len(),
{
    let n = seg_of(segs, id).len() as int;
    lemma_int_range(0, n);
    if s.len() == 0 {
        assert(covered(s, segs, id) =~= Set::<int>::empty());
    } else {
        let t = s.drop_last();
        let e = s.last();
        assert(disjoint_in(t, segs)) by {
            assert forall|i: int, j: int|
                0 <= i < t.len() && 0 <= j < t.len() && i != j && (#[trigger] t[i]).file_number == (#[trigger] t[j]).file_number
                    && live_len(segs, t[i]) > 0 && live_len(segs, t[j]) > 0 implies {
                    ||| t[i].record_offset + live_len(segs, t[i]) <= t[j].record_offset
                    ||| t[j].record_offset + live_len(segs, t[j]) <= t[i].record_offset
                } by {
                assert(t[i] == s[i] && t[j] == s[j]);
            }
        }
        lemma_covered(t, segs, id);
        let ct = covered(t, segs, id);
        if e.file_number == id && live_len(segs, e) > 0 {
            let lo = e.record_offset as int;
            let hi = lo + live_len(segs, e);
            let r = set_int_range(lo, hi);
            assert(hi <= n);
            lemma_int_range(lo, hi);
            assert forall|x: int| covered(s, segs, id).contains(x) == (ct + r).contains(x) by {
                if covered(s, segs, id).contains(x) {
                    let j = choose|j: int|
                        0 <= j < s.len() && (#[trigger] s[j]).file_number == id && live_len(segs, s[j]) > 0
                            && s[j].record_offset <= x < s[j].record_offset + live_len(segs, s[j]);
                    if j < t.len() {
                        assert(t[j] == s[j]);
                    }
                }
                if ct.contains(x) {
                    let j = choose|j: int|
                        0 <= j < t.len() && (#[trigger] t[j]).file_number == id && live_len(segs, t[j]) > 0
                            && t[j].record_offset <= x < t[j].record_offset + live_len(segs, t[j]);
                    assert(s[j] == t[j]);
                }
                if r.contains(x) {
                    assert(s[s.len() - 1] == e);
                }
            }
            assert(covered(s, segs, id) =~= ct + r);
            assert(ct.disjoint(r)) by {
                assert forall|x: int| !(ct.contains(x) && r.contains(x)) by {
                    if ct.contains(x) && r.contains(x) {
                        let j = choose|j: int|
                            0 <= j < t.len() && (#[trigger] t[j]).file_number == id && live_len(segs, t[j]) > 0
                                && t[j].record_offset <= x < t[j].record_offset + live_len(segs, t[j]);
                        assert(s[j] == t[j]);
                        assert(s[s.len() - 1] == e);
                    }
                }
            }
            lemma_set_disjoint_lens(ct, r);
        } else {
            assert forall|x: int| covered(s, segs, id).contains(x) == ct.contains(x) by {
                if covered(s, segs, id).contains(x) {
                    let j = choose|j: int|
                        0 <= j < s.len() && (#[trigger] s[j]).file_number == id && live_len(segs, s[j]) > 0
                            && s[j].record_offset <= x < s[j].record_offset + live_len(segs, s[j]);
                    assert(j < t.len());
                    assert(t[j] == s[j]);
                }
                if ct.contains(x) {
                    let j = choose|j: int|
                        0 <= j < t.len() && (#[trigger] t[j]).file_number == id && live_len(segs, t[j]) > 0
                            && t[j].record_offset <= x < t[j].record_offset + live_len(segs, t[j]);
                    assert(s[j] == t[j]);
                }
            }
            assert(covered(s, segs, id) =~= ct);
        }
    }
}

/// Compaction never grows a sealed segment where index entries point at
/// non-overlapping frames, and shrinks it where some of its bytes lie
/// outside every live frame the index points at (what an overwrite or a
/// removal leaves behind).
pub proof fn law_compaction_no_growth(a: KvStore, b: KvStore, id: u64)
    requires
        a.wf(),
        compact_post(a, b),
        frames_disjoint(a),
        id != a.active(),
        seg_in(a.segs(), id),
    ensures
        seg_in(b.segs(), id),
        seg_of(b.segs(), id).len() <= seg_of(a.segs(), id).len(),
        (exists|x: int| 0 <= x < seg_of(a.segs(), id).len() && !covered(a.entries(), a.segs(), id).contains(x))
            ==> seg_of(b.segs(), id).len() < seg_of(a.segs(), id).len(),
{
    let n = seg_of(a.segs(), id).len() as int;
    let c = covered(a.entries(), a.segs(), id);
    lemma_covered(a.entries(), a.segs(), id);
    lemma_int_range(0, n);
    lemma_len_subset(c, set_int_range(0, n));
    assert(seg_of(b.segs(), id).len() == c.len());
    if exists|x: int| 0 <= x < n && !c.contains(x) {
        let x = choose|x: int| 0 <= x < n && !c.contains(x);
        let r = set_int_range(0, n);
        assert(c.subset_of(r.remove(x)));
        lemma_len_subset(c, r.remove(x));
    }
}

/// After a successful compaction, compacting again succeeds: every entry
/// of a sealed segment now points at a live frame.
pub proof fn law_compaction_again(a: KvStore, b: KvStore)
    requires
        a.wf(),
        b.wf(),
        compact_post(a, b),
    ensures
        !compaction_blocked(b),
{
    let n = a.entries().len() as int;
    assert(a.entries().subrange(0, n) =~= a.entries());
    assert forall|j: int| 0 <= j < b.entries().len() && (#[trigger] b.entries()[j]).file_number != b.active()
        implies !(entry_read(b.segs(), b.entries()[j]) is Err) by {
        let k = b.entries()[j].key@;
        lemma_entry_at(b.entries(), j);
        assert(key_in(a.entries(), k));
        let i = choose|i: int| 0 <= i < a.entries().len() && #[trigger] a.entries()[i].key@ == k;
        lemma_entry_at(a.entries(), i);
        let e = a.entries()[i];
        assert(e == a.entries()[i]);
    }
}

proof fn lemma_live_frames_step(s: Seq<KvIndex>, segs: Seq<Segment>, id: u64, x: int)
    requires
        0 <= x < s.len(),
    ensures
        live_frames(s.subrange(0, x + 1), segs, id).len() == live_frames(s.subrange(0, x), segs, id).len() + if s[x].file_number == id
            && live_payload(segs, s[x]) is Some {
            8 + live_payload(segs, s[x])->Some_0.len() as int
        } else {
            0int
        },
{
    assert(s.subrange(0, x + 1).drop_last() =~= s.subrange(0, x));
    if let Some(p) = live_payload(segs, s[x]) {
        lemma_prefix_round_trip(p.len() as u64);
    }
}

proof fn lemma_live_frames_mono(s: Seq<KvIndex>, segs: Seq<Segment>, id: u64, x: int, y: int)
    requires
        0 <= x <= y <= s.len(),
    ensures
        live_frames(s.subrange(0, x), segs, id).len() <= live_frames(s.subrange(0, y), segs, id).len(),
    decreases y - x,
{
    if x < y {
        lemma_live_frames_mono(s, segs, id, x, y - 1);
        lemma_live_frames_step(s, segs, id, y - 1);
    }
}

/// Compaction keeps index entries pointing at non-overlapping frames: the
/// copies in each sealed segment lie one after the other.
pub proof fn law_compaction_keeps_disjoint(a: KvStore, b: KvStore)
    requires
        a.wf(),
        b.wf(),
        compact_post(a, b),
        frames_disjoint(a),
    ensures
        frames_disjoint(b),
{
    let n = a.entries().len() as int;
    assert(a.entries().subrange(0, n) =~= a.entries());
    let be = b.entries();
    let ae = a.entries();
    assert forall|i: int, j: int|
        0 <= i < be.len() && 0 <= j < be.len() && i != j && (#[trigger] be[i]).file_number == (#[trigger] be[j]).file_number
            && live_len(b.segs(), be[i]) > 0 && live_len(b.segs(), be[j]) > 0 implies {
            ||| be[i].record_offset + live_len(b.segs(), be[i]) <= be[j].record_offset
            ||| be[j].record_offset + live_len(b.segs(), be[j]) <= be[i].record_offset
        } by {
        lemma_entry_at(be, i);
        lemma_entry_at(be, j);
        let ki = be[i].key@;
        let kj = be[j].key@;
        assert(key_in(ae, ki) && key_in(ae, kj));
        let x = choose|x: int| 0 <= x < ae.len() && #[trigger] ae[x].key@ == ki;
        let y = choose|y: int| 0 <= y < ae.len() && #[trigger] ae[y].key@ == kj;
        lemma_entry_at(ae, x);
        lemma_entry_at(ae, y);
        assert(ae[x] == ae[x] && ae[y] == ae[y]);
        if be[i].file_number != b.active() {
            if x < y {
                lemma_live_frames_step(ae, a.segs(), be[i].file_number, x);
                lemma_live_frames_mono(ae, a.segs(), be[i].file_number, x + 1, y);
            } else {
                lemma_live_frames_step(ae, a.segs(), be[i].file_number, y);
                lemma_live_frames_mono(ae, a.segs(), be[i].file_number, y + 1, x);
            }
        }
    }
}

proof fn lemma_live_frames_prefix(s: Seq<KvIndex>, segs: Seq<Segment>, id: u64, x: int, y: int)
    requires
        0 <= x <= y <= s.len(),
    ensures
        live_frames(s.subrange(0, x), segs, id).len() <= live_frames(s.subrange(0, y), segs, id).len(),
        live_frames(s.subrange(0, y), segs, id).subrange(0, live_frames(s.subrange(0, x), segs, id).len() as int)
            == live_frames(s.subrange(0, x), segs, id),
    decreases y - x,
{
    let lx = live_frames(s.subrange(0, x), segs, id);
    if x == y {
        assert(lx.subrange(0, lx.len() as int) =~= lx);
    } else {
        lemma_live_frames_prefix(s, segs, id, x, y - 1);
        assert(s.subrange(0, y).drop_last() =~= s.subrange(0, y - 1));
        let l1 = live_frames(s.subrange(0, y - 1), segs, id);
        let ly = live_frames(s.subrange(0, y), segs, id);
        assert(ly.subrange(0, l1.len() as int) =~= l1);
        assert(ly.subrange(0, lx.len() as int) =~= l1.subrange(0, lx.len() as int));
    }
}

#[verifier::rlimit(40)]
proof fn lemma_kept_settled(a: KvStore, b: KvStore, i: int)
    requires
        forall|id: u64| seg_in(b.segs(), id) == seg_in(a.segs(), id),
        forall|id: u64| id != a.active() && seg_in(b.segs(), id) ==> seg_of(b.segs(), id) == live_frames(a.entries(), a.segs(), id),
        forall|id: u64| seg_in(b.segs(), id) ==> seg_of(b.segs(), id).len() <= usize::MAX,
        0 <= i <= a.entries().len(),
    ensures
        kept(kept(a.entries().subrange(0, i), a.segs(), a.active()), b.segs(), a.active()) == kept(
            a.entries().subrange(0, i),
            a.segs(),
            a.active(),
        ),
        forall|id: u64|
            id != a.active() ==> live_frames(kept(a.entries().subrange(0, i), a.segs(), a.active()), b.segs(), id)
                == live_frames(a.entries().subrange(0, i), a.segs(), id),
    decreases i,
{
    let act = a.active();
    let ae = a.entries();
    let pi = ae.subrange(0, i);
    if i == 0 {
        assert(pi =~= Seq::<KvIndex>::empty());
    } else {
        lemma_kept_settled(a, b, i - 1);
        let pp = ae.subrange(0, i - 1);
        assert(pi.drop_last() =~= pp);
        let e = ae[i - 1];
        assert(pi.last() == e);
        let kp = kept(pp, a.segs(), act);
        let ki = kept(pi, a.segs(), act);
        if e.file_number == act {
            assert(ki == kp.push(e));
            assert(ki.drop_last() =~= kp);
            assert(ki.last() == e);
            assert forall|id: u64| id != act implies live_frames(ki, b.segs(), id) == live_frames(pi, a.segs(), id) by {
                assert(live_frames(ki, b.segs(), id) == live_frames(kp, b.segs(), id));
                assert(live_frames(pi, a.segs(), id) == live_frames(pp, a.segs(), id));
            }
        } else {
            match live_payload(a.segs(), e) {
                None => {
                    assert(ki == kp);
                    assert forall|id: u64| id != act implies live_frames(ki, b.segs(), id) == live_frames(pi, a.segs(), id) by {
                        assert(live_frames(pi, a.segs(), id) == live_frames(pp, a.segs(), id));
                    }
                },
                Some(p) => {
                    let f = e.file_number;
                    let c = KvIndex {
                        key: e.key,
                        file_number: f,
                        record_offset: live_frames(pp, a.segs(), f).len() as u64,
                        record_length: p.len() as u64,
                    };
                    assert(ki == kp.push(c));
                    assert(ki.drop_last() =~= kp);
                    assert(ki.last() == c);
                    let n = ae.len() as int;
                    assert(ae.subrange(0, n) =~= ae);
                    let sp = live_frames(pp, a.segs(), f);
                    let si = live_frames(pi, a.segs(), f);
                    let sn = live_frames(ae.subrange(0, n), a.segs(), f);
                    assert(si == sp + frame_of(p));
                    lemma_read_appended(sp, p);
                    lemma_live_frames_prefix(ae, a.segs(), f, i, n);
                    let rest = sn.subrange(si.len() as int, sn.len() as int);
                    assert(sn =~= si + rest);
                    lemma_read_prefix_stable(si, rest, sp.len() as int);
                    assert(sp.len() <= sn.len());
                    assert(seg_in(b.segs(), f));
                    assert(seg_of(b.segs(), f) == sn);
                    assert(live_payload(b.segs(), c) == Some(p));
                    assert forall|id: u64| id != act implies live_frames(ki, b.segs(), id) == live_frames(pi, a.segs(), id) by {
                        if id == f {
                            assert(live_frames(ki, b.segs(), id) == live_frames(kp, b.segs(), id) + frame_of(p));
                        } else {
                            assert(live_frames(ki, b.segs(), id) == live_frames(kp, b.segs(), id));
                            assert(live_frames(pi, a.segs(), id) == live_frames(pp, a.segs(), id));
                        }
                    }
                }
            }
        }
    }
}

/// A second compaction right after a successful one (which
/// `law_compaction_again` shows succeeds) changes nothing: the same index,
/// the same active segment, the same bytes in every segment.
pub proof fn law_compaction_settled(a: KvStore, b: KvStore, c: KvStore)
    requires
        a.wf(),
        b.wf(),
        compact_post(a, b),
        compact_post(b, c),
    ensures
        c.entries() == b.entries(),
        c.active() == b.active(),
        forall|id: u64| seg_in(c.segs(), id) == seg_in(b.segs(), id),
        forall|id: u64| seg_in(b.segs(), id) ==> seg_of(c.segs(), id) == seg_of(b.segs(), id),
{
    let n = a.entries().len() as int;
    assert(a.entries().subrange(0, n) =~= a.entries());
    assert forall|id: u64| seg_in(b.segs(), id) implies seg_of(b.segs(), id).len() <= usize::MAX by {
        let m = choose|m: int| 0 <= m < b.segs().len() && #[trigger] b.segs()[m].id == id;
        lemma_seg_at(b.segs(), m);
    }
    lemma_kept_settled(a, b, n);
}

/// The bytes of segment `e.file_number` that entry `e` claims: its whole
/// frame when live, its prefix when dead.
pub open spec fn span_len(segs: Seq<Segment>, e: KvIndex) -> int {
    match entry_read(segs, e) {
        Ok(Some(p)) => 8 + p.len() as int,
        _ => 8,
    }
}

/// Every index entry of `a` can be read, and no two claim overlapping
/// bytes of one segment.
pub open spec fn spans_ok(a: KvStore) -> bool {
    &&& forall|i: int| 0 <= i < a.entries().len() ==> entry_read(a.segs(), #[trigger] a.entries()[i]) is Ok
    &&& forall|i: int, j: int|
        0 <= i < a.entries().len() && 0 <= j < a.entries().len() && i != j
            && (#[trigger] a.entries()[i]).file_number == (#[trigger] a.entries()[j]).file_number ==> {
            ||| a.entries()[i].record_offset + span_len(a.segs(), a.entries()[i]) <= a.entries()[j].record_offset
            ||| a.entries()[j].record_offset + span_len(a.segs(), a.entries()[j]) <= a.entries()[i].record_offset
        }
}

/// Entries that claim disjoint spans point at disjoint live frames.
pub proof fn law_spans_disjoint(a: KvStore)
    requires
        spans_ok(a),
    ensures
        frames_disjoint(a),
{
}

/// A freshly created store has no entries, so nothing overlaps.
pub proof fn law_fresh_spans(segments: Seq<Segment>, threshold: u64, r: KvStore)
    requires
        open_post(segments, Seq::<KvIndex>::empty(), threshold, r),
    ensures
        spans_ok(r),
{
    if r.entries().len() > 0 {
        let k = r.entries()[0].key@;
        assert(key_in(r.entries(), k));
    }
}

/// Facts about an entry that `set(k, v)` leaves alone.
proof fn lemma_set_other_entry(a: KvStore, b: KvStore, k: Seq<char>, v: Seq<u8>, k2: Seq<char>)
    requires
        a.wf(),
        set_post(a, b, k, v),
        k2 != k,
        key_in(a.entries(), k2),
        entry_read(a.segs(), entry_of(a.entries(), k2)) is Ok,
    ensures
        entry_of(b.entries(), k2) == entry_of(a.entries(), k2),
        entry_read(b.segs(), entry_of(a.entries(), k2)) == entry_read(a.segs(), entry_of(a.entries(), k2)),
        entry_of(a.entries(), k2).file_number == a.active() ==> entry_of(a.entries(), k2).record_offset
            + span_len(a.segs(), entry_of(a.entries(), k2)) <= seg_of(a.segs(), a.active()).len(),
{
    let e = entry_of(a.entries(), k2);
    if e.file_number == a.active() {
        lemma_read_prefix_stable(seg_of(a.segs(), a.active()), frame_of(v), e.record_offset as int);
    }
}

/// `set` keeps every entry readable and their spans disjoint.
pub proof fn law_set_keeps_spans(a: KvStore, b: KvStore, k: Seq<char>, v: Seq<u8>)
    requires
        a.wf(),
        b.wf(),
        set_post(a, b, k, v),
        spans_ok(a),
    ensures
        spans_ok(b),
{
    let ae = a.entries();
    let be = b.entries();
    lemma_read_appended(seg_of(a.segs(), a.active()), v);
    assert forall|i: int| 0 <= i < be.len() implies entry_read(b.segs(), #[trigger] be[i]) is Ok by {
        lemma_entry_at(be, i);
        let ki = be[i].key@;
        if ki != k {
            let x = choose|x: int| 0 <= x < ae.len() && #[trigger] ae[x].key@ == ki;
            lemma_entry_at(ae, x);
            lemma_set_other_entry(a, b, k, v, ki);
        }
    }
    assert forall|i: int, j: int|
        0 <= i < be.len() && 0 <= j < be.len() && i != j && (#[trigger] be[i]).file_number == (#[trigger] be[j]).file_number implies {
            ||| be[i].record_offset + span_len(b.segs(), be[i]) <= be[j].record_offset
            ||| be[j].record_offset + span_len(b.segs(), be[j]) <= be[i].record_offset
        } by {
        lemma_entry_at(be, i);
        lemma_entry_at(be, j);
        let ki = be[i].key@;
        let kj = be[j].key@;
        if ki != k {
            let x = choose|x: int| 0 <= x < ae.len() && #[trigger] ae[x].key@ == ki;
            lemma_entry_at(ae, x);
            lemma_set_other_entry(a, b, k, v, ki);
        }
        if kj != k {
            let y = choose|y: int| 0 <= y < ae.len() && #[trigger] ae[y].key@ == kj;
            lemma_entry_at(ae, y);
            lemma_set_other_entry(a, b, k, v, kj);
        }
    }
}

/// A frame reads the same from two logs of one length that agree on the
/// bytes it claims.
proof fn lemma_read_agree(d: Seq<u8>, d2: Seq<u8>, lo: int)
    requires
        d.len() == d2.len(),
        read_frame(d, lo) is Some,
        forall|x: int| lo <= x < lo + 8 + match read_frame(d, lo) {
            Some(Some(p)) => p.len() as int,
            _ => 0int,
        } ==> d[x] == d2[x],
    ensures
        read_frame(d2, lo) == read_frame(d, lo),
{
    assert(d2.subrange(lo, lo + 8) =~= d.subrange(lo, lo + 8));
    if let Some(Some(p)) = read_frame(d, lo) {
        assert(d2.subrange(lo + 8, lo + 8 + p.len()) =~= d.subrange(lo + 8, lo + 8 + p.len()));
    }
}

/// `remove` keeps every entry readable and their spans disjoint.
pub proof fn law_remove_keeps_spans(a: KvStore, b: KvStore, k: Seq<char>, r: Result<(), KvsError>)
    requires
        a.wf(),
        b.wf(),
        remove_post(a, b, k, r),
        spans_ok(a),
    ensures
        spans_ok(b),
{
    if k.len() > 0 && key_in(a.entries(), k) {
        let e = entry_of(a.entries(), k);
        let f = e.file_number;
        let off = e.record_offset as int;
        if seg_in(a.segs(), f) && off + 8 <= seg_of(a.segs(), f).len() {
            let d = seg_of(a.segs(), f);
            let u = prefix_at(d, off);
            let d2 = seg_of(b.segs(), f);
            let ae = a.entries();
            let xe = choose|x: int| 0 <= x < ae.len() && #[trigger] ae[x].key@ == k;
            lemma_entry_at(ae, xe);
            lemma_prefix_round_trip(negated(u));
            assert(d2.len() == d.len());
            assert forall|x: int| 0 <= x < d.len() && !(off <= x < off + 8) implies d2[x] == d[x] by {
                if signed_of(u) > 0 {
                    if x < off {
                        assert(d2[x] == d.subrange(0, off)[x]);
                    } else {
                        assert(d2[x] == d.subrange(off + 8, d.len() as int)[x - off - 8]);
                    }
                }
            }
            if signed_of(u) > 0 {
                assert(d2.subrange(off, off + 8) =~= spec_u64_to_le_bytes(negated(u)));
            }
            assert(entry_read(a.segs(), e) is Ok);
            assert forall|i: int| 0 <= i < ae.len() implies {
                &&& entry_read(b.segs(), #[trigger] ae[i]) is Ok
                &&& span_len(b.segs(), ae[i]) <= span_len(a.segs(), ae[i])
                &&& i != xe ==> span_len(b.segs(), ae[i]) == span_len(a.segs(), ae[i])
            } by {
                let g = ae[i];
                if g.file_number == f && i != xe {
                    assert(entry_read(a.segs(), g) is Ok);
                    lemma_read_agree(d, d2, g.record_offset as int);
                }
            }
        }
    }
}

/// Compaction keeps every entry readable and their spans disjoint.
pub proof fn law_compaction_keeps_spans(a: KvStore, b: KvStore)
    requires
        a.wf(),
        b.wf(),
        compact_post(a, b),
        spans_ok(a),
    ensures
        spans_ok(b),
{
    let n = a.entries().len() as int;
    assert(a.entries().subrange(0, n) =~= a.entries());
    let be = b.entries();
    let ae = a.entries();
    assert forall|i: int| 0 <= i < be.len() implies {
        &&& entry_read(b.segs(), #[trigger] be[i]) is Ok
        &&& exists|x: int| 0 <= x < ae.len() && ae[x].key@ == be[i].key@ && span_len(b.segs(), be[i]) == span_len(a.segs(), ae[x])
            && (be[i].file_number == b.active() ==> be[i] == ae[x])
            && (be[i].file_number != b.active() ==> ae[x].file_number == be[i].file_number && live_payload(a.segs(), ae[x]) is Some
                && be[i].record_offset == live_frames(ae.subrange(0, x), a.segs(), be[i].file_number).len()
                && span_len(b.segs(), be[i]) == 8 + live_payload(a.segs(), ae[x])->Some_0.len())
    } by {
        lemma_entry_at(be, i);
        let ki = be[i].key@;
        assert(key_in(ae, ki));
        let x = choose|x: int| 0 <= x < ae.len() && #[trigger] ae[x].key@ == ki;
        lemma_entry_at(ae, x);
        assert(ae[x] == ae[x]);
        if be[i].file_number == b.active() {
            assert(entry_read(b.segs(), ae[x]) == entry_read(a.segs(), ae[x]));
        }
    }
    assert forall|i: int, j: int|
        0 <= i < be.len() && 0 <= j < be.len() && i != j && (#[trigger] be[i]).file_number == (#[trigger] be[j]).file_number implies {
            ||| be[i].record_offset + span_len(b.segs(), be[i]) <= be[j].record_offset
            ||| be[j].record_offset + span_len(b.segs(), be[j]) <= be[i].record_offset
        } by {
        lemma_entry_at(be, i);
        lemma_entry_at(be, j);
        let x = choose|x: int| 0 <= x < ae.len() && ae[x].key@ == be[i].key@ && span_len(b.segs(), be[i]) == span_len(a.segs(), ae[x])
            && (be[i].file_number == b.active() ==> be[i] == ae[x])
            && (be[i].file_number != b.active() ==> ae[x].file_number == be[i].file_number && live_payload(a.segs(), ae[x]) is Some
                && be[i].record_offset == live_frames(ae.subrange(0, x), a.segs(), be[i].file_number).len()
                && span_len(b.segs(), be[i]) == 8 + live_payload(a.segs(), ae[x])->Some_0.len());
        let y = choose|y: int| 0 <= y < ae.len() && ae[y].key@ == be[j].key@ && span_len(b.segs(), be[j]) == span_len(a.segs(), ae[y])
            && (be[j].file_number == b.active() ==> be[j] == ae[y])
            && (be[j].file_number != b.active() ==> ae[y].file_number == be[j].file_number && live_payload(a.segs(), ae[y]) is Some
                && be[j].record_offset == live_frames(ae.subrange(0, y), a.segs(), be[j].file_number).len()
                && span_len(b.segs(), be[j]) == 8 + live_payload(a.segs(), ae[y])->Some_0.len());
        assert(x != y);
        assert(ae[x].file_number == ae[y].file_number);
        if be[i].file_number != b.active() {
            let f = be[i].file_number;
            if x < y {
                lemma_live_frames_step(ae, a.segs(), f, x);
                lemma_live_frames_mono(ae, a.segs(), f, x + 1, y);
            } else {
                lemma_live_frames_step(ae, a.segs(), f, y);
                lemma_live_frames_mono(ae, a.segs(), f, y + 1, x);
            }
        }
    }
}

/// In a store whose entries can all be read, overwriting a key points it
/// at a new frame: its old frame is no longer referenced.
pub proof fn law_overwrite_moves(a: KvStore, b: KvStore, k: Seq<char>, v: Seq<u8>)
    requires
        a.wf(),
        set_post(a, b, k, v),
        spans_ok(a),
        key_in(a.entries(), k),
    ensures
        entry_of(b.entries(), k) != entry_of(a.entries(), k),
        b.entries().len() == a.entries().len(),
{
    let x = choose|x: int| 0 <= x < a.entries().len() && #[trigger] a.entries()[x].key@ == k;
    lemma_entry_at(a.entries(), x);
    assert(entry_read(a.segs(), a.entries()[x]) is Ok);
}

/// Recovery: a store opened over copies of another's segments with the
/// entries of its index checkpoint answers every key as the other does.
pub proof fn law_recovery(s: KvStore, images: Seq<Segment>, threshold: u64, r: KvStore, k: Seq<char>)
    requires
        s.wf(),
        images.len() == s.segs().len(),
        forall|i: int| 0 <= i < images.len() ==> (#[trigger] images[i]).id == s.segs()[i].id && images[i].data@ == s.segs()[i].data@,
        open_post(images, s.entries(), threshold, r),
        r.wf(),
    ensures
        r.lookup(k) == s.lookup(k),
{
    let x = s.segs();
    assert forall|id: u64| seg_in(images, id) == seg_in(x, id) by {
        if seg_in(x, id) {
            let m = choose|m: int| 0 <= m < x.len() && #[trigger] x[m].id == id;
            assert(images[m].id == id);
        }
        if seg_in(images, id) {
            let m = choose|m: int| 0 <= m < images.len() && #[trigger] images[m].id == id;
            assert(x[m].id == id);
        }
    }
    assert(ids_unique(images)) by {
        assert forall|i: int, j: int|
            0 <= i < images.len() && 0 <= j < images.len() && #[trigger] images[i].id == #[trigger] images[j].id implies i == j by {
            assert(x[i].id == x[j].id);
        }
    }
    if k.len() > 0 && key_in(s.entries(), k) {
        let j = choose|j: int| last_at(s.entries(), j, k) && entry_of(r.entries(), k) == s.entries()[j];
        lemma_entry_at(s.entries(), j);
        let f = entry_of(s.entries(), k).file_number;
        if seg_in(x, f) {
            let m = choose|m: int| 0 <= m < x.len() && #[trigger] x[m].id == f;
            lemma_seg_at(x, m);
            lemma_seg_at(images, m);
        }
        let m0 = choose|m: int| 0 <= m < x.len() && #[trigger] x[m].id == s.active();
        assert(images[m0].id == s.active());
    }
}

/// The index checkpoint: framing the serialized entries one after the
/// other and scanning the log back gives the same serialized entries.
pub proof fn law_checkpoint_scan(ps: Seq<Seq<u8>>)
    requires
        all_live(ps),
    ensures
        scan_from(frames_of(ps), 0) == ps,
{
    lemma_scan_frames(ps);
}

} // verus!
