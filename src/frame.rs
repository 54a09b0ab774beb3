//! Frames: an eight-byte little-endian length prefix and a payload.
//!
//! Read as a signed integer, a positive prefix announces a live payload of
//! that many bytes; a negative one marks the payload at this place as dead.
use vstd::bytes::*;
use vstd::prelude::*;

verus! {

/// The largest prefix that reads as a positive signed 64-bit integer.
pub const MAX_LIVE_LEN: u64 = 0x7fff_ffff_ffff_ffff;

/// The signed value of a prefix stored as the unsigned integer `u`.
pub open spec fn signed_of(u: u64) -> int {
    if u <= MAX_LIVE_LEN {
        u as int
    } else {
        u as int - 0x1_0000_0000_0000_0000
    }
}

/// The prefix stored in the eight bytes of `s` that start at `off`.
pub open spec fn prefix_at(s: Seq<u8>, off: int) -> u64 {
    spec_u64_from_le_bytes(s.subrange(off, off + 8))
}

/// A frame holding `p` as a live payload.
pub open spec fn frame_of(p: Seq<u8>) -> Seq<u8> {
    spec_u64_to_le_bytes(p.len() as u64) + p
}

/// What a reader finds at `off` in `s`: `None` where the frame does not
/// fit, `Some(None)` for a dead (or empty) frame, `Some(Some(p))` for a live
/// payload `p`.
pub open spec fn read_frame(s: Seq<u8>, off: int) -> Option<Option<Seq<u8>>> {
    if off < 0 || off + 8 > s.len() {
        None
    } else {
        let u = prefix_at(s, off);
        if signed_of(u) <= 0 {
            Some(None)
        } else if off + 8 + u > s.len() {
            None
        } else {
            Some(Some(s.subrange(off + 8, off + 8 + u)))
        }
    }
}

/// The live payloads that a sequential scan of `s` from `off` yields:
/// a dead frame is skipped by its length, a frame that does not fit ends
/// the scan.
pub open spec fn scan_from(s: Seq<u8>, off: int) -> Seq<Seq<u8>>
    decreases s.len() - off,
{
    if off < 0 || off + 8 > s.len() {
        Seq::empty()
    } else {
        let v = signed_of(prefix_at(s, off));
        let n = if v < 0 { -v } else { v };
        if off + 8 + n > s.len() {
            Seq::empty()
        } else if v > 0 {
            seq![s.subrange(off + 8, off + 8 + n)] + scan_from(s, off + 8 + n)
        } else {
            scan_from(s, off + 8 + n)
        }
    }
}

/// Every payload of `ps` framed, one after the other.
pub open spec fn frames_of(ps: Seq<Seq<u8>>) -> Seq<u8>
    decreases ps.len(),
{
    if ps.len() == 0 {
        Seq::empty()
    } else {
        frames_of(ps.drop_last()) + frame_of(ps.last())
    }
}

pub proof fn lemma_prefix_round_trip(x: u64)
    ensures
        spec_u64_to_le_bytes(x).len() == 8,
        spec_u64_from_le_bytes(spec_u64_to_le_bytes(x)) == x,
{
    lemma_auto_spec_u64_to_from_le_bytes();
}

/// A live frame appended to any log is found again at the offset where it
/// was appended.
pub proof fn lemma_read_appended(s: Seq<u8>, p: Seq<u8>)
    requires
        0 < p.len() <= MAX_LIVE_LEN,
    ensures
        read_frame(s + frame_of(p), s.len() as int) == Some(Some(p)),
{
    lemma_prefix_round_trip(p.len() as u64);
    let t = s + frame_of(p);
    let n = s.len() as int;
    assert(t.subrange(n, n + 8) =~= spec_u64_to_le_bytes(p.len() as u64));
    assert(t.subrange(n + 8, n + 8 + p.len()) =~= p);
}

/// Appending to a log leaves every frame that fitted before as it was.
pub proof fn lemma_read_prefix_stable(s: Seq<u8>, t: Seq<u8>, off: int)
    requires
        read_frame(s, off).is_some(),
    ensures
        read_frame(s + t, off) == read_frame(s, off),
{
    let st = s + t;
    assert(st.subrange(off, off + 8) =~= s.subrange(off, off + 8));
    let u = prefix_at(s, off);
    if signed_of(u) > 0 {
        assert(st.subrange(off + 8, off + 8 + u) =~= s.subrange(off + 8, off + 8 + u));
    }
}

/// Writes the eight bytes of `x`, least significant first, to the end of `out`.
pub fn push_prefix(out: &mut Vec<u8>, x: u64)
    ensures
        final(out)@ == old(out)@ + spec_u64_to_le_bytes(x),
{
    let b = u64_to_le_bytes(x);
    let ghost start = out@;
    let mut i: usize = 0;
    while i < 8
        invariant
            b@ == spec_u64_to_le_bytes(x),
            b@.len() == 8,
            0 <= i <= 8,
            out@ == start + b@.subrange(0, i as int),
        decreases 8 - i,
    {
        out.push(b[i]);
        i = i + 1;
        assert(b@.subrange(0, i as int) =~= b@.subrange(0, i - 1) + seq![b@[i - 1]]);
    }
    assert(b@.subrange(0, 8) =~= b@);
}

/// Appends `p` to the end of `out`.
pub fn push_bytes(out: &mut Vec<u8>, p: &[u8])
    ensures
        final(out)@ == old(out)@ + p@,
{
    let ghost start = out@;
    let mut i: usize = 0;
    while i < p.len()
        invariant
            0 <= i <= p@.len(),
            out@ == start + p@.subrange(0, i as int),
        decreases p@.len() - i,
    {
        out.push(p[i]);
        i = i + 1;
        assert(p@.subrange(0, i as int) =~= p@.subrange(0, i - 1) + seq![p@[i - 1]]);
    }
    assert(p@.subrange(0, p@.len() as int) =~= p@);
}

/// Appends the frame of `p` to the end of `out`.
pub fn append_frame(out: &mut Vec<u8>, p: &[u8])
    requires
        p@.len() <= MAX_LIVE_LEN,
    ensures
        final(out)@ == old(out)@ + frame_of(p@),
{
    push_prefix(out, p.len() as u64);
    push_bytes(out, p);
    assert(old(out)@ + spec_u64_to_le_bytes(p@.len() as u64) + p@ =~= old(out)@ + frame_of(p@));
}

/// Reads the prefix at `off`; the caller has checked that it fits.
pub fn read_prefix(s: &[u8], off: usize) -> (r: u64)
    requires
        off + 8 <= s@.len(),
    ensures
        r == prefix_at(s@, off as int),
{
    let n: usize = s.len();
    let mut b: Vec<u8> = Vec::new();
    let mut i: usize = 0;
    while i < 8
        invariant
            0 <= i <= 8,
            off + 8 <= s@.len(),
            n == s@.len(),
            b@ == s@.subrange(off as int, off + i),
        decreases 8 - i,
    {
        b.push(s[off + i]);
        i = i + 1;
        assert(s@.subrange(off as int, off + i) =~= s@.subrange(off as int, off + i - 1) + seq![s@[off + i - 1]]);
    }
    u64_from_le_bytes(b.as_slice())
}

/// The bytes of `s` from `lo` up to `hi`.
pub fn copy_range(s: &[u8], lo: usize, hi: usize) -> (r: Vec<u8>)
    requires
        lo <= hi <= s@.len(),
    ensures
        r@ == s@.subrange(lo as int, hi as int),
{
    let mut r: Vec<u8> = Vec::new();
    let mut i: usize = lo;
    while i < hi
        invariant
            lo <= i <= hi,
            hi <= s@.len(),
            r@ == s@.subrange(lo as int, i as int),
        decreases hi - i,
    {
        r.push(s[i]);
        i = i + 1;
        assert(s@.subrange(lo as int, i as int) =~= s@.subrange(lo as int, i - 1) + seq![s@[i - 1]]);
    }
    r
}

/// Writes the eight bytes of `x` over those of `s` that start at `off`.
pub fn overwrite_prefix(s: &mut Vec<u8>, off: usize, x: u64)
    requires
        off + 8 <= old(s)@.len(),
    ensures
        final(s)@ == old(s)@.subrange(0, off as int) + spec_u64_to_le_bytes(x) + old(s)@.subrange(
            off + 8,
            old(s)@.len() as int,
        ),
{
    let b = u64_to_le_bytes(x);
    let ghost start = s@;
    let n: usize = s.len();
    let mut i: usize = 0;
    while i < 8
        invariant
            n == start.len(),
            b@ == spec_u64_to_le_bytes(x),
            b@.len() == 8,
            0 <= i <= 8,
            off + 8 <= start.len(),
            s@.len() == start.len(),
            forall|j: int| 0 <= j < off ==> s@[j] == start[j],
            forall|j: int| 0 <= j < i ==> s@[off + j] == b@[j],
            forall|j: int| off + 8 <= j < start.len() ==> s@[j] == start[j],
        decreases 8 - i,
    {
        s.set(off + i, b[i]);
        i = i + 1;
    }
    assert(s@ =~= start.subrange(0, off as int) + b@ + start.subrange(off + 8, start.len() as int));
}

/// The byte sequences that `ps` holds.
pub open spec fn views(ps: Seq<Vec<u8>>) -> Seq<Seq<u8>> {
    ps.map_values(|p: Vec<u8>| p@)
}

/// Every payload is one that a frame marks as live.
pub open spec fn all_live(ps: Seq<Seq<u8>>) -> bool {
    forall|i: int| 0 <= i < ps.len() ==> 0 < (#[trigger] ps[i]).len() <= MAX_LIVE_LEN
}

/// The frames of a log may be read from the front: the first frame, then
/// the rest.
pub proof fn lemma_frames_front(ps: Seq<Seq<u8>>)
    requires
        ps.len() > 0,
    ensures
        frames_of(ps) == frame_of(ps[0]) + frames_of(ps.drop_first()),
    decreases ps.len(),
{
    if ps.len() == 1 {
        assert(ps.drop_last() =~= Seq::<Seq<u8>>::empty());
        assert(ps.drop_first() =~= Seq::<Seq<u8>>::empty());
        assert(frames_of(ps) =~= frame_of(ps[0]) + frames_of(ps.drop_first()));
    } else {
        lemma_frames_front(ps.drop_last());
        assert(ps.drop_first().drop_last() =~= ps.drop_last().drop_first());
        assert(ps.drop_first().last() == ps.last());
        assert(ps.drop_last()[0] == ps[0]);
        assert(frames_of(ps) =~= frame_of(ps[0]) + frames_of(ps.drop_first()));
    }
}

/// A scan that starts inside the second part of a log sees only that part.
pub proof fn lemma_scan_shift(x: Seq<u8>, y: Seq<u8>, o: int)
    requires
        o >= 0,
    ensures
        scan_from(x + y, x.len() + o) == scan_from(y, o),
    decreases y.len() - o,
{
    let xy = x + y;
    let a = x.len() + o;
    if o + 8 <= y.len() {
        assert(xy.subrange(a, a + 8) =~= y.subrange(o, o + 8));
        let v = signed_of(prefix_at(y, o));
        let n = if v < 0 { -v } else { v };
        if o + 8 + n <= y.len() {
            assert(xy.subrange(a + 8, a + 8 + n) =~= y.subrange(o + 8, o + 8 + n));
            lemma_scan_shift(x, y, o + 8 + n);
        }
    }
}

/// Scanning a log written by framing live payloads one after the other
/// gives back those payloads, in order.
pub proof fn lemma_scan_frames(ps: Seq<Seq<u8>>)
    requires
        all_live(ps),
    ensures
        scan_from(frames_of(ps), 0) == ps,
    decreases ps.len(),
{
    if ps.len() == 0 {
        assert(frames_of(ps) =~= Seq::<u8>::empty());
        assert(scan_from(frames_of(ps), 0) =~= ps);
    } else {
        let p = ps[0];
        let rest = frames_of(ps.drop_first());
        lemma_frames_front(ps);
        lemma_prefix_round_trip(p.len() as u64);
        let t = frame_of(p) + rest;
        assert(t.subrange(0, 8) =~= spec_u64_to_le_bytes(p.len() as u64));
        assert(t.subrange(8, 8 + p.len() as int) =~= p);
        assert(all_live(ps.drop_first())) by {
            assert forall|i: int| 0 <= i < ps.drop_first().len() implies 0 < (#[trigger] ps.drop_first()[i]).len() <= MAX_LIVE_LEN by {
                assert(ps.drop_first()[i] == ps[i + 1]);
            }
        }
        lemma_scan_frames(ps.drop_first());
        lemma_scan_shift(frame_of(p), rest, 0);
        assert(scan_from(t, 0) == seq![p] + scan_from(t, 8 + p.len() as int));
        assert(seq![p] + ps.drop_first() =~= ps);
    }
}

/// Frames each payload of `ps`, one after the other: the bytes of a log.
pub fn frame_log(ps: &Vec<Vec<u8>>) -> (r: Vec<u8>)
    requires
        forall|i: int| 0 <= i < ps@.len() ==> (#[trigger] ps@[i])@.len() <= MAX_LIVE_LEN,
    ensures
        r@ == frames_of(views(ps@)),
{
    let mut r: Vec<u8> = Vec::new();
    let mut i: usize = 0;
    while i < ps.len()
        invariant
            0 <= i <= ps@.len(),
            forall|j: int| 0 <= j < ps@.len() ==> (#[trigger] ps@[j])@.len() <= MAX_LIVE_LEN,
            r@ == frames_of(views(ps@).subrange(0, i as int)),
        decreases ps@.len() - i,
    {
        append_frame(&mut r, ps[i].as_slice());
        proof {
            let vs = views(ps@);
            assert(vs.subrange(0, i + 1).drop_last() =~= vs.subrange(0, i as int));
            assert(vs.subrange(0, i + 1).last() == ps@[i as int]@);
        }
        i = i + 1;
    }
    assert(views(ps@).subrange(0, ps@.len() as int) =~= views(ps@));
    r
}

/// The live payloads of a log, read front to back: a dead frame is skipped
/// by its length, a frame that does not fit ends the scan.
pub fn split_frames(s: &Vec<u8>) -> (r: Vec<Vec<u8>>)
    ensures
        views(r@) == scan_from(s@, 0),
{
    let n: usize = s.len();
    let mut r: Vec<Vec<u8>> = Vec::new();
    let mut off: usize = 0;
    let mut done: bool = false;
    while !done && n - off >= 8
        invariant
            n == s@.len(),
            off <= n,
            done ==> scan_from(s@, off as int) == Seq::<Seq<u8>>::empty(),
            views(r@) + scan_from(s@, off as int) == scan_from(s@, 0),
        decreases n - off + if done { 0int } else { 1int },
    {
        let u: u64 = read_prefix(s.as_slice(), off);
        let len: u64 = if u <= MAX_LIVE_LEN { u } else { u64::MAX - u + 1 };
        if len > (n - off - 8) as u64 {
            assert(scan_from(s@, off as int) == Seq::<Seq<u8>>::empty());
            done = true;
        } else {
        let next: usize = off + 8 + len as usize;
        if u > 0 && u <= MAX_LIVE_LEN {
            let p = copy_range(s.as_slice(), off + 8, next);
            let ghost before = r@;
            r.push(p);
            assert(views(r@) =~= views(before).push(p@));
            assert(views(r@) + scan_from(s@, next as int) =~= views(before) + scan_from(s@, off as int));
        }
        off = next;
        }
    }
    assert(scan_from(s@, off as int) == Seq::<Seq<u8>>::empty());
    assert(views(r@) =~= views(r@) + scan_from(s@, off as int));
    r
}

} // verus!
