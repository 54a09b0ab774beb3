//! Segment file names: `file_<id>.bdd`, with `<id>` in decimal.
use vstd::prelude::*;

verus! {

/// The bytes of `file_`.
pub open spec fn name_head() -> Seq<u8> {
    seq![102u8, 105u8, 108u8, 101u8, 95u8]
}

/// The bytes of `.bdd`.
pub open spec fn name_tail() -> Seq<u8> {
    seq![46u8, 98u8, 100u8, 100u8]
}

pub open spec fn is_digit(b: u8) -> bool {
    48 <= b <= 57
}

/// The number that the decimal digits `ds` write.
pub open spec fn digits_value(ds: Seq<u8>) -> nat
    decreases ds.len(),
{
    if ds.len() == 0 {
        0
    } else {
        digits_value(ds.drop_last()) * 10 + (ds.last() - 48) as nat
    }
}

/// The id that a segment file name gives: `file_`, at least one decimal
/// digit, `.bdd`, and a value that fits in 64 bits. Any other name gives
/// none.
pub open spec fn parse_segment_name(s: Seq<u8>) -> Option<u64> {
    if s.len() >= 10 && s.subrange(0, 5) == name_head() && s.subrange(s.len() - 4, s.len() as int) == name_tail() {
        let ds = s.subrange(5, s.len() - 4);
        if (forall|i: int| 0 <= i < ds.len() ==> is_digit(#[trigger] ds[i])) && digits_value(ds) <= u64::MAX {
            Some(digits_value(ds) as u64)
        } else {
            None
        }
    } else {
        None
    }
}

proof fn lemma_digits_grow(ds: Seq<u8>, i: int)
    requires
        0 <= i <= ds.len(),
        forall|j: int| 0 <= j < ds.len() ==> is_digit(#[trigger] ds[j]),
    ensures
        digits_value(ds.subrange(0, i)) <= digits_value(ds),
    decreases ds.len() - i,
{
    if i < ds.len() {
        let t = ds.subrange(0, i + 1);
        assert(t.drop_last() =~= ds.subrange(0, i));
        assert(digits_value(t) >= digits_value(ds.subrange(0, i))) by (nonlinear_arith)
            requires
                digits_value(t) == digits_value(ds.subrange(0, i)) * 10 + (t.last() - 48) as nat,
        ;
        lemma_digits_grow(ds, i + 1);
    } else {
        assert(ds.subrange(0, i) =~= ds);
    }
}

/// The segment id that file name `name` gives, if it is one.
pub fn segment_id_of(name: &[u8]) -> (r: Option<u64>)
    ensures
        r == parse_segment_name(name@),
{
    let n: usize = name.len();
    if n < 10 || name[0] != 102 || name[1] != 105 || name[2] != 108 || name[3] != 101 || name[4] != 95
        || name[n - 4] != 46 || name[n - 3] != 98 || name[n - 2] != 100 || name[n - 1] != 100 {
        proof {
            if n >= 10 {
                if name@.subrange(0, 5) == name_head() {
                    assert(name@[0] == name@.subrange(0, 5)[0]);
                    assert(name@[1] == name@.subrange(0, 5)[1]);
                    assert(name@[2] == name@.subrange(0, 5)[2]);
                    assert(name@[3] == name@.subrange(0, 5)[3]);
                    assert(name@[4] == name@.subrange(0, 5)[4]);
                }
                let t = name@.subrange(n - 4, n as int);
                if t == name_tail() {
                    assert(name@[n - 4] == t[0]);
                    assert(name@[n - 3] == t[1]);
                    assert(name@[n - 2] == t[2]);
                    assert(name@[n - 1] == t[3]);
                }
            }
        }
        return None;
    }
    assert(name@.subrange(0, 5) =~= name_head());
    assert(name@.subrange(n - 4, n as int) =~= name_tail());
    let ghost ds = name@.subrange(5, n - 4);
    let mut acc: u64 = 0;
    let mut i: usize = 5;
    while i < n - 4
        invariant
            n == name@.len(),
            n >= 10,
            5 <= i <= n - 4,
            ds == name@.subrange(5, n - 4),
            forall|j: int| 0 <= j < i - 5 ==> is_digit(#[trigger] ds[j]),
            acc == digits_value(ds.subrange(0, i - 5)),
        decreases n - 4 - i,
    {
        let b: u8 = name[i];
        if b < 48 || b > 57 {
            assert(!is_digit(ds[i - 5]));
            return None;
        }
        let d: u64 = (b - 48) as u64;
        let ghost t = ds.subrange(0, i - 4);
        assert(t.drop_last() =~= ds.subrange(0, i - 5));
        assert(t.last() == b);
        if acc > 1844674407370955161 || (acc == 1844674407370955161 && d > 5) {
            proof {
                assert(digits_value(t) > u64::MAX) by (nonlinear_arith)
                    requires
                        digits_value(t) == acc * 10 + d,
                        acc > 1844674407370955161 || (acc == 1844674407370955161 && d > 5),
                ;
                if forall|j: int| 0 <= j < ds.len() ==> is_digit(#[trigger] ds[j]) {
                    lemma_digits_grow(ds, i - 4);
                }
            }
            return None;
        }
        acc = acc * 10 + d;
        i = i + 1;
    }
    assert(ds.subrange(0, ds.len() as int) =~= ds);
    Some(acc)
}

} // verus!
