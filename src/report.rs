//! Ordering of a tally for reporting, and the percentages of its summary.

use vstd::multiset::Multiset;
use vstd::prelude::*;

verus! {

/// `a` is listed before `b`: a higher count first, and among equal counts
/// the lower codepoint first.
pub open spec fn precedes(a: (u32, u64), b: (u32, u64)) -> bool {
    a.1 > b.1 || (a.1 == b.1 && a.0 < b.0)
}

/// Every entry is listed before every later one.
pub open spec fn strictly_ordered(s: Seq<(u32, u64)>) -> bool {
    forall|i: int, j: int| 0 <= i < j < s.len() ==> precedes(#[trigger] s[i], #[trigger] s[j])
}

/// `s` lists each codepoint of `m` once with its count, in report order.
pub open spec fn lists_counts(s: Seq<(u32, u64)>, m: Multiset<u32>) -> bool {
    &&& strictly_ordered(s)
    &&& forall|i: int|
        0 <= i < s.len() ==> #[trigger] s[i].1 == m.count(s[i].0) && s[i].1 > 0
    &&& forall|cp: u32| #[trigger] m.count(cp) > 0 ==> exists|i: int|
        0 <= i < s.len() && #[trigger] s[i].0 == cp
}

/// Puts `x` into an ordered list at its place.
pub fn insert_ordered(v: &mut Vec<(u32, u64)>, x: (u32, u64))
    requires
        strictly_ordered(old(v)@),
        forall|k: int| 0 <= k < old(v)@.len() ==> (#[trigger] old(v)@[k]).0 != x.0,
    ensures
        strictly_ordered(final(v)@),
        final(v)@.len() == old(v)@.len() + 1,
        forall|y: (u32, u64)| #[trigger] final(v)@.contains(y) <==> (old(v)@.contains(y) || y == x),
{
    let mut pos: usize = 0;
    while pos < v.len() && precedes_exec(v[pos], x)
        invariant
            pos <= v@.len(),
            forall|k: int| 0 <= k < pos ==> precedes(#[trigger] v@[k], x),
        decreases v@.len() - pos,
    {
        pos = pos + 1;
    }
    let ghost before = v@;
    v.insert(pos, x);
    proof {
        assert(v@ == before.insert(pos as int, x));
        assert forall|k: int| pos < k < v@.len() implies precedes(x, #[trigger] v@[k]) by {
            assert(v@[k] == before[k - 1]);
            assert(!precedes(before[pos as int], x));
            assert(before[pos as int].0 != x.0);
        }
        assert forall|y: (u32, u64)| #[trigger] v@.contains(y) <==> (before.contains(y) || y
            == x) by {
            if v@.contains(y) {
                let k = choose|k: int| 0 <= k < v@.len() && v@[k] == y;
                if k < pos {
                    assert(before[k] == y);
                } else if k > pos {
                    assert(before[k - 1] == y);
                }
            }
            if before.contains(y) {
                let k = choose|k: int| 0 <= k < before.len() && before[k] == y;
                if k < pos {
                    assert(v@[k] == y);
                } else {
                    assert(v@[k + 1] == y);
                }
            }
            if y == x {
                assert(v@[pos as int] == y);
            }
        }
    }
}

fn precedes_exec(a: (u32, u64), b: (u32, u64)) -> (r: bool)
    ensures
        r == precedes(a, b),
{
    a.1 > b.1 || (a.1 == b.1 && a.0 < b.0)
}

/// Two lists in report order that hold the same entries are the same list.
proof fn lemma_ordered_same_entries(a: Seq<(u32, u64)>, b: Seq<(u32, u64)>)
    requires
        strictly_ordered(a),
        strictly_ordered(b),
        forall|x: (u32, u64)| #[trigger] a.contains(x) <==> b.contains(x),
    ensures
        a == b,
    decreases a.len(),
{
    if a.len() == 0 {
        if b.len() > 0 {
            assert(b.contains(b[0]));
            assert(a.contains(b[0]));
        }
        assert(a =~= b);
    } else {
        assert(a.contains(a[0]));
        assert(b.len() > 0);
        assert(b.contains(b[0]));
        assert(a.contains(b[0]));
        assert(b.contains(a[0]));
        let k = choose|k: int| 0 <= k < b.len() && b[k] == a[0];
        let m = choose|m: int| 0 <= m < a.len() && a[m] == b[0];
        if k > 0 {
            assert(precedes(b[0], b[k]));
            if m > 0 {
                assert(precedes(a[0], a[m]));
            }
        }
        assert(a[0] == b[0]);
        let ta = a.drop_first();
        let tb = b.drop_first();
        assert forall|x: (u32, u64)| #[trigger] ta.contains(x) <==> tb.contains(x) by {
            if ta.contains(x) {
                let j = choose|j: int| 0 <= j < ta.len() && ta[j] == x;
                assert(a[j + 1] == x);
                assert(precedes(a[0], a[j + 1]));
                assert(a.contains(x));
                let l = choose|l: int| 0 <= l < b.len() && b[l] == x;
                assert(l != 0);
                assert(tb[l - 1] == x);
            }
            if tb.contains(x) {
                let j = choose|j: int| 0 <= j < tb.len() && tb[j] == x;
                assert(b[j + 1] == x);
                assert(precedes(b[0], b[j + 1]));
                assert(b.contains(x));
                assert(a.contains(x));
                let l = choose|l: int| 0 <= l < a.len() && a[l] == x;
                assert(l != 0);
                assert(ta[l - 1] == x);
            }
        }
        lemma_ordered_same_entries(ta, tb);
        assert(a =~= b) by {
            assert forall|i: int| 0 <= i < a.len() implies a[i] == b[i] by {
                if i > 0 {
                    assert(a[i] == ta[i - 1]);
                    assert(b[i] == tb[i - 1]);
                }
            }
        }
    }
}

/// The report order of a tally is determined by the tally alone: any two
/// listings of the same codepoint counts are identical.
pub proof fn lemma_listing_unique(a: Seq<(u32, u64)>, b: Seq<(u32, u64)>, m: Multiset<u32>)
    requires
        lists_counts(a, m),
        lists_counts(b, m),
    ensures
        a == b,
{
    assert forall|x: (u32, u64)| #[trigger] a.contains(x) implies b.contains(x) by {
        let i = choose|i: int| 0 <= i < a.len() && a[i] == x;
        assert(a[i].1 > 0);
        assert(m.count(a[i].0) > 0);
        let j = choose|j: int| 0 <= j < b.len() && #[trigger] b[j].0 == x.0;
        assert(b[j] == x);
    }
    assert forall|x: (u32, u64)| #[trigger] b.contains(x) implies a.contains(x) by {
        let i = choose|i: int| 0 <= i < b.len() && b[i] == x;
        assert(b[i].1 > 0);
        assert(m.count(b[i].0) > 0);
        let j = choose|j: int| 0 <= j < a.len() && #[trigger] a[j].0 == x.0;
        assert(a[j] == x);
    }
    lemma_ordered_same_entries(a, b);
}

/// The summary of one tally.
pub struct Summary {
    /// Number of ASCII codepoints counted.
    pub ascii: u64,
    /// Their share of the total, in hundredths of a percent.
    pub ascii_hundredths: u64,
    /// Number of non-ASCII codepoints counted.
    pub non_ascii: u64,
    /// Their share of the total, in hundredths of a percent.
    pub non_ascii_hundredths: u64,
}

/// `part` as a share of `total` in hundredths of a percent, rounded to the
/// nearest with halves up; zero when `total` is zero.
pub fn percent_hundredths(part: u64, total: u64) -> (r: u64)
    requires
        part <= total,
    ensures
        total == 0 ==> r == 0,
        total > 0 ==> r == (20000 * part + total) / (2 * total),
        r <= 10000,
{
    if total == 0 {
        return 0;
    }
    let num: u128 = 20000u128 * (part as u128) + (total as u128);
    let den: u128 = 2u128 * (total as u128);
    let q: u128 = num / den;
    proof {
        let p = part as int;
        let t = total as int;
        assert(20000 * p + t <= 20001 * t) by (nonlinear_arith)
            requires
                p <= t,
        ;
        assert((20000 * p + t) / (2 * t) <= 10000) by (nonlinear_arith)
            requires
                20000 * p + t <= 20001 * t,
                t > 0,
        ;
    }
    q as u64
}

} // verus!
