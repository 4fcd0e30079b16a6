//! A tally of codepoints with its running totals.

use crate::text::{
    ascii_codepoint, clusters_of, decode_utf8, first_char, is_ascii_codepoint, is_control,
    is_control_char, is_control_codepoint, leading_scalars, strings_view, tallied, text_tally,
    to_graphemes, to_nfc, utf8_decoded,
};
use crate::report::{insert_ordered, lists_counts, percent_hundredths, strictly_ordered, Summary};
use vstd::multiset::Multiset;
use vstd::prelude::*;

verus! {

/// Why a text was not accounted.
#[derive(Clone, Copy, Debug, PartialEq, Eq, Structural)]
pub enum AccountError {
    /// The bytes are not well-formed UTF-8.
    InvalidUtf8,
    /// The text would take the tally's total past `u64::MAX`.
    TotalOverflow,
}

/// The ASCII codepoints of a multiset.
pub open spec fn ascii_part(m: Multiset<u32>) -> Multiset<u32> {
    m.filter(|cp: u32| is_ascii_codepoint(cp))
}

/// The non-ASCII codepoints of a multiset.
pub open spec fn non_ascii_part(m: Multiset<u32>) -> Multiset<u32> {
    m.filter(|cp: u32| !is_ascii_codepoint(cp))
}

/// Filtering commutes with adding one element.
proof fn lemma_filter_insert(m: Multiset<u32>, v: u32, f: spec_fn(u32) -> bool)
    ensures
        m.insert(v).filter(f) == (if f(v) {
            m.filter(f).insert(v)
        } else {
            m.filter(f)
        }),
{
    broadcast use vstd::multiset::group_multiset_axioms;

    assert(m.insert(v).filter(f) =~= (if f(v) {
        m.filter(f).insert(v)
    } else {
        m.filter(f)
    }));
}

/// Every codepoint a text contributes is ASCII or not: the contribution's
/// size is its ASCII count plus its non-ASCII count.
pub proof fn lemma_ascii_split(text: Seq<char>)
    ensures
        text_tally(text).len() == ascii_part(text_tally(text)).len() + non_ascii_part(
            text_tally(text),
        ).len(),
{
    lemma_ascii_split_scalars(leading_scalars(clusters_of(text)));
}

/// No control character is ever counted, and the ASCII count of a text's
/// contribution counts exactly its codepoints up to U+007F.
pub proof fn lemma_counted_characters(text: Seq<char>)
    ensures
        forall|cp: u32| is_control_codepoint(cp) ==> #[trigger] text_tally(text).count(cp) == 0,
        forall|cp: u32| #[trigger]
            ascii_part(text_tally(text)).count(cp) == if cp <= 0x7f {
                text_tally(text).count(cp)
            } else {
                0
            },
{
    lemma_counted_scalars(leading_scalars(clusters_of(text)));
}

proof fn lemma_ascii_split_scalars(cs: Seq<char>)
    ensures
        tallied(cs).len() == ascii_part(tallied(cs)).len() + non_ascii_part(tallied(cs)).len(),
    decreases cs.len(),
{
    broadcast use vstd::multiset::group_multiset_axioms;

    if cs.len() == 0 {
        assert(ascii_part(tallied(cs)) =~= Multiset::empty());
        assert(non_ascii_part(tallied(cs)) =~= Multiset::empty());
    } else {
        let rest = cs.drop_last();
        lemma_ascii_split_scalars(rest);
        if !is_control_char(cs.last()) {
            let cp = cs.last() as u32;
            lemma_filter_insert(tallied(rest), cp, |c: u32| is_ascii_codepoint(c));
            lemma_filter_insert(tallied(rest), cp, |c: u32| !is_ascii_codepoint(c));
        }
    }
}

proof fn lemma_counted_scalars(cs: Seq<char>)
    ensures
        forall|cp: u32| is_control_codepoint(cp) ==> #[trigger] tallied(cs).count(cp) == 0,
        forall|cp: u32| #[trigger]
            ascii_part(tallied(cs)).count(cp) == if cp <= 0x7f {
                tallied(cs).count(cp)
            } else {
                0
            },
    decreases cs.len(),
{
    broadcast use vstd::multiset::group_multiset_axioms;

    if cs.len() > 0 {
        let rest = cs.drop_last();
        lemma_counted_scalars(rest);
        assert forall|cp: u32| is_control_codepoint(cp) implies #[trigger] tallied(cs).count(cp)
            == 0 by {
            let x = cs.last();
            assert(tallied(rest).count(cp) == 0);
            if !is_control_char(x) {
                assert(tallied(cs) == tallied(rest).insert(x as u32));
                assert(x as u32 != cp);
                assert(tallied(rest).insert(x as u32).count(cp) == 0);
            } else {
                assert(tallied(cs) == tallied(rest));
            }
        }
    }
}

/// The order in which texts are accounted does not matter: accounting `a`
/// then `b` gives the tally that accounting `b` then `a` gives.
pub proof fn lemma_order_independent(m: Multiset<u32>, a: Seq<char>, b: Seq<char>)
    ensures
        m.add(text_tally(a)).add(text_tally(b)) == m.add(text_tally(b)).add(text_tally(a)),
{
    broadcast use vstd::multiset::group_multiset_axioms;

    assert(m.add(text_tally(a)).add(text_tally(b)) =~= m.add(text_tally(b)).add(text_tally(a)));
}

/// Merging is a commutative and associative fold: partial tallies can be
/// combined in any order and grouping.
pub proof fn lemma_merge_fold(a: Multiset<u32>, b: Multiset<u32>, c: Multiset<u32>)
    ensures
        a.add(b) == b.add(a),
        a.add(b).add(c) == a.add(b.add(c)),
{
    broadcast use vstd::multiset::group_multiset_axioms;

    assert(a.add(b) =~= b.add(a));
    assert(a.add(b).add(c) =~= a.add(b.add(c)));
}

/// `n` occurrences of `cp`.
pub open spec fn copies(cp: u32, n: nat) -> Multiset<u32>
    decreases n,
{
    if n == 0 {
        Multiset::empty()
    } else {
        copies(cp, (n - 1) as nat).insert(cp)
    }
}

proof fn lemma_copies(cp: u32, n: nat)
    ensures
        copies(cp, n).len() == n,
        copies(cp, n).count(cp) == n,
        forall|c: u32| c != cp ==> #[trigger] copies(cp, n).count(c) == 0,
        ascii_part(copies(cp, n)) == (if is_ascii_codepoint(cp) {
            copies(cp, n)
        } else {
            Multiset::empty()
        }),
        non_ascii_part(copies(cp, n)) == (if is_ascii_codepoint(cp) {
            Multiset::empty()
        } else {
            copies(cp, n)
        }),
    decreases n,
{
    broadcast use vstd::multiset::group_multiset_axioms;

    if n == 0 {
        assert(ascii_part(copies(cp, n)) =~= Multiset::empty());
        assert(non_ascii_part(copies(cp, n)) =~= Multiset::empty());
    } else {
        let prev = copies(cp, (n - 1) as nat);
        lemma_copies(cp, (n - 1) as nat);
        lemma_filter_insert(prev, cp, |c: u32| is_ascii_codepoint(c));
        lemma_filter_insert(prev, cp, |c: u32| !is_ascii_codepoint(c));
    }
}

/// Filtering distributes over the sum of two multisets.
proof fn lemma_filter_add(a: Multiset<u32>, b: Multiset<u32>, f: spec_fn(u32) -> bool)
    ensures
        a.add(b).filter(f) == a.filter(f).add(b.filter(f)),
{
    broadcast use vstd::multiset::group_multiset_axioms;

    assert(a.add(b).filter(f) =~= a.filter(f).add(b.filter(f)));
}

/// The codepoints that the first `i` entries stand for.
spec fn entries_sum(es: Seq<(u32, u64)>, i: int) -> Multiset<u32>
    decreases i,
{
    if i <= 0 {
        Multiset::empty()
    } else {
        entries_sum(es, i - 1).add(copies(es[i - 1].0, es[i - 1].1 as nat))
    }
}

proof fn lemma_entries_sum(es: Seq<(u32, u64)>, i: int)
    requires
        0 <= i <= es.len(),
        forall|j: int, k: int| 0 <= j < k < es.len() ==> es[j].0 != es[k].0,
    ensures
        forall|k: int| 0 <= k < i ==> entries_sum(es, i).count(#[trigger] es[k].0) == es[k].1,
        forall|c: u32|
            (forall|k: int| 0 <= k < i ==> es[k].0 != c) ==> #[trigger] entries_sum(es, i).count(c)
                == 0,
        forall|j: int| 0 <= j <= i ==> #[trigger] entries_sum(es, j).len() <= entries_sum(es, i).len(),
    decreases i,
{
    broadcast use vstd::multiset::group_multiset_axioms;

    if i > 0 {
        lemma_entries_sum(es, i - 1);
        let last = es[i - 1];
        let prev = entries_sum(es, i - 1);
        lemma_copies(last.0, last.1 as nat);
        assert(entries_sum(es, i) == prev.add(copies(last.0, last.1 as nat)));
        assert forall|k: int| 0 <= k < i implies entries_sum(es, i).count(#[trigger] es[k].0)
            == es[k].1 by {
            if k < i - 1 {
                assert(es[k].0 != last.0);
                assert(prev.count(es[k].0) == es[k].1);
            } else {
                assert(prev.count(last.0) == 0);
            }
        }
        assert forall|c: u32|
            (forall|k: int| 0 <= k < i ==> es[k].0 != c) implies #[trigger] entries_sum(es, i).count(
            c) == 0 by {
            assert(forall|k: int| 0 <= k < i - 1 ==> es[k].0 != c);
            assert(prev.count(c) == 0);
            assert(last.0 != c);
        }
    }
}

/// Occurrence counts of codepoints, kept with the number of codepoints
/// counted and the number of those that are ASCII.
pub struct Tally {
    entries: Vec<(u32, u64)>,
    total: u64,
    ascii: u64,
    chars: Ghost<Multiset<u32>>,
}

impl Tally {
    /// The codepoints counted, each as often as it was counted.
    pub closed spec fn view(&self) -> Multiset<u32> {
        self.chars@
    }

    /// The entries hold each counted codepoint once with its count, and the
    /// totals agree with the codepoints counted.
    pub closed spec fn wf(&self) -> bool {
        &&& forall|i: int, j: int|
            0 <= i < j < self.entries@.len() ==> self.entries@[i].0 != self.entries@[j].0
        &&& forall|i: int|
            0 <= i < self.entries@.len() ==> {
                &&& #[trigger] self.entries@[i].1 == self.chars@.count(self.entries@[i].0)
                &&& self.entries@[i].1 > 0
                &&& self.entries@[i].1 <= self.total
            }
        &&& forall|cp: u32|
            #[trigger] self.chars@.count(cp) > 0 ==> exists|i: int|
                0 <= i < self.entries@.len() && #[trigger] self.entries@[i].0 == cp
        &&& self.total == self.chars@.len()
        &&& self.ascii == ascii_part(self.chars@).len()
        &&& self.total - self.ascii == non_ascii_part(self.chars@).len()
    }

    /// An empty tally.
    pub fn new() -> (r: Tally)
        ensures
            r.wf(),
            r@ == Multiset::<u32>::empty(),
    {
        broadcast use vstd::multiset::group_multiset_axioms;

        let r = Tally { entries: Vec::new(), total: 0, ascii: 0, chars: Ghost(Multiset::empty()) };
        assert(ascii_part(r.chars@) =~= Multiset::empty());
        assert(non_ascii_part(r.chars@) =~= Multiset::empty());
        r
    }

    /// Number of codepoints counted.
    pub fn total_chars(&self) -> (r: u64)
        requires
            self.wf(),
        ensures
            r == self@.len(),
    {
        self.total
    }

    /// Number of ASCII codepoints counted.
    pub fn ascii_chars(&self) -> (r: u64)
        requires
            self.wf(),
        ensures
            r == ascii_part(self@).len(),
    {
        self.ascii
    }

    /// Number of non-ASCII codepoints counted.
    pub fn non_ascii_chars(&self) -> (r: u64)
        requires
            self.wf(),
        ensures
            r == non_ascii_part(self@).len(),
    {
        self.total - self.ascii
    }

    /// Position of `cp` among the entries, if counted.
    fn find(&self, cp: u32) -> (r: Option<usize>)
        requires
            self.wf(),
        ensures
            match r {
                Some(i) => i < self.entries@.len() && self.entries@[i as int].0 == cp,
                None => self@.count(cp) == 0,
            },
    {
        let mut i: usize = 0;
        while i < self.entries.len()
            invariant
                self.wf(),
                i <= self.entries@.len(),
                forall|k: int| 0 <= k < i ==> self.entries@[k].0 != cp,
            decreases self.entries@.len() - i,
        {
            if self.entries[i].0 == cp {
                return Some(i);
            }
            i = i + 1;
        }
        None
    }

    /// How often `cp` was counted.
    pub fn count_of(&self, cp: u32) -> (r: u64)
        requires
            self.wf(),
        ensures
            r == self@.count(cp),
    {
        match self.find(cp) {
            Some(i) => self.entries[i].1,
            None => 0,
        }
    }

    /// Counts one more occurrence of `cp`.
    pub fn record(&mut self, cp: u32)
        requires
            old(self).wf(),
            old(self)@.len() < u64::MAX,
        ensures
            final(self).wf(),
            final(self)@ == old(self)@.insert(cp),
    {
        broadcast use vstd::multiset::group_multiset_axioms;

        let ghost before = self.chars@;
        proof {
            lemma_filter_insert(before, cp, |c: u32| is_ascii_codepoint(c));
            lemma_filter_insert(before, cp, |c: u32| !is_ascii_codepoint(c));
        }
        let ghost old_entries = self.entries@;
        let ghost pos: int;
        match self.find(cp) {
            Some(i) => {
                let n = self.entries[i].1;
                self.entries.set(i, (cp, n + 1));
                proof {
                    pos = i as int;
                }
            },
            None => {
                self.entries.push((cp, 1));
                proof {
                    pos = old_entries.len() as int;
                    assert forall|k: int| 0 <= k < old_entries.len() implies old_entries[k].0
                        != cp by {
                        assert(old_entries[k].1 == before.count(old_entries[k].0));
                    }
                }
            },
        }
        self.total = self.total + 1;
        if ascii_codepoint(cp) {
            self.ascii = self.ascii + 1;
        }
        self.chars = Ghost(before.insert(cp));
        proof {
            assert(0 <= pos < self.entries@.len() && self.entries@[pos].0 == cp);
            assert forall|k: int| 0 <= k < self.entries@.len() && k != pos implies #[trigger]
                self.entries@[k] == old_entries[k] && old_entries[k].0 != cp by {}
            assert forall|c: u32| #[trigger] self.chars@.count(c) > 0 implies exists|j: int|
                0 <= j < self.entries@.len() && #[trigger] self.entries@[j].0 == c by {
                if c != cp {
                    assert(before.count(c) > 0);
                    let j = choose|j: int| 0 <= j < old_entries.len() && old_entries[j].0 == c;
                    assert(self.entries@[j] == old_entries[j]);
                } else {
                    assert(self.entries@[pos].0 == c);
                }
            }
        }
    }

    /// Counts `n` more occurrences of `cp`.
    fn add_count(&mut self, cp: u32, n: u64)
        requires
            old(self).wf(),
            n > 0,
            old(self)@.len() + n <= u64::MAX,
        ensures
            final(self).wf(),
            final(self)@ == old(self)@.add(copies(cp, n as nat)),
    {
        broadcast use vstd::multiset::group_multiset_axioms;

        let ghost before = self.chars@;
        let ghost added = copies(cp, n as nat);
        proof {
            lemma_copies(cp, n as nat);
            lemma_filter_add(before, added, |c: u32| is_ascii_codepoint(c));
            lemma_filter_add(before, added, |c: u32| !is_ascii_codepoint(c));
        }
        let ghost old_entries = self.entries@;
        let ghost pos: int;
        match self.find(cp) {
            Some(i) => {
                let m = self.entries[i].1;
                self.entries.set(i, (cp, m + n));
                proof {
                    pos = i as int;
                }
            },
            None => {
                self.entries.push((cp, n));
                proof {
                    pos = old_entries.len() as int;
                    assert forall|k: int| 0 <= k < old_entries.len() implies old_entries[k].0
                        != cp by {
                        assert(old_entries[k].1 == before.count(old_entries[k].0));
                    }
                }
            },
        }
        self.total = self.total + n;
        if ascii_codepoint(cp) {
            self.ascii = self.ascii + n;
        }
        self.chars = Ghost(before.add(added));
        proof {
            assert(0 <= pos < self.entries@.len() && self.entries@[pos].0 == cp);
            assert forall|k: int| 0 <= k < self.entries@.len() && k != pos implies #[trigger]
                self.entries@[k] == old_entries[k] && old_entries[k].0 != cp by {}
            assert forall|k: int| 0 <= k < self.entries@.len() implies #[trigger]
                self.entries@[k].1 <= self.total by {
                assert(self.chars@.count(self.entries@[k].0) <= self.chars@.len());
            }
            assert forall|c: u32| #[trigger] self.chars@.count(c) > 0 implies exists|j: int|
                0 <= j < self.entries@.len() && #[trigger] self.entries@[j].0 == c by {
                if c != cp {
                    assert(before.count(c) > 0);
                    let j = choose|j: int| 0 <= j < old_entries.len() && old_entries[j].0 == c;
                    assert(self.entries@[j] == old_entries[j]);
                } else {
                    assert(self.entries@[pos].0 == c);
                }
            }
        }
    }

    /// Folds `other` into this tally: counts and totals add. Refused, with
    /// the tally left as it was, when the total would pass `u64::MAX`.
    pub fn merge(&mut self, other: &Tally) -> (r: Result<(), AccountError>)
        requires
            old(self).wf(),
            other.wf(),
        ensures
            final(self).wf(),
            if old(self)@.len() + other@.len() <= u64::MAX {
                &&& r == Ok::<(), AccountError>(())
                &&& final(self)@ == old(self)@.add(other@)
            } else {
                &&& r == Err::<(), AccountError>(AccountError::TotalOverflow)
                &&& final(self)@ == old(self)@
            },
    {
        broadcast use vstd::multiset::group_multiset_axioms;

        if other.total > u64::MAX - self.total {
            return Err(AccountError::TotalOverflow);
        }
        let ghost start = self@;
        let ghost es = other.entries@;
        let n = other.entries.len();
        proof {
            lemma_entries_sum(es, n as int);
            assert forall|c: u32| #[trigger] entries_sum(es, n as int).count(c) == other@.count(c) by {
                if other@.count(c) > 0 {
                    let k = choose|k: int| 0 <= k < es.len() && es[k].0 == c;
                    assert(es[k].1 == other@.count(es[k].0));
                } else {
                    assert forall|k: int| 0 <= k < n implies es[k].0 != c by {
                        assert(es[k].1 == other@.count(es[k].0));
                    }
                }
            }
            assert(entries_sum(es, n as int) =~= other@);
            assert(entries_sum(es, 0) =~= Multiset::empty());
            assert(start.add(Multiset::empty()) =~= start);
        }
        let mut i: usize = 0;
        while i < n
            invariant
                self.wf(),
                other.wf(),
                es == other.entries@,
                n == es.len(),
                i <= n,
                entries_sum(es, n as int) == other@,
                start.len() + other@.len() <= u64::MAX,
                self@ == start.add(entries_sum(es, i as int)),
                forall|j: int| 0 <= j <= n ==> #[trigger] entries_sum(es, j).len() <= other@.len(),
            decreases n - i,
        {
            let (cp, m) = other.entries[i];
            proof {
                lemma_copies(cp, m as nat);
                assert(entries_sum(es, i + 1) == entries_sum(es, i as int).add(copies(cp, m as nat)));
                assert(entries_sum(es, i + 1).len() <= other@.len());
            }
            self.add_count(cp, m);
            assert(self@ =~= start.add(entries_sum(es, i + 1)));
            i = i + 1;
        }
        Ok(())
    }

    /// Accounts clusters already cut from a normalized text: the leading
    /// scalar value of each cluster that is not a control character is
    /// counted. Refused, with the tally left as it was, when the clusters
    /// could take the total past `u64::MAX`.
    pub fn account_clusters(&mut self, clusters: &Vec<String>) -> (r: Result<(), AccountError>)
        requires
            old(self).wf(),
            forall|k: int| 0 <= k < clusters@.len() ==> #[trigger] clusters@[k]@.len() > 0,
        ensures
            final(self).wf(),
            if old(self)@.len() + clusters@.len() <= u64::MAX {
                &&& r == Ok::<(), AccountError>(())
                &&& final(self)@ == old(self)@.add(
                    tallied(leading_scalars(strings_view(clusters@))),
                )
            } else {
                &&& r == Err::<(), AccountError>(AccountError::TotalOverflow)
                &&& final(self)@ == old(self)@
            },
    {
        broadcast use vstd::multiset::group_multiset_axioms;

        let n = clusters.len();
        if n as u64 > u64::MAX - self.total {
            return Err(AccountError::TotalOverflow);
        }
        let ghost start = self@;
        let ghost lead = leading_scalars(strings_view(clusters@));
        assert(tallied(lead.take(0)) =~= Multiset::empty()) by {
            assert(lead.take(0).len() == 0);
        }
        assert(start.add(Multiset::empty()) =~= start);
        let mut i: usize = 0;
        while i < n
            invariant
                self.wf(),
                n == clusters@.len(),
                n == lead.len(),
                start.len() + n <= u64::MAX,
                i <= n,
                forall|k: int| 0 <= k < n ==> #[trigger] clusters@[k]@.len() > 0,
                lead == leading_scalars(strings_view(clusters@)),
                self@ == start.add(tallied(lead.take(i as int))),
                self@.len() <= start.len() + i,
            decreases n - i,
        {
            let c = first_char(&clusters[i]);
            assert(c == lead[i as int]);
            assert(lead.take(i + 1).drop_last() =~= lead.take(i as int));
            assert(lead.take(i + 1).last() == c);
            if !is_control(c) {
                self.record(c as u32);
                assert(start.add(tallied(lead.take(i + 1))) =~= start.add(
                    tallied(lead.take(i as int)),
                ).insert(c as u32));
            }
            i = i + 1;
        }
        assert(lead.take(n as int) =~= lead);
        Ok(())
    }

    /// Accounts a decoded text: it is brought to Normalization Form C, cut
    /// into extended grapheme clusters, and accounted as `account_clusters`
    /// does.
    pub fn account_text(&mut self, text: &str) -> (r: Result<(), AccountError>)
        requires
            old(self).wf(),
        ensures
            final(self).wf(),
            if old(self)@.len() + clusters_of(text@).len() <= u64::MAX {
                &&& r == Ok::<(), AccountError>(())
                &&& final(self)@ == old(self)@.add(text_tally(text@))
            } else {
                &&& r == Err::<(), AccountError>(AccountError::TotalOverflow)
                &&& final(self)@ == old(self)@
            },
    {
        let normalized = to_nfc(text);
        let clusters = to_graphemes(normalized.as_str());
        assert(strings_view(clusters@) =~= clusters_of(text@));
        self.account_clusters(&clusters)
    }

    /// Accounts the content of a file: refused, with the tally left as it
    /// was, when the bytes are not UTF-8; otherwise as `account_text`.
    pub fn account_bytes(&mut self, bytes: &[u8]) -> (r: Result<(), AccountError>)
        requires
            old(self).wf(),
        ensures
            final(self).wf(),
            match utf8_decoded(bytes@) {
                None => {
                    &&& r == Err::<(), AccountError>(AccountError::InvalidUtf8)
                    &&& final(self)@ == old(self)@
                },
                Some(t) => if old(self)@.len() + clusters_of(t).len() <= u64::MAX {
                    &&& r == Ok::<(), AccountError>(())
                    &&& final(self)@ == old(self)@.add(text_tally(t))
                } else {
                    &&& r == Err::<(), AccountError>(AccountError::TotalOverflow)
                    &&& final(self)@ == old(self)@
                },
            },
    {
        match decode_utf8(bytes) {
            Some(text) => self.account_text(text.as_str()),
            None => Err(AccountError::InvalidUtf8),
        }
    }

    /// The counted codepoints with their counts, by count from the highest,
    /// equal counts by codepoint from the lowest.
    pub fn sorted_counts(&self) -> (r: Vec<(u32, u64)>)
        requires
            self.wf(),
        ensures
            lists_counts(r@, self@),
            forall|i: int, j: int| 0 <= i < j < r@.len() ==> r@[i].1 >= r@[j].1,
    {
        let mut r: Vec<(u32, u64)> = Vec::new();
        let mut i: usize = 0;
        while i < self.entries.len()
            invariant
                self.wf(),
                i <= self.entries@.len(),
                strictly_ordered(r@),
                forall|y: (u32, u64)| #[trigger] r@.contains(y) <==> exists|k: int|
                    0 <= k < i && self.entries@[k] == y,
            decreases self.entries@.len() - i,
        {
            let x = self.entries[i];
            assert forall|k: int| 0 <= k < r@.len() implies (#[trigger] r@[k]).0 != x.0 by {
                assert(r@.contains(r@[k]));
            }
            insert_ordered(&mut r, x);
            assert forall|y: (u32, u64)| #[trigger] r@.contains(y) <==> exists|k: int|
                0 <= k < i + 1 && self.entries@[k] == y by {
                if y == x {
                    assert(self.entries@[i as int] == y);
                }
            }
            i = i + 1;
        }
        proof {
            assert forall|j: int| 0 <= j < r@.len() implies #[trigger] r@[j].1 == self@.count(
                r@[j].0,
            ) && r@[j].1 > 0 by {
                assert(r@.contains(r@[j]));
                let k = choose|k: int| 0 <= k < self.entries@.len() && self.entries@[k] == r@[j];
                assert(self.entries@[k].1 == self.chars@.count(self.entries@[k].0));
            }
            assert forall|cp: u32| #[trigger] self@.count(cp) > 0 implies exists|j: int|
                0 <= j < r@.len() && #[trigger] r@[j].0 == cp by {
                assert(self.chars@.count(cp) > 0);
                let k = choose|k: int| 0 <= k < self.entries@.len() && self.entries@[k].0 == cp;
                assert(r@.contains(self.entries@[k]));
            }
        }
        r
    }

    /// The ASCII and non-ASCII counts with their shares of the total in
    /// hundredths of a percent; both shares are zero for an empty tally.
    pub fn summary(&self) -> (r: Summary)
        requires
            self.wf(),
        ensures
            r.ascii == ascii_part(self@).len(),
            r.non_ascii == non_ascii_part(self@).len(),
            self@.len() == 0 ==> r.ascii_hundredths == 0 && r.non_ascii_hundredths == 0,
            self@.len() > 0 ==> r.ascii_hundredths == (20000 * ascii_part(self@).len()
                + self@.len()) / (2 * self@.len()),
            self@.len() > 0 ==> r.non_ascii_hundredths == 10000 - r.ascii_hundredths,
    {
        let share = percent_hundredths(self.ascii, self.total);
        let rest = if self.total == 0 {
            0
        } else {
            10000 - share
        };
        Summary {
            ascii: self.ascii,
            ascii_hundredths: share,
            non_ascii: self.total - self.ascii,
            non_ascii_hundredths: rest,
        }
    }

    /// The total is the ASCII count plus the non-ASCII count.
    pub proof fn lemma_counters_consistent(&self)
        requires
            self.wf(),
        ensures
            self@.len() == ascii_part(self@).len() + non_ascii_part(self@).len(),
    {
    }
}

} // verus!
