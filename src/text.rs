//! The text side of accounting: decoding, normalization, segmentation, and
//! the characters that a text contributes to a tally.

use unicode_normalization::UnicodeNormalization;
use unicode_segmentation::UnicodeSegmentation;
use vstd::multiset::Multiset;
use vstd::prelude::*;

verus! {

/// The characters that `b` decodes to as UTF-8, or `None` when `b` is not
/// well-formed UTF-8.
pub uninterp spec fn utf8_decoded(b: Seq<u8>) -> Option<Seq<char>>;

/// The Normalization Form C of `s`.
pub uninterp spec fn nfc_of(s: Seq<char>) -> Seq<char>;

/// The extended grapheme clusters of `s`, in order.
pub uninterp spec fn graphemes_of(s: Seq<char>) -> Seq<Seq<char>>;

/// Relies on `String::from_utf8`: `Ok` exactly for well-formed UTF-8, with
/// the decoded characters.
#[verifier::external_body]
pub(crate) fn decode_utf8(b: &[u8]) -> (r: Option<String>)
    ensures
        match r {
            Some(s) => utf8_decoded(b@) == Some(s@),
            None => utf8_decoded(b@) is None,
        },
{
    String::from_utf8(b.to_vec()).ok()
}

/// Relies on `UnicodeNormalization::nfc`: the canonical composition of `s`.
#[verifier::external_body]
pub(crate) fn to_nfc(s: &str) -> (r: String)
    ensures
        r@ == nfc_of(s@),
{
    s.nfc().collect::<String>()
}

/// Relies on `UnicodeSegmentation::graphemes` with extended clusters: the
/// clusters of `s` in order; the iterator never yields an empty slice.
#[verifier::external_body]
pub(crate) fn to_graphemes(s: &str) -> (r: Vec<String>)
    ensures
        r@.len() == graphemes_of(s@).len(),
        forall|i: int| 0 <= i < r@.len() ==> #[trigger] r@[i]@ == graphemes_of(s@)[i],
        forall|i: int| 0 <= i < r@.len() ==> #[trigger] r@[i]@.len() > 0,
{
    s.graphemes(true).map(String::from).collect()
}

/// A control codepoint: general category Cc, the ranges U+0000..U+001F and
/// U+007F..U+009F.
pub open spec fn is_control_codepoint(cp: u32) -> bool {
    cp <= 0x1f || (0x7f <= cp && cp <= 0x9f)
}

/// A control character.
pub open spec fn is_control_char(c: char) -> bool {
    is_control_codepoint(c as u32)
}

/// Relies on `char::is_control`, which tests for general category Cc.
#[verifier::external_body]
fn char_is_control(c: char) -> (r: bool)
    ensures
        r == is_control_char(c),
{
    c.is_control()
}

/// Whether `c` is left out of every tally.
pub fn is_control(c: char) -> (r: bool)
    ensures
        r == is_control_char(c),
{
    char_is_control(c)
}

/// A codepoint in the ASCII range.
pub open spec fn is_ascii_codepoint(cp: u32) -> bool {
    cp <= 0x7f
}

/// Whether a codepoint is ASCII.
pub fn ascii_codepoint(cp: u32) -> (r: bool)
    ensures
        r == is_ascii_codepoint(cp),
{
    cp <= 0x7f
}

/// The characters of each string.
pub open spec fn strings_view(v: Seq<String>) -> Seq<Seq<char>> {
    Seq::new(v.len(), |i: int| v[i]@)
}

/// The leading scalar value of each cluster.
pub open spec fn leading_scalars(gs: Seq<Seq<char>>) -> Seq<char> {
    Seq::new(gs.len(), |i: int| gs[i][0])
}

/// The codepoints that a sequence of leading scalars contributes, control
/// characters left out.
pub open spec fn tallied(cs: Seq<char>) -> Multiset<u32>
    decreases cs.len(),
{
    if cs.len() == 0 {
        Multiset::empty()
    } else {
        let rest = tallied(cs.drop_last());
        if is_control_char(cs.last()) {
            rest
        } else {
            rest.insert(cs.last() as u32)
        }
    }
}

/// The clusters that a decoded text is cut into once normalized.
pub open spec fn clusters_of(text: Seq<char>) -> Seq<Seq<char>> {
    graphemes_of(nfc_of(text))
}

/// What a decoded text contributes to a tally.
pub open spec fn text_tally(text: Seq<char>) -> Multiset<u32> {
    tallied(leading_scalars(clusters_of(text)))
}

/// Canonically equivalent texts, which share their Normalization Form C,
/// contribute the same codepoints.
pub proof fn lemma_canonical_equivalence(a: Seq<char>, b: Seq<char>)
    requires
        nfc_of(a) == nfc_of(b),
    ensures
        text_tally(a) == text_tally(b),
{
}

/// The first character of a non-empty string.
pub fn first_char(s: &String) -> (r: char)
    requires
        s@.len() > 0,
    ensures
        r == s@[0],
{
    broadcast use vstd::string::group_string_axioms;
    let mut it = s.as_str().chars();
    match it.next() {
        Some(c) => c,
        None => {
            proof {
                assert(false);
            }
            ' '
        }
    }
}

} // verus!
