use char_census::category::{get_character_category, Category};
use char_census::census::Census;
use char_census::report::percent_hundredths;
use char_census::tally::{AccountError, Tally};
use char_census::text::{ascii_codepoint, is_control};

fn tally_of(bytes: &[u8]) -> Tally {
    let mut t = Tally::new();
    assert_eq!(t.account_bytes(bytes), Ok(()));
    t
}

#[test]
fn ascii_text_is_tallied_per_character() {
    let t = tally_of("Hi!".as_bytes());
    assert_eq!(t.count_of('H' as u32), 1);
    assert_eq!(t.count_of('i' as u32), 1);
    assert_eq!(t.count_of('!' as u32), 1);
    assert_eq!(t.sorted_counts().len(), 3);
    assert_eq!(t.total_chars(), 3);
    let s = t.summary();
    assert_eq!(s.ascii, 3);
    assert_eq!(s.ascii_hundredths, 10000);
    assert_eq!(s.non_ascii, 0);
    assert_eq!(s.non_ascii_hundredths, 0);
}

#[test]
fn invalid_utf8_is_skipped() {
    let mut t = Tally::new();
    assert_eq!(t.account_bytes(&[0xFF, 0xFE]), Err(AccountError::InvalidUtf8));
    assert_eq!(t.total_chars(), 0);
    assert!(t.sorted_counts().is_empty());
    let s = t.summary();
    assert_eq!(s.ascii, 0);
    assert_eq!(s.non_ascii, 0);
    assert_eq!(s.ascii_hundredths, 0);
    assert_eq!(s.non_ascii_hundredths, 0);
}

#[test]
fn invalid_utf8_leaves_earlier_counts() {
    let mut t = tally_of(b"ab");
    assert_eq!(t.account_bytes(&[b'c', 0xC3]), Err(AccountError::InvalidUtf8));
    assert_eq!(t.total_chars(), 2);
    assert_eq!(t.count_of('c' as u32), 0);
}

#[test]
fn partitions_are_kept_apart() {
    let mut c = Census::new();
    assert_eq!(c.account_bytes("txt", b"aab"), Ok(()));
    assert_eq!(c.account_bytes("md", "xé".as_bytes()), Ok(()));
    assert_eq!(c.account_bytes("txt", b"b"), Ok(()));
    assert_eq!(c.partitions(), 2);
    assert_eq!(c.key_at(0).as_str(), "txt");
    assert_eq!(c.key_at(1).as_str(), "md");
    let txt = c.tally_at(0);
    assert_eq!(txt.sorted_counts(), vec![('a' as u32, 2), ('b' as u32, 2)]);
    assert_eq!(txt.count_of('x' as u32), 0);
    let s = txt.summary();
    assert_eq!((s.ascii, s.non_ascii), (4, 0));
    let md = c.tally_at(1);
    assert_eq!(md.sorted_counts(), vec![('x' as u32, 1), (0xE9, 1)]);
    assert_eq!(md.count_of('a' as u32), 0);
    let s = md.summary();
    assert_eq!((s.ascii, s.non_ascii), (1, 1));
    assert_eq!((s.ascii_hundredths, s.non_ascii_hundredths), (5000, 5000));
}

#[test]
fn nothing_counted_makes_no_partition() {
    let mut c = Census::new();
    assert_eq!(c.account_bytes("bin", &[0xFF, 0xFE]), Err(AccountError::InvalidUtf8));
    assert_eq!(c.account_bytes("ctl", b"\t\n\r\n"), Ok(()));
    assert_eq!(c.account_bytes("", b""), Ok(()));
    assert_eq!(c.partitions(), 0);
    assert_eq!(c.account_bytes("", b"z"), Ok(()));
    assert_eq!(c.partitions(), 1);
    assert_eq!(c.key_at(0).as_str(), "");
}

#[test]
fn combining_sequence_is_one_entry() {
    // e + COMBINING ACUTE composes to U+00E9 under NFC
    let t = tally_of("e\u{301}".as_bytes());
    assert_eq!(t.sorted_counts(), vec![(0xE9, 1)]);
    // q + COMBINING ACUTE has no composed form: one cluster, tallied by its base
    let t = tally_of("q\u{301}".as_bytes());
    assert_eq!(t.sorted_counts(), vec![('q' as u32, 1)]);
    assert_eq!(t.total_chars(), 1);
}

#[test]
fn canonical_equivalents_tally_alike() {
    let a = tally_of("caf\u{e9}".as_bytes());
    let b = tally_of("cafe\u{301}".as_bytes());
    assert_eq!(a.sorted_counts(), b.sorted_counts());
    assert_eq!(a.count_of(0xE9), 1);
    assert_eq!(b.count_of(0xE9), 1);
    assert_eq!(b.count_of('e' as u32), 0);
}

#[test]
fn counts_are_listed_highest_first() {
    let t = tally_of(b"abbbcc ba");
    let list = t.sorted_counts();
    assert_eq!(
        list,
        vec![('b' as u32, 4), ('a' as u32, 2), ('c' as u32, 2), (' ' as u32, 1)]
    );
    for w in list.windows(2) {
        assert!(w[0].1 >= w[1].1);
    }
}

#[test]
fn equal_counts_are_listed_by_codepoint() {
    let t = tally_of("zéa".as_bytes());
    assert_eq!(
        t.sorted_counts(),
        vec![('a' as u32, 1), ('z' as u32, 1), (0xE9, 1)]
    );
}

#[test]
fn accounting_twice_gives_the_same_report() {
    let text = "Grüße, 世界! 🎉🎉".as_bytes();
    let a = tally_of(text);
    let b = tally_of(text);
    assert_eq!(a.sorted_counts(), b.sorted_counts());
    let (sa, sb) = (a.summary(), b.summary());
    assert_eq!((sa.ascii, sa.non_ascii), (sb.ascii, sb.non_ascii));
}

#[test]
fn ascii_and_non_ascii_add_up() {
    let t = tally_of("aé€😀 b".as_bytes());
    assert_eq!(t.total_chars(), 6);
    assert_eq!(t.ascii_chars(), 3);
    assert_eq!(t.non_ascii_chars(), 3);
    assert_eq!(t.total_chars(), t.ascii_chars() + t.non_ascii_chars());
    let s = t.summary();
    assert_eq!((s.ascii_hundredths, s.non_ascii_hundredths), (5000, 5000));
}

#[test]
fn control_characters_are_not_counted() {
    let t = tally_of(b"a\tb\n\x7f\r\nc\x00");
    assert_eq!(t.total_chars(), 3);
    assert_eq!(t.count_of('\t' as u32), 0);
    assert_eq!(t.count_of('\n' as u32), 0);
    assert_eq!(t.count_of('\r' as u32), 0);
    assert_eq!(t.count_of(0x7F), 0);
    let t = tally_of("\u{85}x\u{9f}".as_bytes());
    assert_eq!(t.sorted_counts(), vec![('x' as u32, 1)]);
}

#[test]
fn ascii_boundary_is_7f() {
    let t = tally_of("~\u{a0}\u{80}".as_bytes());
    assert_eq!(t.ascii_chars(), 1);
    assert_eq!(t.non_ascii_chars(), 1);
    assert!(ascii_codepoint(0x7F));
    assert!(!ascii_codepoint(0x80));
    assert!(ascii_codepoint(0));
}

#[test]
fn control_test_follows_cc() {
    assert!(is_control('\u{0}'));
    assert!(is_control('\u{1f}'));
    assert!(is_control('\u{7f}'));
    assert!(is_control('\u{9f}'));
    assert!(!is_control(' '));
    assert!(!is_control('\u{a0}'));
    assert!(!is_control('\u{200b}'));
}

#[test]
fn categories_follow_general_category() {
    assert_eq!(get_character_category('a'), Category::Alphanumeric);
    assert_eq!(get_character_category('Z'), Category::Alphanumeric);
    assert_eq!(get_character_category('7'), Category::Alphanumeric);
    assert_eq!(get_character_category('\u{2167}'), Category::Alphanumeric);
    assert_eq!(get_character_category('世'), Category::Alphanumeric);
    assert_eq!(get_character_category(' '), Category::Space);
    assert_eq!(get_character_category('\u{3000}'), Category::Space);
    assert_eq!(get_character_category('!'), Category::Punctuation);
    assert_eq!(get_character_category('«'), Category::Punctuation);
    assert_eq!(get_character_category('+'), Category::Symbol);
    assert_eq!(get_character_category('€'), Category::Symbol);
    assert_eq!(get_character_category('\u{301}'), Category::Other);
    assert_eq!(get_character_category('\u{2028}'), Category::Other);
    assert_eq!(get_character_category('\u{200b}'), Category::Other);
    assert_eq!(get_character_category('\u{e000}'), Category::Other);
    assert_eq!(get_character_category('\u{10ffff}'), Category::Other);
}

#[test]
fn category_names() {
    assert_eq!(Category::Alphanumeric.name(), "Alphanumeric");
    assert_eq!(Category::Space.name(), "Space");
    assert_eq!(Category::Punctuation.name(), "Punctuation");
    assert_eq!(Category::Symbol.name(), "Symbol");
    assert_eq!(Category::Other.name(), "Other");
}

#[test]
fn percentages_in_hundredths() {
    assert_eq!(percent_hundredths(0, 0), 0);
    assert_eq!(percent_hundredths(1, 3), 3333);
    assert_eq!(percent_hundredths(2, 3), 6667);
    assert_eq!(percent_hundredths(1, 8), 1250);
    assert_eq!(percent_hundredths(1, 1), 10000);
    assert_eq!(percent_hundredths(0, 5), 0);
    assert_eq!(percent_hundredths(u64::MAX, u64::MAX), 10000);
}

#[test]
fn summary_shares_round_and_complement() {
    let t = tally_of("ab€".as_bytes());
    let s = t.summary();
    assert_eq!((s.ascii, s.non_ascii), (2, 1));
    assert_eq!((s.ascii_hundredths, s.non_ascii_hundredths), (6667, 3333));
}

#[test]
fn accounting_adds_to_earlier_counts() {
    let mut t = tally_of(b"aa");
    assert_eq!(t.account_text("ab"), Ok(()));
    assert_eq!(t.count_of('a' as u32), 3);
    assert_eq!(t.count_of('b' as u32), 1);
    t.record(0x1F600);
    assert_eq!(t.count_of(0x1F600), 1);
    assert_eq!(t.total_chars(), 5);
}

#[test]
fn empty_text_counts_nothing() {
    let t = tally_of(b"");
    assert_eq!(t.total_chars(), 0);
    assert!(t.sorted_counts().is_empty());
}

#[test]
fn clusters_are_tallied_by_leading_scalar() {
    let mut t = Tally::new();
    let clusters: Vec<String> = vec![
        "q\u{301}".to_string(),
        "\r\n".to_string(),
        "\u{1F1EB}\u{1F1F7}".to_string(),
        "q".to_string(),
    ];
    assert_eq!(t.account_clusters(&clusters), Ok(()));
    assert_eq!(t.sorted_counts(), vec![('q' as u32, 2), (0x1F1EB, 1)]);
    assert_eq!(t.count_of(0x301), 0);
    assert_eq!(t.count_of(0x1F1F7), 0);
    assert_eq!(t.total_chars(), 3);
}

#[test]
fn merging_adds_counts_and_totals() {
    let mut a = tally_of("aab€".as_bytes());
    let b = tally_of("bc€€".as_bytes());
    assert_eq!(a.merge(&b), Ok(()));
    assert_eq!(
        a.sorted_counts(),
        vec![(0x20AC, 3), ('a' as u32, 2), ('b' as u32, 2), ('c' as u32, 1)]
    );
    assert_eq!(a.total_chars(), 8);
    assert_eq!(a.ascii_chars(), 5);
    assert_eq!(a.non_ascii_chars(), 3);
}

#[test]
fn merging_equals_accounting_together() {
    let mut parts = tally_of("Hello, ".as_bytes());
    let rest = tally_of("wörld!".as_bytes());
    assert_eq!(parts.merge(&rest), Ok(()));
    let whole = tally_of("Hello, wörld!".as_bytes());
    assert_eq!(parts.sorted_counts(), whole.sorted_counts());
    assert_eq!(parts.total_chars(), whole.total_chars());
    assert_eq!(parts.ascii_chars(), whole.ascii_chars());

    let mut other_order = tally_of("wörld!".as_bytes());
    assert_eq!(other_order.merge(&tally_of("Hello, ".as_bytes())), Ok(()));
    assert_eq!(other_order.sorted_counts(), whole.sorted_counts());
}

#[test]
fn merging_an_empty_tally_changes_nothing() {
    let mut a = tally_of(b"xy");
    assert_eq!(a.merge(&Tally::new()), Ok(()));
    assert_eq!(a.sorted_counts(), vec![('x' as u32, 1), ('y' as u32, 1)]);
    assert_eq!(a.total_chars(), 2);
}
