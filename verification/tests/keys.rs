//! The order of keys, canonical forms and the parts of the reading of stems.

use std::cmp::Ordering;

use subtitle_renamer::cross::extract_keys_cross;
use subtitle_renamer::extract::{
    common_prefix_len, common_suffix_len, extract_keys, extract_with_regex,
};
use subtitle_renamer::fields::{heuristic_single, split_fields, FieldKind};
use subtitle_renamer::key::{EpisodeKey, RawKey};
use subtitle_renamer::language::{detect_language_token, find_boundary_token, language_tokens};
use subtitle_renamer::normalize::{canonicalize_numeric, normalize_key};
use subtitle_renamer::pattern::Patterns;
use subtitle_renamer::registry::{ExtensionRegistry, FileCategory};
use subtitle_renamer::stem::{fold_ascii_whitespace, needs_whitespace_fold, normalize_stem};

fn number(s: &str) -> EpisodeKey {
    EpisodeKey::Number(s.to_string())
}

fn text(s: &str) -> EpisodeKey {
    EpisodeKey::Text(s.to_string())
}

#[test]
fn keys_are_totally_ordered() {
    let sorted = [
        number("1"),
        number("1-2"),
        number("1.5"),
        number("2"),
        number("10"),
        number("99999999999999999999999999"),
        number("100000000000000000000000000"),
        text(""),
        text("NCOP"),
        text("OP"),
    ];
    for i in 0..sorted.len() {
        for j in 0..sorted.len() {
            assert_eq!(sorted[i].cmp(&sorted[j]), i.cmp(&j), "{i} {j}");
        }
    }
    assert_eq!(number("1").cmp(&number("1")), Ordering::Equal);
}

#[test]
fn keys_show_their_text() {
    assert_eq!(number("1-2").as_str(), "1-2");
    assert_eq!(text("NCOP").as_str(), "NCOP");
}

#[test]
fn canonical_numbers_stay_as_they_are() {
    let p = Patterns::new();
    for raw in ["001", "01-02", "000", "1.50", "10", "007-008.5"] {
        let once = canonicalize_numeric(&p, raw).unwrap();
        assert_eq!(canonicalize_numeric(&p, &once), Some(once));
    }
    assert_eq!(canonicalize_numeric(&p, "000").as_deref(), Some("0"));
    assert_eq!(canonicalize_numeric(&p, "01-02").as_deref(), Some("1-2"));
    assert_eq!(canonicalize_numeric(&p, "01V2").as_deref(), Some("1"));
    assert_eq!(canonicalize_numeric(&p, "x1"), None);
}

#[test]
fn nothing_to_normalize_gives_no_key() {
    assert_eq!(normalize_key(None), None);
    assert_eq!(normalize_key(Some("")), None);
    assert_eq!(normalize_key(Some("   ")), None);
}

#[test]
fn leading_zeros_do_not_matter() {
    for n in 0..200u32 {
        let plain = format!("{n}");
        let padded = format!("{n:05}");
        assert_eq!(normalize_key(Some(&plain)), normalize_key(Some(&padded)));
    }
}

#[test]
fn an_invalid_pattern_gives_no_keys() {
    let keys = extract_with_regex(&["Show ep01", "Show ep02"], "(");
    assert_eq!(keys, vec![RawKey(None), RawKey(None)]);
    let keys = extract_with_regex(&["Show ep01", "none"], r"ep(\d+)");
    assert_eq!(keys, vec![RawKey(Some("01".to_string())), RawKey(None)]);
}

#[test]
fn shared_ends_are_measured_in_bytes() {
    assert_eq!(common_prefix_len(&[]), 0);
    assert_eq!(common_suffix_len(&[]), 0);
    assert_eq!(common_prefix_len(&["abc", "abd", "abe"]), 2);
    assert_eq!(common_prefix_len(&["abc", "xbc"]), 0);
    assert_eq!(common_suffix_len(&["01.ass", "02.ass"]), 4);
    assert_eq!(common_suffix_len(&["é.ass", "è.ass"]), 4);
    assert_eq!(common_prefix_len(&["é1", "é2"]), 2);
}

#[test]
fn no_stems_give_no_keys() {
    assert!(extract_keys(&[]).is_empty());
    let (v, s) = extract_keys_cross(&[], &[]);
    assert!(v.is_empty() && s.is_empty());
    assert_eq!(extract_keys(&["Show - 05"]), vec![RawKey(Some("05".to_string()))]);
}

#[test]
fn fields_put_together_are_the_text() {
    for s in ["[Group] Show - 01 [1080p]", "中文 第一集", "a1b2", "", "--", "Ünï 12"] {
        let joined: String = split_fields(s).into_iter().map(|f| f.text).collect();
        assert_eq!(joined, s);
    }
}

#[test]
fn kinds_of_fields() {
    let kinds: Vec<FieldKind> = split_fields("ab12 é").into_iter().map(|f| f.kind).collect();
    assert_eq!(kinds.len(), 4);
    assert!(matches!(kinds[0], FieldKind::Alpha));
    assert!(matches!(kinds[1], FieldKind::Digit));
    assert!(matches!(kinds[2], FieldKind::Separator));
}

#[test]
fn a_stem_without_content_has_no_key() {
    assert_eq!(heuristic_single(""), RawKey(None));
    assert_eq!(heuristic_single("--"), RawKey(None));
}

#[test]
fn folding_twice_is_folding_once() {
    for s in ["a  b", " a", "a\t\tb ", "ab", "", "  "] {
        let once = fold_ascii_whitespace(s);
        assert_eq!(fold_ascii_whitespace(&once), once);
        assert!(!needs_whitespace_fold(&once));
    }
    assert!(needs_whitespace_fold("a  b"));
    assert!(needs_whitespace_fold("a\tb"));
    assert_eq!(normalize_stem("①"), "1");
}

#[test]
fn language_tokens_are_found() {
    for token in language_tokens() {
        let stem = format!("Show.{token}.ass");
        assert!(detect_language_token(&stem).is_some(), "{token}");
    }
    assert_eq!(detect_language_token("SHOW.CHS"), Some("chs".to_string()));
    assert_eq!(detect_language_token("xchsx"), Some("chs".to_string()));
    assert_eq!(detect_language_token("Xyz"), None);
    assert_eq!(find_boundary_token("ab.chs", "chs", true), Some(3));
    assert_eq!(find_boundary_token("abchs", "chs", true), None);
    assert_eq!(find_boundary_token("xchs chs", "chs", true), Some(5));
    assert_eq!(find_boundary_token("a CHS", "chs", true), None);
    assert_eq!(find_boundary_token("a CHS", "chs", false), Some(2));
}

#[test]
fn extensions_are_taken_in_any_case() {
    let mut reg = ExtensionRegistry::new();
    assert_eq!(reg.categorize("A.MKV"), FileCategory::Video);
    assert_eq!(reg.categorize("README"), FileCategory::Unknown);
    assert_eq!(reg.categorize("x.foo"), FileCategory::Unknown);
    reg.add_custom_video(".FOO");
    assert_eq!(reg.categorize("x.foo"), FileCategory::Video);
    assert_eq!(reg.custom_video(), &vec!["foo".to_string()]);
    assert!(reg.custom_subtitle().is_empty());
    assert!(reg.video_exts().contains(&"foo".to_string()));
    assert!(reg.video_exts().contains(&"mkv".to_string()));
    assert!(reg.subtitle_exts().contains(&"ass".to_string()));
    let reg = reg.with_custom(vec!["BAR".to_string()], vec!["baz".to_string()]);
    assert_eq!(reg.categorize("x.bar"), FileCategory::Video);
    assert_eq!(reg.categorize("x.baz"), FileCategory::Subtitle);
}

#[test]
fn each_stem_has_one_key() {
    let groups: [&[&str]; 4] = [
        &["Show - 01", "Show - 02"],
        &["a", "b", "c 1"],
        &["same", "same"],
        &["aba", "a", "abca"],
    ];
    for videos in groups {
        assert_eq!(extract_keys(videos).len(), videos.len());
        assert_eq!(extract_with_regex(videos, r"(\d)").len(), videos.len());
        for subs in groups {
            let (v, s) = extract_keys_cross(videos, subs);
            assert_eq!(v.len(), videos.len());
            assert_eq!(s.len(), subs.len());
        }
    }
}

#[test]
fn all_stems_count_for_the_shared_ends() {
    assert_eq!(common_prefix_len(&["abX", "aY", "abZ"]), 1);
    assert_eq!(common_suffix_len(&["Xba", "Ya", "Zba"]), 1);
}

#[test]
fn words_are_made_of_letters_and_numbers() {
    assert_eq!(normalize_key(Some("--é!x")), Some(text("é")));
    assert_eq!(normalize_key(Some("(Extra) 1st")), Some(number("1")));
    assert_eq!(normalize_key(Some("...")), None);
    assert_eq!(normalize_key(Some("\u{3000}abc\u{3000}")), Some(text("ABC")));
}

#[test]
fn a_stem_in_the_form_stays_as_it_is() {
    // Compatibility characters, marks out of order, marks behind a space that goes, and
    // spaces that the form brings in.
    let stems = [
        "ﬁle  Ａ\tｂ",
        "a\u{301}\u{323}",
        "\u{a8} x",
        "x \u{a8}",
        "q\u{301} \t\u{323}w",
        "\u{3000}全角\u{3000}\u{3000}空白\u{3000}",
        "가각 ㈎",
        "  plain \t text ",
        "",
    ];
    for s in stems {
        let once = normalize_stem(s);
        assert_eq!(normalize_stem(&once), once, "{s:?}");
        assert!(!once.contains('\t') && !once.contains("  "));
        assert!(!once.starts_with(' ') && !once.ends_with(' '));
    }
    assert_eq!(normalize_stem("ﬁle  Ａ\tｂ"), "file A b");
    assert_eq!(normalize_stem("\u{3000}全角\u{3000}\u{3000}空白\u{3000}"), "全角 空白");
    assert_eq!(normalize_stem("a\u{301}\u{323}"), "a\u{323}\u{301}");
}

#[test]
fn a_number_that_is_a_key_is_its_own_key() {
    let raws = [
        "01", "e007", "s01e02", "第 012 话", "00", "01-02", "1.50", "x ٠٣ y", "EP 3v2", "003.000-04",
    ];
    for raw in raws {
        let Some(EpisodeKey::Number(n)) = normalize_key(Some(raw)) else {
            panic!("{raw} has a number");
        };
        assert_eq!(normalize_key(Some(&n)), Some(number(&n)), "{raw}");
        for part in n.split(['-', '.']) {
            assert!(!part.is_empty() && (part == "0" || !part.starts_with('0')), "{n}");
        }
    }
    assert_eq!(normalize_key(Some("003.000-04")), Some(number("3.0-4")));
    for s in ["7", "12", "0", "100", "1-2", "3.5"] {
        let zero = format!("0{s}");
        assert_eq!(normalize_key(Some(&zero)), normalize_key(Some(s)));
        assert_eq!(normalize_key(Some(s)), Some(number(s)));
    }
}
