//! Fields, keys, extensions and language tokens.

use subtitle_renamer::cross::extract_keys_cross;
use subtitle_renamer::extract::{
    common_prefix_len, common_suffix_len, extract_keys, extract_with_regex,
};
use subtitle_renamer::fields::{heuristic_single, split_fields, FieldKind};
use subtitle_renamer::key::{EpisodeKey, RawKey};
use subtitle_renamer::language::detect_language_token;
use subtitle_renamer::normalize::normalize_key;
use subtitle_renamer::registry::{ExtensionRegistry, FileCategory};
use subtitle_renamer::stem::normalize_stem;

#[test]
fn extension_registry_categorizes_basic() {
    let reg = ExtensionRegistry::new();
    assert_eq!(reg.categorize("show.mkv"), FileCategory::Video);
    assert_eq!(reg.categorize("show.ass"), FileCategory::Subtitle);
    assert_eq!(reg.categorize("show.txt"), FileCategory::Unknown);
}

#[test]
fn extension_registry_honors_custom_overrides() {
    let mut reg = ExtensionRegistry::new();
    reg.add_custom_subtitle("zh.ass");
    assert_eq!(reg.categorize("show.zh.ass"), FileCategory::Subtitle);
}

#[test]
fn split_basename_uses_last_dot() {
    let (stem, ext) = ExtensionRegistry::split_basename("Show.S01E01.chs.ass");
    assert_eq!(stem, "Show.S01E01.chs");
    assert_eq!(ext, "ass");
}

#[test]
fn split_basename_no_dot() {
    let (stem, ext) = ExtensionRegistry::split_basename("README");
    assert_eq!(stem, "README");
    assert_eq!(ext, "");
}

#[test]
fn extract_keys_clean_single_segment() {
    let stems =
        ["[Group] Show - 01 [1080p]", "[Group] Show - 02 [1080p]", "[Group] Show - 03 [1080p]"];
    let raw: Vec<&str> = stems.to_vec();
    let keys = extract_keys(&raw);
    assert_eq!(
        keys,
        vec![RawKey(Some("1".into())), RawKey(Some("2".into())), RawKey(Some("3".into()))]
    );
}

#[test]
fn extract_keys_multiple_segments_picks_digit_leftmost() {
    let stems = ["[Group] Show - 01 [1080p]", "[Group] Show - 02 [720p]"];
    let raw: Vec<&str> = stems.to_vec();
    let keys = extract_keys(&raw);
    assert_eq!(keys, vec![RawKey(Some("1".into())), RawKey(Some("2".into()))]);
}

#[test]
fn extract_keys_near_ep_marker() {
    let stems = ["Show EP01.mkv", "Show EP02.mkv", "Show EP03.mkv"];
    let raw: Vec<&str> = stems.to_vec();
    let keys = extract_keys(&raw);
    assert_eq!(
        keys,
        vec![RawKey(Some("1".into())), RawKey(Some("2".into())), RawKey(Some("3".into()))]
    );
}

#[test]
fn normalize_strips_leading_zeros_and_e_prefix() {
    assert_eq!(normalize_key(Some("01")), Some(EpisodeKey::Number("1".into())));
    assert_eq!(normalize_key(Some("E1")), Some(EpisodeKey::Number("1".into())));
    assert_eq!(normalize_key(Some("EP1")), Some(EpisodeKey::Number("1".into())));
    assert_eq!(normalize_key(Some("第01话")), Some(EpisodeKey::Number("1".into())));
}

#[test]
fn normalize_preserves_range_and_decimal() {
    assert_eq!(normalize_key(Some("01-02")), Some(EpisodeKey::Number("1-2".into())));
    assert_eq!(normalize_key(Some("01.5")), Some(EpisodeKey::Number("1.5".into())));
}

#[test]
fn normalize_strips_revision_marker() {
    assert_eq!(normalize_key(Some("01v2")), Some(EpisodeKey::Number("1".into())));
}

#[test]
fn normalize_season_episode() {
    assert_eq!(normalize_key(Some("S01E01")), Some(EpisodeKey::Number("1".into())));
}

#[test]
fn normalize_text_key() {
    assert_eq!(normalize_key(Some("NCOP")), Some(EpisodeKey::Text("NCOP".into())));
}

#[test]
fn heuristic_single_finds_digit() {
    let r = heuristic_single("[Group] Show - 01 [1080p]");
    assert_eq!(r, RawKey(Some("01".into())));
}

#[test]
fn episode_key_orders_numerically() {
    let mut keys = vec![
        EpisodeKey::Number("10".into()),
        EpisodeKey::Number("2".into()),
        EpisodeKey::Number("1".into()),
        EpisodeKey::Number("100".into()),
        EpisodeKey::Text("NCOP".into()),
        EpisodeKey::Number("3".into()),
    ];
    keys.sort_by(|a, b| a.cmp(b));
    assert_eq!(
        keys,
        vec![
            EpisodeKey::Number("1".into()),
            EpisodeKey::Number("2".into()),
            EpisodeKey::Number("3".into()),
            EpisodeKey::Number("10".into()),
            EpisodeKey::Number("100".into()),
            EpisodeKey::Text("NCOP".into()),
        ]
    );
}

#[test]
fn language_token_detection() {
    assert_eq!(detect_language_token("Show.S01E01.chs.ass"), Some("chs".into()));
    assert_eq!(detect_language_token("Show.S01E01.cht"), Some("cht".into()));
    assert_eq!(detect_language_token("No.Lang.Here"), None);
}

#[test]
fn extract_with_regex_captures_first_group() {
    let stems = ["Show ep01", "Show ep02", "Show ep03"];
    let raw: Vec<&str> = stems.to_vec();
    let keys = extract_with_regex(&raw, r"(?i)ep(\d+)");
    assert_eq!(
        keys,
        vec![RawKey(Some("01".into())), RawKey(Some("02".into())), RawKey(Some("03".into()))]
    );
}

#[test]
fn common_prefix_len_cjk_lands_on_char_boundary() {
    let stems = ["中文 第一集", "中文 第二集"];
    let raw: Vec<&str> = stems.to_vec();
    let lcp = common_prefix_len(&raw);
    assert_eq!(lcp, "中文 第".len());
    assert!(raw[0].is_char_boundary(lcp));
}

#[test]
fn common_suffix_len_cjk_lands_on_char_boundary() {
    let stems = ["中文 第一集", "中文 第二集"];
    let raw: Vec<&str> = stems.to_vec();
    let lcs = common_suffix_len(&raw);
    assert_eq!(lcs, "集".len());
}

#[test]
fn extract_keys_does_not_panic_on_kimetsu_stems() {
    let stems = [
        "[Up to 21°C] 鬼滅之刃 柱訓練篇 - 02 (Baha 1920x1080 AVC AAC MP4) [784C8989]",
        "[Up to 21°C] 鬼滅之刃 柱訓練篇 - 04 (Baha 1920x1080 AVC AAC MP4) [41B42367]",
    ];
    let raw: Vec<&str> = stems.to_vec();
    let _ = extract_keys(&raw);
}

#[test]
fn extract_keys_does_not_panic_on_chinese_numerals_stems() {
    let stems = ["中文 第一集", "中文 第二集"];
    let raw: Vec<&str> = stems.to_vec();
    let _ = extract_keys(&raw);
}

#[test]
fn heuristic_single_sp_with_various_separators() {
    assert_eq!(heuristic_single("Show - SP 01"), RawKey(Some("SP".into())));
    assert_eq!(heuristic_single("Show.SP.01"), RawKey(Some("SP".into())));
    assert_eq!(heuristic_single("Show - SP_ 01"), RawKey(Some("SP".into())));
    assert_eq!(heuristic_single("Show - OP 02"), RawKey(Some("OP".into())));
    assert_eq!(heuristic_single("Show - 01"), RawKey(Some("01".into())));
}

#[test]
fn normalize_key_chinese_numeral_returns_text() {
    assert_eq!(normalize_key(Some("一")), Some(EpisodeKey::Text("一".into())));
    assert_eq!(normalize_key(Some("二")), Some(EpisodeKey::Text("二".into())));
    assert_eq!(normalize_key(Some("壹")), Some(EpisodeKey::Text("壹".into())));
}

#[test]
fn extract_keys_chinese_numerals_pair_across_stems() {
    let stems = ["中文 第一集", "中文 第二集"];
    let raw: Vec<&str> = stems.to_vec();
    let raws = extract_keys(&raw);
    let keys: Vec<Option<EpisodeKey>> =
        raws.iter().map(|r| normalize_key(r.0.as_deref())).collect();
    assert_eq!(keys[0], Some(EpisodeKey::Text("一".into())));
    assert_eq!(keys[1], Some(EpisodeKey::Text("二".into())));
}

#[test]
fn normalize_stem_ascii_unchanged() {
    assert_eq!(normalize_stem("Show - 01 [1080p]"), "Show - 01 [1080p]");
}

#[test]
fn normalize_stem_collapses_whitespace_runs() {
    assert_eq!(normalize_stem("Show   -  01"), "Show - 01");
    assert_eq!(normalize_stem("  leading and trailing  "), "leading and trailing");
    assert_eq!(normalize_stem("tab\there"), "tab here");
}

#[test]
fn normalize_stem_applies_nfkd_for_compat_variants() {
    assert_eq!(normalize_stem("ﬁle"), "file");
    assert_ne!(normalize_stem("機動"), "机动");
}

#[test]
fn extract_keys_whitespace_fold_does_not_break_pairing() {
    let stems = ["视频 1 xyz", "视频 77 test xyz"];
    let raw: Vec<&str> = stems.to_vec();
    let raws = extract_keys(&raw);
    let keys: Vec<Option<EpisodeKey>> =
        raws.iter().map(|r| normalize_key(r.0.as_deref())).collect();
    assert_eq!(keys[0], Some(EpisodeKey::Number("1".into())));
    assert_eq!(keys[1], Some(EpisodeKey::Number("77".into())));
}

#[test]
fn split_fields_classifies_pure_cjk_as_cjk_alpha() {
    let fields = split_fields("中文");
    assert_eq!(fields.len(), 1);
    assert!(matches!(fields[0].kind, FieldKind::CjkAlpha));
    assert_eq!(fields[0].text, "中文");
}

#[test]
fn split_fields_classifies_kanji_run_as_cjk_alpha() {
    let fields = split_fields("機動");
    assert_eq!(fields.len(), 1);
    assert!(matches!(fields[0].kind, FieldKind::CjkAlpha));
    assert_eq!(fields[0].text, "機動");
}

#[test]
fn split_fields_splits_cjk_with_separator() {
    let fields = split_fields("中文 第一集");
    assert_eq!(fields.len(), 3);
    assert!(matches!(fields[0].kind, FieldKind::CjkAlpha));
    assert_eq!(fields[0].text, "中文");
    assert!(matches!(fields[1].kind, FieldKind::Separator));
    assert!(matches!(fields[2].kind, FieldKind::CjkAlpha));
    assert_eq!(fields[2].text, "第一集");
}

#[test]
fn cross_side_basic_picks_episode_digit_slot() {
    let videos = ["abc.S02E01.123", "abc.S02E02.abc", "abc.S02E03.ccc"];
    let subs =
        ["[SubGroup] def.S02E01.xyz", "[SubGroup] def.S02E02.abc", "[SubGroup] def.S02E04.kkk"];
    let v_ref: Vec<&str> = videos.to_vec();
    let s_ref: Vec<&str> = subs.to_vec();
    let (v_raw, s_raw) = extract_keys_cross(&v_ref, &s_ref);
    let v_keys: Vec<Option<EpisodeKey>> =
        v_raw.iter().map(|r| normalize_key(r.0.as_deref())).collect();
    let s_keys: Vec<Option<EpisodeKey>> =
        s_raw.iter().map(|r| normalize_key(r.0.as_deref())).collect();
    assert_eq!(
        v_keys,
        vec![
            Some(EpisodeKey::Number("1".into())),
            Some(EpisodeKey::Number("2".into())),
            Some(EpisodeKey::Number("3".into())),
        ]
    );
    assert_eq!(
        s_keys,
        vec![
            Some(EpisodeKey::Number("1".into())),
            Some(EpisodeKey::Number("2".into())),
            Some(EpisodeKey::Number("4".into())),
        ]
    );
}

#[test]
fn cross_side_breaking_bad_picks_episode_digit() {
    let videos = [
        "Breaking.Bad.S03E04.Green.Light.2160p.Netflix.WEB-DL.DDP.5.1.H.265",
        "Breaking.Bad.S03E12.Half.Measures.2160p.Netflix.WEB-DL.DDP.5.1.H.265",
        "Breaking.Bad.S03E100.Test.Test.2160p.Netflix.WEB-DL.DDP.5.1.H.265",
    ];
    let subs = [
        "breaking.bad.s03e12.720p.hdtv.x264-ctu.en",
        "Breaking.Bad.S03E04.720p.HDTV.x264-CTU.en",
        "Breaking.Bad.S03E123.720p.HDTV.x264-CTU.en",
    ];
    let v_ref: Vec<&str> = videos.to_vec();
    let s_ref: Vec<&str> = subs.to_vec();
    let (v_raw, s_raw) = extract_keys_cross(&v_ref, &s_ref);
    let v_keys: Vec<Option<EpisodeKey>> =
        v_raw.iter().map(|r| normalize_key(r.0.as_deref())).collect();
    let s_keys: Vec<Option<EpisodeKey>> =
        s_raw.iter().map(|r| normalize_key(r.0.as_deref())).collect();
    assert_eq!(
        v_keys,
        vec![
            Some(EpisodeKey::Number("4".into())),
            Some(EpisodeKey::Number("12".into())),
            Some(EpisodeKey::Number("100".into())),
        ]
    );
    assert_eq!(
        s_keys,
        vec![
            Some(EpisodeKey::Number("12".into())),
            Some(EpisodeKey::Number("4".into())),
            Some(EpisodeKey::Number("123".into())),
        ]
    );
}

#[test]
fn cross_side_blackdoor_picks_episode_digit() {
    let videos = [
        "Black Mirror (2011)(1080p)(Webdl)(VP9)(14 lang-AAC- 2.0) (S01) PHDTeam",
        "Black Mirror (2011)(1080p)(Webdl)(VP9)(14 lang-AAC- 2.0) (S11) PHDTeam",
    ];
    let subs =
        ["Black Mirror_S01E01_Patnáct milionů meritů", "Black Mirror_S01E11_P15milMeritů-EN"];
    let v_ref: Vec<&str> = videos.to_vec();
    let s_ref: Vec<&str> = subs.to_vec();
    let (v_raw, s_raw) = extract_keys_cross(&v_ref, &s_ref);
    let v_keys: Vec<Option<EpisodeKey>> =
        v_raw.iter().map(|r| normalize_key(r.0.as_deref())).collect();
    let s_keys: Vec<Option<EpisodeKey>> =
        s_raw.iter().map(|r| normalize_key(r.0.as_deref())).collect();
    assert_eq!(
        v_keys,
        vec![Some(EpisodeKey::Number("1".into())), Some(EpisodeKey::Number("11".into())),]
    );
    assert_eq!(
        s_keys,
        vec![Some(EpisodeKey::Number("1".into())), Some(EpisodeKey::Number("11".into())),]
    );
}

#[test]
fn cross_side_haikyuu_picks_episode_digit() {
    let videos = [
        "[Kamigami] Haikyuu!! S2 - 09 [1920x1080 HEVC AAC Sub(Chs,Cht,Jap)]",
        "[Kamigami] Haikyuu!! S2 - 10 [1920x1080 HEVC AAC Sub(Chs,Cht,Jap)]",
    ];
    let subs = [
        "[YYDM-11FANS][Haikyuu!!][09][BDRIP][720P][X264-10bit_AAC][40A7E056].en",
        "[YYDM-11FANS][Haikyuu!!][09][BDRIP][720P][X264-10bit_AAC][40A7E056].sc",
        "[YYDM-11FANS][Haikyuu!!][09][BDRIP][720P][X264-10bit_AAC][40A7E056].tc",
        "[YYDM-11FANS][Haikyuu!!][10][BDRIP][720P][X264-10bit_AAC][6FDEFD72].sc",
        "[YYDM-11FANS][Haikyuu!!][10][BDRIP][720P][X264-10bit_AAC][6FDEFD72].tc",
    ];
    let v_ref: Vec<&str> = videos.to_vec();
    let s_ref: Vec<&str> = subs.to_vec();
    let (v_raw, s_raw) = extract_keys_cross(&v_ref, &s_ref);
    let v_keys: Vec<Option<EpisodeKey>> =
        v_raw.iter().map(|r| normalize_key(r.0.as_deref())).collect();
    let s_keys: Vec<Option<EpisodeKey>> =
        s_raw.iter().map(|r| normalize_key(r.0.as_deref())).collect();
    assert_eq!(
        v_keys,
        vec![Some(EpisodeKey::Number("9".into())), Some(EpisodeKey::Number("10".into())),]
    );
    assert_eq!(
        s_keys,
        vec![
            Some(EpisodeKey::Number("9".into())),
            Some(EpisodeKey::Number("9".into())),
            Some(EpisodeKey::Number("9".into())),
            Some(EpisodeKey::Number("10".into())),
            Some(EpisodeKey::Number("10".into())),
        ]
    );
}

#[test]
fn cross_side_falls_back_when_no_shared_token() {
    let videos = ["AAA_one", "AAA_two", "AAA_three"];
    let subs = ["BBB_aaa", "BBB_bbb", "BBB_ccc"];
    let v_ref: Vec<&str> = videos.to_vec();
    let s_ref: Vec<&str> = subs.to_vec();
    let (v_raw, s_raw) = extract_keys_cross(&v_ref, &s_ref);
    let v_keys: Vec<Option<EpisodeKey>> =
        v_raw.iter().map(|r| normalize_key(r.0.as_deref())).collect();
    let s_keys: Vec<Option<EpisodeKey>> =
        s_raw.iter().map(|r| normalize_key(r.0.as_deref())).collect();
    assert_eq!(
        v_keys,
        vec![
            Some(EpisodeKey::Text("ONE".into())),
            Some(EpisodeKey::Text("TWO".into())),
            Some(EpisodeKey::Text("THREE".into())),
        ]
    );
    assert_eq!(
        s_keys,
        vec![
            Some(EpisodeKey::Text("AAA".into())),
            Some(EpisodeKey::Text("BBB".into())),
            Some(EpisodeKey::Text("CCC".into())),
        ]
    );
}

#[test]
fn cross_side_falls_back_to_per_side_when_only_anchor_is_shared() {
    let videos = ["prefix_01_x", "prefix_01_y"];
    let subs = ["other_01_a", "other_01_b"];
    let v_ref: Vec<&str> = videos.to_vec();
    let s_ref: Vec<&str> = subs.to_vec();
    let (v_raw, s_raw) = extract_keys_cross(&v_ref, &s_ref);
    let v_keys: Vec<Option<EpisodeKey>> =
        v_raw.iter().map(|r| normalize_key(r.0.as_deref())).collect();
    let s_keys: Vec<Option<EpisodeKey>> =
        s_raw.iter().map(|r| normalize_key(r.0.as_deref())).collect();
    assert_eq!(
        v_keys,
        vec![Some(EpisodeKey::Text("X".into())), Some(EpisodeKey::Text("Y".into())),]
    );
    assert_eq!(
        s_keys,
        vec![Some(EpisodeKey::Text("A".into())), Some(EpisodeKey::Text("B".into())),]
    );
}

#[test]
fn cross_side_special_tag_in_mixed_variable_slot_yields_text_key() {
    let videos = ["Death_Note - SP 01", "Death_Note - 02", "Death_Note - 03"];
    let subs = ["Death_Note - SP 01", "Death_Note - 02", "Death_Note - 03"];
    let v_ref: Vec<&str> = videos.to_vec();
    let s_ref: Vec<&str> = subs.to_vec();
    let (v_raw, s_raw) = extract_keys_cross(&v_ref, &s_ref);
    let v_keys: Vec<Option<EpisodeKey>> =
        v_raw.iter().map(|r| normalize_key(r.0.as_deref())).collect();
    let s_keys: Vec<Option<EpisodeKey>> =
        s_raw.iter().map(|r| normalize_key(r.0.as_deref())).collect();
    assert_eq!(
        v_keys,
        vec![
            Some(EpisodeKey::Text("SP".into())),
            Some(EpisodeKey::Number("2".into())),
            Some(EpisodeKey::Number("3".into())),
        ]
    );
    assert_eq!(
        s_keys,
        vec![
            Some(EpisodeKey::Text("SP".into())),
            Some(EpisodeKey::Number("2".into())),
            Some(EpisodeKey::Number("3".into())),
        ]
    );
}

#[test]
fn cross_side_chinese_numeral_pair_yields_text_key() {
    let videos = ["中文 第一集", "中文 第二集"];
    let subs = ["【字幕】中文 第一集", "【字幕】中文 第二集"];
    let v_ref: Vec<&str> = videos.to_vec();
    let s_ref: Vec<&str> = subs.to_vec();
    let (v_raw, s_raw) = extract_keys_cross(&v_ref, &s_ref);
    let v_keys: Vec<Option<EpisodeKey>> =
        v_raw.iter().map(|r| normalize_key(r.0.as_deref())).collect();
    let s_keys: Vec<Option<EpisodeKey>> =
        s_raw.iter().map(|r| normalize_key(r.0.as_deref())).collect();
    assert_eq!(
        v_keys,
        vec![Some(EpisodeKey::Text("第一集".into())), Some(EpisodeKey::Text("第二集".into())),]
    );
    assert_eq!(
        s_keys,
        vec![Some(EpisodeKey::Text("第一集".into())), Some(EpisodeKey::Text("第二集".into())),]
    );
}

#[test]
fn cross_side_nfkd_pairs_simplified_traditional() {
    let videos = [
        "[AI-Raws] 机动警察パトレイバー #1",
        "[AI-Raws] 机动警察パトレイバー #2",
        "[AI-Raws] 机动警察パトレイバー #10",
    ];
    let subs = [
        "[字幕] 机动警察 機動警察パトレイバー 01",
        "[字幕] 机动警察 機動警察パトレイバー 02",
        "[字幕] 机动警察 機動警察パトレイバー 10",
    ];
    let v_ref: Vec<&str> = videos.to_vec();
    let s_ref: Vec<&str> = subs.to_vec();
    let (v_raw, s_raw) = extract_keys_cross(&v_ref, &s_ref);
    let v_keys: Vec<Option<EpisodeKey>> =
        v_raw.iter().map(|r| normalize_key(r.0.as_deref())).collect();
    let s_keys: Vec<Option<EpisodeKey>> =
        s_raw.iter().map(|r| normalize_key(r.0.as_deref())).collect();
    assert_eq!(
        v_keys,
        vec![
            Some(EpisodeKey::Number("1".into())),
            Some(EpisodeKey::Number("2".into())),
            Some(EpisodeKey::Number("10".into())),
        ]
    );
    assert_eq!(
        s_keys,
        vec![
            Some(EpisodeKey::Number("1".into())),
            Some(EpisodeKey::Number("2".into())),
            Some(EpisodeKey::Number("10".into())),
        ]
    );
}

#[test]
fn cross_side_whitespace_fold_pairs() {
    let videos = ["视频 1 xyz", "视频 77 test xyz"];
    let subs = ["字幕 1xyz", "字幕 77test xyz"];
    let v_ref: Vec<&str> = videos.to_vec();
    let s_ref: Vec<&str> = subs.to_vec();
    let (v_raw, s_raw) = extract_keys_cross(&v_ref, &s_ref);
    let v_keys: Vec<Option<EpisodeKey>> =
        v_raw.iter().map(|r| normalize_key(r.0.as_deref())).collect();
    let s_keys: Vec<Option<EpisodeKey>> =
        s_raw.iter().map(|r| normalize_key(r.0.as_deref())).collect();
    assert_eq!(
        v_keys,
        vec![Some(EpisodeKey::Number("1".into())), Some(EpisodeKey::Number("77".into())),]
    );
    assert_eq!(
        s_keys,
        vec![Some(EpisodeKey::Number("1".into())), Some(EpisodeKey::Number("77".into())),]
    );
}

#[test]
fn a_leading_dot_parts_the_name_too() {
    let split = |p: &str| ExtensionRegistry::split_basename(p);
    let text = |s: &str, e: &str| (s.to_string(), e.to_string());
    assert_eq!(split(".ass"), text("", "ass"));
    assert_eq!(split("/d/.ass"), text("", "ass"));
    assert_eq!(split("a."), text("a", ""));
    assert_eq!(split(".a.b"), text(".a", "b"));
    assert_eq!(split("/"), text("", ""));
    // What counts as an extension when files are told apart is another matter.
    let registry = ExtensionRegistry::new();
    assert_eq!(registry.categorize(".ass"), FileCategory::Unknown);
    assert_eq!(registry.categorize("x.ass"), FileCategory::Subtitle);
}

#[test]
fn builtin_extensions_stay_known() {
    let mut registry = ExtensionRegistry::new()
        .with_custom(vec!["XYZ".to_string(), "ass".to_string()], vec!["mkv".to_string()]);
    registry.add_custom_video("..Idx");
    registry.add_custom_subtitle("mp4");
    assert_eq!(registry.categorize("a.MKV"), FileCategory::Video);
    assert_eq!(registry.categorize("a.mp4"), FileCategory::Video);
    assert_eq!(registry.categorize("a.srt"), FileCategory::Subtitle);
    assert_eq!(registry.categorize("a.ass"), FileCategory::Video);
    assert_eq!(registry.categorize("a.idx"), FileCategory::Video);
    assert_eq!(registry.categorize("a.xyz"), FileCategory::Video);
    assert_eq!(registry.categorize("a.txt"), FileCategory::Unknown);
}
