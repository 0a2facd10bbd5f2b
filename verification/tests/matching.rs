//! Videos and subtitles in groups.

use subtitle_renamer::matcher::{FileEntry, Matcher};

fn entry(name: &str) -> FileEntry {
    FileEntry::from_path(name.to_string())
}

#[test]
fn single_video_single_subtitle_pair_directly() {
    let m = Matcher::new();
    let v = vec![entry("Show - 01.mkv")];
    let s = vec![entry("Show.S01E01.ass")];
    let r = m.match_files(&v, &s, None, None);
    assert_eq!(r.groups.len(), 1);
    assert!(r.groups[0].video.is_some());
    assert_eq!(r.groups[0].subtitles.len(), 1);
}

#[test]
fn multi_video_multi_subtitle_pair_by_key() {
    let m = Matcher::new();
    let v = vec![
        entry("[Group] Show - 01 [1080p].mkv"),
        entry("[Group] Show - 02 [1080p].mkv"),
        entry("[Group] Show - 03 [1080p].mkv"),
    ];
    let s = vec![
        entry("Show.S01E01.chs.ass"),
        entry("Show.S01E02.chs.ass"),
        entry("Show.S01E03.chs.ass"),
    ];
    let r = m.match_files(&v, &s, None, None);
    assert_eq!(r.groups.len(), 3);
    for g in &r.groups {
        assert!(g.video.is_some(), "video present: {:?}", g.key);
        assert_eq!(g.subtitles.len(), 1);
    }
    assert_eq!(r.unmatched_videos().len(), 0);
    assert_eq!(r.unmatched_subtitles().len(), 0);
}

#[test]
fn mixed_naming_styles_pair_across_styles() {
    let m = Matcher::new();
    let videos: Vec<FileEntry> =
        (1..=6).map(|i| entry(&format!("Death_Note - {i:02}.mkv"))).collect();
    let style_a: Vec<FileEntry> = (1..=4)
        .map(|i| {
            entry(&format!("[X2&CASO][Death_Note][JP_GB_BIG5][{i:02}][DVDRIP]_track3.ass"))
        })
        .collect();
    let style_b: Vec<FileEntry> = (5..=6)
        .map(|i| entry(&format!("[X2-Raws][Death_Note][{i:02}][DVDRIP].sn.ass")))
        .collect();
    let subtitles: Vec<FileEntry> = style_a.into_iter().chain(style_b).collect();

    let r = m.match_files(&videos, &subtitles, None, None);
    assert_eq!(r.unmatched_videos().len(), 0, "every video should pair");
    assert_eq!(r.unmatched_subtitles().len(), 0, "every subtitle should pair");

    let mut pairs: Vec<(String, String)> = r
        .groups
        .iter()
        .filter_map(|g| {
            g.video
                .as_ref()
                .zip(g.subtitles.first())
                .map(|(v, s)| (v.stem.clone(), s.stem.clone()))
        })
        .collect();
    pairs.sort();
    assert_eq!(pairs.len(), 6);
    for ep in ["05", "06"] {
        assert!(
            pairs.iter().any(|(v, s)| v.ends_with(ep)
                && s.contains("X2-Raws")
                && s.contains(&format!("[{ep}]"))),
            "episode {ep} should pair to its [X2-Raws] subtitle: {pairs:?}"
        );
    }
}

#[test]
fn iteration_terminates_and_preserves_unmatched() {
    let m = Matcher::new();
    let v = vec![
        entry("[G] Show - 01.mkv"),
        entry("[G] Show - 02.mkv"),
        entry("[G] Show - 03.mkv"),
    ];
    let s = vec![
        entry("Show.S01E01.chs.ass"),
        entry("Show.S01E02.chs.ass"),
        entry("Show.S01E03.chs.ass"),
        entry("Other.NCOP.ass"),
    ];
    let r = m.match_files(&v, &s, None, None);
    assert_eq!(r.unmatched_videos().len(), 0);
    assert_eq!(r.unmatched_subtitles().len(), 1);
    assert!(r.unmatched_subtitles().iter().any(|s| s.stem.contains("NCOP")));
}

#[test]
fn one_to_many_video_pair() {
    let m = Matcher::new();
    let v = vec![entry("Show - 01.mkv")];
    let s = vec![entry("Show.S01E01.chs.ass"), entry("Show.S01E01.cht.ass")];
    let r = m.match_files(&v, &s, None, None);
    assert_eq!(r.groups.len(), 1);
    assert_eq!(r.groups[0].subtitles.len(), 2);
}

#[test]
fn subtitles_sorted_within_group() {
    let m = Matcher::new();
    let v = vec![entry("Show - 01.mkv")];
    let s = vec![
        entry("Show.S01E01._track5.ass"),
        entry("Show.S01E01._track3.ass"),
        entry("Show.S01E01._track4.ass"),
    ];
    let r = m.match_files(&v, &s, None, None);
    assert_eq!(r.groups.len(), 1);
    let stems: Vec<&str> = r.groups[0].subtitles.iter().map(|f| f.stem.as_str()).collect();
    assert_eq!(
        stems,
        vec!["Show.S01E01._track3", "Show.S01E01._track4", "Show.S01E01._track5"]
    );
}

#[test]
fn idx_sub_pair_stays_adjacent() {
    let m = Matcher::new();
    let v = vec![entry("Show - 01.mkv")];
    let s = vec![entry("Show.S01E01.idx"), entry("Show.S01E01.sub")];
    let r = m.match_files(&v, &s, None, None);
    assert_eq!(r.groups.len(), 1);
    let exts: Vec<&str> = r.groups[0].subtitles.iter().map(|f| f.ext.as_str()).collect();
    assert_eq!(exts, vec!["idx", "sub"]);
}

#[test]
fn unmatched_items_are_preserved() {
    let m = Matcher::new();
    let v = vec![entry("Show - 01.mkv"), entry("Show - 02.mkv")];
    let s = vec![entry("Show.S01E01.chs.ass"), entry("Show.S01E03.chs.ass")];
    let r = m.match_files(&v, &s, None, None);
    assert_eq!(r.unmatched_videos().len(), 1);
    assert_eq!(r.unmatched_subtitles().len(), 1);
}

#[test]
fn text_key_pairing() {
    let m = Matcher::new();
    let v = vec![entry("Show - NCOP.mkv")];
    let s = vec![entry("Show.NCOP.ass")];
    let r = m.match_files(&v, &s, None, None);
    assert_eq!(r.groups.len(), 1);
    assert_eq!(r.groups[0].subtitles.len(), 1);
}

#[test]
fn text_key_unmatched() {
    let m = Matcher::new();
    let v = vec![entry("Show - 01.mkv")];
    let s = vec![entry("Show.SP01.ass")];
    let r = m.match_files(&v, &s, None, None);
    assert_eq!(r.unmatched_subtitles().len(), 1);
}

#[test]
fn manual_attach_and_detach() {
    let m = Matcher::new();
    let v = vec![entry("Show - 01.mkv"), entry("Show - 02.mkv")];
    let s = vec![entry("Show.S01E01.chs.ass"), entry("Show.S01E03.chs.ass")];
    let mut r = m.match_files(&v, &s, None, None);
    let sub_idx = r
        .groups
        .iter()
        .position(|g| g.video.is_none() && !g.subtitles.is_empty())
        .expect("unmatched subtitle group");
    let video_idx = r
        .groups
        .iter()
        .position(|g| g.video.as_ref().is_some_and(|v| v.stem.contains("02")))
        .expect("video 02 group");
    m.manual_attach(&mut r, video_idx, sub_idx);
    assert_eq!(r.groups[video_idx].subtitles.len(), 1);
    assert_eq!(r.groups[sub_idx].subtitles.len(), 0);
    assert!(r.groups[video_idx].manual);
}

#[test]
fn regex_override_recovers_pairing() {
    let m = Matcher::new();
    let v = vec![entry("foo_01.mkv"), entry("foo_02.mkv")];
    let s = vec![entry("bar_ep1.ass"), entry("bar_ep2.ass")];
    let r = m.match_files(&v, &s, None, Some(r"(?i)ep(\d+)"));
    assert_eq!(r.groups.len(), 2);
    for g in &r.groups {
        if g.video.is_some() {
            assert_eq!(g.subtitles.len(), 1);
        }
    }
}

#[test]
fn leading_zero_normalization_pairs_e1_with_01() {
    let m = Matcher::new();
    let v = vec![entry("Show - 01.mkv")];
    let s = vec![entry("Show.E1.ass")];
    let r = m.match_files(&v, &s, None, None);
    assert_eq!(r.groups.len(), 1);
    assert_eq!(r.groups[0].subtitles.len(), 1);
}

#[test]
fn revision_marker_v2_pairs_with_base() {
    let m = Matcher::new();
    let v = vec![entry("Show - 01.mkv")];
    let s = vec![entry("Show.01v2.ass")];
    let r = m.match_files(&v, &s, None, None);
    assert_eq!(r.groups.len(), 1);
    assert_eq!(r.groups[0].subtitles.len(), 1);
}

#[test]
fn match_files_37x37_within_time_budget() {
    let m = Matcher::new();
    let videos: Vec<FileEntry> =
        (1..=37).map(|i| entry(&format!("[Group] Show - {i:02} [1080p].mkv"))).collect();
    let subtitles: Vec<FileEntry> =
        (1..=37).map(|i| entry(&format!("Show.S01E{i:02}.chs.ass"))).collect();
    let start = std::time::Instant::now();
    let r = m.match_files(&videos, &subtitles, None, None);
    let elapsed = start.elapsed();
    assert_eq!(r.groups.len(), 37);
    assert!(elapsed.as_secs() < 5, "37x37 match took {elapsed:?}");
}

#[test]
fn a_pattern_is_consulted_with_one_file_against_many() {
    let m = Matcher::new();
    let v = vec![entry("Show 05.mkv")];
    let s = vec![entry("2x05.ass"), entry("2x06.ass")];
    let r = m.match_files(&v, &s, None, Some(r"x(\d+)"));
    let g = r.groups.iter().find(|g| g.video.is_some()).unwrap();
    assert_eq!(g.subtitles.len(), 1);
    assert_eq!(g.subtitles[0].path, "2x05.ass");
    let left = r.unmatched_subtitles();
    assert_eq!(left.len(), 1);
    assert_eq!(left[0].path, "2x06.ass");
    // The same the other way round, and with a pattern on both sides.
    let v = vec![entry("2x05.mkv"), entry("2x06.mkv")];
    let s = vec![entry("Show 06.ass")];
    for subtitle_pattern in [None, Some(r"(\d+)")] {
        let r = m.match_files(&v, &s, Some(r"x(\d+)"), subtitle_pattern);
        let g = r.groups.iter().find(|g| !g.subtitles.is_empty()).unwrap();
        assert_eq!(g.video.as_ref().unwrap().path, "2x06.mkv");
        assert_eq!(r.unmatched_videos().len(), 1);
        assert_eq!(r.unmatched_videos()[0].path, "2x05.mkv");
    }
}
