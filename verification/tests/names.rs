//! Templates, variables and modes.

use subtitle_renamer::key::EpisodeKey;
use subtitle_renamer::matcher::{classify_files, FileEntry, MatchResult, Matcher, PairGroup};
use subtitle_renamer::naming::{
    default_var, detect_language_alias, render_template, NamingConfig, TokenMapping, Vars,
    DEFAULT_TEMPLATE,
};
use subtitle_renamer::plan::{
    build_ops, generate_plan, mark_conflicts, ActionMode, Conflict, FsProbe, Plan,
    PlanError, PlannedAction,
};
use subtitle_renamer::registry::ExtensionRegistry;
use subtitle_renamer::script::{mv_script, shell_quote};
use subtitle_renamer::view::{
    confirm_text, conflict_summary, leftover_text, plan_rows, plan_tab_label, video_style,
    VideoStyle,
};

struct There(Vec<&'static str>);

impl FsProbe for There {
    fn path_exists(&self, path: &str) -> bool {
        self.0.contains(&path)
    }
}

fn entry(path: &str) -> FileEntry {
    FileEntry::from_path(path.to_string())
}

fn matched(videos: &[&str], subs: &[&str]) -> MatchResult {
    let v: Vec<FileEntry> = videos.iter().map(|p| entry(p)).collect();
    let s: Vec<FileEntry> = subs.iter().map(|p| entry(p)).collect();
    Matcher::new().match_files(&v, &s, None, None)
}

fn rename_plan(videos: &[&str], subs: &[&str], there: Vec<&'static str>) -> Plan {
    let r = matched(videos, subs);
    generate_plan(&r, &NamingConfig::default(), &There(there), ActionMode::Rename).unwrap()
}

#[test]
fn blank_templates_fall_back() {
    assert_eq!(NamingConfig::default().effective_template(), DEFAULT_TEMPLATE);
    let cfg = NamingConfig { template: "${video}".to_string(), ..NamingConfig::default() };
    assert_eq!(cfg.effective_template(), "${video}");
    assert_eq!(default_var(), "lang");
}

#[test]
fn templates_keep_what_is_no_variable() {
    let vars = Vars::new();
    assert_eq!(render_template("a $ b {c} ${", &vars, "V", "x"), "a $ b {c} ${");
    assert_eq!(render_template("${video}", &vars, "V", "x"), "V");
    assert_eq!(render_template("${ext}.${video}", &vars, "V", "x"), "x.V");
    assert_eq!(render_template("", &vars, "V", "x"), "");
}

#[test]
fn the_last_value_of_a_variable_counts() {
    let mut vars = Vars::new();
    assert!(!vars.contains_key("a"));
    vars.insert("a".to_string(), "1".to_string());
    vars.insert("b".to_string(), "2".to_string());
    vars.insert("a".to_string(), "3".to_string());
    assert_eq!(vars.get("a").map(String::as_str), Some("3"));
    assert_eq!(vars.get("b").map(String::as_str), Some("2"));
    assert!(vars.get("c").is_none());
}

#[test]
fn aliases_give_language_tags() {
    assert_eq!(detect_language_alias("Show.chs", false).as_deref(), Some("zh-Hans"));
    assert_eq!(detect_language_alias("Show.CHT", false).as_deref(), Some("zh-Hant"));
    assert_eq!(detect_language_alias("Show.CHT", true), None);
    assert_eq!(detect_language_alias("Show", false), None);
}

#[test]
fn tokens_stand_alone() {
    let cfg = NamingConfig {
        mappings: vec![TokenMapping {
            token: "sc".to_string(),
            value: "zh-Hans".to_string(),
            var: "lang".to_string(),
        }],
        ..NamingConfig::default()
    };
    assert!(cfg.resolve_vars(&entry("Discovery.ass")).get("lang").is_none());
    assert!(cfg.resolve_vars(&entry("Disc.sc.ass")).get("lang").is_some());
}

#[test]
fn of_level_tokens_the_first_listed_wins() {
    let map = |token: &str, value: &str| TokenMapping {
        token: token.to_string(),
        value: value.to_string(),
        var: "lang".to_string(),
    };
    let lang = |mappings: Vec<TokenMapping>| {
        let cfg = NamingConfig { mappings, ..NamingConfig::default() };
        cfg.resolve_vars(&entry("Show.sc.tc.jpn.ass")).get("lang").cloned().unwrap()
    };
    assert_eq!(lang(vec![map("sc", "first"), map("sc", "second")]), "first");
    assert_eq!(lang(vec![map("SC", "first"), map("sc", "second")]), "first");
    assert_eq!(lang(vec![map("tc", "later"), map("sc", "earlier")]), "earlier");
    assert_eq!(lang(vec![map("sc", "short"), map("jpn", "long")]), "long");
}

#[test]
fn modes_have_names() {
    for mode in [ActionMode::Rename, ActionMode::Copy] {
        assert_eq!(ActionMode::from_name(mode.name()), Some(mode));
    }
    assert_eq!(ActionMode::from_name("Auto"), Some(ActionMode::Rename));
    assert_eq!(ActionMode::from_name("Move"), Some(ActionMode::Rename));
    assert_eq!(ActionMode::from_name("copy"), None);
    assert_eq!(ActionMode::default(), ActionMode::Rename);
}

#[test]
fn language_versions_are_no_unit() {
    let group = PairGroup {
        video: Some(entry("/v/Show - 01.mkv")),
        subtitles: vec![entry("/s/Show.S01E01.chs.ass"), entry("/s/Show.S01E01.cht.ass")],
        key: EpisodeKey::Number("1".to_string()),
        manual: false,
    };
    let r = MatchResult { groups: vec![group] };
    let plan =
        generate_plan(&r, &NamingConfig::default(), &There(vec![]), ActionMode::Rename).unwrap();
    assert_eq!(plan.ops.len(), 2);
    assert_eq!(plan.ops[0].unit_id, None);
    assert_eq!(plan.ops[1].unit_id, None);
    let plan = rename_plan(
        &["/v/Show - 01.mkv"],
        &["/s/Show.S01E01.chs.sub", "/s/Show.S01E01.cht.idx", "/s/Show.S01E01.chs.idx"],
        vec![],
    );
    let ids: Vec<Option<&str>> = plan.ops.iter().map(|o| o.unit_id.as_deref()).collect();
    let unit = Some("Show - 01|Show.S01E01.chs");
    assert_eq!(ids, vec![unit, unit, None]);
}

#[test]
fn a_missing_video_is_named_in_the_error() {
    let e = PlanError::NoVideoForCopy { op_index: 3 };
    assert_eq!(e.message(), "Copy mode requires paired video (op #3)");
}

#[test]
fn a_target_that_is_a_source_is_no_conflict() {
    let r = rename_plan(&["/m/Show - 01.mkv"], &["/m/Show - 01.ass"], vec!["/m/Show - 01.ass"]);
    assert!(!r.has_conflicts());
    let r = rename_plan(&["/m/Show - 01.mkv"], &["/m/Show.E01.ass"], vec!["/m/Show - 01.ass"]);
    assert_eq!(r.ops[0].conflicts, vec![Conflict::TargetExists("/m/Show - 01.ass".to_string())]);
    assert_eq!(conflict_summary(&r.ops[0].conflicts[0]), "exists");
    assert_eq!(plan_tab_label(&Some(r)), "Plan (0)");
}

#[test]
fn what_is_there_is_marked() {
    let r = matched(&["/m/Show - 01.mkv"], &["/s/Show.E01.ass"]);
    let ops = build_ops(&r, &NamingConfig::default(), ActionMode::Copy).unwrap();
    assert_eq!(ops[0].action, PlannedAction::Copy);
    assert_eq!(ops[0].target_path, "/m/Show - 01.ass");
    assert!(!mark_conflicts(&ops, &vec![false]).has_conflicts());
    assert!(mark_conflicts(&ops, &vec![true]).has_conflicts());
}

#[test]
fn every_subtitle_gets_an_operation() {
    let videos = ["/m/Show - 01.mkv", "/m/Show - 02.mkv", "/m/Show - 03.mkv"];
    let subs = ["/s/Show.E01.ass", "/s/Show.E02.ass", "/s/Show.E09.ass"];
    let r = matched(&videos, &subs);
    let plan =
        generate_plan(&r, &NamingConfig::default(), &There(vec![]), ActionMode::Rename).unwrap();
    let mut paths: Vec<String> = plan.ops.iter().map(|o| o.subtitle.path.clone()).collect();
    paths.sort();
    assert_eq!(paths, subs);
    assert_eq!(
        leftover_text(&r, 2),
        "Unmatched videos: 1 · Unmatched subtitles: 1 · Unknown extensions: 2"
    );
    assert_eq!(confirm_text(&plan), "Apply 3 operations (3 rename, 0 copy)?");
    assert_eq!(plan_tab_label(&Some(plan)), "Plan (3)");
    assert_eq!(plan_tab_label(&None), "Plan (0)");
}

#[test]
fn rows_name_operations_and_lone_videos() {
    let videos = ["/m/Show - 01.mkv", "/m/Show - 02.mkv"];
    let subs = ["/s/Show.E01.chs.ass", "/s/Show.E01.cht.ass", "/s/Show.E03.ass"];
    let r = matched(&videos, &subs);
    let plan =
        generate_plan(&r, &NamingConfig::default(), &There(vec![]), ActionMode::Rename).unwrap();
    let rows = plan_rows(&r, &plan);
    assert_eq!(rows.len(), 4);
    let styles: Vec<VideoStyle> = (0..rows.len()).map(|i| video_style(&rows, i)).collect();
    assert_eq!(styles[0], VideoStyle::Paired);
    assert_eq!(styles[1], VideoStyle::Repeated);
    assert_eq!(styles[2], VideoStyle::Absent);
    assert_eq!(styles[3], VideoStyle::Lonely);
    assert!(rows[0].conflict && rows[1].conflict && !rows[2].conflict);
    assert_eq!(rows[0].target, "Show - 01.ass");
    assert_eq!(rows[3].target, "");
    assert!(rows[3].subtitle.is_none());
}

#[test]
fn quoting_is_undone_by_the_shell() {
    assert_eq!(shell_quote("/a-b_c=d.e,f:g@h%i+j"), "/a-b_c=d.e,f:g@h%i+j");
    assert_eq!(shell_quote("a b"), "'a b'");
    assert_eq!(shell_quote("it's"), "'it'\\''s'");
    assert_eq!(shell_quote("é"), "'é'");
    assert_eq!(shell_quote(""), "");
}

#[test]
fn scripts_list_the_commands() {
    let plan = rename_plan(&["/m/Show - 01.mkv"], &["/s/Show.E01.ass"], vec![]);
    assert_eq!(
        mv_script(&plan),
        "#!/bin/sh\n# generated by subtitle-renamer\nmv /s/Show.E01.ass '/s/Show - 01.ass'\n"
    );
    assert_eq!(
        mv_script(&Plan::default()),
        "#!/bin/sh\n# generated by subtitle-renamer\n"
    );
}

#[test]
fn files_are_kept_by_matching_and_moving() {
    let videos = ["/m/Show - 01.mkv", "/m/Show - 02.mkv", "/m/Show - 02.mkv"];
    let subs = ["/s/Show.E01.ass", "/s/Show.E02.ass", "/s/Show.E07.ass", "/s/x.ass"];
    let mut r = matched(&videos, &subs);
    let count = |r: &MatchResult| {
        let v = r.groups.iter().filter(|g| g.video.is_some()).count();
        let s: usize = r.groups.iter().map(|g| g.subtitles.len()).sum();
        (v, s)
    };
    assert_eq!(count(&r), (3, 4));
    let n = r.groups.len();
    for i in 0..n {
        for j in 0..n {
            Matcher::new().manual_attach(&mut r, i, j);
            assert_eq!(count(&r), (3, 4));
        }
    }
    let i = r.groups.iter().position(|g| g.video.is_some() && !g.subtitles.is_empty()).unwrap();
    let lone = r.unmatched_subtitles().len();
    let detached = r.groups[i].subtitles[0].path.clone();
    Matcher::new().manual_detach(&mut r, i, 0);
    assert_eq!(count(&r), (3, 4));
    assert_eq!(r.groups.len(), n + 1);
    assert!(r.groups[i].manual);
    assert!(r.groups[n].video.is_none());
    assert_eq!(r.unmatched_subtitles().len(), lone + 1);
    assert_eq!(r.unmatched_subtitles()[lone].path, detached);
    Matcher::new().manual_attach(&mut r, n, n);
    assert_eq!(count(&r), (3, 4));
    Matcher::new().manual_attach(&mut r, i, n);
    assert_eq!(count(&r), (3, 4));
    assert_eq!(r.unmatched_subtitles().len(), lone);
    Matcher::new().manual_detach(&mut r, n + 1, 0);
    assert_eq!(count(&r), (3, 4));
}

#[test]
fn what_is_handed_out_covers_the_files() {
    let videos = ["/m/Show - 01.mkv", "/m/Show - 02.mkv", "/m/Show - 03.mkv"];
    let subs = ["/s/Show.E01.ass", "/s/Show.E02.chs.ass", "/s/Show.E02.cht.ass", "/s/Show.E09.ass"];
    let r = matched(&videos, &subs);
    let paired = r.paired();
    let mut v: Vec<&str> = paired.iter().map(|g| g.video.as_ref().unwrap().path.as_str()).collect();
    v.sort();
    assert_eq!(v, videos);
    let lone = r.unmatched_subtitles();
    let mut s: Vec<&str> = paired
        .iter()
        .flat_map(|g| g.subtitles.iter())
        .chain(lone.iter())
        .map(|f| f.path.as_str())
        .collect();
    s.sort();
    assert_eq!(s, subs);
    for f in r.unmatched_videos() {
        let g = paired.iter().find(|g| g.video.as_ref().unwrap().path == f.path).unwrap();
        assert!(g.subtitles.is_empty());
    }
}

#[test]
fn files_of_a_directory_are_classified() {
    let paths: Vec<String> =
        ["/d/b.ass", "/d/a.mkv", "/d/c.txt"].iter().map(|p| p.to_string()).collect();
    let (videos, subtitles) = classify_files(&ExtensionRegistry::new(), &paths);
    assert_eq!(videos.len(), 1);
    assert_eq!(subtitles.len(), 1);
    assert_eq!(videos[0].stem, "a");
    assert_eq!(subtitles[0].stem, "b");
}

#[test]
fn groups_come_in_the_order_of_their_keys() {
    let videos = ["/m/Show - 10.mkv", "/m/Show - 2.mkv", "/m/Show - NCOP.mkv", "/m/Show - 1.mkv"];
    let subs = ["/s/Show.E2.ass", "/s/Show.E10.ass", "/s/Show.E1.ass"];
    let r = matched(&videos, &subs);
    for w in r.groups.windows(2) {
        assert!(w[0].key.cmp(&w[1].key) != std::cmp::Ordering::Greater);
    }
    assert_eq!(r.paired().len(), 4);
}
