//! Target names, plans and conflicts.

use subtitle_renamer::matcher::{FileEntry, Matcher};
use subtitle_renamer::naming::{render_template, NamingConfig, TokenMapping, Vars};
use subtitle_renamer::paths::parent;
use subtitle_renamer::plan::{
    generate_plan, ActionMode, Conflict, FsProbe, PlanError, PlannedAction,
};

struct NoExists;
impl FsProbe for NoExists {
    fn path_exists(&self, _: &str) -> bool {
        false
    }
}

fn entry(name: &str) -> FileEntry {
    FileEntry::from_path(name.to_string())
}

#[test]
fn plan_ops_sorted_by_subtitle_stem() {
    let m = Matcher::new();
    let v = vec![entry("/videos/Show - 01.mkv")];
    let s = vec![
        entry("/subs/Show 01 _z.ass"),
        entry("/subs/Show 01 _a.ass"),
        entry("/subs/Show 01 _m.ass"),
    ];
    let r = m.match_files(&v, &s, None, None);
    let plan =
        generate_plan(&r, &NamingConfig::default(), &NoExists, ActionMode::Rename).unwrap();
    let stems: Vec<&str> = plan.ops.iter().map(|o| o.subtitle.stem.as_str()).collect();
    assert_eq!(stems, vec!["Show 01 _a", "Show 01 _m", "Show 01 _z"]);
}

#[test]
fn default_plan_no_suffix() {
    let m = Matcher::new();
    let v = vec![entry("/videos/[Group] Show - 01 [1080p].mkv")];
    let s = vec![entry("/subs/Show.S01E01.chs.ass")];
    let r = m.match_files(&v, &s, None, None);
    let plan =
        generate_plan(&r, &NamingConfig::default(), &NoExists, ActionMode::Rename).unwrap();
    assert_eq!(plan.ops.len(), 1);
    let op = &plan.ops[0];
    assert_eq!(op.target_basename, "[Group] Show - 01 [1080p].ass");
    assert_eq!(op.action, PlannedAction::Rename);
    assert!(!plan.has_conflicts());
}

#[test]
fn template_with_literal_suffix() {
    let m = Matcher::new();
    let v = vec![entry("/videos/Show - 01.mkv")];
    let s = vec![entry("/subs/Show.S01E01.ass")];
    let r = m.match_files(&v, &s, None, None);
    let cfg =
        NamingConfig { template: "${video}.zh-Hans.${ext}".into(), ..NamingConfig::default() };
    let plan = generate_plan(&r, &cfg, &NoExists, ActionMode::Rename).unwrap();
    assert_eq!(plan.ops[0].target_basename, "Show - 01.zh-Hans.ass");
}

#[test]
fn language_alias_fills_lang_var() {
    let m = Matcher::new();
    let v = vec![entry("/videos/Show - 01.mkv")];
    let s = vec![entry("/subs/Show.S01E01.cht.ass")];
    let r = m.match_files(&v, &s, None, None);
    let cfg = NamingConfig {
        template: "${video}.${lang}.${ext}".into(),
        auto_fill_lang: true,
        ..NamingConfig::default()
    };
    let plan = generate_plan(&r, &cfg, &NoExists, ActionMode::Rename).unwrap();
    assert_eq!(plan.ops[0].target_basename, "Show - 01.zh-Hant.ass");
}

#[test]
fn token_mapping_fills_lang_var() {
    let m = Matcher::new();
    let v = vec![entry("/videos/Show - 01.mkv")];
    let s = vec![entry("/subs/Show.S01E01.chs.ass")];
    let r = m.match_files(&v, &s, None, None);
    let cfg = NamingConfig {
        template: "${video}.${lang}.${ext}".into(),
        mappings: vec![TokenMapping {
            token: "chs".into(),
            value: "zh-Hans".into(),
            var: "lang".into(),
        }],
        ..NamingConfig::default()
    };
    let plan = generate_plan(&r, &cfg, &NoExists, ActionMode::Rename).unwrap();
    assert_eq!(plan.ops[0].target_basename, "Show - 01.zh-Hans.ass");
}

#[test]
fn explicit_mapping_overrides_alias() {
    let m = Matcher::new();
    let v = vec![entry("/videos/Show - 01.mkv")];
    let s = vec![entry("/subs/Show.S01E01.chs_track3.ass")];
    let r = m.match_files(&v, &s, None, None);
    let cfg = NamingConfig {
        template: "${video}.${lang}.${ext}".into(),
        auto_fill_lang: true,
        mappings: vec![TokenMapping {
            token: "track3".into(),
            value: "zh-Hans".into(),
            var: "lang".into(),
        }],
        ..NamingConfig::default()
    };
    let plan = generate_plan(&r, &cfg, &NoExists, ActionMode::Rename).unwrap();
    assert_eq!(plan.ops[0].target_basename, "Show - 01.zh-Hans.ass");
}

#[test]
fn empty_var_collapses_separator() {
    let m = Matcher::new();
    let v = vec![entry("/videos/Show - 01.mkv")];
    let s = vec![entry("/subs/Show.S01E01.ass")];
    let r = m.match_files(&v, &s, None, None);
    let cfg = NamingConfig {
        template: "${video}.${group}-${lang}.${ext}".into(),
        ..NamingConfig::default()
    };
    let plan = generate_plan(&r, &cfg, &NoExists, ActionMode::Rename).unwrap();
    assert_eq!(plan.ops[0].target_basename, "Show - 01.ass");
}

#[test]
fn idx_sub_unit_shares_main_name() {
    let m = Matcher::new();
    let v = vec![entry("/videos/Show - 01.mkv")];
    let s = vec![entry("/subs/Show.S01E01.idx"), entry("/subs/Show.S01E01.sub")];
    let r = m.match_files(&v, &s, None, None);
    let plan =
        generate_plan(&r, &NamingConfig::default(), &NoExists, ActionMode::Rename).unwrap();
    assert_eq!(plan.ops.len(), 2);
    let basenames: Vec<&str> = plan.ops.iter().map(|o| o.target_basename.as_str()).collect();
    assert!(basenames.contains(&"Show - 01.idx"));
    assert!(basenames.contains(&"Show - 01.sub"));
    let ids: Vec<_> = plan.ops.iter().map(|o| o.unit_id.clone()).collect();
    assert_eq!(ids[0], ids[1]);
    assert!(ids[0].is_some());
}

#[test]
fn same_dir_uses_rename() {
    let m = Matcher::new();
    let v = vec![entry("/media/Show - 01.mkv")];
    let s = vec![entry("/media/Show.S01E01.ass")];
    let r = m.match_files(&v, &s, None, None);
    let plan =
        generate_plan(&r, &NamingConfig::default(), &NoExists, ActionMode::Rename).unwrap();
    assert_eq!(plan.ops[0].action, PlannedAction::Rename);
}

#[test]
fn duplicate_target_flagged_as_conflict() {
    let m = Matcher::new();
    let v = vec![entry("/media/Show - 01.mkv")];
    let s = vec![entry("/media/Show.S01E01.chs.ass"), entry("/media/Show.S01E01.chs.ass")];
    let r = m.match_files(&v, &s, None, None);
    let plan =
        generate_plan(&r, &NamingConfig::default(), &NoExists, ActionMode::Rename).unwrap();
    assert!(plan.has_conflicts());
    assert!(
        plan.ops
            .iter()
            .any(|o| o.conflicts.iter().any(|c| matches!(c, Conflict::DuplicateTarget(_))))
    );
}

#[test]
fn target_exists_flagged_via_probe() {
    struct AlwaysExists;
    impl FsProbe for AlwaysExists {
        fn path_exists(&self, _: &str) -> bool {
            true
        }
    }
    let m = Matcher::new();
    let v = vec![entry("/media/Show - 01.mkv")];
    let s = vec![entry("/subs/Show.S01E01.ass")];
    let r = m.match_files(&v, &s, None, None);
    let plan =
        generate_plan(&r, &NamingConfig::default(), &AlwaysExists, ActionMode::Rename).unwrap();
    assert!(plan.has_conflicts());
    assert!(
        plan.ops
            .iter()
            .any(|o| o.conflicts.iter().any(|c| matches!(c, Conflict::TargetExists(_))))
    );
}

#[test]
fn action_mode_rename_uses_rename_in_place() {
    let m = Matcher::new();
    let v = vec![entry("/media/Show - 01.mkv")];
    let s = vec![entry("/media/Show.S01E01.ass")];
    let r = m.match_files(&v, &s, None, None);
    let plan =
        generate_plan(&r, &NamingConfig::default(), &NoExists, ActionMode::Rename).unwrap();
    assert_eq!(plan.ops[0].action, PlannedAction::Rename);
}

#[test]
fn action_mode_rename_stays_in_subtitle_dir() {
    let m = Matcher::new();
    let v = vec![entry("/videos/Show - 01.mkv")];
    let s = vec![entry("/subs/Show.S01E01.ass")];
    let r = m.match_files(&v, &s, None, None);
    let plan =
        generate_plan(&r, &NamingConfig::default(), &NoExists, ActionMode::Rename).unwrap();
    assert_eq!(plan.ops[0].action, PlannedAction::Rename);
    assert_eq!(parent(&plan.ops[0].target_path).unwrap(), "/subs");
}

#[test]
fn action_mode_copy_to_video_dir() {
    let m = Matcher::new();
    let v = vec![entry("/videos/Show - 01.mkv")];
    let s = vec![entry("/subs/Show.S01E01.ass")];
    let r = m.match_files(&v, &s, None, None);
    let plan =
        generate_plan(&r, &NamingConfig::default(), &NoExists, ActionMode::Copy).unwrap();
    assert_eq!(plan.ops[0].action, PlannedAction::Copy);
    assert_eq!(parent(&plan.ops[0].target_path).unwrap(), "/videos");
}

#[test]
fn action_mode_copy_without_video_errors() {
    let m = Matcher::new();
    let v: Vec<FileEntry> = Vec::new();
    let s = vec![entry("/subs/Show.S01E01.ass")];
    let r = m.match_files(&v, &s, None, None);
    match generate_plan(&r, &NamingConfig::default(), &NoExists, ActionMode::Copy) {
        Err(PlanError::NoVideoForCopy { op_index }) => assert_eq!(op_index, 0),
        other => panic!("expected NoVideoForCopy, got {other:?}"),
    }
}

fn mapping(token: &str, value: &str, var: &str) -> TokenMapping {
    TokenMapping { token: token.into(), value: value.into(), var: var.into() }
}

#[test]
fn resolve_vars_collects_multiple_vars() {
    let cfg = NamingConfig {
        mappings: vec![
            mapping("X2&CASO", "华盟字幕社", "group"),
            mapping("track3", "zh-Hans", "lang"),
        ],
        ..NamingConfig::default()
    };
    let sub = entry("[X2&CASO][Death_Note][01]_track3.ass");
    let vars = cfg.resolve_vars(&sub);
    assert_eq!(vars.get("group").map(String::as_str), Some("华盟字幕社"));
    assert_eq!(vars.get("lang").map(String::as_str), Some("zh-Hans"));
}

#[test]
fn resolve_vars_longest_token_wins() {
    let cfg = NamingConfig {
        mappings: vec![mapping("track", "short", "lang"), mapping("track3", "zh-Hans", "lang")],
        ..NamingConfig::default()
    };
    let sub = entry("..._track3.ass");
    let vars = cfg.resolve_vars(&sub);
    assert_eq!(vars.get("lang").map(String::as_str), Some("zh-Hans"));
}

#[test]
fn resolve_vars_case_sensitive() {
    let cfg = NamingConfig {
        case_sensitive: true,
        mappings: vec![mapping("chs", "zh-Hans", "lang")],
        ..NamingConfig::default()
    };
    assert_eq!(cfg.resolve_vars(&entry("Show.CHS.ass")).get("lang").map(String::as_str), None);
    assert_eq!(
        cfg.resolve_vars(&entry("Show.chs.ass")).get("lang").map(String::as_str),
        Some("zh-Hans")
    );
}

#[test]
fn render_template_custom_var_and_empty_video() {
    let mut vars = Vars::new();
    vars.insert("dual".to_string(), "简日双语".to_string());
    assert_eq!(
        render_template("${video}.${dual}.${ext}", &vars, "Show - 01", "ass"),
        "Show - 01.简日双语.ass"
    );
    assert_eq!(
        render_template(
            "${video}.${group}-${lang}.${ext}",
            &Vars::new(),
            "Show - 01",
            "ass"
        ),
        "Show - 01.ass"
    );
}
