//! The files at hand, settings and requests.

use subtitle_renamer::config::{default_config_path, UserConfig};
use subtitle_renamer::matcher::FileEntry;
use subtitle_renamer::naming::TokenMapping;
use subtitle_renamer::plan::{ActionMode, FsProbe};
use subtitle_renamer::registry::{ExtensionRegistry, FileCategory};
use subtitle_renamer::view::{
    font_notice, locate_cjk_font, probe_paths, ActiveTab,
};
use subtitle_renamer::workspace::{
    non_empty, push_line, registry_for, run_refresh, subtitle_identities, ForcedSide, Settings,
    Workspace, MAX_LOG_LINES,
};

struct Nothing;

impl FsProbe for Nothing {
    fn path_exists(&self, _: &str) -> bool {
        false
    }
}

fn entry(path: &str) -> FileEntry {
    FileEntry::from_path(path.to_string())
}

fn last(w: &Workspace) -> &str {
    w.log().last().unwrap()
}

#[test]
fn a_fresh_workspace_is_empty() {
    let w = Workspace::new(ExtensionRegistry::new());
    assert!(w.videos().is_empty() && w.subtitles().is_empty() && w.unknown().is_empty());
    assert!(w.plan().is_none() && w.result().is_none());
    assert!(!w.pending());
    assert_eq!(last(&w), "Use Browse to load files, or start from a media folder.");
    assert_eq!(ActiveTab::default(), ActiveTab::Plan);
}

#[test]
fn the_log_is_bounded() {
    let mut log = Vec::new();
    for i in 0..MAX_LOG_LINES + 3 {
        push_line(&mut log, format!("{i}"));
    }
    assert_eq!(log.len(), MAX_LOG_LINES);
    assert_eq!(log[0], "3");
    assert_eq!(log[MAX_LOG_LINES - 1], format!("{}", MAX_LOG_LINES + 2));
}

#[test]
fn files_go_to_their_side() {
    let mut w = Workspace::new(ExtensionRegistry::new());
    w.add_file("/a/1.mkv".to_string(), None);
    w.add_file("/a/1.ass".to_string(), None);
    w.add_file("/a/1.txt".to_string(), None);
    w.add_file("/a/2.txt".to_string(), Some(ForcedSide::Subtitle));
    w.add_file("/a/3.ass".to_string(), Some(ForcedSide::Video));
    assert_eq!(w.videos().len(), 2);
    assert_eq!(w.subtitles().len(), 2);
    assert_eq!(w.unknown().len(), 1);
    w.add_media(vec![entry("/b/9.mkv")], vec![]);
    assert_eq!(w.videos()[2].path, "/b/9.mkv");
    w.remove_subtitle("/a//1.ass");
    assert_eq!(w.subtitles().len(), 1);
    assert_eq!(w.subtitles()[0].path, "/a/2.txt");
    w.clear_videos();
    assert!(w.videos().is_empty());
    w.clear_all();
    assert!(w.subtitles().is_empty() && w.unknown().is_empty());
}

#[test]
fn only_the_latest_result_counts() {
    let mut w = Workspace::new(ExtensionRegistry::new());
    let settings = Settings::from_config(&UserConfig::default());
    w.add_file("/a/Show - 01.mkv".to_string(), None);
    w.add_file("/a/Show.E01.ass".to_string(), None);
    let stale = w.request(&settings);
    w.refresh_sent(true);
    assert!(w.pending());
    assert_eq!(last(&w), "处理中…");
    let fresh = w.request(&settings);
    w.refresh_sent(true);
    assert_ne!(stale.epoch, fresh.epoch);
    let lines = w.log().len();
    assert!(!w.accept_result(run_refresh(&stale, &vec![], &Nothing)));
    assert!(w.pending());
    assert_eq!(w.log().len(), lines);
    assert!(w.plan().is_none());
    assert!(w.accept_result(run_refresh(&fresh, &vec![], &Nothing)));
    assert!(!w.pending());
    assert_eq!(last(&w), "1 video(s), 1 subtitle(s) → 1 pair group(s)");
    assert_eq!(w.plan().as_ref().unwrap().ops.len(), 1);
    assert_eq!(w.result().as_ref().unwrap().groups.len(), 1);
    assert_eq!(w.registry().categorize("a.mkv"), FileCategory::Video);
}

#[test]
fn a_request_that_is_not_taken_up_is_not_awaited() {
    let mut w = Workspace::new(ExtensionRegistry::new());
    w.refresh_sent(false);
    assert!(!w.pending());
    assert_eq!(last(&w), "后台刷新线程不可用");
}

#[test]
fn a_plan_error_leaves_an_empty_plan() {
    let mut w = Workspace::new(ExtensionRegistry::new());
    let config = UserConfig { action_mode: ActionMode::Copy, ..UserConfig::default() };
    w.add_file("/a/Show.E01.ass".to_string(), None);
    let req = w.request(&Settings::from_config(&config));
    let res = run_refresh(&req, &vec![Some("c".to_string())], &Nothing);
    assert_eq!(res.identities.len(), 1);
    assert!(w.accept_result(res));
    assert_eq!(last(&w), "Plan error: Copy mode requires paired video (op #0)");
    assert!(w.plan().as_ref().unwrap().ops.is_empty());
}

#[test]
fn identities_need_a_directory_and_a_checksum() {
    let subs = vec![entry("/a/1.ass"), entry("/a/2.ass"), entry("/"), entry("/b/3.ass")];
    let sums = vec![Some("x".to_string()), None, Some("y".to_string())];
    let ids = subtitle_identities(&subs, &sums);
    assert_eq!(ids.len(), 1);
    assert_eq!((ids[0].dir.as_str(), ids[0].checksum.as_str()), ("/a", "x"));
}

#[test]
fn blank_text_is_no_text() {
    assert_eq!(non_empty("  "), None);
    assert_eq!(non_empty("\u{3000}\t"), None);
    assert_eq!(non_empty(" a b "), Some("a b".to_string()));
}

#[test]
fn settings_make_a_configuration() {
    let mut settings = Settings::from_config(&UserConfig::default());
    settings.template = "${video}.${lang}.${ext}".to_string();
    settings.video_regex = "  ".to_string();
    settings.subtitle_regex = r" ep(\d+) ".to_string();
    settings.action_mode = ActionMode::Copy;
    settings.always_on_top = true;
    settings.add_mapping();
    settings.mappings.push(TokenMapping {
        token: "chs".to_string(),
        value: "zh-Hans".to_string(),
        var: "lang".to_string(),
    });
    assert_eq!(settings.mappings[0].var, "lang");
    assert_eq!(settings.mappings[0].token, "");
    assert_eq!(settings.naming().mappings.len(), 1);
    let mut registry = ExtensionRegistry::new();
    registry.add_custom_subtitle("sup");
    let config = settings.to_config(&registry);
    assert_eq!(config.suffix.template, "${video}.${lang}.${ext}");
    assert_eq!(config.suffix.mappings[0].token, "chs");
    assert_eq!(config.video_regex, None);
    assert_eq!(config.subtitle_regex.as_deref(), Some(r"ep(\d+)"));
    assert_eq!(config.action_mode, ActionMode::Copy);
    assert_eq!(config.custom_subtitle_exts, vec!["sup"]);
    assert!(config.always_on_top);
    let again = Settings::from_config(&config);
    assert_eq!(again.subtitle_regex, r"ep(\d+)");
    assert_eq!(again.video_regex, "");
    assert_eq!(registry_for(&config.clone()).categorize("a.sup"), FileCategory::Subtitle);
}

#[test]
fn nothing_is_configured_at_first() {
    let cfg = UserConfig::default();
    assert_eq!(cfg.suffix.template, "");
    assert!(cfg.suffix.mappings.is_empty());
    assert!(default_config_path().ends_with("/subtitle-renamer/config.toml"));
}

#[test]
fn the_first_font_is_taken() {
    let places = probe_paths();
    let mut there = vec![false; places.len()];
    assert_eq!(locate_cjk_font(&there), None);
    there[5] = true;
    there[7] = true;
    assert_eq!(locate_cjk_font(&there).as_deref(), Some(places[5]));
    let font = Some("/f.ttc".to_string());
    assert_eq!(font_notice(&font, true), "loaded CJK font from /f.ttc");
    assert_eq!(font_notice(&font, false), "found CJK font at /f.ttc but failed to read it");
    assert_eq!(
        font_notice(&None, false),
        "no CJK font found; non-ASCII filenames may render as boxes"
    );
}
