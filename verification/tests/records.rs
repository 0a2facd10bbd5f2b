//! Checksums, dates, the history and how it is shown.

use subtitle_renamer::calendar::{civil_date, format_epoch};
use subtitle_renamer::checksum::{sha256_hex, short_checksum, to_hex, Checksum, ChecksumCache};
use subtitle_renamer::history;
use subtitle_renamer::state::{
    copies_query, default_state_path, legacy_path, migration_steps, own_path, placeholders,
    undo_session_record, CopyRecord, MigrationStep, RenameRecord, SessionRecord, CURRENT_VERSION,
};
use subtitle_renamer::timeline::{
    attribute, build_timeline, collision_text, copies_header, copy_text, entry_text, hint_text,
    needle_found, older_label, page_label, session_matches, session_title, Hits, HistoryView,
    Identity, TimelineEntry,
};
use subtitle_renamer::view::history_tab_label;

#[test]
fn checksums_of_known_texts() {
    assert_eq!(
        sha256_hex(b""),
        "e3b0c44298fc1c149afbf4c8996fb92427ae41e4649b934ca495991b7852b855"
    );
    assert_eq!(
        sha256_hex(b"abc"),
        "ba7816bf8f01cfea414140de5dae2223b00361a396177a9cb410ff61f20015ad"
    );
}

#[test]
fn pieces_have_the_checksum_of_the_whole() {
    let mut c = Checksum::new();
    c.update(b"a");
    c.update(b"");
    c.update(b"bc");
    assert_eq!(c.finish(), sha256_hex(b"abc"));
}

#[test]
fn bytes_in_hexadecimal() {
    assert_eq!(to_hex(&vec![0, 9, 10, 255, 16]), "00090aff10");
    assert_eq!(to_hex(&vec![]), "");
    assert_eq!(short_checksum("0123456789"), "01234567");
    assert_eq!(short_checksum("012"), "012");
}

#[test]
fn a_file_that_changed_is_not_known() {
    let mut cache = ChecksumCache::new();
    assert_eq!(cache.lookup("/a", 1, 2), None);
    cache.store("/a", 1, 2, "x");
    cache.store("/b", 1, 2, "y");
    assert_eq!(cache.lookup("/a", 1, 2).as_deref(), Some("x"));
    assert_eq!(cache.lookup("/a", 1, 3), None);
    assert_eq!(cache.lookup("/a", 2, 2), None);
    cache.store("/a", 1, 3, "z");
    assert_eq!(cache.lookup("/a", 1, 3).as_deref(), Some("z"));
    assert_eq!(cache.lookup("/a", 1, 2), None);
    assert_eq!(cache.lookup("/b", 1, 2).as_deref(), Some("y"));
}

#[test]
fn dates_of_known_moments() {
    assert_eq!(format_epoch(0), "1970-01-01 00:00:00");
    assert_eq!(format_epoch(951_782_400), "2000-02-29 00:00:00");
    assert_eq!(format_epoch(1_700_000_000), "2023-11-14 22:13:20");
    assert_eq!(format_epoch(-1), "1969-12-31 23:59:59");
    assert_eq!(format_epoch(253_402_300_800), "10000-01-01 00:00:00");
    assert_eq!(format_epoch(-62_135_596_801), "0000-12-31 23:59:59");
    let d = civil_date(19_782);
    assert_eq!((d.year, d.month, d.day), (2024, 2, 29));
}

#[test]
fn each_day_follows_the_one_before() {
    let mut last = civil_date(-800_000);
    for n in -799_999..800_000i64 {
        let d = civil_date(n);
        let next_day = d.year == last.year && d.month == last.month && d.day == last.day + 1;
        let next_month = d.year == last.year && d.month == last.month + 1 && d.day == 1;
        let next_year = d.year == last.year + 1 && d.month == 1 && d.day == 1 && last.month == 12;
        assert!(next_day || next_month || next_year, "{n}");
        last = d;
    }
}

#[test]
fn extreme_moments_have_dates() {
    assert!(format_epoch(i64::MAX).starts_with("292277026596-"));
    assert!(format_epoch(i64::MIN).starts_with("-292277022657-"));
}

#[test]
fn databases_are_migrated_by_version() {
    assert_eq!(CURRENT_VERSION, 4);
    assert!(migration_steps(4).is_empty());
    assert!(migration_steps(5).is_empty());
    let v3 = vec![
        MigrationStep::RenameWorkingDir,
        MigrationStep::AddCopies,
        MigrationStep::SetVersion(4),
    ];
    assert_eq!(migration_steps(3), v3);
    assert_eq!(migration_steps(2)[0], MigrationStep::DropTokenMappings);
    assert_eq!(migration_steps(2)[1..], v3[..]);
    assert_eq!(migration_steps(0).len(), 5);
    assert!(migration_steps(0).contains(&MigrationStep::DropSessions));
    assert!(history::needs_rebuild(1));
    assert!(!history::needs_rebuild(2));
}

#[test]
fn files_of_the_program_have_their_own_directory() {
    let base = Some("/home/u/.local/share".to_string());
    assert_eq!(own_path(base, "state.db"), "/home/u/.local/share/subtitle-renamer/state.db");
    assert_eq!(own_path(None, "state.db"), "./subtitle-renamer/state.db");
    assert!(default_state_path().ends_with("/subtitle-renamer/state.db"));
    assert!(history::default_db_path().ends_with("/subtitle-renamer/history.db"));
    assert_eq!(legacy_path("/d/state.db", false).as_deref(), Some("/d/app.db"));
    assert_eq!(legacy_path("/d/state.db", true), None);
}

#[test]
fn queries_have_a_place_for_each_directory() {
    assert_eq!(placeholders(0), "");
    assert_eq!(placeholders(3), "?,?,?");
    assert_eq!(copies_query(0), None);
    let q = copies_query(2).unwrap();
    assert!(q.ends_with("src_dir IN (?,?) OR dst_dir IN (?,?) ORDER BY at DESC, id DESC"));
}

fn session(id: i64, dir: Option<&str>, undo_of: Option<i64>) -> SessionRecord {
    SessionRecord { id, created_at: 0, subtitle_dir: dir.map(|d| d.to_string()), undo_of }
}

#[test]
fn an_undo_session_inherits_the_directory() {
    let r = undo_session_record(9, 5, 3, &Some(session(3, Some("/subs"), None)));
    assert_eq!(r.subtitle_dir.as_deref(), Some("/subs"));
    assert_eq!((r.id, r.created_at, r.undo_of), (9, 5, Some(3)));
    assert_eq!(undo_session_record(9, 5, 3, &None).subtitle_dir, None);
}

fn id(dir: &str, checksum: &str) -> Identity {
    Identity { dir: dir.to_string(), checksum: checksum.to_string() }
}

#[test]
fn shared_identities_are_not_attributed() {
    let ids = vec![id("/a", "1"), id("/b", "2"), id("/a/", "1"), id("/c", "1"), id("/a", "1")];
    let a = attribute(&ids);
    let clear: Vec<&str> = a.clear.iter().map(|i| i.dir.as_str()).collect();
    assert_eq!(clear, vec!["/b", "/c"]);
    assert_eq!(a.collisions.len(), 1);
    assert_eq!(a.collisions[0].dir, "/a");
    assert_eq!(
        collision_text(&id("/a", "0123456789")),
        "Content collision in /a: multiple subtitles share checksum 01234567 — history not attributed."
    );
}

fn rename(at: i64, old: &str, new: &str) -> RenameRecord {
    RenameRecord {
        id: at,
        session_id: 1,
        dir: "/d".to_string(),
        checksum: "c".to_string(),
        unit_id: None,
        old_name: old.to_string(),
        new_name: new.to_string(),
        at,
    }
}

fn copy(at: i64) -> CopyRecord {
    CopyRecord {
        id: at,
        session_id: None,
        at,
        src_dir: "/s".to_string(),
        src_name: "a.ass".to_string(),
        src_checksum: "c".to_string(),
        dst_dir: "/v".to_string(),
        dst_name: "b.ass".to_string(),
        dst_checksum: "0123456789".to_string(),
        unit_id: None,
    }
}

#[test]
fn the_timeline_is_in_order() {
    let hits = vec![
        Hits { renames: vec![rename(30, "a", "b"), rename(10, "b", "c")], copies: vec![copy(10)] },
        Hits { renames: vec![rename(20, "x", "y")], copies: vec![] },
    ];
    let t = build_timeline(&hits);
    let at: Vec<i64> = t.iter().map(|e| e.at()).collect();
    assert_eq!(at, vec![10, 10, 20, 30]);
    assert!(matches!(t[0], TimelineEntry::Rename(_)));
    assert!(matches!(t[1], TimelineEntry::Copy(_)));
    assert_eq!(entry_text(&t[0]), "⟳ renamed b → c (1970-01-01 00:00:10)");
    assert_eq!(entry_text(&t[1]), "⤴ copied /s/a.ass → /v/b.ass (1970-01-01 00:00:10)");
    assert_eq!(
        hint_text(t.len()),
        "4 dropped subtitle(s) match history records — see History panel to undo."
    );
    assert_eq!(copy_text(&copy(0)), "⤴ 1970-01-01 00:00:00  /s/a.ass → /v/b.ass  01234567");
}

#[test]
fn sessions_are_searched() {
    let s = session(42, Some("/Médias/Été"), None);
    let renames = vec![rename(0, "Old.ass", "NEW ÉP.ass")];
    let dirs = vec!["/other".to_string()];
    let mut view = HistoryView { scope_current_only: false, ..HistoryView::default() };
    for hit in ["", "  ", "4", "42", "été", "ÉTÉ", " old", "ép.ASS", "\u{3000}new\u{3000}"] {
        view.search = hit.to_string();
        assert!(session_matches(&s, &renames, &view, "", &dirs), "{hit:?}");
    }
    for miss in ["43", "xyz", "oldnew"] {
        view.search = miss.to_string();
        assert!(!session_matches(&s, &renames, &view, "", &dirs), "{miss:?}");
    }
    view.search = "old".to_string();
    assert!(!session_matches(&s, &vec![], &view, "", &dirs));
    assert!(needle_found(-5, &vec![], "-5"));
    assert!(!needle_found(5, &vec!["a".to_string()], "b"));
}

#[test]
fn sessions_are_kept_to_the_directories_at_hand() {
    let view = HistoryView::default();
    let dirs = vec!["/subs".to_string()];
    let s = session(1, Some("/subs/../subs"), None);
    assert!(session_matches(&s, &vec![], &view, "/subs", &dirs));
    assert!(!session_matches(&s, &vec![], &view, "/else", &dirs));
    assert!(session_matches(&s, &vec![], &view, "/else", &vec![]));
    assert!(session_matches(&session(1, None, None), &vec![], &view, "", &dirs));
    let mut view = view;
    view.settle_scope(&dirs);
    assert!(view.scope_current_only);
    view.settle_scope(&vec![]);
    assert!(!view.scope_current_only);
}

#[test]
fn pages_and_what_is_left() {
    let mut view = HistoryView { page_size: 2, ..HistoryView::default() };
    let matching = vec![true, false, true, true, false, true];
    let page = view.page(&matching);
    assert_eq!(page.shown, vec![0, 2]);
    assert_eq!(page.remaining, 2);
    view.show_older();
    let page = view.page(&matching);
    assert_eq!(page.shown, vec![0, 2, 3, 5]);
    assert_eq!(page.remaining, 0);
    assert_eq!(older_label(2), "Show older 2 more");
    assert_eq!(page_label(20), "20 / page");
    let view = HistoryView::default();
    assert_eq!((view.page_size, view.show_older_offset), (20, 0));
}

#[test]
fn sessions_have_titles() {
    assert_eq!(
        session_title(&session(3, Some("/subs"), None), 2),
        "session #3 — 1970-01-01 00:00:00 — /subs — 2 renames"
    );
    assert_eq!(
        session_title(&session(4, None, Some(3)), 0),
        "session #4 — undo of #3 — 1970-01-01 00:00:00 — (none) — 0 renames"
    );
    assert_eq!(copies_header(3, true), "copies (3) ▾");
    assert_eq!(copies_header(0, false), "copies (0) ▸");
    assert_eq!(history_tab_label(7), "History (7)");
}

#[test]
fn a_reopened_history_asks_for_nothing() {
    let mut view = HistoryView { page_size: 50, ..HistoryView::default() };
    view.scope_current_only = false;
    view.search = "show".to_string();
    view.show_older();
    assert_eq!(view.show_older_offset, 50);
    view.reopen();
    assert!(view.scope_current_only);
    assert_eq!(view.search, "");
    assert_eq!(view.show_older_offset, 0);
    assert_eq!(view.page_size, 50);
}
