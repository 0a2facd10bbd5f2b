//! Plans that are carried out and taken back, on a file system in memory.

use std::collections::BTreeMap;

use subtitle_renamer::apply::{
    can_apply, execution_status, normalize_dir_warn, ApplyAction, ApplyEvent, ApplyRun, CopyEntry,
    RenameEntry,
};
use subtitle_renamer::checksum::sha256_hex;
use subtitle_renamer::execute::{
    execute_plan, fs_step, rollback_action, rollback_next, rollback_start, ExecuteError,
    ExecuteReport, FsStep, RollbackAction, RollbackEvent, RollbackItem, RollbackOutcome,
    RollbackState,
};
use subtitle_renamer::matcher::{FileEntry, Matcher};
use subtitle_renamer::naming::NamingConfig;
use subtitle_renamer::paths::join;
use subtitle_renamer::plan::{generate_plan, ActionMode, FsProbe, Plan, PlannedAction};
use subtitle_renamer::state::{undo_session_record, RenameRecord};
use subtitle_renamer::undo::{
    group_units, refuse_undo, selection_for, session_to_undo, unit_label, UndoRun,
};

#[derive(Default)]
struct Disk {
    files: BTreeMap<String, Vec<u8>>,
    broken: Vec<String>,
}

impl FsProbe for Disk {
    fn path_exists(&self, path: &str) -> bool {
        self.files.contains_key(path)
    }
}

impl Disk {
    fn with(files: &[(&str, &str)]) -> Disk {
        let mut d = Disk::default();
        for (p, c) in files {
            d.files.insert(p.to_string(), c.as_bytes().to_vec());
        }
        d
    }

    fn sum(&self, path: &str) -> Result<String, String> {
        match self.files.get(path) {
            Some(b) => Ok(sha256_hex(b)),
            None => Err("no such file".to_string()),
        }
    }

    fn step(&mut self, step: &FsStep) -> Option<String> {
        let (from, to, keep) = match step {
            FsStep::Rename(a, b) => (a, b, false),
            FsStep::Copy(a, b) => (a, b, true),
        };
        if self.broken.contains(from) {
            return Some("refused".to_string());
        }
        match self.files.get(from).cloned() {
            Some(b) => {
                if !keep {
                    self.files.remove(from);
                }
                self.files.insert(to.clone(), b);
                None
            },
            None => Some("no such file".to_string()),
        }
    }
}

fn entry(path: &str) -> FileEntry {
    FileEntry::from_path(path.to_string())
}

fn plan_on(disk: &Disk, videos: &[&str], subs: &[&str], mode: ActionMode) -> Plan {
    let v: Vec<FileEntry> = videos.iter().map(|p| entry(p)).collect();
    let s: Vec<FileEntry> = subs.iter().map(|p| entry(p)).collect();
    let r = Matcher::new().match_files(&v, &s, None, None);
    generate_plan(&r, &NamingConfig::default(), disk, mode).unwrap()
}

#[derive(Default)]
struct Records {
    sessions: Vec<String>,
    renames: Vec<RenameEntry>,
    copies: Vec<CopyEntry>,
    asked: Vec<String>,
    no_sessions: bool,
    no_writes: bool,
}

fn run(disk: &mut Disk, plan: Plan, records: &mut Records) -> (ExecuteReport, Vec<String>) {
    let mut run = ApplyRun::begin(false, &Some(plan)).unwrap();
    while let Some(action) = run.next_action() {
        let failure = if records.no_writes { Some("disk full".to_string()) } else { None };
        let event = match action {
            ApplyAction::Checksum(p) => match disk.sum(&p) {
                Ok(c) => ApplyEvent::Sum(c),
                Err(e) => ApplyEvent::SumFailed(e),
            },
            ApplyAction::Execute(step) => ApplyEvent::Executed(disk.step(&step)),
            ApplyAction::Normalize(d) => {
                records.asked.push(d.clone());
                ApplyEvent::Dir(d.replace("/link", "/real"))
            },
            ApplyAction::CreateSession(d) => {
                if records.no_sessions {
                    ApplyEvent::SessionFailed("locked".to_string())
                } else {
                    records.sessions.push(d);
                    ApplyEvent::Session(records.sessions.len() as i64)
                }
            },
            ApplyAction::RecordRename(r) => {
                records.renames.push(r);
                ApplyEvent::Recorded(failure)
            },
            ApplyAction::RecordCopy(c) => {
                records.copies.push(c);
                ApplyEvent::Recorded(failure)
            },
        };
        run.answer(event);
    }
    let messages = run.messages().clone();
    (run.report(), messages)
}

#[test]
fn a_rename_is_carried_out_and_recorded() {
    let mut disk = Disk::with(&[("/m/Show - 01.mkv", "video"), ("/m/Show.S01E01.ass", "sub")]);
    let plan =
        plan_on(&disk, &["/m/Show - 01.mkv"], &["/m/Show.S01E01.ass"], ActionMode::Rename);
    let mut records = Records::default();
    let (report, messages) = run(&mut disk, plan, &mut records);
    assert!(report.all_ok());
    assert!(disk.files.contains_key("/m/Show - 01.ass"));
    assert!(!disk.files.contains_key("/m/Show.S01E01.ass"));
    assert_eq!(records.sessions, vec!["/m"]);
    assert_eq!(records.renames.len(), 1);
    assert_eq!(records.renames[0].session_id, 1);
    assert_eq!(records.renames[0].old_name, "Show.S01E01.ass");
    assert_eq!(records.renames[0].new_name, "Show - 01.ass");
    assert_eq!(records.renames[0].checksum, sha256_hex(b"sub"));
    assert!(messages.is_empty());
    assert_eq!(execution_status(&report), "Executed: 1 ok, 0 failed");
}

#[test]
fn a_copy_leaves_the_source_and_makes_no_session() {
    let mut disk = Disk::with(&[("/v/Show - 01.mkv", "video"), ("/s/Show.S01E01.ass", "sub")]);
    let plan = plan_on(&disk, &["/v/Show - 01.mkv"], &["/s/Show.S01E01.ass"], ActionMode::Copy);
    let mut records = Records::default();
    let (report, _) = run(&mut disk, plan, &mut records);
    assert!(report.all_ok());
    assert!(disk.files.contains_key("/v/Show - 01.ass"));
    assert!(disk.files.contains_key("/s/Show.S01E01.ass"), "source must be preserved");
    assert!(records.sessions.is_empty());
    assert!(records.renames.is_empty());
    assert_eq!(records.copies.len(), 1);
    assert_eq!(records.copies[0].dst_dir, "/v");
    assert_eq!(records.copies[0].dst_name, "Show - 01.ass");
    assert_eq!(records.copies[0].src_checksum, records.copies[0].dst_checksum);
}

#[test]
fn directories_share_a_session() {
    let mut disk = Disk::with(&[
        ("/link/a/Show.E01.ass", "1"),
        ("/real/a/Show.E02.ass", "2"),
        ("/other/Show.E03.ass", "3"),
    ]);
    let videos = ["/v/Show - 01.mkv", "/v/Show - 02.mkv", "/v/Show - 03.mkv"];
    let subs = ["/link/a/Show.E01.ass", "/real/a/Show.E02.ass", "/other/Show.E03.ass"];
    let plan = plan_on(&disk, &videos, &subs, ActionMode::Rename);
    let mut records = Records::default();
    let (report, messages) = run(&mut disk, plan, &mut records);
    assert_eq!(report.ok_count(), 3);
    assert_eq!(records.asked, vec!["/link/a", "/real/a", "/other"]);
    assert_eq!(records.sessions, vec!["/real/a", "/other"]);
    let ids: Vec<i64> = records.renames.iter().map(|r| r.session_id).collect();
    assert_eq!(ids, vec![1, 1, 2]);
    assert_eq!(messages, vec![normalize_dir_warn("/link/a", "non-canonical path")]);
    assert_eq!(messages[0], "normalize_dir failed for /link/a: non-canonical path");
}

#[test]
fn a_failed_operation_does_not_stop_the_others() {
    let mut disk = Disk::with(&[("/s/Show.E01.ass", "1"), ("/s/Show.E02.ass", "2")]);
    disk.broken.push("/s/Show.E01.ass".to_string());
    let videos = ["/v/Show - 01.mkv", "/v/Show - 02.mkv"];
    let subs = ["/s/Show.E01.ass", "/s/Show.E02.ass"];
    let plan = plan_on(&disk, &videos, &subs, ActionMode::Rename);
    let mut records = Records::default();
    let (report, _) = run(&mut disk, plan, &mut records);
    assert!(!report.all_ok());
    assert_eq!(report.ok_count(), 1);
    assert_eq!(report.outcomes[0].error.as_deref(), Some("io error: refused"));
    assert_eq!(report.outcomes[1].dst_path, "/s/Show - 02.ass");
    assert!(report.outcomes[1].success);
    assert_eq!(records.renames.len(), 1);
    assert_eq!(execution_status(&report), "Executed: 1 ok, 1 failed");
}

#[test]
fn outcomes_give_places() {
    // What is carried out is a plan of its own; what is given up keeps its place.
    let mut disk = Disk::with(&[("/s/Show.E01.ass", "1"), ("/s/Show.E03.ass", "3")]);
    disk.broken.push("/s/Show.E03.ass".to_string());
    let videos = ["/v/Show - 01.mkv", "/v/Show - 02.mkv", "/v/Show - 03.mkv"];
    let subs = ["/s/Show.E01.ass", "/s/Show.E02.ass", "/s/Show.E03.ass"];
    let plan = plan_on(&disk, &videos, &subs, ActionMode::Rename);
    let (report, _) = run(&mut disk, plan, &mut Records::default());
    let places: Vec<(usize, bool)> =
        report.outcomes.iter().map(|o| (o.op_index, o.success)).collect();
    assert_eq!(places, vec![(0, true), (1, false), (0, false)]);
    let sources: Vec<&str> = report.outcomes.iter().map(|o| o.src_path.as_str()).collect();
    assert_eq!(sources, subs);
    let mut disk = Disk::with(&[("/s/Show.E01.ass", "1"), ("/s/Show.E02.ass", "2")]);
    let plan = plan_on(&disk, &videos[..2], &subs[..2], ActionMode::Rename);
    let mut records = Records { no_sessions: true, ..Records::default() };
    let (report, _) = run(&mut disk, plan, &mut records);
    let places: Vec<(usize, bool)> =
        report.outcomes.iter().map(|o| (o.op_index, o.success)).collect();
    assert_eq!(places, vec![(0, false), (1, false)]);
}

#[test]
fn an_unreadable_subtitle_is_not_renamed() {
    let mut disk = Disk::with(&[]);
    let plan = plan_on(&disk, &["/v/Show - 01.mkv"], &["/s/Show.E01.ass"], ActionMode::Rename);
    let mut records = Records::default();
    let (report, _) = run(&mut disk, plan, &mut records);
    assert_eq!(report.outcomes[0].error.as_deref(), Some("no such file"));
    assert!(records.sessions.is_empty());
}

#[test]
fn a_missing_session_is_a_failure() {
    let mut disk = Disk::with(&[("/s/Show.E01.ass", "1")]);
    let plan = plan_on(&disk, &["/v/Show - 01.mkv"], &["/s/Show.E01.ass"], ActionMode::Rename);
    let mut records = Records { no_sessions: true, ..Records::default() };
    let (report, messages) = run(&mut disk, plan, &mut records);
    assert_eq!(messages, vec!["history session failed: locked"]);
    assert_eq!(report.outcomes[0].error.as_deref(), Some("locked"));
    assert!(!report.outcomes[0].success);
}

#[test]
fn a_record_that_is_not_written_is_reported() {
    let mut disk = Disk::with(&[("/s/Show.E01.ass", "1")]);
    let plan = plan_on(&disk, &["/v/Show - 01.mkv"], &["/s/Show.E01.ass"], ActionMode::Rename);
    let mut records = Records { no_writes: true, ..Records::default() };
    let (report, messages) = run(&mut disk, plan, &mut records);
    assert!(report.all_ok());
    assert_eq!(messages, vec!["history write failed: disk full"]);
}

#[test]
fn plans_that_cannot_be_applied_are_refused() {
    let disk = Disk::with(&[("/s/Show - 01.ass", "x")]);
    let plan = plan_on(&disk, &["/v/Show - 01.mkv"], &["/s/Show.E01.ass"], ActionMode::Rename);
    assert!(plan.has_conflicts());
    assert!(!can_apply(false, &Some(plan.clone())));
    for p in [None, Some(Plan::default()), Some(plan)] {
        match ApplyRun::begin(false, &p) {
            Err(e) => assert_eq!(e, "Plan empty or has conflicts."),
            Ok(_) => panic!("refused"),
        }
        match ApplyRun::begin(true, &p) {
            Err(e) => assert_eq!(e, "处理中,请稍候再执行。"),
            Ok(_) => panic!("refused"),
        }
    }
}

#[test]
fn reports_follow_the_plan() {
    let disk = Disk::default();
    let videos = ["/v/Show - 01.mkv", "/v/Show - 02.mkv"];
    let subs = ["/s/Show.E01.ass", "/s/Show.E02.ass"];
    let plan = plan_on(&disk, &videos, &subs, ActionMode::Copy);
    let step = FsStep::Copy("/s/Show.E01.ass".to_string(), "/v/Show - 01.ass".to_string());
    assert_eq!(fs_step(&plan.ops[0]), step);
    let errors = vec![None, Some(ExecuteError::Io("denied".to_string()))];
    let report = execute_plan(&plan, &errors).unwrap();
    assert!(report.outcomes[0].success);
    assert_eq!(report.outcomes[0].action, PlannedAction::Copy);
    assert_eq!(report.outcomes[1].error.as_deref(), Some("io error: denied"));
    match execute_plan(&Plan::default(), &vec![]) {
        Err(e) => {
            assert_eq!(e, ExecuteError::Empty);
            assert_eq!(e.message(), "plan is empty");
        },
        Ok(_) => panic!("an empty plan is refused"),
    }
}

fn roll_back(disk: &mut Disk, items: &Vec<RollbackItem>) -> RollbackOutcome {
    let mut state = rollback_start(items);
    while let Some(action) = rollback_action(&state, items) {
        let event = match action {
            RollbackAction::Checksum(p) => match disk.sum(&p) {
                Ok(c) => RollbackEvent::Sum(c),
                Err(e) => RollbackEvent::ReadFailed(e),
            },
            RollbackAction::Probe(p) => RollbackEvent::Exists(disk.files.contains_key(&p)),
            RollbackAction::Rename(a, b) => {
                RollbackEvent::Renamed(disk.step(&FsStep::Rename(a, b)))
            },
        };
        state = rollback_next(state, items, event);
    }
    match state {
        RollbackState::Done(outcome) => outcome,
        other => panic!("not over: {other:?}"),
    }
}

fn item(old: &str, new: &str, content: &str) -> RollbackItem {
    RollbackItem {
        dir: "/d".to_string(),
        checksum: sha256_hex(content.as_bytes()),
        old_name: old.to_string(),
        new_name: new.to_string(),
    }
}

#[test]
fn a_unit_is_restored() {
    let mut disk = Disk::with(&[("/d/renamed.ass", "hello")]);
    let items = vec![item("orig.ass", "renamed.ass", "hello")];
    assert_eq!(roll_back(&mut disk, &items), RollbackOutcome::Restored);
    assert!(disk.files.contains_key("/d/orig.ass"));
    assert!(!disk.files.contains_key("/d/renamed.ass"));
    assert_eq!(roll_back(&mut disk, &vec![]), RollbackOutcome::Restored);
}

#[test]
fn a_modified_file_is_left_alone() {
    let mut disk = Disk::with(&[("/d/renamed.ass", "changed")]);
    let items = vec![item("orig.ass", "renamed.ass", "hello")];
    let text = format!(
        "dst checksum {} != recorded {}",
        &sha256_hex(b"changed")[..8],
        &sha256_hex(b"hello")[..8]
    );
    assert_eq!(roll_back(&mut disk, &items), RollbackOutcome::DstChanged(text));
    assert!(disk.files.contains_key("/d/renamed.ass"));
    disk.files.clear();
    let missing = RollbackOutcome::DstChanged("dst missing: no such file".to_string());
    assert_eq!(roll_back(&mut disk, &items), missing);
}

#[test]
fn an_occupied_name_is_left_alone() {
    let mut disk = Disk::with(&[("/d/renamed.ass", "hello"), ("/d/orig.ass", "intruder")]);
    let items = vec![item("orig.ass", "renamed.ass", "hello")];
    let occupied = RollbackOutcome::SrcOccupied("/d/orig.ass".to_string());
    assert_eq!(roll_back(&mut disk, &items), occupied);
    assert_eq!(disk.files["/d/orig.ass"], b"intruder");
}

#[test]
fn a_whole_unit_is_skipped_when_one_member_fails() {
    let mut disk = Disk::with(&[("/d/Show - 01.idx", "idx"), ("/d/Show - 01.sub", "tampered")]);
    let items =
        vec![item("show.idx", "Show - 01.idx", "idx"), item("show.sub", "Show - 01.sub", "sub")];
    assert!(matches!(roll_back(&mut disk, &items), RollbackOutcome::DstChanged(_)));
    assert!(disk.files.contains_key("/d/Show - 01.idx"));
    assert!(disk.files.contains_key("/d/Show - 01.sub"));
}

#[test]
fn a_refused_rename_is_reported() {
    let mut disk = Disk::with(&[("/d/renamed.ass", "hello")]);
    disk.broken.push("/d/renamed.ass".to_string());
    let items = vec![item("orig.ass", "renamed.ass", "hello")];
    assert_eq!(roll_back(&mut disk, &items), RollbackOutcome::Io("refused".to_string()));
    assert!(disk.files.contains_key("/d/renamed.ass"));
}

#[test]
fn a_unit_is_put_back_when_a_later_member_is_refused() {
    let names = ["a", "b", "c"];
    let new = |n: &str| format!("/d/{n}.new");
    let old = |n: &str| format!("/d/{n}.old");
    let items: Vec<RollbackItem> =
        names.iter().map(|n| item(&format!("{n}.old"), &format!("{n}.new"), n)).collect();
    for refused in 1..3 {
        let mut disk = Disk::with(&[("/d/a.new", "a"), ("/d/b.new", "b"), ("/d/c.new", "c")]);
        disk.broken.push(new(names[refused]));
        assert_eq!(roll_back(&mut disk, &items), RollbackOutcome::Io("refused".to_string()));
        for n in names {
            assert!(disk.files.contains_key(&new(n)), "{n} has its new name");
            assert!(!disk.files.contains_key(&old(n)));
        }
    }
    // A member that is refused its new name keeps its old one; the others go back.
    let mut disk = Disk::with(&[("/d/a.new", "a"), ("/d/b.new", "b"), ("/d/c.new", "c")]);
    disk.broken.push(new("c"));
    disk.broken.push(old("b"));
    assert_eq!(roll_back(&mut disk, &items), RollbackOutcome::Io("refused".to_string()));
    assert!(disk.files.contains_key(&new("a")));
    assert!(disk.files.contains_key(&old("b")));
    assert!(disk.files.contains_key(&new("c")));
}

fn rename(id: i64, unit: Option<&str>, old: &str, new: &str) -> RenameRecord {
    RenameRecord {
        id,
        session_id: 7,
        dir: "/d".to_string(),
        checksum: sha256_hex(old.as_bytes()),
        unit_id: unit.map(|u| u.to_string()),
        old_name: old.to_string(),
        new_name: new.to_string(),
        at: 0,
    }
}

#[test]
fn records_of_one_unit_stay_together() {
    let renames = vec![
        rename(1, Some("u"), "a.idx", "x.idx"),
        rename(2, None, "b.ass", "y.ass"),
        rename(3, Some("u"), "a.sub", "x.sub"),
        rename(4, None, "c.ass", "z.ass"),
    ];
    let units = group_units(&renames);
    let ids: Vec<Vec<i64>> = units.iter().map(|u| u.iter().map(|r| r.id).collect()).collect();
    assert_eq!(ids, vec![vec![1, 3], vec![2], vec![4]]);
    assert_eq!(unit_label(&units[0]), "a.idx → x.idx  ·  a.sub → x.sub");
    assert_eq!(selection_for(&None, 3), vec![true, true, true]);
    assert_eq!(selection_for(&Some(vec![false]), 3), vec![false, true, true]);
    assert_eq!(selection_for(&Some(vec![true, false]), 1), vec![true]);
}

#[test]
fn chosen_units_are_taken_back_and_done_again() {
    let renames = vec![
        rename(1, None, "a.ass", "x.ass"),
        rename(2, None, "b.ass", "y.ass"),
        rename(3, None, "c.ass", "z.ass"),
    ];
    let mut disk = Disk::default();
    for r in &renames {
        let path = join(&r.dir, &r.new_name);
        disk.files.insert(path, r.old_name.as_bytes().to_vec());
    }
    disk.files.remove("/d/z.ass");
    let before = disk.files.clone();
    let mut run = UndoRun::new(&renames, &Some(vec![true, false, true]), 8);
    let mut recorded = Vec::new();
    while let Some(items) = run.next_items() {
        let outcome = roll_back(&mut disk, &items);
        recorded.extend(run.finish_unit(&outcome));
    }
    assert_eq!(run.status(), "Undo: 1 unit(s) ok, 1 failed");
    assert!(disk.files.contains_key("/d/a.ass") && disk.files.contains_key("/d/y.ass"));
    assert_eq!(recorded.len(), 1);
    assert_eq!(recorded[0].session_id, 8);
    assert_eq!(recorded[0].old_name, "x.ass");
    assert_eq!(recorded[0].new_name, "a.ass");
    let mut again = UndoRun::new(&recorded, &None, 9);
    while let Some(items) = again.next_items() {
        let outcome = roll_back(&mut disk, &items);
        again.finish_unit(&outcome);
    }
    assert_eq!(disk.files, before);
}

#[test]
fn the_newest_session_with_renames_is_taken_back() {
    assert_eq!(session_to_undo(&vec![Some(0), None, Some(2), Some(1)]), Some(2));
    assert_eq!(session_to_undo(&vec![Some(0), None]), None);
    assert_eq!(refuse_undo(true, &vec![]).as_deref(), Some("处理中,请稍候再还原。"));
    let nothing = Some("Nothing to undo in this session.");
    assert_eq!(refuse_undo(false, &vec![]).as_deref(), nothing);
    assert_eq!(refuse_undo(false, &vec![rename(1, None, "a", "b")]), None);
}

#[test]
fn a_session_that_is_taken_back_restores_the_files() {
    let mut disk = Disk::with(&[
        ("/s/Show.E01.ass", "1"),
        ("/s/Show.E02.idx", "2"),
        ("/s/Show.E02.sub", "3"),
        ("/s/other.txt", "4"),
    ]);
    let before = disk.files.clone();
    let videos = ["/v/Show - 01.mkv", "/v/Show - 02.mkv"];
    let subs = ["/s/Show.E01.ass", "/s/Show.E02.idx", "/s/Show.E02.sub"];
    let plan = plan_on(&disk, &videos, &subs, ActionMode::Rename);
    let mut records = Records::default();
    let (report, _) = run(&mut disk, plan, &mut records);
    assert!(report.all_ok());
    assert!(disk.files.contains_key("/s/Show - 02.sub"));
    let renames: Vec<RenameRecord> = records
        .renames
        .iter()
        .map(|r| RenameRecord {
            id: 0,
            session_id: r.session_id,
            dir: r.dir.clone(),
            checksum: r.checksum.clone(),
            unit_id: r.unit_id.clone(),
            old_name: r.old_name.clone(),
            new_name: r.new_name.clone(),
            at: 0,
        })
        .collect();
    let renamed = disk.files.clone();
    let mut undo = UndoRun::new(&renames, &None, 2);
    let mut recorded = Vec::new();
    while let Some(items) = undo.next_items() {
        let outcome = roll_back(&mut disk, &items);
        assert_eq!(outcome, RollbackOutcome::Restored);
        recorded.extend(undo.finish_unit(&outcome));
    }
    assert_eq!(disk.files, before);
    assert_eq!(undo.status(), "Undo: 2 unit(s) ok, 0 failed");
    let session = undo_session_record(2, 0, 1, &None);
    assert_eq!(session.undo_of, Some(1));
    let swapped = |r: &RenameRecord| {
        let (dir, sum) = (r.dir.clone(), r.checksum.clone());
        (dir, sum, r.unit_id.clone(), r.new_name.clone(), r.old_name.clone())
    };
    let plain = |r: &RenameRecord| {
        let (dir, sum) = (r.dir.clone(), r.checksum.clone());
        (dir, sum, r.unit_id.clone(), r.old_name.clone(), r.new_name.clone())
    };
    let mut wanted: Vec<_> = renames.iter().map(swapped).collect();
    let mut got: Vec<_> = recorded.iter().map(plain).collect();
    wanted.sort();
    got.sort();
    assert_eq!(got, wanted);
    assert!(recorded.iter().all(|r| r.session_id == 2));
    // Taking the undo back does the renames again.
    let mut redo = UndoRun::new(&recorded, &None, 3);
    while let Some(items) = redo.next_items() {
        let outcome = roll_back(&mut disk, &items);
        redo.finish_unit(&outcome);
    }
    assert_eq!(disk.files, renamed);
}

#[test]
fn units_keep_the_order_of_their_records() {
    let renames = vec![
        rename(1, None, "a", "b"),
        rename(2, Some("v"), "c", "d"),
        rename(3, Some("u"), "e", "f"),
        rename(4, Some("v"), "g", "h"),
        rename(5, None, "i", "j"),
        rename(6, Some("u"), "k", "l"),
        rename(7, Some("v"), "m", "n"),
    ];
    let units = group_units(&renames);
    let ids: Vec<Vec<i64>> = units.iter().map(|u| u.iter().map(|r| r.id).collect()).collect();
    assert_eq!(ids, vec![vec![1], vec![2, 4, 7], vec![3, 6], vec![5]]);
}
