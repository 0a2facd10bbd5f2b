//! What is shown of files and plans.

use vstd::prelude::*;
use vstd::string::*;

use crate::apply::opt_plan;
use crate::matcher::{
    copy_file, lone_subtitles, lone_videos, opt_file, FileEntry, FileModel, GroupModel,
    MatchResult,
};
use crate::paths::{file_name, name_part, parent, parent_part, path_eq, same_path};
use crate::pattern::{opt_view, views};
use crate::plan::{Conflict, ConflictModel, OpModel, Plan, PlannedAction};
use crate::sorting::{count_of, lemma_count_bound, models};
use crate::text::{copy_of, decimal, decimal_of};

verus! {

/// The part of the window that is shown.
#[derive(Debug, Clone, Copy, PartialEq, Eq, Structural)]
pub enum ActiveTab {
    /// The plan.
    Plan,
    /// The history.
    History,
}

impl Default for ActiveTab {
    /// The plan.
    fn default() -> (r: Self)
        ensures
            r == ActiveTab::Plan,
    {
        ActiveTab::Plan
    }
}

// ---------------------------------------------------------------------------
// Paths
// ---------------------------------------------------------------------------
/// The name at the end of the path, or the path where it ends in none.
pub open spec fn label_for(path: Seq<char>) -> Seq<char> {
    match name_part(path) {
        Some(n) => n,
        None => path,
    }
}

/// What a file is shown as.
pub fn path_label(file: &FileEntry) -> (r: String)
    ensures
        r@ == label_for(file@.path),
{
    match file_name(file.path.as_str()) {
        Some(n) => n,
        None => copy_of(file.path.as_str()),
    }
}

/// One of the paths is the path `p`.
pub open spec fn has_path(paths: Seq<Seq<char>>, p: Seq<char>) -> bool {
    exists|i: int| 0 <= i < paths.len() && same_path(#[trigger] paths[i], p)
}

/// Whether one of the paths is the path `p`.
pub fn holds_path(paths: &Vec<String>, p: &str) -> (r: bool)
    ensures
        r == has_path(views(paths@), p@),
{
    let mut i: usize = 0;
    while i < paths.len()
        invariant
            i <= paths@.len(),
            forall|j: int| 0 <= j < i ==> !same_path(#[trigger] views(paths@)[j], p@),
        decreases paths@.len() - i,
    {
        if path_eq(paths[i].as_str(), p) {
            assert(same_path(views(paths@)[i as int], p@));
            return true;
        }
        i += 1;
    }
    false
}

/// The paths, each once, in the order in which they come up.
pub open spec fn distinct_paths(paths: Seq<Seq<char>>) -> Seq<Seq<char>>
    decreases paths.len(),
{
    if paths.len() == 0 {
        Seq::empty()
    } else {
        let rest = distinct_paths(paths.drop_last());
        if has_path(rest, paths.last()) {
            rest
        } else {
            rest.push(paths.last())
        }
    }
}

/// Each path comes up among the distinct ones, each of these comes up among the paths, and
/// no two of them are the same.
pub proof fn law_distinct_paths(paths: Seq<Seq<char>>)
    ensures
        forall|i: int| 0 <= i < paths.len() ==> has_path(distinct_paths(paths), #[trigger] paths[i]),
        forall|i: int|
            0 <= i < distinct_paths(paths).len() ==> paths.contains(
                #[trigger] distinct_paths(paths)[i],
            ),
        forall|i: int, j: int|
            0 <= i < j < distinct_paths(paths).len() ==> !same_path(
                #[trigger] distinct_paths(paths)[i],
                #[trigger] distinct_paths(paths)[j],
            ),
    decreases paths.len(),
{
    if paths.len() > 0 {
        let init = paths.drop_last();
        let rest = distinct_paths(init);
        let all = distinct_paths(paths);
        law_distinct_paths(init);
        assert forall|i: int| 0 <= i < paths.len() implies has_path(all, #[trigger] paths[i]) by {
            if i < init.len() {
                assert(has_path(rest, init[i]));
                let k = choose|k: int| 0 <= k < rest.len() && same_path(#[trigger] rest[k], init[i]);
                assert(all[k] == rest[k]);
            } else if !has_path(rest, paths.last()) {
                assert(all[rest.len() as int] == paths.last());
            }
        }
        assert forall|i: int| 0 <= i < all.len() implies paths.contains(#[trigger] all[i]) by {
            if i < rest.len() {
                assert(init.contains(rest[i]));
                let k = choose|k: int| 0 <= k < init.len() && init[k] == rest[i];
                assert(paths[k] == all[i]);
            } else {
                assert(paths[paths.len() - 1] == all[i]);
            }
        }
        assert forall|i: int, j: int| 0 <= i < j < all.len() implies !same_path(
            #[trigger] all[i],
            #[trigger] all[j],
        ) by {
            assert(all[i] == rest[i]);
            if j < rest.len() {
                assert(all[j] == rest[j]);
            }
        }
    }
}

/// The paths, each once, in the order in which they come up.
pub fn unique_paths(paths: &Vec<String>) -> (r: Vec<String>)
    ensures
        views(r@) == distinct_paths(views(paths@)),
{
    let ghost all = views(paths@);
    let mut out: Vec<String> = Vec::new();
    let mut i: usize = 0;
    assert(views(out@) =~= distinct_paths(all.take(0)));
    while i < paths.len()
        invariant
            all == views(paths@),
            i <= paths@.len(),
            views(out@) == distinct_paths(all.take(i as int)),
        decreases paths@.len() - i,
    {
        let ghost before = views(out@);
        proof {
            assert(all.take(i + 1).drop_last() =~= all.take(i as int));
            assert(all.take(i + 1).last() == paths@[i as int]@);
        }
        if !holds_path(&out, paths[i].as_str()) {
            out.push(copy_of(paths[i].as_str()));
            assert(views(out@) =~= before.push(paths@[i as int]@));
        }
        i += 1;
    }
    assert(all.take(i as int) =~= all);
    out
}

/// The directories of the files that have one.
pub open spec fn parents_of(files: Seq<FileModel>) -> Seq<Seq<char>>
    decreases files.len(),
{
    if files.len() == 0 {
        Seq::empty()
    } else {
        let rest = parents_of(files.drop_last());
        match parent_part(files.last().path) {
            Some(d) => rest.push(d),
            None => rest,
        }
    }
}

/// The directories of the files that have one.
pub fn file_parents(files: &Vec<FileEntry>) -> (r: Vec<String>)
    ensures
        views(r@) == parents_of(models(files@)),
{
    let ghost all = models(files@);
    let mut out: Vec<String> = Vec::new();
    let mut i: usize = 0;
    assert(views(out@) =~= parents_of(all.take(0)));
    while i < files.len()
        invariant
            all == models(files@),
            i <= files@.len(),
            views(out@) == parents_of(all.take(i as int)),
        decreases files@.len() - i,
    {
        let ghost before = views(out@);
        proof {
            assert(all.take(i + 1).drop_last() =~= all.take(i as int));
            assert(all.take(i + 1).last() == files@[i as int]@);
        }
        if let Some(d) = parent(files[i].path.as_str()) {
            let ghost dir = d@;
            out.push(d);
            assert(views(out@) =~= before.push(dir));
        }
        i += 1;
    }
    assert(all.take(i as int) =~= all);
    out
}

/// The directories of the files, each once, in the order in which they come up.
pub fn unique_parents(files: &Vec<FileEntry>) -> (r: Vec<String>)
    ensures
        views(r@) == distinct_paths(parents_of(models(files@))),
{
    unique_paths(&file_parents(files))
}

/// What is said of a side with `n` files in the given directories.
pub open spec fn source_text(n: nat, dirs: Seq<Seq<char>>) -> Seq<char> {
    if n == 0 {
        "No files yet — click Browse."@
    } else if dirs.len() == 1 {
        "Dir: "@ + dirs[0]
    } else {
        decimal(n) + " files from "@ + decimal(dirs.len()) + " folders"@
    }
}

/// What is said of a side: nothing is there, the directory, or how many there are.
pub fn source_label(files: &Vec<FileEntry>) -> (r: String)
    ensures
        r@ == source_text(files@.len(), distinct_paths(parents_of(models(files@)))),
{
    if files.len() == 0 {
        return copy_of("No files yet — click Browse.");
    }
    let dirs = unique_parents(files);
    let ghost d = distinct_paths(parents_of(models(files@)));
    assert(d.len() == dirs@.len());
    if dirs.len() == 1 {
        let mut s = copy_of("Dir: ");
        assert(d[0] == dirs@[0]@);
        s.append(dirs[0].as_str());
        s
    } else {
        let mut s = decimal_of(files.len() as u64);
        s.append(" files from ");
        s.append(decimal_of(dirs.len() as u64).as_str());
        s.append(" folders");
        s
    }
}

// ---------------------------------------------------------------------------
// Rows
// ---------------------------------------------------------------------------
/// A row of the table: a subtitle with its video and its new name, or a video alone.
#[derive(Debug)]
pub struct Row {
    /// The video.
    pub video: Option<FileEntry>,
    /// The subtitle.
    pub subtitle: Option<FileEntry>,
    /// The new name.
    pub target: String,
    /// Whether something stands in the way.
    pub conflict: bool,
}

/// What a [`Row`] stands for.
pub struct RowModel {
    pub video: Option<FileModel>,
    pub subtitle: Option<FileModel>,
    pub target: Seq<char>,
    pub conflict: bool,
}

impl View for Row {
    type V = RowModel;

    open spec fn view(&self) -> RowModel {
        RowModel {
            video: opt_file(self.video),
            subtitle: opt_file(self.subtitle),
            target: self.target@,
            conflict: self.conflict,
        }
    }
}

/// The row of an operation.
pub open spec fn op_row(op: OpModel) -> RowModel {
    RowModel {
        video: op.video,
        subtitle: Some(op.subtitle),
        target: op.target_basename,
        conflict: op.conflicts.len() > 0,
    }
}

/// The row of a video without subtitles.
pub open spec fn video_row(video: FileModel) -> RowModel {
    RowModel { video: Some(video), subtitle: None, target: Seq::empty(), conflict: false }
}

/// The rows of a plan: one for each operation, then one for each video without subtitles.
pub open spec fn rows_of(groups: Seq<GroupModel>, ops: Seq<OpModel>) -> Seq<RowModel> {
    Seq::new(ops.len(), |i: int| op_row(ops[i])) + Seq::new(
        lone_videos(groups).len(),
        |i: int| video_row(lone_videos(groups)[i]),
    )
}

/// The rows of a plan: one for each operation, then one for each video without subtitles.
pub fn plan_rows(result: &MatchResult, plan: &Plan) -> (r: Vec<Row>)
    ensures
        models(r@) == rows_of(result@, plan@),
{
    let ghost all = rows_of(result@, plan@);
    let mut out: Vec<Row> = Vec::new();
    let mut i: usize = 0;
    while i < plan.ops.len()
        invariant
            all == rows_of(result@, plan@),
            i <= plan.ops@.len(),
            out@.len() == i,
            forall|j: int| 0 <= j < i ==> (#[trigger] out@[j])@ == all[j],
        decreases plan.ops@.len() - i,
    {
        let op = &plan.ops[i];
        assert(plan@[i as int] == op@);
        out.push(
            Row {
                video: copy_file(&op.video),
                subtitle: Some(op.subtitle.clone()),
                target: copy_of(op.target_basename.as_str()),
                conflict: op.conflicts.len() > 0,
            },
        );
        i += 1;
    }
    let lone = result.unmatched_videos();
    let mut k: usize = 0;
    while k < lone.len()
        invariant
            all == rows_of(result@, plan@),
            models(lone@) == lone_videos(result@),
            k <= lone@.len(),
            out@.len() == plan@.len() + k,
            forall|j: int| 0 <= j < plan@.len() + k ==> (#[trigger] out@[j])@ == all[j],
        decreases lone@.len() - k,
    {
        assert(lone_videos(result@)[k as int] == lone@[k as int]@);
        let row = Row {
            video: Some(lone[k].clone()),
            subtitle: None,
            target: String::new(),
            conflict: false,
        };
        assert(row@.target =~= Seq::<char>::empty());
        out.push(row);
        k += 1;
    }
    assert(models(out@) =~= all);
    out
}

/// How the video of a row is shown.
#[derive(Debug, Clone, Copy, PartialEq, Eq, Structural)]
pub enum VideoStyle {
    /// There is none.
    Absent,
    /// It is the video of the row before.
    Repeated,
    /// It has no subtitle.
    Lonely,
    /// It has one.
    Paired,
}

/// How the video of row `i` is shown.
pub open spec fn style_of(rows: Seq<RowModel>, i: int) -> VideoStyle {
    match rows[i].video {
        None => VideoStyle::Absent,
        Some(v) => if i > 0 && rows[i - 1].video is Some && same_path(
            rows[i - 1].video->0.path,
            v.path,
        ) {
            VideoStyle::Repeated
        } else if rows[i].subtitle is None {
            VideoStyle::Lonely
        } else {
            VideoStyle::Paired
        },
    }
}

/// How the video of row `i` is shown.
pub fn video_style(rows: &Vec<Row>, i: usize) -> (r: VideoStyle)
    requires
        i < rows@.len(),
    ensures
        r == style_of(models(rows@), i as int),
{
    let ghost all = models(rows@);
    assert(all[i as int] == rows@[i as int]@);
    match &rows[i].video {
        None => VideoStyle::Absent,
        Some(v) => {
            if i > 0 {
                assert(all[i - 1] == rows@[i - 1]@);
                if let Some(w) = &rows[i - 1].video {
                    if path_eq(w.path.as_str(), v.path.as_str()) {
                        return VideoStyle::Repeated;
                    }
                }
            }
            if rows[i].subtitle.is_none() {
                VideoStyle::Lonely
            } else {
                VideoStyle::Paired
            }
        },
    }
}

// ---------------------------------------------------------------------------
// Texts
// ---------------------------------------------------------------------------
/// The operations that nothing stands in the way of.
pub open spec fn clear_count(ops: Seq<OpModel>) -> nat {
    count_of(ops, |op: OpModel| op.conflicts.len() == 0)
}

/// The operations with the given action.
pub open spec fn action_count(ops: Seq<OpModel>, action: PlannedAction) -> nat {
    count_of(ops, |op: OpModel| op.action == action)
}

/// How many operations nothing stands in the way of.
pub fn count_clear(plan: &Plan) -> (r: usize)
    ensures
        r == clear_count(plan@),
{
    let ghost p = |op: OpModel| op.conflicts.len() == 0;
    let mut n: usize = 0;
    let mut i: usize = 0;
    assert(plan@.take(0) =~= Seq::empty());
    while i < plan.ops.len()
        invariant
            p == (|op: OpModel| op.conflicts.len() == 0),
            i <= plan.ops@.len(),
            n == count_of(plan@.take(i as int), p),
            n <= i,
        decreases plan.ops@.len() - i,
    {
        proof {
            assert(plan@.take(i + 1).drop_last() =~= plan@.take(i as int));
            assert(plan@.take(i + 1).last() == plan.ops@[i as int]@);
        }
        if plan.ops[i].conflicts.len() == 0 {
            n += 1;
        }
        i += 1;
    }
    assert(plan@.take(i as int) =~= plan@);
    n
}

/// How many operations have the given action.
pub fn count_action(plan: &Plan, action: PlannedAction) -> (r: usize)
    ensures
        r == action_count(plan@, action),
{
    let ghost p = |op: OpModel| op.action == action;
    let mut n: usize = 0;
    let mut i: usize = 0;
    assert(plan@.take(0) =~= Seq::empty());
    while i < plan.ops.len()
        invariant
            p == (|op: OpModel| op.action == action),
            i <= plan.ops@.len(),
            n == count_of(plan@.take(i as int), p),
            n <= i,
        decreases plan.ops@.len() - i,
    {
        proof {
            assert(plan@.take(i + 1).drop_last() =~= plan@.take(i as int));
            assert(plan@.take(i + 1).last() == plan.ops@[i as int]@);
        }
        if plan.ops[i].action == action {
            n += 1;
        }
        i += 1;
    }
    assert(plan@.take(i as int) =~= plan@);
    n
}

/// What stands on the tab of the plan.
pub open spec fn plan_tab_text(plan: Option<Seq<OpModel>>) -> Seq<char> {
    let n = match plan {
        Some(ops) => clear_count(ops),
        None => 0,
    };
    "Plan ("@ + decimal(n) + ")"@
}

/// What stands on the tab of the plan: how many operations nothing stands in the way of.
pub fn plan_tab_label(plan: &Option<Plan>) -> (r: String)
    ensures
        r@ == plan_tab_text(opt_plan(*plan)),
{
    let n: usize = match plan {
        Some(p) => count_clear(p),
        None => 0,
    };
    let mut s = copy_of("Plan (");
    s.append(decimal_of(n as u64).as_str());
    s.append(")");
    s
}

/// What stands on the tab of the history, which has `n` sessions.
pub fn history_tab_label(n: usize) -> (r: String)
    ensures
        r@ == "History ("@ + decimal(n as nat) + ")"@,
{
    let mut s = copy_of("History (");
    s.append(decimal_of(n as u64).as_str());
    s.append(")");
    s
}

/// What is asked before a plan is carried out.
pub open spec fn confirm_question(ops: Seq<OpModel>) -> Seq<char> {
    "Apply "@ + decimal(ops.len()) + " operations ("@ + decimal(
        action_count(ops, PlannedAction::Rename),
    ) + " rename, "@ + decimal(action_count(ops, PlannedAction::Copy)) + " copy)?"@
}

/// What is asked before a plan is carried out.
pub fn confirm_text(plan: &Plan) -> (r: String)
    ensures
        r@ == confirm_question(plan@),
{
    let mut s = copy_of("Apply ");
    assert(plan@.len() == plan.ops@.len());
    s.append(decimal_of(plan.ops.len() as u64).as_str());
    s.append(" operations (");
    s.append(decimal_of(count_action(plan, PlannedAction::Rename) as u64).as_str());
    s.append(" rename, ");
    s.append(decimal_of(count_action(plan, PlannedAction::Copy) as u64).as_str());
    s.append(" copy)?");
    s
}

/// Every operation is a rename or a copy: the two numbers in the question make up the
/// first.
pub proof fn law_confirm_counts(ops: Seq<OpModel>)
    ensures
        action_count(ops, PlannedAction::Rename) + action_count(ops, PlannedAction::Copy)
            == ops.len(),
        clear_count(ops) <= ops.len(),
    decreases ops.len(),
{
    lemma_count_bound(ops, |op: OpModel| op.conflicts.len() == 0);
    if ops.len() > 0 {
        law_confirm_counts(ops.drop_last());
        assert(ops.last().action is Rename || ops.last().action is Copy);
    }
}

/// What is said of the files that were left over.
pub open spec fn leftover_summary(groups: Seq<GroupModel>, unknown: nat) -> Seq<char> {
    "Unmatched videos: "@ + decimal(lone_videos(groups).len()) + " · Unmatched subtitles: "@
        + decimal(lone_subtitles(groups).len()) + " · Unknown extensions: "@ + decimal(unknown)
}

/// What is said of the files that were left over.
pub fn leftover_text(result: &MatchResult, unknown: usize) -> (r: String)
    ensures
        r@ == leftover_summary(result@, unknown as nat),
{
    let videos = result.unmatched_videos();
    let subtitles = result.unmatched_subtitles();
    assert(models(videos@).len() == videos@.len());
    assert(models(subtitles@).len() == subtitles@.len());
    let mut s = copy_of("Unmatched videos: ");
    s.append(decimal_of(videos.len() as u64).as_str());
    s.append(" · Unmatched subtitles: ");
    s.append(decimal_of(subtitles.len() as u64).as_str());
    s.append(" · Unknown extensions: ");
    s.append(decimal_of(unknown as u64).as_str());
    s
}

/// What a conflict is called.
pub open spec fn conflict_word(c: ConflictModel) -> Seq<char> {
    match c {
        ConflictModel::DuplicateTarget(_) => "duplicate"@,
        ConflictModel::TargetExists(_) => "exists"@,
        ConflictModel::ActionUnsupported(_) => "unsupported"@,
    }
}

/// What a conflict is called.
pub fn conflict_summary(c: &Conflict) -> (r: &'static str)
    ensures
        r@ == conflict_word(c@),
{
    match c {
        Conflict::DuplicateTarget(_) => "duplicate",
        Conflict::TargetExists(_) => "exists",
        Conflict::ActionUnsupported(_) => "unsupported",
    }
}

// ---------------------------------------------------------------------------
// Fonts
// ---------------------------------------------------------------------------
/// Where fonts with Chinese, Japanese and Korean characters are looked for, the best first.
pub open spec fn font_places() -> Seq<Seq<char>> {
    seq![
        "/usr/share/fonts/opentype/noto/NotoSansCJK-Regular.ttc"@,
        "/usr/share/fonts/truetype/noto/NotoSansCJK-Regular.ttc"@,
        "/usr/share/fonts/noto-cjk/NotoSansCJK-Regular.ttc"@,
        "/usr/share/fonts/opentype/source-han-sans/SourceHanSansSC-Regular.otf"@,
        "/usr/share/fonts/source-han-sans/SourceHanSansSC-Regular.otf"@,
        "/usr/share/fonts/truetype/wqy/wqy-microhei.ttc"@,
        "/usr/share/fonts/wqy-microhei/wqy-microhei.ttc"@,
        "/System/Library/Fonts/PingFang.ttc"@,
        "/Library/Fonts/Songti.ttc"@,
        "C:/Windows/Fonts/msyh.ttc"@,
        "C:/Windows/Fonts/simhei.ttf"@,
        "/usr/local/share/fonts/NotoSansCJK-Regular.ttc"@,
    ]
}

/// What each of the words stands for.
pub open spec fn word_views(v: Seq<&'static str>) -> Seq<Seq<char>> {
    Seq::new(v.len(), |i: int| v[i]@)
}

/// Where fonts with Chinese, Japanese and Korean characters are looked for, the best first.
pub fn probe_paths() -> (r: Vec<&'static str>)
    ensures
        word_views(r@) == font_places(),
{
    let r: Vec<&'static str> = vec![
        "/usr/share/fonts/opentype/noto/NotoSansCJK-Regular.ttc",
        "/usr/share/fonts/truetype/noto/NotoSansCJK-Regular.ttc",
        "/usr/share/fonts/noto-cjk/NotoSansCJK-Regular.ttc",
        "/usr/share/fonts/opentype/source-han-sans/SourceHanSansSC-Regular.otf",
        "/usr/share/fonts/source-han-sans/SourceHanSansSC-Regular.otf",
        "/usr/share/fonts/truetype/wqy/wqy-microhei.ttc",
        "/usr/share/fonts/wqy-microhei/wqy-microhei.ttc",
        "/System/Library/Fonts/PingFang.ttc",
        "/Library/Fonts/Songti.ttc",
        "C:/Windows/Fonts/msyh.ttc",
        "C:/Windows/Fonts/simhei.ttf",
        "/usr/local/share/fonts/NotoSansCJK-Regular.ttc",
    ];
    assert(word_views(r@) =~= font_places());
    r
}

/// The first place where there is a font. `there` says for each place whether there is.
pub open spec fn first_font(there: Seq<bool>) -> Option<Seq<char>> {
    if exists|i: int| first_at(there, i) {
        Some(font_places()[choose|i: int| first_at(there, i)])
    } else {
        None
    }
}

/// Place `i` is the first where there is a font.
pub open spec fn first_at(there: Seq<bool>, i: int) -> bool {
    &&& 0 <= i < there.len()
    &&& i < font_places().len()
    &&& there[i]
    &&& forall|j: int| 0 <= j < i ==> !#[trigger] there[j]
}

/// The first place where there is a font. `there` says for each place of [`probe_paths`]
/// whether there is.
pub fn locate_cjk_font(there: &Vec<bool>) -> (r: Option<String>)
    ensures
        opt_view(r) == first_font(there@),
{
    let places = probe_paths();
    let mut i: usize = 0;
    while i < places.len() && i < there.len()
        invariant
            word_views(places@) == font_places(),
            i <= places@.len(),
            i <= there@.len(),
            forall|j: int| 0 <= j < i ==> !#[trigger] there@[j],
        decreases places@.len() - i,
    {
        if there[i] {
            proof {
                assert(first_at(there@, i as int));
                let k = choose|k: int| first_at(there@, k);
                assert(k == i) by {
                    if k < i {
                        assert(!there@[k]);
                    }
                    if i < k {
                        assert(!there@[i as int]);
                    }
                }
                assert(font_places()[i as int] == places@[i as int]@);
            }
            return Some(copy_of(places[i]));
        }
        i += 1;
    }
    proof {
        if exists|k: int| first_at(there@, k) {
            let k = choose|k: int| first_at(there@, k);
            assert(word_views(places@).len() == places@.len());
            assert(!there@[k]);
        }
    }
    None
}

/// What is said of the font that was found and perhaps read.
pub open spec fn font_text(found: Option<Seq<char>>, read: bool) -> Seq<char> {
    match found {
        Some(p) => if read {
            "loaded CJK font from "@ + p
        } else {
            "found CJK font at "@ + p + " but failed to read it"@
        },
        None => "no CJK font found; non-ASCII filenames may render as boxes"@,
    }
}

/// What is said of the font that was found and perhaps read.
pub fn font_notice(found: &Option<String>, read: bool) -> (r: String)
    ensures
        r@ == font_text(opt_view(*found), read),
{
    match found {
        Some(p) => {
            if read {
                let mut s = copy_of("loaded CJK font from ");
                s.append(p.as_str());
                s
            } else {
                let mut s = copy_of("found CJK font at ");
                s.append(p.as_str());
                s.append(" but failed to read it");
                s
            }
        },
        None => copy_of("no CJK font found; non-ASCII filenames may render as boxes"),
    }
}

/// A file is shown by its name, or by its path where that does not end in one.
pub proof fn law_label(path: Seq<char>)
    ensures
        name_part(path) matches Some(n) ==> label_for(path) == n,
        name_part(path) is None ==> label_for(path) == path,
{
}

/// The directories of files are listed file by file, and what is shown of them keeps the
/// first of each.
pub proof fn law_parents(files: Seq<FileModel>, f: FileModel, paths: Seq<Seq<char>>, p: Seq<char>)
    ensures
        parents_of(Seq::empty()).len() == 0,
        parents_of(files.push(f)) == if parent_part(f.path) is Some {
            parents_of(files).push(parent_part(f.path)->0)
        } else {
            parents_of(files)
        },
        distinct_paths(Seq::empty()).len() == 0,
        distinct_paths(paths.push(p)) == if exists|i: int|
            0 <= i < distinct_paths(paths).len() && same_path(
                #[trigger] distinct_paths(paths)[i],
                p,
            ) {
            distinct_paths(paths)
        } else {
            distinct_paths(paths).push(p)
        },
{
    assert(files.push(f).drop_last() =~= files);
    assert(paths.push(p).drop_last() =~= paths);
}

/// What is said of a side: that it is empty, its one directory, or how many files are in
/// how many directories.
pub proof fn law_source_text(n: nat, dirs: Seq<Seq<char>>)
    ensures
        n == 0 ==> source_text(n, dirs) == "No files yet — click Browse."@,
        n > 0 && dirs.len() == 1 ==> source_text(n, dirs) == "Dir: "@ + dirs[0],
        n > 0 && dirs.len() != 1 ==> source_text(n, dirs) == decimal(n) + " files from "@
            + decimal(dirs.len()) + " folders"@,
{
}

/// Each operation has a row with its video, its subtitle and the new name, marked if
/// something stands in the way. Behind them each video without subtitles has a row.
pub proof fn law_rows(groups: Seq<GroupModel>, ops: Seq<OpModel>, i: int)
    requires
        0 <= i < rows_of(groups, ops).len(),
    ensures
        rows_of(groups, ops).len() == ops.len() + lone_videos(groups).len(),
        ({
            let r = rows_of(groups, ops)[i];
            &&& i < ops.len() ==> {
                &&& r.video == ops[i].video
                &&& r.subtitle == Some(ops[i].subtitle)
                &&& r.target == ops[i].target_basename
                &&& r.conflict <==> ops[i].conflicts.len() > 0
            }
            &&& i >= ops.len() ==> {
                &&& r.video == Some(lone_videos(groups)[i - ops.len()])
                &&& r.subtitle is None
                &&& r.target.len() == 0
                &&& !r.conflict
            }
        }),
{
}

/// How the video of a row is shown: as absent, as that of the row before, as one without a
/// subtitle, or as one with a subtitle.
pub proof fn law_style(rows: Seq<RowModel>, i: int)
    requires
        0 <= i < rows.len(),
    ensures
        ({
            let again = i > 0 && (rows[i - 1].video matches Some(w) && (
            rows[i].video matches Some(v) && same_path(w.path, v.path)));
            &&& style_of(rows, i) == VideoStyle::Absent <==> rows[i].video is None
            &&& style_of(rows, i) == VideoStyle::Repeated <==> again
            &&& style_of(rows, i) == VideoStyle::Lonely <==> rows[i].video is Some && !again
                && rows[i].subtitle is None
            &&& style_of(rows, i) == VideoStyle::Paired <==> rows[i].video is Some && !again
                && rows[i].subtitle is Some
        }),
{
}

/// What stands on the tab and in the question counts the operations: those without
/// conflicts on the tab, all of them and each kind in the question.
pub proof fn law_plan_texts(ops: Seq<OpModel>)
    ensures
        plan_tab_text(None) == "Plan ("@ + decimal(0) + ")"@,
        plan_tab_text(Some(ops)) == "Plan ("@ + decimal(
            count_of(ops, |op: OpModel| op.conflicts.len() == 0),
        ) + ")"@,
        confirm_question(ops) == "Apply "@ + decimal(ops.len()) + " operations ("@ + decimal(
            count_of(ops, |op: OpModel| op.action == PlannedAction::Rename),
        ) + " rename, "@ + decimal(count_of(ops, |op: OpModel| op.action == PlannedAction::Copy))
            + " copy)?"@,
{
}

/// What is said of the files left over counts the videos without subtitles, the subtitles
/// without a video, and the files of no known kind.
pub proof fn law_leftover_text(groups: Seq<GroupModel>, unknown: nat)
    ensures
        leftover_summary(groups, unknown) == "Unmatched videos: "@ + decimal(
            lone_videos(groups).len(),
        ) + " · Unmatched subtitles: "@ + decimal(lone_subtitles(groups).len())
            + " · Unknown extensions: "@ + decimal(unknown),
        conflict_word(ConflictModel::DuplicateTarget(Seq::empty())) == "duplicate"@,
        conflict_word(ConflictModel::TargetExists(Seq::empty())) == "exists"@,
        conflict_word(ConflictModel::ActionUnsupported(Seq::empty())) == "unsupported"@,
{
}

/// The font is taken from the first place that has one, and there is none only where no
/// place has.
pub proof fn law_first_font(there: Seq<bool>, i: int)
    requires
        there.len() == font_places().len(),
    ensures
        0 <= i < there.len() && there[i] && (forall|j: int| 0 <= j < i ==> !#[trigger] there[j])
            ==> first_font(there) == Some(font_places()[i]),
        (forall|j: int| 0 <= j < there.len() ==> !#[trigger] there[j]) ==> first_font(
            there,
        ) is None,
{
    if 0 <= i < there.len() && there[i] && (forall|j: int| 0 <= j < i ==> !#[trigger] there[j]) {
        assert(first_at(there, i));
        let k = choose|k: int| first_at(there, k);
        if k < i {
            assert(!there[k]);
        }
        if i < k {
            assert(!there[i]);
        }
    }
}

/// What is said of the font.
pub proof fn law_font_text(p: Seq<char>)
    ensures
        font_text(Some(p), true) == "loaded CJK font from "@ + p,
        font_text(Some(p), false) == "found CJK font at "@ + p + " but failed to read it"@,
        font_text(None, true) == "no CJK font found; non-ASCII filenames may render as boxes"@,
        font_text(None, false) == "no CJK font found; non-ASCII filenames may render as boxes"@,
{
}

/// The places where fonts are looked for: those of Linux first, by how well the font suits,
/// then those of macOS, of Windows, and of what was installed by hand.
pub proof fn law_font_places()
    ensures
        font_places().len() == 12,
        font_places()[0] == "/usr/share/fonts/opentype/noto/NotoSansCJK-Regular.ttc"@,
        font_places()[1] == "/usr/share/fonts/truetype/noto/NotoSansCJK-Regular.ttc"@,
        font_places()[2] == "/usr/share/fonts/noto-cjk/NotoSansCJK-Regular.ttc"@,
        font_places()[3]
            == "/usr/share/fonts/opentype/source-han-sans/SourceHanSansSC-Regular.otf"@,
        font_places()[4] == "/usr/share/fonts/source-han-sans/SourceHanSansSC-Regular.otf"@,
        font_places()[5] == "/usr/share/fonts/truetype/wqy/wqy-microhei.ttc"@,
        font_places()[6] == "/usr/share/fonts/wqy-microhei/wqy-microhei.ttc"@,
        font_places()[7] == "/System/Library/Fonts/PingFang.ttc"@,
        font_places()[8] == "/Library/Fonts/Songti.ttc"@,
        font_places()[9] == "C:/Windows/Fonts/msyh.ttc"@,
        font_places()[10] == "C:/Windows/Fonts/simhei.ttf"@,
        font_places()[11] == "/usr/local/share/fonts/NotoSansCJK-Regular.ttc"@,
{
}

} // verus!
