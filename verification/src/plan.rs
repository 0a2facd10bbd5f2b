//! Plans: which file becomes which, and what stands in the way.

use vstd::prelude::*;
use vstd::string::*;

use crate::conservation::subtitles_in;
use crate::matcher::{
    by_stem, copy_file, copy_files, opt_file, stem_before, stem_le, FileEntry, FileModel,
    GroupModel, MatchResult, PairGroup,
};
use crate::naming::{render_template, rendered, Fill, NamingConfig, NamingModel};
use crate::paths::{
    join, joined, law_join, opt_path_eq, parent, parent_part, path_parts, parts, plain_name,
    same_opt_path, same_parts, same_path,
};
use crate::pattern::{copy_opt, opt_view, views};
use crate::sorting::{count_of, lemma_sorted_multiset, models, sort_models};
use crate::text::{copy_of, decimal, decimal_of, same_str};

verus! {

// ---------------------------------------------------------------------------
// Plans
// ---------------------------------------------------------------------------
/// What is done to a subtitle.
#[derive(Debug, Clone, Copy, PartialEq, Eq, Structural)]
pub enum PlannedAction {
    /// It is renamed within its directory. The source is gone afterwards.
    Rename,
    /// It is copied to another directory. The source stays.
    Copy,
}

/// What stands in the way of an operation.
#[derive(Debug, PartialEq, Eq)]
pub enum Conflict {
    /// Another operation has the same target.
    DuplicateTarget(String),
    /// The target is there already, and is not one of the sources of the plan.
    TargetExists(String),
    /// The action cannot be done.
    ActionUnsupported(String),
}

/// What a [`Conflict`] stands for.
pub enum ConflictModel {
    DuplicateTarget(Seq<char>),
    TargetExists(Seq<char>),
    ActionUnsupported(Seq<char>),
}

impl View for Conflict {
    type V = ConflictModel;

    open spec fn view(&self) -> ConflictModel {
        match self {
            Conflict::DuplicateTarget(p) => ConflictModel::DuplicateTarget(p@),
            Conflict::TargetExists(p) => ConflictModel::TargetExists(p@),
            Conflict::ActionUnsupported(p) => ConflictModel::ActionUnsupported(p@),
        }
    }
}

impl Clone for Conflict {
    fn clone(&self) -> (r: Self)
        ensures
            r@ == self@,
    {
        match self {
            Conflict::DuplicateTarget(p) => Conflict::DuplicateTarget(copy_of(p.as_str())),
            Conflict::TargetExists(p) => Conflict::TargetExists(copy_of(p.as_str())),
            Conflict::ActionUnsupported(p) => Conflict::ActionUnsupported(copy_of(p.as_str())),
        }
    }
}

/// An operation of a plan.
#[derive(Debug)]
pub struct PlannedOp {
    /// The video that the subtitle goes with.
    pub video: Option<FileEntry>,
    /// The subtitle.
    pub subtitle: FileEntry,
    /// Where it goes.
    pub target_path: String,
    /// The name it gets.
    pub target_basename: String,
    /// What is done.
    pub action: PlannedAction,
    /// What stands in the way.
    pub conflicts: Vec<Conflict>,
    /// What subtitles with the same stem, such as an `.idx` and a `.sub`, share.
    pub unit_id: Option<String>,
}

/// What a [`PlannedOp`] stands for.
pub struct OpModel {
    pub video: Option<FileModel>,
    pub subtitle: FileModel,
    pub target_path: Seq<char>,
    pub target_basename: Seq<char>,
    pub action: PlannedAction,
    pub conflicts: Seq<ConflictModel>,
    pub unit_id: Option<Seq<char>>,
}

impl View for PlannedOp {
    type V = OpModel;

    open spec fn view(&self) -> OpModel {
        OpModel {
            video: opt_file(self.video),
            subtitle: self.subtitle@,
            target_path: self.target_path@,
            target_basename: self.target_basename@,
            action: self.action,
            conflicts: models(self.conflicts@),
            unit_id: opt_view(self.unit_id),
        }
    }
}

impl Clone for PlannedOp {
    fn clone(&self) -> (r: Self)
        ensures
            r@ == self@,
    {
        let mut conflicts: Vec<Conflict> = Vec::new();
        let mut i: usize = 0;
        while i < self.conflicts.len()
            invariant
                i <= self.conflicts@.len(),
                conflicts@.len() == i,
                forall|j: int| 0 <= j < i ==> (#[trigger] conflicts@[j])@ == self.conflicts@[j]@,
            decreases self.conflicts@.len() - i,
        {
            conflicts.push(self.conflicts[i].clone());
            i += 1;
        }
        assert(models(conflicts@) =~= models(self.conflicts@));
        PlannedOp {
            video: copy_file(&self.video),
            subtitle: self.subtitle.clone(),
            target_path: copy_of(self.target_path.as_str()),
            target_basename: copy_of(self.target_basename.as_str()),
            action: self.action,
            conflicts,
            unit_id: copy_opt(&self.unit_id),
        }
    }
}

/// A plan.
#[derive(Debug)]
pub struct Plan {
    /// Its operations.
    pub ops: Vec<PlannedOp>,
}

impl View for Plan {
    type V = Seq<OpModel>;

    open spec fn view(&self) -> Seq<OpModel> {
        models(self.ops@)
    }
}

impl Default for Plan {
    /// A plan that does nothing.
    fn default() -> (r: Self)
        ensures
            r@ == Seq::<OpModel>::empty(),
    {
        let r = Plan { ops: Vec::new() };
        assert(r@ =~= Seq::empty());
        r
    }
}

impl Clone for Plan {
    fn clone(&self) -> (r: Self)
        ensures
            r@ == self@,
    {
        let mut ops: Vec<PlannedOp> = Vec::new();
        let mut i: usize = 0;
        while i < self.ops.len()
            invariant
                i <= self.ops@.len(),
                ops@.len() == i,
                forall|j: int| 0 <= j < i ==> (#[trigger] ops@[j])@ == self.ops@[j]@,
            decreases self.ops@.len() - i,
        {
            ops.push(self.ops[i].clone());
            i += 1;
        }
        assert(models(ops@) =~= models(self.ops@));
        Plan { ops }
    }
}

impl Plan {
    /// Whether something stands in the way of an operation.
    pub fn has_conflicts(&self) -> (r: bool)
        ensures
            r == exists|i: int| 0 <= i < self@.len() && (#[trigger] self@[i]).conflicts.len() > 0,
    {
        let mut i: usize = 0;
        while i < self.ops.len()
            invariant
                i <= self.ops@.len(),
                forall|j: int| 0 <= j < i ==> (#[trigger] self@[j]).conflicts.len() == 0,
            decreases self.ops@.len() - i,
        {
            assert(self@[i as int].conflicts.len() == self.ops@[i as int].conflicts@.len());
            if self.ops[i].conflicts.len() > 0 {
                return true;
            }
            i += 1;
        }
        false
    }
}

/// Where subtitles go.
#[derive(Debug, Clone, Copy, PartialEq, Eq, Structural)]
pub enum ActionMode {
    /// They stay in their directory.
    Rename,
    /// They are copied to the directory of their video.
    Copy,
}

impl Default for ActionMode {
    /// Subtitles stay in their directory.
    fn default() -> (r: Self)
        ensures
            r == ActionMode::Rename,
    {
        ActionMode::Rename
    }
}

/// The mode of that name. `Auto` and `Move` are names of old for `Rename`.
pub open spec fn mode_named(name: Seq<char>) -> Option<ActionMode> {
    if name == "Rename"@ || name == "Auto"@ || name == "Move"@ {
        Some(ActionMode::Rename)
    } else if name == "Copy"@ {
        Some(ActionMode::Copy)
    } else {
        None
    }
}

impl ActionMode {
    /// The mode of that name. `Auto` and `Move` are names of old for `Rename`.
    pub fn from_name(name: &str) -> (r: Option<Self>)
        ensures
            r == mode_named(name@),
    {
        if same_str(name, "Rename") || same_str(name, "Auto") || same_str(name, "Move") {
            Some(ActionMode::Rename)
        } else if same_str(name, "Copy") {
            Some(ActionMode::Copy)
        } else {
            None
        }
    }

    /// The name of the mode.
    pub fn name(self) -> (r: &'static str)
        ensures
            r@ == match self {
                ActionMode::Rename => "Rename"@,
                ActionMode::Copy => "Copy"@,
            },
    {
        match self {
            ActionMode::Rename => "Rename",
            ActionMode::Copy => "Copy",
        }
    }
}

/// The name of a mode is a name of that mode.
pub proof fn law_mode_name(mode: ActionMode)
    ensures
        mode_named(
            match mode {
                ActionMode::Rename => "Rename"@,
                ActionMode::Copy => "Copy"@,
            },
        ) == Some(mode),
{
    reveal_strlit("Rename");
    reveal_strlit("Auto");
    reveal_strlit("Move");
    reveal_strlit("Copy");
    assert("Copy"@.len() == 4 && "Copy"@[0] == 'C');
    assert("Auto"@[0] == 'A');
    assert("Move"@[0] == 'M');
    assert("Rename"@.len() == 6);
}

/// The names of the modes.
pub proof fn law_mode_names(name: Seq<char>)
    ensures
        mode_named(name) == Some(ActionMode::Rename) <==> (name == "Rename"@ || name == "Auto"@
            || name == "Move"@),
        mode_named(name) == Some(ActionMode::Copy) <==> name == "Copy"@,
{
    law_mode_name(ActionMode::Copy);
}

/// Why there is no plan.
#[derive(Debug, Clone, Copy, PartialEq, Eq, Structural)]
pub enum PlanError {
    /// Copying needs a video with a directory.
    NoVideoForCopy {
        /// The place that the operation would have had in the plan.
        op_index: usize,
    },
}

/// What is said where operation `i` needs a video.
pub open spec fn missing_video_text(i: nat) -> Seq<char> {
    "Copy mode requires paired video (op #"@ + decimal(i) + ")"@
}

impl PlanError {
    /// What went wrong, in words.
    pub fn message(&self) -> (r: String)
        ensures
            r@ == missing_video_text(self->op_index as nat),
    {
        match self {
            PlanError::NoVideoForCopy { op_index } => {
                let mut s = copy_of("Copy mode requires paired video (op #");
                s.append(decimal_of(*op_index as u64).as_str());
                s.append(")");
                s
            },
        }
    }
}

// ---------------------------------------------------------------------------
// Targets
// ---------------------------------------------------------------------------
/// The name that the targets of a group are made of: the stem of its video, or else of
/// its first subtitle.
pub open spec fn main_name(g: GroupModel) -> Seq<char> {
    match g.video {
        Some(v) => v.stem,
        None => g.subtitles[0].stem,
    }
}

/// How many subtitles of the group have the stem `stem`.
pub open spec fn unit_size(g: GroupModel, stem: Seq<char>) -> nat {
    count_of(g.subtitles, |f: FileModel| f.stem == stem)
}

/// What the subtitles of one unit share, where there are two or more: those whose names
/// differ in the last extension alone.
pub open spec fn unit_of(g: GroupModel, sub: FileModel) -> Option<Seq<char>> {
    if unit_size(g, sub.stem) > 1 {
        Some(main_name(g) + "|"@ + sub.stem)
    } else {
        None
    }
}

/// The name that the subtitle gets.
pub open spec fn target_name(g: GroupModel, sub: FileModel, naming: NamingModel) -> Seq<char> {
    rendered(
        naming.effective(),
        Fill { vars: naming.vars(sub.stem), video: main_name(g), ext: sub.ext },
    )
}

/// The directory that the subtitle goes to: its own, or that of the video.
pub open spec fn target_dir(g: GroupModel, sub: FileModel, mode: ActionMode) -> Option<Seq<char>> {
    match mode {
        ActionMode::Rename => match parent_part(sub.path) {
            Some(d) => Some(d),
            None => Some(Seq::empty()),
        },
        ActionMode::Copy => match g.video {
            Some(v) => parent_part(v.path),
            None => None,
        },
    }
}

/// The operation for one subtitle of a group. There is none where the directory to copy
/// to is not known.
pub open spec fn op_for(
    g: GroupModel,
    sub: FileModel,
    naming: NamingModel,
    mode: ActionMode,
) -> Option<OpModel> {
    match target_dir(g, sub, mode) {
        Some(d) => {
            let name = target_name(g, sub, naming);
            let path = joined(d, name);
            Some(
                OpModel {
                    video: g.video,
                    subtitle: sub,
                    target_path: path,
                    target_basename: name,
                    action: if same_opt_path(parent_part(path), parent_part(sub.path)) {
                        PlannedAction::Rename
                    } else {
                        PlannedAction::Copy
                    },
                    conflicts: Seq::empty(),
                    unit_id: unit_of(g, sub),
                },
            )
        },
        None => None,
    }
}

/// A subtitle that needs an operation, with its group.
pub struct Job {
    pub group: GroupModel,
    pub sub: FileModel,
}

/// The subtitles of a group, in the order of their stems.
pub open spec fn jobs_of(g: GroupModel) -> Seq<Job> {
    Seq::new(by_stem(g.subtitles).len(), |i: int| Job { group: g, sub: by_stem(g.subtitles)[i] })
}

/// The subtitles of all groups, one group after the other.
pub open spec fn jobs(groups: Seq<GroupModel>) -> Seq<Job>
    decreases groups.len(),
{
    if groups.len() == 0 {
        Seq::empty()
    } else {
        jobs(groups.drop_last()) + jobs_of(groups.last())
    }
}

/// The operations for the jobs, or the place of the first job that has none.
pub open spec fn ops_for(jobs: Seq<Job>, naming: NamingModel, mode: ActionMode) -> Result<
    Seq<OpModel>,
    int,
>
    decreases jobs.len(),
{
    if jobs.len() == 0 {
        Ok(Seq::empty())
    } else {
        match ops_for(jobs.drop_last(), naming, mode) {
            Ok(ops) => match op_for(jobs.last().group, jobs.last().sub, naming, mode) {
                Some(op) => Ok(ops.push(op)),
                None => Err(jobs.len() - 1),
            },
            Err(i) => Err(i),
        }
    }
}

// ---------------------------------------------------------------------------
// Conflicts
// ---------------------------------------------------------------------------
/// Another operation has the target of operation `i`.
pub open spec fn duplicated(ops: Seq<OpModel>, i: int) -> bool {
    exists|j: int|
        0 <= j < ops.len() && j != i && same_path(
            ops[i].target_path,
            (#[trigger] ops[j]).target_path,
        )
}

/// The target of operation `i` is the source of an operation.
pub open spec fn is_source(ops: Seq<OpModel>, i: int) -> bool {
    exists|j: int|
        0 <= j < ops.len() && same_path(ops[i].target_path, (#[trigger] ops[j]).subtitle.path)
}

/// What stands in the way of operation `i`, where `there` says whether its target is
/// there already.
pub open spec fn conflicts_of(ops: Seq<OpModel>, i: int, there: bool) -> Seq<ConflictModel> {
    (if duplicated(ops, i) {
        seq![ConflictModel::DuplicateTarget(ops[i].target_path)]
    } else {
        Seq::empty()
    }) + (if !is_source(ops, i) && there {
        seq![ConflictModel::TargetExists(ops[i].target_path)]
    } else {
        Seq::empty()
    })
}

/// The operations with what stands in their way, where `there` says of each target
/// whether it is there already.
pub open spec fn marked(ops: Seq<OpModel>, there: Seq<bool>) -> Seq<OpModel> {
    Seq::new(
        ops.len(),
        |i: int| OpModel { conflicts: conflicts_of(ops, i, there[i]), ..ops[i] },
    )
}

// ---------------------------------------------------------------------------
// Computation
// ---------------------------------------------------------------------------
/// How many of the subtitles have the stem `stem`.
fn count_stem(subs: &Vec<FileEntry>, stem: &str) -> (r: usize)
    ensures
        r == count_of(models(subs@), |f: FileModel| f.stem == stem@),
{
    let ghost all = models(subs@);
    let ghost p = |f: FileModel| f.stem == stem@;
    let mut n: usize = 0;
    let mut i: usize = 0;
    while i < subs.len()
        invariant
            all == models(subs@),
            p == (|f: FileModel| f.stem == stem@),
            i <= subs@.len(),
            n <= i,
            n == count_of(all.take(i as int), p),
        decreases subs@.len() - i,
    {
        proof {
            assert(all.take(i + 1).drop_last() =~= all.take(i as int));
            assert(all.take(i + 1).last() == subs@[i as int]@);
        }
        if same_str(subs[i].stem.as_str(), stem) {
            n += 1;
        }
        i += 1;
    }
    assert(all.take(i as int) =~= all);
    n
}

/// The operation for one subtitle of a group.
pub fn plan_op(
    group: &PairGroup,
    sub: &FileEntry,
    naming: &NamingConfig,
    mode: ActionMode,
) -> (r: Option<PlannedOp>)
    requires
        group.subtitles@.len() > 0,
    ensures
        match r {
            Some(op) => op_for(group@, sub@, naming@, mode) == Some(op@),
            None => op_for(group@, sub@, naming@, mode) is None,
        },
{
    let main = match &group.video {
        Some(v) => copy_of(v.stem.as_str()),
        None => copy_of(group.subtitles[0].stem.as_str()),
    };
    assert(main@ == main_name(group@));
    let dir = match mode {
        ActionMode::Rename => match parent(sub.path.as_str()) {
            Some(d) => Some(d),
            None => Some(String::new()),
        },
        ActionMode::Copy => match &group.video {
            Some(v) => parent(v.path.as_str()),
            None => None,
        },
    };
    assert(opt_view(dir) == target_dir(group@, sub@, mode));
    let dir = match dir {
        Some(d) => d,
        None => {
            return None;
        },
    };
    let vars = naming.resolve_vars(sub);
    let name = render_template(
        naming.effective_template().as_str(),
        &vars,
        main.as_str(),
        sub.ext.as_str(),
    );
    let path = join(dir.as_str(), name.as_str());
    let same_dir = opt_path_eq(&parent(path.as_str()), &parent(sub.path.as_str()));
    let action = if same_dir {
        PlannedAction::Rename
    } else {
        PlannedAction::Copy
    };
    let unit_id = if count_stem(&group.subtitles, sub.stem.as_str()) > 1 {
        let mut id = main;
        id.append("|");
        id.append(sub.stem.as_str());
        Some(id)
    } else {
        None
    };
    assert(opt_view(unit_id) == unit_of(group@, sub@));
    let op = PlannedOp {
        video: copy_file(&group.video),
        subtitle: sub.clone(),
        target_path: path,
        target_basename: name,
        action,
        conflicts: Vec::new(),
        unit_id,
    };
    assert(op@.conflicts =~= Seq::empty());
    Some(op)
}

/// A subtitle that needs an operation, and the place of its group.
struct Task {
    group: usize,
    sub: FileEntry,
}

/// What the tasks stand for.
spec fn task_jobs(groups: Seq<GroupModel>, tasks: Seq<Task>) -> Seq<Job> {
    Seq::new(
        tasks.len(),
        |i: int| Job { group: groups[tasks[i].group as int], sub: tasks[i].sub@ },
    )
}

/// The subtitles of all groups, one group after the other.
fn collect_tasks(groups: &Vec<PairGroup>) -> (r: Vec<Task>)
    ensures
        task_jobs(models(groups@), r@) == jobs(models(groups@)),
        forall|i: int|
            0 <= i < r@.len() ==> (#[trigger] r@[i]).group < groups@.len()
                && groups@[r@[i].group as int].subtitles@.len() > 0,
{
    let ghost all = models(groups@);
    let mut out: Vec<Task> = Vec::new();
    let mut g: usize = 0;
    assert(task_jobs(all, out@) =~= jobs(all.take(0)));
    while g < groups.len()
        invariant
            all == models(groups@),
            g <= groups@.len(),
            task_jobs(all, out@) == jobs(all.take(g as int)),
            forall|i: int|
                0 <= i < out@.len() ==> (#[trigger] out@[i]).group < groups@.len()
                    && groups@[out@[i].group as int].subtitles@.len() > 0,
        decreases groups@.len() - g,
    {
        let ghost base = task_jobs(all, out@);
        let ghost mine = jobs_of(all[g as int]);
        let sorted = sort_models(
            copy_files(&groups[g].subtitles),
            stem_before,
            Ghost(|a: FileModel, b: FileModel| stem_le(a, b)),
        );
        proof {
            lemma_sorted_multiset(
                all[g as int].subtitles,
                |a: FileModel, b: FileModel| stem_le(a, b),
            );
            assert(models(sorted@) == by_stem(all[g as int].subtitles));
            assert(models(sorted@).len() == sorted@.len());
            assert(all[g as int].subtitles.len() == groups@[g as int].subtitles@.len());
            assert(base + mine.take(0) =~= base);
        }
        let mut k: usize = 0;
        while k < sorted.len()
            invariant
                all == models(groups@),
                g < groups@.len(),
                k <= sorted@.len(),
                mine == jobs_of(all[g as int]),
                models(sorted@) == by_stem(all[g as int].subtitles),
                sorted@.len() == groups@[g as int].subtitles@.len(),
                task_jobs(all, out@) == base + mine.take(k as int),
                forall|i: int|
                    0 <= i < out@.len() ==> (#[trigger] out@[i]).group < groups@.len()
                        && groups@[out@[i].group as int].subtitles@.len() > 0,
            decreases sorted@.len() - k,
        {
            let ghost before = task_jobs(all, out@);
            let ghost was = out@;
            let t = Task { group: g, sub: sorted[k].clone() };
            out.push(t);
            proof {
                assert(models(sorted@)[k as int] == sorted@[k as int]@);
                assert(task_jobs(all, out@) =~= before.push(mine[k as int]));
                assert(mine.take(k + 1) =~= mine.take(k as int).push(mine[k as int]));
                assert(task_jobs(all, out@) =~= base + mine.take(k + 1));
                assert forall|i: int| 0 <= i < out@.len() implies (#[trigger] out@[i]).group
                    < groups@.len() && groups@[out@[i].group as int].subtitles@.len() > 0 by {
                    if i < was.len() {
                        assert(out@[i] == was[i]);
                    }
                }
            }
            k += 1;
        }
        proof {
            assert(mine.len() == sorted@.len());
            assert(mine.take(k as int) =~= mine);
            assert(all.take(g + 1).drop_last() =~= all.take(g as int));
            assert(all.take(g + 1).last() == all[g as int]);
        }
        g += 1;
    }
    assert(all.take(g as int) =~= all);
    out
}

proof fn lemma_ops_for(jobs: Seq<Job>, naming: NamingModel, mode: ActionMode)
    ensures
        match ops_for(jobs, naming, mode) {
            Ok(ops) => ops.len() == jobs.len(),
            Err(i) => 0 <= i < jobs.len(),
        },
    decreases jobs.len(),
{
    if jobs.len() > 0 {
        lemma_ops_for(jobs.drop_last(), naming, mode);
    }
}

proof fn lemma_ops_fail(jobs: Seq<Job>, naming: NamingModel, mode: ActionMode, n: int)
    requires
        0 <= n <= jobs.len(),
        ops_for(jobs.take(n), naming, mode) is Err,
    ensures
        ops_for(jobs, naming, mode) == ops_for(jobs.take(n), naming, mode),
    decreases jobs.len(),
{
    if n == jobs.len() {
        assert(jobs.take(n) =~= jobs);
    } else {
        assert(jobs.drop_last().take(n) =~= jobs.take(n));
        lemma_ops_fail(jobs.drop_last(), naming, mode, n);
    }
}

/// The operations for the subtitles of the groups, without conflicts.
pub fn build_ops(result: &MatchResult, naming: &NamingConfig, mode: ActionMode) -> (r: Result<
    Vec<PlannedOp>,
    PlanError,
>)
    ensures
        match r {
            Ok(ops) => ops_for(jobs(result@), naming@, mode) == Ok::<Seq<OpModel>, int>(
                models(ops@),
            ),
            Err(e) => ops_for(jobs(result@), naming@, mode) == Err::<Seq<OpModel>, int>(
                e->op_index as int,
            ),
        },
{
    let tasks = collect_tasks(&result.groups);
    let ghost all = jobs(result@);
    assert(task_jobs(result@, tasks@).len() == tasks@.len());
    let mut ops: Vec<PlannedOp> = Vec::new();
    let mut i: usize = 0;
    assert(models(ops@) =~= Seq::empty());
    while i < tasks.len()
        invariant
            all == jobs(result@),
            all == task_jobs(result@, tasks@),
            forall|i: int|
                0 <= i < tasks@.len() ==> (#[trigger] tasks@[i]).group < result.groups@.len()
                    && result.groups@[tasks@[i].group as int].subtitles@.len() > 0,
            i <= tasks@.len(),
            ops@.len() == i,
            ops_for(all.take(i as int), naming@, mode) == Ok::<Seq<OpModel>, int>(models(ops@)),
        decreases tasks@.len() - i,
    {
        let ghost before = models(ops@);
        let t = &tasks[i];
        proof {
            assert(all.take(i + 1).drop_last() =~= all.take(i as int));
            assert(all.take(i + 1).last() == all[i as int]);
            assert(all[i as int] == (Job {
                group: result.groups@[t.group as int]@,
                sub: t.sub@,
            }));
        }
        match plan_op(&result.groups[t.group], &t.sub, naming, mode) {
            Some(op) => {
                let ghost one = op@;
                ops.push(op);
                assert(models(ops@) =~= before.push(one));
            },
            None => {
                proof {
                    lemma_ops_fail(all, naming@, mode, i + 1);
                }
                return Err(PlanError::NoVideoForCopy { op_index: i });
            },
        }
        i += 1;
    }
    assert(all.take(i as int) =~= all);
    Ok(ops)
}

/// The components of the target of each operation.
fn target_parts(ops: &Vec<PlannedOp>) -> (r: Vec<Vec<String>>)
    ensures
        r@.len() == ops@.len(),
        forall|i: int|
            0 <= i < r@.len() ==> views((#[trigger] r@[i])@) == parts(ops@[i].target_path@),
{
    let mut out: Vec<Vec<String>> = Vec::new();
    let mut i: usize = 0;
    while i < ops.len()
        invariant
            i <= ops@.len(),
            out@.len() == i,
            forall|j: int|
                0 <= j < i ==> views((#[trigger] out@[j])@) == parts(ops@[j].target_path@),
        decreases ops@.len() - i,
    {
        out.push(path_parts(ops[i].target_path.as_str()));
        i += 1;
    }
    out
}

/// The components of the source of each operation.
fn source_parts(ops: &Vec<PlannedOp>) -> (r: Vec<Vec<String>>)
    ensures
        r@.len() == ops@.len(),
        forall|i: int|
            0 <= i < r@.len() ==> views((#[trigger] r@[i])@) == parts(ops@[i].subtitle.path@),
{
    let mut out: Vec<Vec<String>> = Vec::new();
    let mut i: usize = 0;
    while i < ops.len()
        invariant
            i <= ops@.len(),
            out@.len() == i,
            forall|j: int|
                0 <= j < i ==> views((#[trigger] out@[j])@) == parts(ops@[j].subtitle.path@),
        decreases ops@.len() - i,
    {
        out.push(path_parts(ops[i].subtitle.path.as_str()));
        i += 1;
    }
    out
}

/// Of each operation, whether another one has its target and whether its target is the
/// source of one.
fn target_marks(ops: &Vec<PlannedOp>) -> (r: Vec<(bool, bool)>)
    ensures
        r@.len() == ops@.len(),
        forall|i: int|
            0 <= i < r@.len() ==> (#[trigger] r@[i]).0 == duplicated(models(ops@), i) && r@[i].1
                == is_source(models(ops@), i),
{
    let ghost all = models(ops@);
    let targets = target_parts(ops);
    let sources = source_parts(ops);
    let mut out: Vec<(bool, bool)> = Vec::new();
    let mut i: usize = 0;
    while i < ops.len()
        invariant
            all == models(ops@),
            targets@.len() == ops@.len(),
            sources@.len() == ops@.len(),
            forall|i: int|
                0 <= i < targets@.len() ==> views((#[trigger] targets@[i])@) == parts(
                    all[i].target_path,
                ),
            forall|i: int|
                0 <= i < sources@.len() ==> views((#[trigger] sources@[i])@) == parts(
                    all[i].subtitle.path,
                ),
            i <= ops@.len(),
            out@.len() == i,
            forall|j: int|
                0 <= j < i ==> (#[trigger] out@[j]).0 == duplicated(all, j) && out@[j].1
                    == is_source(all, j),
        decreases ops@.len() - i,
    {
        let mut dup = false;
        let mut source = false;
        let mut k: usize = 0;
        while k < ops.len()
            invariant
                all == models(ops@),
                targets@.len() == ops@.len(),
                sources@.len() == ops@.len(),
                forall|i: int|
                    0 <= i < targets@.len() ==> views((#[trigger] targets@[i])@) == parts(
                        all[i].target_path,
                    ),
                forall|i: int|
                    0 <= i < sources@.len() ==> views((#[trigger] sources@[i])@) == parts(
                        all[i].subtitle.path,
                    ),
                i < ops@.len(),
                k <= ops@.len(),
                dup == exists|j: int|
                    0 <= j < k && j != i && same_path(
                        all[i as int].target_path,
                        (#[trigger] all[j]).target_path,
                    ),
                source == exists|j: int|
                    0 <= j < k && same_path(
                        all[i as int].target_path,
                        (#[trigger] all[j]).subtitle.path,
                    ),
            decreases ops@.len() - k,
        {
            let ghost was = (dup, source);
            let hit = same_parts(&targets[i], &targets[k]);
            let from = same_parts(&targets[i], &sources[k]);
            assert(hit == same_path(all[i as int].target_path, all[k as int].target_path));
            assert(from == same_path(all[i as int].target_path, all[k as int].subtitle.path));
            if k != i && hit {
                dup = true;
            }
            if from {
                source = true;
            }
            k += 1;
        }
        out.push((dup, source));
        i += 1;
    }
    out
}

/// The operations with what stands in their way, where `there` says of each target
/// whether it is there already.
pub fn mark_conflicts(ops: &Vec<PlannedOp>, there: &Vec<bool>) -> (r: Plan)
    requires
        there@.len() == ops@.len(),
    ensures
        r@ == marked(models(ops@), there@),
{
    let ghost all = models(ops@);
    let marks = target_marks(ops);
    let mut out: Vec<PlannedOp> = Vec::new();
    let mut i: usize = 0;
    while i < ops.len()
        invariant
            all == models(ops@),
            there@.len() == ops@.len(),
            marks@.len() == ops@.len(),
            forall|i: int|
                0 <= i < marks@.len() ==> (#[trigger] marks@[i]).0 == duplicated(all, i)
                    && marks@[i].1 == is_source(all, i),
            i <= ops@.len(),
            out@.len() == i,
            forall|j: int| 0 <= j < i ==> (#[trigger] out@[j])@ == marked(all, there@)[j],
        decreases ops@.len() - i,
    {
        let mut conflicts: Vec<Conflict> = Vec::new();
        if marks[i].0 {
            conflicts.push(Conflict::DuplicateTarget(copy_of(ops[i].target_path.as_str())));
        }
        if !marks[i].1 && there[i] {
            conflicts.push(Conflict::TargetExists(copy_of(ops[i].target_path.as_str())));
        }
        assert(models(conflicts@) =~= conflicts_of(all, i as int, there@[i as int]));
        let op = PlannedOp { conflicts, ..ops[i].clone() };
        out.push(op);
        i += 1;
    }
    let r = Plan { ops: out };
    assert(r@ =~= marked(all, there@));
    r
}

/// Says what is there.
pub trait FsProbe {
    /// Whether there is something at `path`.
    fn path_exists(&self, path: &str) -> bool;
}

/// `there` is an answer that `probe` gives when it is asked about `path`.
pub open spec fn answered<P: FsProbe>(probe: &P, path: Seq<char>, there: bool) -> bool {
    exists|p: &str| p@ == path && #[trigger] call_ensures(P::path_exists, (probe, p), there)
}

/// Asks `probe` of each target that is no source whether it is there.
fn probe_targets<P: FsProbe>(ops: &Vec<PlannedOp>, probe: &P) -> (r: Vec<bool>)
    ensures
        r@.len() == ops@.len(),
        forall|i: int|
            0 <= i < r@.len() && !is_source(models(ops@), i) ==> answered(
                probe,
                ops@[i].target_path@,
                #[trigger] r@[i],
            ),
{
    let marks = target_marks(ops);
    let mut out: Vec<bool> = Vec::new();
    let mut i: usize = 0;
    while i < ops.len()
        invariant
            marks@.len() == ops@.len(),
            forall|i: int|
                0 <= i < marks@.len() ==> (#[trigger] marks@[i]).1 == is_source(models(ops@), i),
            i <= ops@.len(),
            out@.len() == i,
            forall|i: int|
                0 <= i < out@.len() && !is_source(models(ops@), i) ==> answered(
                    probe,
                    ops@[i].target_path@,
                    #[trigger] out@[i],
                ),
        decreases ops@.len() - i,
    {
        let path = ops[i].target_path.as_str();
        let there = if marks[i].1 {
            false
        } else {
            let there = probe.path_exists(path);
            assert(answered(probe, ops@[i as int].target_path@, there));
            there
        };
        out.push(there);
        i += 1;
    }
    out
}

/// The operations with what stands in their way, where `there` holds the answers of
/// `probe` about the targets that are no sources.
pub open spec fn probed<P: FsProbe>(
    plan: Seq<OpModel>,
    ops: Seq<OpModel>,
    probe: &P,
    there: Seq<bool>,
) -> bool {
    &&& there.len() == ops.len()
    &&& forall|i: int|
        0 <= i < ops.len() && !is_source(ops, i) ==> answered(
            probe,
            ops[i].target_path,
            #[trigger] there[i],
        )
    &&& plan == marked(ops, there)
}

/// The operations with what stands in their way, by some answers of `probe`.
pub open spec fn planned<P: FsProbe>(
    plan: Seq<OpModel>,
    ops: Seq<OpModel>,
    probe: &P,
) -> bool {
    exists|there: Seq<bool>| #[trigger] probed(plan, ops, probe, there)
}

/// A plan for the subtitles of the groups. `probe` is asked about each target that is no
/// source whether it is there already. There is no plan where a subtitle is to be copied
/// and its group has no video with a directory.
pub fn generate_plan<P: FsProbe>(
    result: &MatchResult,
    naming: &NamingConfig,
    probe: &P,
    action_mode: ActionMode,
) -> (r: Result<Plan, PlanError>)
    ensures
        match r {
            Ok(plan) => match ops_for(jobs(result@), naming@, action_mode) {
                Ok(ops) => planned(plan@, ops, probe),
                Err(_) => false,
            },
            Err(e) => ops_for(jobs(result@), naming@, action_mode) == Err::<Seq<OpModel>, int>(
                e->op_index as int,
            ),
        },
{
    match build_ops(result, naming, action_mode) {
        Ok(ops) => {
            let there = probe_targets(&ops, probe);
            let plan = mark_conflicts(&ops, &there);
            assert(probed(plan@, models(ops@), probe, there@)) by {
                assert forall|i: int|
                    0 <= i < ops@.len() && !is_source(models(ops@), i) implies answered(
                    probe,
                    models(ops@)[i].target_path,
                    #[trigger] there@[i],
                ) by {
                    assert(models(ops@)[i].target_path == ops@[i].target_path@);
                }
            }
            Ok(plan)
        },
        Err(e) => Err(e),
    }
}

// ---------------------------------------------------------------------------
// Laws
// ---------------------------------------------------------------------------
/// Where subtitles stay in their directory, the operation is a rename within it, if the
/// name that the template makes is one component.
pub proof fn law_rename_in_place(g: GroupModel, sub: FileModel, naming: NamingModel)
    requires
        parent_part(sub.path) is Some,
        plain_name(target_name(g, sub, naming)),
    ensures
        op_for(g, sub, naming, ActionMode::Rename) matches Some(op) && op.action
            == PlannedAction::Rename && same_opt_path(
            parent_part(op.target_path),
            parent_part(sub.path),
        ),
{
    law_join(parent_part(sub.path)->0, target_name(g, sub, naming));
}

/// Where subtitles are copied, the target is in the directory of the video, if the name
/// that the template makes is one component. There is an operation exactly where there
/// is such a directory.
pub proof fn law_copy_to_video(g: GroupModel, sub: FileModel, naming: NamingModel)
    requires
        plain_name(target_name(g, sub, naming)),
    ensures
        op_for(g, sub, naming, ActionMode::Copy) is Some <==> (g.video matches Some(v)
            && parent_part(v.path) is Some),
        op_for(g, sub, naming, ActionMode::Copy) matches Some(op) ==> same_opt_path(
            parent_part(op.target_path),
            parent_part(g.video->0.path),
        ),
{
    if let Some(v) = g.video {
        if let Some(d) = parent_part(v.path) {
            law_join(d, target_name(g, sub, naming));
        }
    }
}

/// Two subtitles of a group share a unit if and only if they have the same stem, so that
/// versions in two languages are never one unit.
pub proof fn law_unit_shared(g: GroupModel, i: int, j: int)
    requires
        0 <= i < j < g.subtitles.len(),
    ensures
        (unit_of(g, g.subtitles[i]) is Some && unit_of(g, g.subtitles[i]) == unit_of(
            g,
            g.subtitles[j],
        )) <==> g.subtitles[i].stem == g.subtitles[j].stem,
{
    let a = g.subtitles[i].stem;
    let b = g.subtitles[j].stem;
    if a == b {
        let p = |f: FileModel| f.stem == a;
        lemma_count_two(g.subtitles, p, i, j);
    } else {
        let head = main_name(g) + "|"@;
        assert((head + a).skip(head.len() as int) =~= a);
        assert((head + b).skip(head.len() as int) =~= b);
    }
}

/// A subtitle whose stem no other has is no part of a unit.
pub proof fn law_alone_no_unit(g: GroupModel, i: int)
    requires
        0 <= i < g.subtitles.len(),
        forall|j: int|
            0 <= j < g.subtitles.len() && j != i ==> (#[trigger] g.subtitles[j]).stem
                != g.subtitles[i].stem,
    ensures
        unit_of(g, g.subtitles[i]) is None,
{
    let s = g.subtitles;
    let p = |f: FileModel| f.stem == s[i].stem;
    lemma_count_single(s, p, i);
}

proof fn lemma_count_single(s: Seq<FileModel>, p: spec_fn(FileModel) -> bool, i: int)
    requires
        forall|j: int| 0 <= j < s.len() && j != i ==> !p(#[trigger] s[j]),
    ensures
        count_of(s, p) <= 1,
        !(0 <= i < s.len()) ==> count_of(s, p) == 0,
    decreases s.len(),
{
    if s.len() > 0 {
        let t = s.drop_last();
        assert forall|j: int| 0 <= j < t.len() && j != i implies !p(#[trigger] t[j]) by {
            assert(t[j] == s[j]);
        }
        lemma_count_single(t, p, i);
        if i != s.len() - 1 {
            assert(!p(s[s.len() - 1]));
        }
    }
}

proof fn lemma_count_one(s: Seq<FileModel>, p: spec_fn(FileModel) -> bool, i: int)
    requires
        0 <= i < s.len(),
        p(s[i]),
    ensures
        count_of(s, p) >= 1,
    decreases s.len(),
{
    if i < s.len() - 1 {
        lemma_count_one(s.drop_last(), p, i);
    }
}

proof fn lemma_count_two(s: Seq<FileModel>, p: spec_fn(FileModel) -> bool, i: int, j: int)
    requires
        0 <= i < j < s.len(),
        p(s[i]),
        p(s[j]),
    ensures
        count_of(s, p) >= 2,
    decreases s.len(),
{
    if j < s.len() - 1 {
        lemma_count_two(s.drop_last(), p, i, j);
    } else {
        lemma_count_one(s.drop_last(), p, i);
    }
}

/// The subtitles of the jobs.
pub open spec fn job_subs(jobs: Seq<Job>) -> Seq<FileModel> {
    Seq::new(jobs.len(), |i: int| jobs[i].sub)
}

/// A plan has one operation for each subtitle of the groups, and no other.
pub proof fn law_plan_covers(groups: Seq<GroupModel>, naming: NamingModel, mode: ActionMode)
    ensures
        ops_for(jobs(groups), naming, mode) matches Ok(ops) ==> Seq::new(
            ops.len(),
            |i: int| ops[i].subtitle,
        ).to_multiset() == subtitles_in(groups),
{
    lemma_jobs_cover(groups);
    lemma_ops_subs(jobs(groups), naming, mode);
}

proof fn lemma_ops_subs(jobs: Seq<Job>, naming: NamingModel, mode: ActionMode)
    ensures
        ops_for(jobs, naming, mode) matches Ok(ops) ==> Seq::new(
            ops.len(),
            |i: int| ops[i].subtitle,
        ) == job_subs(jobs),
    decreases jobs.len(),
{
    if jobs.len() > 0 {
        lemma_ops_subs(jobs.drop_last(), naming, mode);
        lemma_ops_for(jobs.drop_last(), naming, mode);
        if let Ok(ops) = ops_for(jobs, naming, mode) {
            let t = ops_for(jobs.drop_last(), naming, mode)->Ok_0;
            let a = Seq::new(ops.len(), |i: int| ops[i].subtitle);
            let b = Seq::new(t.len(), |i: int| t[i].subtitle);
            assert(ops.drop_last() =~= t);
            assert forall|i: int| 0 <= i < a.len() implies a[i] == job_subs(jobs)[i] by {
                if i < t.len() {
                    assert(ops[i] == t[i]);
                    assert(b[i] == job_subs(jobs.drop_last())[i]);
                }
            }
            assert(a =~= job_subs(jobs));
        }
    }
}

proof fn lemma_jobs_cover(groups: Seq<GroupModel>)
    ensures
        job_subs(jobs(groups)).to_multiset() == subtitles_in(groups),
    decreases groups.len(),
{
    broadcast use vstd::seq_lib::group_to_multiset_ensures;

    if groups.len() == 0 {
        assert(job_subs(jobs(groups)) =~= Seq::empty());
        assert(job_subs(jobs(groups)).to_multiset() =~= vstd::multiset::Multiset::empty());
    } else {
        let g = groups.last();
        let a = job_subs(jobs(groups.drop_last()));
        lemma_jobs_cover(groups.drop_last());
        lemma_sorted_multiset(g.subtitles, |a: FileModel, b: FileModel| stem_le(a, b));
        assert(job_subs(jobs(groups)) =~= a + by_stem(g.subtitles));
        vstd::seq_lib::lemma_multiset_commutative(a, by_stem(g.subtitles));
    }
}

/// Operations with the same target are in conflict with each other, whatever is there.
pub proof fn law_duplicates_flagged(ops: Seq<OpModel>, there: Seq<bool>, i: int, j: int)
    requires
        0 <= i < ops.len(),
        0 <= j < ops.len(),
        i != j,
        same_path(ops[i].target_path, ops[j].target_path),
    ensures
        marked(ops, there)[i].conflicts.contains(
            ConflictModel::DuplicateTarget(ops[i].target_path),
        ),
        marked(ops, there)[j].conflicts.contains(
            ConflictModel::DuplicateTarget(ops[j].target_path),
        ),
{
    assert(duplicated(ops, i));
    assert(duplicated(ops, j));
    assert(marked(ops, there)[i].conflicts[0] == ConflictModel::DuplicateTarget(
        ops[i].target_path,
    ));
    assert(marked(ops, there)[j].conflicts[0] == ConflictModel::DuplicateTarget(
        ops[j].target_path,
    ));
}

/// A plan without conflicts has a target of its own for each operation, and none that is
/// there already and is no source.
pub proof fn law_clean_plan(ops: Seq<OpModel>, there: Seq<bool>)
    requires
        there.len() == ops.len(),
        forall|i: int| 0 <= i < ops.len() ==> (#[trigger] marked(ops, there)[i]).conflicts.len()
            == 0,
    ensures
        forall|i: int, j: int|
            0 <= i < ops.len() && 0 <= j < ops.len() && i != j ==> !same_path(
                (#[trigger] ops[i]).target_path,
                (#[trigger] ops[j]).target_path,
            ),
        forall|i: int| 0 <= i < ops.len() && !is_source(ops, i) ==> !#[trigger] there[i],
        forall|i: int|
            0 <= i < ops.len() && (forall|j: int|
                0 <= j < ops.len() ==> !same_path(
                    ops[i].target_path,
                    (#[trigger] ops[j]).subtitle.path,
                )) ==> !#[trigger] there[i],
{
    assert forall|i: int, j: int|
        0 <= i < ops.len() && 0 <= j < ops.len() && i != j implies !same_path(
        (#[trigger] ops[i]).target_path,
        (#[trigger] ops[j]).target_path,
    ) by {
        assert(marked(ops, there)[i].conflicts.len() == 0);
        if same_path(ops[i].target_path, ops[j].target_path) {
            assert(duplicated(ops, i));
        }
    }
    assert forall|i: int|
        0 <= i < ops.len() && (forall|j: int|
            0 <= j < ops.len() ==> !same_path(
                ops[i].target_path,
                (#[trigger] ops[j]).subtitle.path,
            )) implies !#[trigger] there[i] by {
        assert(!is_source(ops, i));
        assert(marked(ops, there)[i].conflicts.len() == 0);
    }
}

} // verus!
