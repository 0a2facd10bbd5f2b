//! What every plan keeps to: where subtitles go, how they get there and what is said to
//! stand in the way.

use vstd::prelude::*;
use vstd::string::*;

use crate::conservation::{lemma_stem_order, subtitles_in};
use crate::matcher::{by_stem, stem_le, FileModel, GroupModel};
use crate::naming::{rendered, Fill, NamingModel};
use crate::paths::{joined, law_join, name_part, parent_part, parts, plain_name, same_path};
use crate::plan::{
    answered, conflicts_of, duplicated, is_source, jobs, jobs_of, law_alone_no_unit,
    law_unit_shared, marked, op_for, ops_for, planned, probed, unit_of, ActionMode,
    ConflictModel, FsProbe, Job, OpModel, PlannedAction,
};
use crate::sorting::{lemma_sorted_in_order, lemma_sorted_multiset};
use crate::text::lex_lt;

verus! {

// ---------------------------------------------------------------------------
// Jobs
// ---------------------------------------------------------------------------
/// Job `k` is for a subtitle of one of the groups.
spec fn job_from(groups: Seq<GroupModel>, job: Job, a: int, b: int) -> bool {
    &&& 0 <= a < groups.len()
    &&& 0 <= b < groups[a].subtitles.len()
    &&& job == (Job { group: groups[a], sub: groups[a].subtitles[b] })
}

proof fn lemma_job_from(groups: Seq<GroupModel>, k: int)
    requires
        0 <= k < jobs(groups).len(),
    ensures
        exists|a: int, b: int| #[trigger] job_from(groups, jobs(groups)[k], a, b),
    decreases groups.len(),
{
    broadcast use vstd::seq_lib::group_to_multiset_ensures;

    let t = groups.drop_last();
    let g = groups.last();
    if k < jobs(t).len() {
        lemma_job_from(t, k);
        let (a, b) = choose|a: int, b: int| #[trigger] job_from(t, jobs(t)[k], a, b);
        assert(job_from(groups, jobs(groups)[k], a, b));
    } else {
        let i = k - jobs(t).len();
        lemma_sorted_multiset(g.subtitles, |a: FileModel, b: FileModel| stem_le(a, b));
        let f = by_stem(g.subtitles)[i];
        assert(by_stem(g.subtitles).to_multiset().count(f) > 0) by {
            assert(by_stem(g.subtitles).contains(f));
        }
        assert(g.subtitles.to_multiset().count(f) > 0);
        assert(g.subtitles.contains(f));
        let b = choose|b: int| 0 <= b < g.subtitles.len() && g.subtitles[b] == f;
        assert(jobs(groups)[k] == jobs_of(g)[i]);
        assert(job_from(groups, jobs(groups)[k], groups.len() - 1, b));
    }
}

proof fn lemma_ops_at(all: Seq<Job>, naming: NamingModel, mode: ActionMode, k: int)
    requires
        0 <= k < all.len(),
    ensures
        ops_for(all, naming, mode) matches Ok(ops) ==> ops.len() == all.len() && op_for(
            all[k].group,
            all[k].sub,
            naming,
            mode,
        ) == Some(ops[k]),
    decreases all.len(),
{
    let t = all.drop_last();
    if ops_for(all, naming, mode) is Ok {
        lemma_ops_len(t, naming, mode);
        if k < t.len() {
            lemma_ops_at(t, naming, mode, k);
        }
    }
}

proof fn lemma_ops_len(all: Seq<Job>, naming: NamingModel, mode: ActionMode)
    ensures
        match ops_for(all, naming, mode) {
            Ok(ops) => ops.len() == all.len() && forall|k: int|
                0 <= k < all.len() ==> op_for(
                    (#[trigger] all[k]).group,
                    all[k].sub,
                    naming,
                    mode,
                ) is Some,
            Err(i) => 0 <= i < all.len() && op_for(all[i].group, all[i].sub, naming, mode) is None
                && forall|k: int|
                0 <= k < i ==> op_for((#[trigger] all[k]).group, all[k].sub, naming, mode) is Some,
        },
    decreases all.len(),
{
    if all.len() > 0 {
        let t = all.drop_last();
        lemma_ops_len(t, naming, mode);
        assert forall|k: int| 0 <= k < t.len() implies #[trigger] all[k] == t[k] by {}
    }
}

// ---------------------------------------------------------------------------
// Operations
// ---------------------------------------------------------------------------
/// `op` is for subtitle `b` of group `a`, and carries the video of that group.
pub open spec fn op_from(groups: Seq<GroupModel>, op: OpModel, a: int, b: int) -> bool {
    &&& 0 <= a < groups.len()
    &&& 0 <= b < groups[a].subtitles.len()
    &&& op.subtitle == groups[a].subtitles[b]
    &&& op.video == groups[a].video
}

/// Subtitle `b` of the group shares its stem with another.
pub open spec fn has_twin(g: GroupModel, b: int) -> bool {
    exists|c: int|
        0 <= c < g.subtitles.len() && c != b && (#[trigger] g.subtitles[c]).stem
            == g.subtitles[b].stem
}

/// An operation is a rename if and only if its target is in the directory of its subtitle,
/// whatever the mode and whatever else is in the group.
pub proof fn law_action_by_directory(
    groups: Seq<GroupModel>,
    naming: NamingModel,
    mode: ActionMode,
    k: int,
)
    requires
        ops_for(jobs(groups), naming, mode) is Ok,
        0 <= k < ops_for(jobs(groups), naming, mode)->Ok_0.len(),
    ensures
        ({
            let op = ops_for(jobs(groups), naming, mode)->Ok_0[k];
            op.action == PlannedAction::Rename <==> match (
                parent_part(op.target_path),
                parent_part(op.subtitle.path),
            ) {
                (Some(x), Some(y)) => parts(x) == parts(y),
                (None, None) => true,
                _ => false,
            }
        }),
{
    lemma_ops_len(jobs(groups), naming, mode);
    lemma_ops_at(jobs(groups), naming, mode, k);
}

/// A subtitle whose video is in another directory is copied where subtitles go to their
/// videos, and one that stays in its directory is renamed, if the name that it gets is one
/// component.
pub proof fn law_action_by_mode(
    groups: Seq<GroupModel>,
    naming: NamingModel,
    mode: ActionMode,
    k: int,
)
    requires
        ops_for(jobs(groups), naming, mode) is Ok,
        0 <= k < ops_for(jobs(groups), naming, mode)->Ok_0.len(),
        plain_name(ops_for(jobs(groups), naming, mode)->Ok_0[k].target_basename),
        parent_part(ops_for(jobs(groups), naming, mode)->Ok_0[k].subtitle.path) is Some,
    ensures
        ({
            let op = ops_for(jobs(groups), naming, mode)->Ok_0[k];
            let home = parent_part(op.subtitle.path)->0;
            match mode {
                ActionMode::Rename => op.action == PlannedAction::Rename,
                ActionMode::Copy => op.video is Some && parent_part(op.video->0.path) is Some && (
                op.action == PlannedAction::Copy <==> parts(
                    parent_part(op.video->0.path)->0,
                ) != parts(home)),
            }
        }),
{
    law_action_by_directory(groups, naming, mode, k);
    law_op_target(groups, naming, mode, k);
}

/// An operation belongs to a subtitle of a group and carries the video of that group.
pub proof fn law_op_source(
    groups: Seq<GroupModel>,
    naming: NamingModel,
    mode: ActionMode,
    k: int,
)
    requires
        ops_for(jobs(groups), naming, mode) is Ok,
        0 <= k < ops_for(jobs(groups), naming, mode)->Ok_0.len(),
    ensures
        exists|a: int, b: int| #[trigger]
            op_from(groups, ops_for(jobs(groups), naming, mode)->Ok_0[k], a, b),
{
    lemma_ops_len(jobs(groups), naming, mode);
    lemma_ops_at(jobs(groups), naming, mode, k);
    lemma_job_from(groups, k);
    let (a, b) = choose|a: int, b: int| #[trigger] job_from(groups, jobs(groups)[k], a, b);
    assert(op_from(groups, ops_for(jobs(groups), naming, mode)->Ok_0[k], a, b));
}

/// The target of an operation is its new name, put below the directory of its subtitle or,
/// where subtitles are copied, of its video. If the name is one component, the target has
/// that name and lies in that directory.
pub proof fn law_op_target(
    groups: Seq<GroupModel>,
    naming: NamingModel,
    mode: ActionMode,
    k: int,
)
    requires
        ops_for(jobs(groups), naming, mode) is Ok,
        0 <= k < ops_for(jobs(groups), naming, mode)->Ok_0.len(),
    ensures
        ({
            let op = ops_for(jobs(groups), naming, mode)->Ok_0[k];
            let from = match mode {
                ActionMode::Rename => op.subtitle.path,
                ActionMode::Copy => op.video->0.path,
            };
            let dir = match parent_part(from) {
                Some(d) => d,
                None => Seq::empty(),
            };
            &&& mode == ActionMode::Copy ==> op.video is Some && parent_part(from) is Some
            &&& op.target_path == joined(dir, op.target_basename)
            &&& plain_name(op.target_basename) ==> name_part(op.target_path) == Some(
                op.target_basename,
            )
            &&& plain_name(op.target_basename) ==> parent_part(op.target_path) is Some && parts(
                parent_part(op.target_path)->0,
            ) == parts(dir)
        }),
{
    lemma_ops_len(jobs(groups), naming, mode);
    lemma_ops_at(jobs(groups), naming, mode, k);
    let op = ops_for(jobs(groups), naming, mode)->Ok_0[k];
    let from = match mode {
        ActionMode::Rename => op.subtitle.path,
        ActionMode::Copy => op.video->0.path,
    };
    let dir = match parent_part(from) {
        Some(d) => d,
        None => Seq::empty(),
    };
    if plain_name(op.target_basename) {
        law_join(dir, op.target_basename);
    }
}

/// The name that a subtitle gets is what the template makes of the variables that its stem
/// gives a value, of its extension, and of the stem of the video of its group or else of the
/// first subtitle there.
pub proof fn law_op_name(g: GroupModel, sub: FileModel, naming: NamingModel, mode: ActionMode)
    ensures
        op_for(g, sub, naming, mode) matches Some(op) ==> op.target_basename == rendered(
            naming.effective(),
            (Fill {
                vars: naming.vars(sub.stem),
                video: if g.video is Some {
                    g.video->0.stem
                } else {
                    g.subtitles[0].stem
                },
                ext: sub.ext,
            }),
        ),
{
}

/// An operation is part of a unit if and only if another subtitle of its group has its
/// stem. Two subtitles of a group with the same stem are in the same unit, and two with
/// different stems are not.
pub proof fn law_op_unit(g: GroupModel, naming: NamingModel, mode: ActionMode, b: int, c: int)
    requires
        0 <= b < g.subtitles.len(),
        0 <= c < g.subtitles.len(),
        op_for(g, g.subtitles[b], naming, mode) is Some,
        op_for(g, g.subtitles[c], naming, mode) is Some,
    ensures
        ({
            let x = op_for(g, g.subtitles[b], naming, mode)->0;
            let y = op_for(g, g.subtitles[c], naming, mode)->0;
            &&& x.unit_id is Some <==> has_twin(g, b)
            &&& x.unit_id is Some ==> x.unit_id->0 == (if g.video is Some {
                g.video->0.stem
            } else {
                g.subtitles[0].stem
            }) + "|"@ + g.subtitles[b].stem
            &&& b != c ==> ((x.unit_id is Some && x.unit_id == y.unit_id) <==> g.subtitles[b].stem
                == g.subtitles[c].stem)
        }),
{
    if b < c {
        law_unit_shared(g, b, c);
    } else if c < b {
        law_unit_shared(g, c, b);
    }
    if has_twin(g, b) {
        let d = choose|d: int|
            0 <= d < g.subtitles.len() && d != b && (#[trigger] g.subtitles[d]).stem
                == g.subtitles[b].stem;
        if b < d {
            law_unit_shared(g, b, d);
        } else {
            law_unit_shared(g, d, b);
        }
        assert(unit_of(g, g.subtitles[d]) == unit_of(g, g.subtitles[b]));
    } else {
        law_alone_no_unit(g, b);
    }
}

/// A group has a directory that its subtitles can be copied to.
pub open spec fn has_home(g: GroupModel) -> bool {
    g.video matches Some(v) && parent_part(v.path) is Some
}

/// Where subtitles stay in their directory there is a plan. Where they are copied, there is
/// one if and only if every group with subtitles has a video with a directory.
pub proof fn law_plan_owed(groups: Seq<GroupModel>, naming: NamingModel, mode: ActionMode)
    ensures
        ops_for(jobs(groups), naming, mode) is Ok <==> (mode == ActionMode::Rename || forall|a:
            int|
            0 <= a < groups.len() && (#[trigger] groups[a]).subtitles.len() > 0 ==> has_home(
                groups[a],
            )),
{
    let all = jobs(groups);
    lemma_ops_len(all, naming, mode);
    match ops_for(all, naming, mode) {
        Ok(_) => {
            if mode == ActionMode::Copy {
                assert forall|a: int|
                    0 <= a < groups.len() && (#[trigger] groups[a]).subtitles.len()
                        > 0 implies has_home(groups[a]) by {
                    lemma_jobs_place(groups, a);
                    let k = jobs(groups.take(a)).len() as int;
                    assert(op_for(all[k].group, all[k].sub, naming, mode) is Some);
                }
            }
        },
        Err(i) => {
            lemma_job_from(groups, i);
            let (a, b) = choose|a: int, b: int| #[trigger] job_from(groups, all[i], a, b);
            assert(groups[a].subtitles.len() > 0);
        },
    }
}

/// Where there is no plan, the place that is named is the number of subtitles in the groups
/// before the first group with subtitles that has no video with a directory.
pub proof fn law_plan_refused(groups: Seq<GroupModel>, naming: NamingModel, mode: ActionMode, a: int)
    requires
        mode == ActionMode::Copy,
        0 <= a < groups.len(),
        groups[a].subtitles.len() > 0,
        !has_home(groups[a]),
        forall|c: int|
            0 <= c < a && (#[trigger] groups[c]).subtitles.len() > 0 ==> has_home(groups[c]),
    ensures
        ops_for(jobs(groups), naming, mode) == Err::<Seq<OpModel>, int>(
            subtitles_in(groups.take(a)).len() as int,
        ),
{
    let all = jobs(groups);
    let k = jobs(groups.take(a)).len() as int;
    lemma_ops_len(all, naming, mode);
    lemma_jobs_place(groups, a);
    lemma_jobs_count(groups.take(a));
    assert(op_for(all[k].group, all[k].sub, naming, mode) is None);
    match ops_for(all, naming, mode) {
        Ok(_) => {},
        Err(i) => {
            if i < k {
                let head = groups.take(a);
                assert(all[i] == jobs(head)[i]) by {
                    lemma_jobs_prefix(groups, a);
                }
                lemma_job_from(head, i);
                let (c, b) = choose|c: int, b: int| #[trigger] job_from(head, jobs(head)[i], c, b);
                assert(groups[c] == head[c]);
                assert(has_home(groups[c]));
            }
        },
    }
}

proof fn lemma_jobs_prefix(groups: Seq<GroupModel>, a: int)
    requires
        0 <= a <= groups.len(),
    ensures
        jobs(groups.take(a)).len() <= jobs(groups).len(),
        forall|k: int|
            0 <= k < jobs(groups.take(a)).len() ==> jobs(groups)[k] == #[trigger] jobs(
                groups.take(a),
            )[k],
    decreases groups.len(),
{
    if a == groups.len() {
        assert(groups.take(a) =~= groups);
    } else {
        assert(groups.drop_last().take(a) =~= groups.take(a));
        lemma_jobs_prefix(groups.drop_last(), a);
    }
}

proof fn lemma_jobs_place(groups: Seq<GroupModel>, a: int)
    requires
        0 <= a < groups.len(),
        groups[a].subtitles.len() > 0,
    ensures
        jobs(groups.take(a)).len() < jobs(groups).len(),
        jobs(groups)[jobs(groups.take(a)).len() as int].group == groups[a],
{
    let head = groups.take(a + 1);
    lemma_jobs_prefix(groups, a + 1);
    lemma_sorted_multiset(groups[a].subtitles, |a: FileModel, b: FileModel| stem_le(a, b));
    assert(head.drop_last() =~= groups.take(a));
    assert(head.last() == groups[a]);
    let k = jobs(groups.take(a)).len() as int;
    assert(jobs(head)[k] == jobs_of(groups[a])[0]);
}

proof fn lemma_jobs_count(groups: Seq<GroupModel>)
    ensures
        jobs(groups).len() == subtitles_in(groups).len(),
    decreases groups.len(),
{
    broadcast use vstd::seq_lib::group_to_multiset_ensures;
    broadcast use vstd::multiset::group_multiset_axioms;

    if groups.len() > 0 {
        let g = groups.last();
        lemma_jobs_count(groups.drop_last());
        lemma_sorted_multiset(g.subtitles, |a: FileModel, b: FileModel| stem_le(a, b));
    }
}

/// The operations follow the groups. Those for one group have each of its subtitles once, in
/// the order of their stems.
pub proof fn law_plan_order(
    groups: Seq<GroupModel>,
    g: GroupModel,
    naming: NamingModel,
    mode: ActionMode,
)
    requires
        ops_for(jobs(groups.push(g)), naming, mode) is Ok,
    ensures
        ({
            let ops = ops_for(jobs(groups.push(g)), naming, mode)->Ok_0;
            let before = ops_for(jobs(groups), naming, mode);
            let n = subtitles_in(groups).len() as int;
            &&& before is Ok && ops.len() == n + g.subtitles.len()
            &&& ops.take(n) == before->Ok_0
            &&& Seq::new(g.subtitles.len(), |i: int| ops[n + i].subtitle).to_multiset()
                == g.subtitles.to_multiset()
            &&& forall|i: int, j: int|
                n <= i < j < ops.len() ==> !lex_lt(
                    (#[trigger] ops[j]).subtitle.stem,
                    (#[trigger] ops[i]).subtitle.stem,
                )
        }),
{
    let all = jobs(groups.push(g));
    let head = jobs(groups);
    let le = |a: FileModel, b: FileModel| stem_le(a, b);
    assert(groups.push(g).drop_last() =~= groups);
    lemma_jobs_count(groups);
    lemma_sorted_multiset(g.subtitles, le);
    lemma_stem_order();
    lemma_sorted_in_order(g.subtitles, le);
    lemma_ops_len(all, naming, mode);
    lemma_ops_len(head, naming, mode);
    let ops = ops_for(all, naming, mode)->Ok_0;
    if let Err(i) = ops_for(head, naming, mode) {
        assert(all[i] == head[i]);
        assert(op_for(all[i].group, all[i].sub, naming, mode) is Some);
    }
    let before = ops_for(head, naming, mode)->Ok_0;
    assert forall|i: int| 0 <= i < head.len() implies ops[i] == before[i] by {
        lemma_ops_at(all, naming, mode, i);
        lemma_ops_at(head, naming, mode, i);
    }
    let n = head.len() as int;
    let sorted = by_stem(g.subtitles);
    assert(ops.take(n) =~= before);
    assert forall|i: int| n <= i < ops.len() implies (#[trigger] ops[i]).subtitle == sorted[i
        - n] by {
        lemma_ops_at(all, naming, mode, i);
        assert(all[i] == jobs_of(g)[i - n]);
    }
    assert(Seq::new(g.subtitles.len(), |i: int| ops[n + i].subtitle) =~= sorted);
    assert forall|i: int, j: int| n <= i < j < ops.len() implies !lex_lt(
        (#[trigger] ops[j]).subtitle.stem,
        (#[trigger] ops[i]).subtitle.stem,
    ) by {
        assert(le(sorted[i - n], sorted[j - n]));
    }
}

// ---------------------------------------------------------------------------
// Conflicts
// ---------------------------------------------------------------------------
/// Looking for conflicts changes nothing else of the operations.
pub proof fn law_plan_fields<P: FsProbe>(plan: Seq<OpModel>, ops: Seq<OpModel>, probe: &P, i: int)
    requires
        planned(plan, ops, probe),
        0 <= i < ops.len(),
    ensures
        plan.len() == ops.len(),
        plan[i].video == ops[i].video,
        plan[i].subtitle == ops[i].subtitle,
        plan[i].target_path == ops[i].target_path,
        plan[i].target_basename == ops[i].target_basename,
        plan[i].action == ops[i].action,
        plan[i].unit_id == ops[i].unit_id,
{
    let there = choose|there: Seq<bool>| #[trigger] probed(plan, ops, probe, there);
    assert(plan == marked(ops, there));
}

proof fn lemma_conflicts(ops: Seq<OpModel>, i: int, there: bool)
    requires
        0 <= i < ops.len(),
    ensures
        conflicts_of(ops, i, there).contains(ConflictModel::DuplicateTarget(ops[i].target_path))
            <==> duplicated(ops, i),
        conflicts_of(ops, i, there).contains(ConflictModel::TargetExists(ops[i].target_path)) <==> (
        !is_source(ops, i) && there),
        forall|c: ConflictModel| #[trigger]
            conflicts_of(ops, i, there).contains(c) ==> c == ConflictModel::DuplicateTarget(
                ops[i].target_path,
            ) || c == ConflictModel::TargetExists(ops[i].target_path),
        conflicts_of(ops, i, there).no_duplicates(),
{
    let c = conflicts_of(ops, i, there);
    if duplicated(ops, i) {
        assert(c[0] == ConflictModel::DuplicateTarget(ops[i].target_path));
    }
    if !is_source(ops, i) && there {
        assert(c.last() == ConflictModel::TargetExists(ops[i].target_path));
        assert(c.contains(c.last()));
    }
}

/// A target that is the path of none of the subtitles of the plan is reported if and only
/// if it is there.
pub proof fn law_existing_reported<P: FsProbe>(
    plan: Seq<OpModel>,
    ops: Seq<OpModel>,
    probe: &P,
    i: int,
    there: bool,
)
    requires
        planned(plan, ops, probe),
        0 <= i < ops.len(),
        forall|j: int|
            0 <= j < ops.len() ==> !same_path(
                ops[i].target_path,
                (#[trigger] ops[j]).subtitle.path,
            ),
        forall|p: &str, said: bool|
            p@ == ops[i].target_path && #[trigger] call_ensures(
                P::path_exists,
                (probe, p),
                said,
            ) ==> said == there,
    ensures
        plan[i].conflicts.contains(ConflictModel::TargetExists(plan[i].target_path)) <==> there,
{
    let said = choose|said: Seq<bool>| #[trigger] probed(plan, ops, probe, said);
    assert(plan == marked(ops, said));
    assert(!is_source(ops, i));
    assert(answered(probe, ops[i].target_path, said[i]));
    lemma_conflicts(ops, i, said[i]);
}

/// A target that is the path of a subtitle of the plan is not reported as being there: the
/// subtitle will have made way, or is the one that stays.
pub proof fn law_sources_make_way<P: FsProbe>(
    plan: Seq<OpModel>,
    ops: Seq<OpModel>,
    probe: &P,
    i: int,
    j: int,
)
    requires
        planned(plan, ops, probe),
        0 <= i < ops.len(),
        0 <= j < ops.len(),
        same_path(ops[i].target_path, ops[j].subtitle.path),
    ensures
        !plan[i].conflicts.contains(ConflictModel::TargetExists(plan[i].target_path)),
{
    let said = choose|said: Seq<bool>| #[trigger] probed(plan, ops, probe, said);
    assert(plan == marked(ops, said));
    assert(is_source(ops, i));
    lemma_conflicts(ops, i, said[i]);
}

/// A target is reported as a duplicate if and only if another operation has it.
pub proof fn law_duplicates_reported<P: FsProbe>(
    plan: Seq<OpModel>,
    ops: Seq<OpModel>,
    probe: &P,
    i: int,
)
    requires
        planned(plan, ops, probe),
        0 <= i < ops.len(),
    ensures
        plan[i].conflicts.contains(ConflictModel::DuplicateTarget(plan[i].target_path)) <==> exists|
            j: int,
        |
            0 <= j < ops.len() && j != i && same_path(
                ops[i].target_path,
                (#[trigger] ops[j]).target_path,
            ),
{
    let said = choose|said: Seq<bool>| #[trigger] probed(plan, ops, probe, said);
    assert(plan == marked(ops, said));
    lemma_conflicts(ops, i, said[i]);
}

/// Nothing but the target of an operation is reported with it, and nothing twice. That it is
/// a duplicate comes first.
pub proof fn law_only_targets_reported<P: FsProbe>(
    plan: Seq<OpModel>,
    ops: Seq<OpModel>,
    probe: &P,
    i: int,
    c: ConflictModel,
)
    requires
        planned(plan, ops, probe),
        0 <= i < ops.len(),
        plan[i].conflicts.contains(c),
    ensures
        c == ConflictModel::DuplicateTarget(plan[i].target_path) || c
            == ConflictModel::TargetExists(plan[i].target_path),
        plan[i].conflicts.no_duplicates(),
        plan[i].conflicts.len() <= 2,
        plan[i].conflicts.len() == 2 ==> plan[i].conflicts[0] == ConflictModel::DuplicateTarget(
            plan[i].target_path,
        ),
{
    let said = choose|said: Seq<bool>| #[trigger] probed(plan, ops, probe, said);
    assert(plan == marked(ops, said));
    lemma_conflicts(ops, i, said[i]);
}

/// A plan without conflicts has a target of its own for each operation, and none that is
/// there already without being the path of a subtitle of the plan.
pub proof fn law_clean_targets<P: FsProbe>(
    plan: Seq<OpModel>,
    ops: Seq<OpModel>,
    probe: &P,
    i: int,
    j: int,
)
    requires
        planned(plan, ops, probe),
        forall|k: int| 0 <= k < plan.len() ==> (#[trigger] plan[k]).conflicts.len() == 0,
        0 <= i < ops.len(),
        0 <= j < ops.len(),
    ensures
        i != j ==> !same_path(plan[i].target_path, plan[j].target_path),
        (forall|k: int|
            0 <= k < plan.len() ==> !same_path(
                plan[i].target_path,
                (#[trigger] plan[k]).subtitle.path,
            )) ==> exists|p: &str|
            p@ == plan[i].target_path && #[trigger] call_ensures(
                P::path_exists,
                (probe, p),
                false,
            ),
{
    let said = choose|said: Seq<bool>| #[trigger] probed(plan, ops, probe, said);
    assert(plan == marked(ops, said));
    lemma_conflicts(ops, i, said[i]);
    assert(plan[i].conflicts.len() == 0);
    if i != j && same_path(ops[i].target_path, ops[j].target_path) {
        assert(duplicated(ops, i));
    }
    if forall|k: int|
        0 <= k < plan.len() ==> !same_path(
            plan[i].target_path,
            (#[trigger] plan[k]).subtitle.path,
        ) {
        assert forall|k: int| 0 <= k < ops.len() implies !same_path(
            ops[i].target_path,
            (#[trigger] ops[k]).subtitle.path,
        ) by {
            assert(plan[k].subtitle == ops[k].subtitle);
        }
        assert(!is_source(ops, i));
        assert(answered(probe, ops[i].target_path, said[i]));
        assert(!said[i]);
    }
}

} // verus!
