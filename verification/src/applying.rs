//! What applying a plan and taking a unit back come to, answer by answer.

use vstd::prelude::*;
use vstd::string::*;

use crate::apply::{
    first_run, refusal, session_of, summary, ApplyActionModel, ApplyEventModel, CopyEntryModel,
    DirSessionModel, PhaseModel, RenameEntryModel, RunModel,
};
use crate::checksum::short_form;
use crate::execute::{
    asked, next_state, outcome_of, state_after, step_of, ActionModel, EndModel, EventModel, ItemModel,
    OutcomeModel, StateModel, StepModel,
};
use crate::paths::{joined, name_part, parent_part, same_path};
use crate::plan::{OpModel, PlannedAction};
use crate::sorting::{count_of, lemma_count_bound};
use crate::text::decimal;

verus! {

// ---------------------------------------------------------------------------
// Beginning an operation
// ---------------------------------------------------------------------------
/// Why a plan is not applied: results are awaited, it is empty, or something stands in the
/// way of an operation. Any other plan is applied.
pub proof fn law_refusal(pending: bool, plan: Option<Seq<OpModel>>)
    ensures
        pending ==> refusal(pending, plan) == Some("处理中,请稍候再执行。"@),
        !pending && (plan is None || plan->0.len() == 0) ==> refusal(pending, plan) == Some(
            "Plan empty or has conflicts."@,
        ),
        !pending && (plan matches Some(ops) && exists|i: int|
            0 <= i < ops.len() && (#[trigger] ops[i]).conflicts.len() > 0) ==> refusal(
            pending,
            plan,
        ) == Some("Plan empty or has conflicts."@),
        !pending && (plan matches Some(ops) && ops.len() > 0 && forall|i: int|
            0 <= i < ops.len() ==> (#[trigger] ops[i]).conflicts.len() == 0) ==> refusal(
            pending,
            plan,
        ) is None,
{
}

/// A copy that no video goes with.
pub open spec fn hopeless(op: OpModel) -> bool {
    op.action == PlannedAction::Copy && op.video is None
}

/// `t` is at the next operation from `s` on that can be carried out, and begins it: a rename
/// with the checksum of the subtitle, a copy with the copy itself. Copies without a video
/// have failed on the way, and nothing else has changed.
pub open spec fn begun(s: RunModel, t: RunModel) -> bool {
    &&& t.ops == s.ops
    &&& t.sessions == s.sessions
    &&& t.log == s.log
    &&& s.at <= t.at <= s.ops.len()
    &&& t.outcomes.len() == s.outcomes.len() + (t.at - s.at)
    &&& t.outcomes.take(s.outcomes.len() as int) == s.outcomes
    &&& forall|i: int|
        s.at <= i < t.at ==> hopeless(#[trigger] s.ops[i]) && t.outcomes[s.outcomes.len() + i
            - s.at] == (OutcomeModel {
            op_index: i,
            success: false,
            error: Some("Copy mode requires paired video"@),
            src_path: s.ops[i].subtitle.path,
            dst_path: s.ops[i].target_path,
            action: PlannedAction::Copy,
        })
    &&& t.at == s.ops.len() ==> t.asked() is None
    &&& t.at < s.ops.len() ==> {
        let op = s.ops[t.at];
        &&& !hopeless(op)
        &&& op.action == PlannedAction::Rename ==> t.phase == PhaseModel::Checksum && t.asked()
            == Some(ApplyActionModel::Checksum(op.subtitle.path))
        &&& op.action == PlannedAction::Copy ==> t.phase == PhaseModel::Execute(None) && t.asked()
            == Some(
            ApplyActionModel::Execute(StepModel::Copy(op.subtitle.path, op.target_path)),
        )
    }
}

proof fn lemma_begun(s: RunModel)
    requires
        0 <= s.at <= s.ops.len(),
    ensures
        begun(s, s.entered()),
    decreases s.ops.len() - s.at,
{
    let t = s.entered();
    if s.at < s.ops.len() && hopeless(s.op()) {
        let u = RunModel {
            at: s.at + 1,
            outcomes: s.outcomes.push(
                outcome_of(s.op(), s.at, Some("Copy mode requires paired video"@)),
            ),
            ..s
        };
        lemma_begun(u);
        assert(t == u.entered());
        let n = s.outcomes.len() as int;
        assert(t.outcomes.take(n) =~= s.outcomes) by {
            assert(t.outcomes.take(n + 1) == u.outcomes);
            assert forall|i: int| 0 <= i < n implies t.outcomes[i] == s.outcomes[i] by {
                assert(t.outcomes.take(n + 1)[i] == u.outcomes[i]);
            }
        }
        assert forall|i: int| s.at <= i < t.at implies hopeless(#[trigger] s.ops[i])
            && t.outcomes[n + i - s.at] == (OutcomeModel {
            op_index: i,
            success: false,
            error: Some("Copy mode requires paired video"@),
            src_path: s.ops[i].subtitle.path,
            dst_path: s.ops[i].target_path,
            action: PlannedAction::Copy,
        }) by {
            if i == s.at {
                assert(t.outcomes.take(n + 1)[n] == u.outcomes[n]);
            } else {
                assert(hopeless(u.ops[i]));
            }
        }
    } else {
        assert(t.outcomes.take(s.outcomes.len() as int) =~= s.outcomes);
    }
}

/// A plan is applied from its first operation on, with no sessions and nothing said.
pub proof fn law_apply_begins(ops: Seq<OpModel>)
    ensures
        begun(
            RunModel {
                ops,
                at: 0,
                phase: PhaseModel::Done,
                sessions: Seq::empty(),
                outcomes: Seq::empty(),
                log: Seq::empty(),
            },
            first_run(ops),
        ),
{
    lemma_begun(
        RunModel {
            ops,
            at: 0,
            phase: PhaseModel::Done,
            sessions: Seq::empty(),
            outcomes: Seq::empty(),
            log: Seq::empty(),
        },
    );
}

/// `t` is where `s` comes when its operation is over: with the outcome given, what is said,
/// and at the beginning of the next operation that can be carried out.
pub open spec fn over(
    s: RunModel,
    t: RunModel,
    place: int,
    error: Option<Seq<char>>,
    log: Seq<Seq<char>>,
) -> bool {
    begun(
        RunModel {
            at: s.at + 1,
            outcomes: s.outcomes.push(
                OutcomeModel {
                    op_index: place,
                    success: error is None,
                    error,
                    src_path: s.ops[s.at].subtitle.path,
                    dst_path: s.ops[s.at].target_path,
                    action: s.ops[s.at].action,
                },
            ),
            log,
            ..s
        },
        t,
    )
}

proof fn lemma_over(s: RunModel, place: int, error: Option<Seq<char>>)
    requires
        0 <= s.at < s.ops.len(),
    ensures
        over(s, s.finished(place, error), place, error, s.log),
{
    lemma_begun(
        RunModel {
            at: s.at + 1,
            outcomes: s.outcomes.push(outcome_of(s.op(), place, error)),
            ..s
        },
    );
}

// ---------------------------------------------------------------------------
// Renames
// ---------------------------------------------------------------------------
/// `t` is `s`, but for what is wanted.
pub open spec fn still_at(s: RunModel, t: RunModel) -> bool {
    &&& t.ops == s.ops
    &&& t.at == s.at
    &&& t.sessions == s.sessions
    &&& t.outcomes == s.outcomes
    &&& t.log == s.log
}

/// A rename is carried out only once its checksum is known. A subtitle that cannot be read
/// fails, and the run goes on with the next operation.
pub proof fn law_rename_checked(s: RunModel, c: Seq<char>, e: Seq<char>)
    requires
        0 <= s.at < s.ops.len(),
        s.ops[s.at].action == PlannedAction::Rename,
        s.phase == PhaseModel::Checksum,
    ensures
        ({
            let op = s.ops[s.at];
            let t = s.after(ApplyEventModel::Sum(c));
            &&& s.asked() == Some(ApplyActionModel::Checksum(op.subtitle.path))
            &&& still_at(s, t)
            &&& t.phase == PhaseModel::Execute(Some(c))
            &&& t.asked() == Some(
                ApplyActionModel::Execute(StepModel::Rename(op.subtitle.path, op.target_path)),
            )
            &&& over(s, s.after(ApplyEventModel::SumFailed(e)), s.at, Some(e), s.log)
        }),
{
    lemma_over(s, s.at, Some(e));
}

/// A rename that the file system refused fails with its reason. One that was carried out is
/// recorded for the canonical form of its directory, or for `.` where it has none.
pub proof fn law_rename_done(s: RunModel, c: Seq<char>, e: Seq<char>)
    requires
        0 <= s.at < s.ops.len(),
        s.ops[s.at].action == PlannedAction::Rename,
        s.phase == PhaseModel::Execute(Some(c)),
    ensures
        over(
            s,
            s.after(ApplyEventModel::Executed(Some(e))),
            0,
            Some("io error: "@ + e),
            s.log,
        ),
        parent_part(s.ops[s.at].subtitle.path) matches Some(p) ==> {
            let t = s.after(ApplyEventModel::Executed(None));
            &&& still_at(s, t)
            &&& t.phase == PhaseModel::Normalize(c)
            &&& t.asked() == Some(ApplyActionModel::Normalize(p))
        },
        parent_part(s.ops[s.at].subtitle.path) is None && (forall|j: int|
            0 <= j < s.sessions.len() ==> !same_path((#[trigger] s.sessions[j]).dir, "."@)) ==> {
            let t = s.after(ApplyEventModel::Executed(None));
            &&& still_at(s, t)
            &&& t.phase == PhaseModel::Session(c, "."@)
            &&& t.asked() == Some(ApplyActionModel::CreateSession("."@))
        },
{
    lemma_session_at(s.sessions, "."@);
    lemma_over(s, 0, Some("io error: "@ + e));
}

/// Session `i` is the one of the directory, and none before it is.
pub open spec fn session_at(sessions: Seq<DirSessionModel>, dir: Seq<char>, i: int) -> bool {
    &&& 0 <= i < sessions.len()
    &&& same_path(sessions[i].dir, dir)
    &&& forall|j: int| 0 <= j < i ==> !same_path((#[trigger] sessions[j]).dir, dir)
}

proof fn lemma_session_at(sessions: Seq<DirSessionModel>, dir: Seq<char>)
    ensures
        match session_of(sessions, dir) {
            Some(id) => exists|i: int| #[trigger]
                session_at(sessions, dir, i) && sessions[i].id == id,
            None => forall|i: int|
                0 <= i < sessions.len() ==> !same_path((#[trigger] sessions[i]).dir, dir),
        },
    decreases sessions.len(),
{
    if sessions.len() > 0 {
        let t = sessions.drop_last();
        lemma_session_at(t, dir);
        assert forall|i: int| 0 <= i < t.len() implies #[trigger] sessions[i] == t[i] by {}
        match session_of(t, dir) {
            Some(id) => {
                let i = choose|i: int| #[trigger] session_at(t, dir, i) && t[i].id == id;
                assert(session_at(sessions, dir, i));
            },
            None => {
                if same_path(sessions.last().dir, dir) {
                    assert(session_at(sessions, dir, sessions.len() - 1));
                }
            },
        }
    }
}

/// The entry that a rename is recorded with: the directory, the names before and after, the
/// checksum, the unit and the session.
pub open spec fn rename_asked(t: RunModel, op: OpModel, c: Seq<char>, id: i64) -> bool {
    t.asked() == Some(
        ApplyActionModel::RecordRename(
            RenameEntryModel {
                session_id: id,
                dir: parent_part(op.subtitle.path)->0,
                checksum: c,
                unit_id: op.unit_id,
                old_name: name_part(op.subtitle.path)->0,
                new_name: name_part(op.target_path)->0,
            },
        ),
    )
}

/// When the canonical form of the directory is known, the rename is recorded in the session
/// that was made for it, or a session is made where there is none. A form that is another
/// path is remarked on.
pub proof fn law_rename_placed(s: RunModel, c: Seq<char>, d: Seq<char>, i: int)
    requires
        0 <= s.at < s.ops.len(),
        s.phase == PhaseModel::Normalize(c),
        parent_part(s.ops[s.at].subtitle.path) is Some,
        name_part(s.ops[s.at].subtitle.path) is Some,
        name_part(s.ops[s.at].target_path) is Some,
    ensures
        ({
            let op = s.ops[s.at];
            let t = s.after(ApplyEventModel::Dir(d));
            let p = parent_part(op.subtitle.path)->0;
            &&& t.ops == s.ops && t.at == s.at && t.sessions == s.sessions && t.outcomes
                == s.outcomes
            &&& same_path(d, p) ==> t.log == s.log
            &&& !same_path(d, p) ==> t.log == s.log.push(
                "normalize_dir failed for "@ + p + ": "@ + "non-canonical path"@,
            )
            &&& session_at(s.sessions, d, i) ==> t.phase == PhaseModel::RecordRename(
                c,
                s.sessions[i].id,
            ) && rename_asked(t, op, c, s.sessions[i].id)
            &&& (forall|j: int|
                0 <= j < s.sessions.len() ==> !same_path((#[trigger] s.sessions[j]).dir, d))
                ==> t.phase == PhaseModel::Session(c, d) && t.asked() == Some(
                ApplyActionModel::CreateSession(d),
            )
        }),
{
    lemma_session_at(s.sessions, d);
    if let Some(id) = session_of(s.sessions, d) {
        let k = choose|k: int| #[trigger] session_at(s.sessions, d, k) && s.sessions[k].id == id;
        if session_at(s.sessions, d, i) {
            assert(k == i);
        }
    }
}

/// A session that is made belongs to its directory from then on, and the rename is recorded
/// in it. Where none can be made the operation fails, and that is remarked on.
pub proof fn law_rename_session(s: RunModel, c: Seq<char>, d: Seq<char>, id: i64, e: Seq<char>)
    requires
        0 <= s.at < s.ops.len(),
        s.phase == PhaseModel::Session(c, d),
        parent_part(s.ops[s.at].subtitle.path) is Some,
        name_part(s.ops[s.at].subtitle.path) is Some,
        name_part(s.ops[s.at].target_path) is Some,
    ensures
        ({
            let t = s.after(ApplyEventModel::Session(id));
            &&& t.ops == s.ops && t.at == s.at && t.outcomes == s.outcomes && t.log == s.log
            &&& t.sessions == s.sessions.push(DirSessionModel { dir: d, id })
            &&& t.phase == PhaseModel::RecordRename(c, id)
            &&& rename_asked(t, s.ops[s.at], c, id)
        }),
        over(
            s,
            s.after(ApplyEventModel::SessionFailed(e)),
            s.at,
            Some(e),
            s.log.push("history session failed: "@ + e),
        ),
{
    lemma_over(s.saying("history session failed: "@ + e), s.at, Some(e));
}

/// An operation that was carried out has succeeded, whether or not it could be recorded.
/// What could not be is remarked on.
pub proof fn law_record_written(s: RunModel, e: Seq<char>)
    requires
        0 <= s.at < s.ops.len(),
        s.phase is RecordRename || s.phase is RecordCopy,
    ensures
        over(s, s.after(ApplyEventModel::Recorded(None)), 0, None, s.log),
        over(
            s,
            s.after(ApplyEventModel::Recorded(Some(e))),
            0,
            None,
            s.log.push("history write failed: "@ + e),
        ),
{
    lemma_over(s, 0, None);
    lemma_over(s.saying("history write failed: "@ + e), 0, None);
}

// ---------------------------------------------------------------------------
// Copies
// ---------------------------------------------------------------------------
/// A copy that the file system refused fails with its reason. One that was carried out is
/// recorded with the checksum of what was copied and then that of the copy.
pub proof fn law_copy_done(s: RunModel, e: Seq<char>, a: Seq<char>, b: Seq<char>)
    requires
        0 <= s.at < s.ops.len(),
        s.ops[s.at].action == PlannedAction::Copy,
        s.phase == PhaseModel::Execute(None),
        parent_part(s.ops[s.at].subtitle.path) is Some,
        name_part(s.ops[s.at].subtitle.path) is Some,
        parent_part(s.ops[s.at].target_path) is Some,
        name_part(s.ops[s.at].target_path) is Some,
    ensures
        over(
            s,
            s.after(ApplyEventModel::Executed(Some(e))),
            0,
            Some("io error: "@ + e),
            s.log,
        ),
        ({
            let op = s.ops[s.at];
            let t = s.after(ApplyEventModel::Executed(None));
            let u = t.after(ApplyEventModel::Sum(a));
            let v = u.after(ApplyEventModel::Sum(b));
            &&& still_at(s, t) && still_at(s, u) && still_at(s, v)
            &&& t.asked() == Some(ApplyActionModel::Checksum(op.subtitle.path))
            &&& u.asked() == Some(ApplyActionModel::Checksum(op.target_path))
            &&& v.phase is RecordCopy
            &&& v.asked() == Some(
                ApplyActionModel::RecordCopy(
                    CopyEntryModel {
                        src_dir: parent_part(op.subtitle.path)->0,
                        src_name: name_part(op.subtitle.path)->0,
                        src_checksum: a,
                        dst_dir: parent_part(op.target_path)->0,
                        dst_name: name_part(op.target_path)->0,
                        dst_checksum: b,
                        unit_id: op.unit_id,
                    },
                ),
            )
            &&& over(
                t,
                t.after(ApplyEventModel::SumFailed(e)),
                0,
                None,
                s.log.push("copy src checksum failed: "@ + e),
            )
            &&& over(
                u,
                u.after(ApplyEventModel::SumFailed(e)),
                0,
                None,
                s.log.push("copy dst checksum failed: "@ + e),
            )
        }),
{
    let t = s.after(ApplyEventModel::Executed(None));
    let u = t.after(ApplyEventModel::Sum(a));
    lemma_over(s, 0, Some("io error: "@ + e));
    lemma_over(t.saying("copy src checksum failed: "@ + e), 0, None);
    lemma_over(u.saying("copy dst checksum failed: "@ + e), 0, None);
}

/// An operation of which the names are not known has succeeded when it was carried out, and
/// nothing is recorded of it.
pub proof fn law_nothing_to_record(s: RunModel, c: Seq<char>, d: Seq<char>, id: i64)
    requires
        0 <= s.at < s.ops.len(),
        name_part(s.ops[s.at].subtitle.path) is None || name_part(s.ops[s.at].target_path) is None,
    ensures
        s.phase == PhaseModel::Execute(None) ==> over(
            s,
            s.after(ApplyEventModel::Executed(None)),
            0,
            None,
            s.log,
        ),
        s.phase == PhaseModel::Session(c, d) ==> over(
            RunModel { sessions: s.sessions.push(DirSessionModel { dir: d, id }), ..s },
            s.after(ApplyEventModel::Session(id)),
            0,
            None,
            s.log,
        ),
{
    lemma_over(s, 0, None);
    lemma_over(
        RunModel { sessions: s.sessions.push(DirSessionModel { dir: d, id }), ..s },
        0,
        None,
    );
}

/// What is said at the end counts the operations that were carried out and those that were
/// not.
pub proof fn law_summary(outcomes: Seq<OutcomeModel>)
    ensures
        ({
            let ok = count_of(outcomes, |o: OutcomeModel| o.success);
            &&& ok <= outcomes.len()
            &&& summary(outcomes) == "Executed: "@ + decimal(ok) + " ok, "@ + decimal(
                (outcomes.len() - ok) as nat,
            ) + " failed"@
        }),
{
    lemma_count_bound(outcomes, |o: OutcomeModel| o.success);
}

/// What the file system is asked for: the subtitle is renamed or copied to its target, by
/// what was planned. The outcome says where it was and was to go, and has succeeded if and
/// only if there is no error.
pub proof fn law_step(op: OpModel, i: int, error: Option<Seq<char>>)
    ensures
        op.action == PlannedAction::Rename ==> step_of(op) == StepModel::Rename(
            op.subtitle.path,
            op.target_path,
        ),
        op.action == PlannedAction::Copy ==> step_of(op) == StepModel::Copy(
            op.subtitle.path,
            op.target_path,
        ),
        ({
            let o = outcome_of(op, i, error);
            &&& o.op_index == i
            &&& o.success <==> error is None
            &&& o.error == error
            &&& o.src_path == op.subtitle.path
            &&& o.dst_path == op.target_path
            &&& o.action == op.action
        }),
{
}

// ---------------------------------------------------------------------------
// Taking a unit back
// ---------------------------------------------------------------------------
/// The answers so far are those that `n` files are in order.
pub open spec fn found_in_order(items: Seq<ItemModel>, events: Seq<EventModel>, n: int) -> bool {
    &&& events.len() == 2 * n
    &&& forall|i: int|
        #![trigger items[i]]
        0 <= i < n ==> events[2 * i] == EventModel::Sum(items[i].checksum) && events[2 * i + 1]
            == EventModel::Exists(false)
}

proof fn lemma_in_order(items: Seq<ItemModel>, events: Seq<EventModel>, n: int)
    requires
        0 <= n <= items.len(),
        items.len() > 0,
        found_in_order(items, events, n),
    ensures
        state_after(items, events) == if n < items.len() {
            StateModel::Checksum(n)
        } else {
            StateModel::Rename(0)
        },
    decreases n,
{
    if n > 0 {
        let a = events.drop_last();
        let b = a.drop_last();
        assert forall|i: int| #![trigger items[i]] 0 <= i < n - 1 implies b[2 * i]
            == EventModel::Sum(items[i].checksum) && b[2 * i + 1] == EventModel::Exists(false) by {
            assert(b[2 * i] == events[2 * i]);
            assert(b[2 * i + 1] == events[2 * i + 1]);
        }
        lemma_in_order(items, b, n - 1);
        let x = items[n - 1];
        assert(a.last() == events[2 * (n - 1)]);
        assert(events.last() == events[2 * (n - 1) + 1]);
        assert(state_after(items, a) == StateModel::Probe(n - 1));
    }
}

/// First the checksum of each file under its new name is asked for, and then whether its old
/// name is free. A file that has changed or is missing, or whose old name is taken, ends it,
/// and says why.
pub proof fn law_item_vetted(
    items: Seq<ItemModel>,
    events: Seq<EventModel>,
    n: int,
    c: Seq<char>,
    e: Seq<char>,
)
    requires
        0 <= n < items.len(),
        found_in_order(items, events, n),
    ensures
        ({
            let x = items[n];
            let new = joined(x.dir, x.new_name);
            let old = joined(x.dir, x.old_name);
            let seen = events.push(EventModel::Sum(x.checksum));
            &&& asked(state_after(items, events), items) == Some(ActionModel::Checksum(new))
            &&& asked(state_after(items, seen), items) == Some(ActionModel::Probe(old))
            &&& c != x.checksum ==> state_after(items, events.push(EventModel::Sum(c)))
                == StateModel::Done(
                EndModel::DstChanged(
                    "dst checksum "@ + short_form(c) + " != recorded "@ + short_form(x.checksum),
                ),
            )
            &&& state_after(items, events.push(EventModel::ReadFailed(e))) == StateModel::Done(
                EndModel::DstChanged("dst missing: "@ + e),
            )
            &&& state_after(items, seen.push(EventModel::Exists(true))) == StateModel::Done(
                EndModel::SrcOccupied(old),
            )
        }),
{
    let x = items[n];
    let seen = events.push(EventModel::Sum(x.checksum));
    lemma_in_order(items, events, n);
    assert(seen.drop_last() =~= events);
    assert(events.push(EventModel::Sum(c)).drop_last() =~= events);
    assert(events.push(EventModel::ReadFailed(e)).drop_last() =~= events);
    assert(seen.push(EventModel::Exists(true)).drop_last() =~= seen);
}

/// The answers that `n` files got their old names.
pub open spec fn renamed(n: int) -> Seq<EventModel> {
    Seq::new(n as nat, |i: int| EventModel::Renamed(None))
}

proof fn lemma_renamed(items: Seq<ItemModel>, events: Seq<EventModel>, n: int)
    requires
        0 <= n <= items.len(),
        items.len() > 0,
        found_in_order(items, events, items.len() as int),
    ensures
        state_after(items, events + renamed(n)) == if n < items.len() {
            StateModel::Rename(n)
        } else {
            StateModel::Done(EndModel::Restored)
        },
    decreases n,
{
    lemma_in_order(items, events, items.len() as int);
    if n == 0 {
        assert(events + renamed(0) =~= events);
    } else {
        lemma_renamed(items, events, n - 1);
        assert((events + renamed(n)).drop_last() =~= events + renamed(n - 1));
        assert((events + renamed(n)).last() == EventModel::Renamed(None));
    }
}

/// Where every file is in order and none is refused its old name, the unit is restored. Each
/// file gets its old name in turn.
pub proof fn law_unit_restored(items: Seq<ItemModel>, events: Seq<EventModel>, n: int)
    requires
        found_in_order(items, events, items.len() as int),
        0 <= n < items.len(),
    ensures
        state_after(items, events + renamed(items.len() as int)) == StateModel::Done(
            EndModel::Restored,
        ),
        asked(state_after(items, events + renamed(n)), items) == Some(
            ActionModel::Rename(
                joined(items[n].dir, items[n].new_name),
                joined(items[n].dir, items[n].old_name),
            ),
        ),
{
    lemma_renamed(items, events, items.len() as int);
    lemma_renamed(items, events, n);
}

/// Nothing has to be done to restore a unit without files.
pub proof fn law_nothing_to_restore()
    ensures
        state_after(Seq::empty(), Seq::empty()) == StateModel::Done(EndModel::Restored),
{
}

/// The answers after file `n` was refused its old name for the reason `e`, when the files
/// before it are to get their new names again and `k` of them have been gone through.
pub open spec fn refused(
    events: Seq<EventModel>,
    n: int,
    e: Seq<char>,
    more: Seq<EventModel>,
) -> Seq<EventModel> {
    events + renamed(n) + seq![EventModel::Renamed(Some(e))] + more
}

proof fn lemma_refused(
    items: Seq<ItemModel>,
    events: Seq<EventModel>,
    n: int,
    e: Seq<char>,
    more: Seq<EventModel>,
)
    requires
        found_in_order(items, events, items.len() as int),
        0 <= n < items.len(),
        more.len() <= n,
        forall|i: int| 0 <= i < more.len() ==> (#[trigger] more[i]) is Renamed,
    ensures
        state_after(items, refused(events, n, e, more)) == if more.len() < n {
            StateModel::Revert(n - 1 - more.len(), e)
        } else {
            StateModel::Done(EndModel::Io(e))
        },
    decreases more.len(),
{
    let all = refused(events, n, e, more);
    if more.len() == 0 {
        lemma_renamed(items, events, n);
        assert(all.drop_last() =~= events + renamed(n));
        assert(all.last() == EventModel::Renamed(Some(e)));
    } else {
        let less = more.drop_last();
        assert forall|i: int| 0 <= i < less.len() implies (#[trigger] less[i]) is Renamed by {
            assert(less[i] == more[i]);
        }
        lemma_refused(items, events, n, e, less);
        assert(all.drop_last() =~= refused(events, n, e, less));
        assert(all.last() == more.last());
        assert(more[more.len() - 1] is Renamed);
    }
}

/// Where a file is refused its old name, the files before it get their new names again, the
/// last first, and the reason is given at the end.
pub proof fn law_unit_refused(
    items: Seq<ItemModel>,
    events: Seq<EventModel>,
    n: int,
    e: Seq<char>,
    more: Seq<EventModel>,
)
    requires
        found_in_order(items, events, items.len() as int),
        0 <= n < items.len(),
        more.len() <= n,
        forall|i: int| 0 <= i < more.len() ==> (#[trigger] more[i]) is Renamed,
    ensures
        more.len() == n ==> state_after(items, refused(events, n, e, more)) == StateModel::Done(
            EndModel::Io(e),
        ),
        more.len() < n ==> {
            let x = items[n - 1 - more.len()];
            asked(state_after(items, refused(events, n, e, more)), items) == Some(
                ActionModel::Rename(joined(x.dir, x.old_name), joined(x.dir, x.new_name)),
            )
        },
{
    lemma_refused(items, events, n, e, more);
}

/// An event that answers something else than what is asked for changes nothing, neither while
/// a plan is applied nor while a unit is taken back.
pub proof fn law_no_answer(
    run: RunModel,
    e: ApplyEventModel,
    state: StateModel,
    items: Seq<ItemModel>,
    event: EventModel,
)
    ensures
        (match run.asked() {
            Some(ApplyActionModel::Checksum(_)) => !(e is Sum || e is SumFailed),
            Some(ApplyActionModel::Execute(_)) => !(e is Executed),
            Some(ApplyActionModel::Normalize(_)) => !(e is Dir),
            Some(ApplyActionModel::CreateSession(_)) => !(e is Session || e is SessionFailed),
            Some(ApplyActionModel::RecordRename(_)) => !(e is Recorded),
            Some(ApplyActionModel::RecordCopy(_)) => !(e is Recorded),
            None => true,
        }) ==> run.after(e) == run,
        (match asked(state, items) {
            Some(ActionModel::Checksum(_)) => !(event is Sum || event is ReadFailed),
            Some(ActionModel::Probe(_)) => !(event is Exists),
            Some(ActionModel::Rename(_, _)) => !(event is Renamed),
            None => true,
        }) ==> next_state(state, items, event) == state,
{
}

} // verus!
