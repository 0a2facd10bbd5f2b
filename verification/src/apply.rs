//! Applying a plan: what is done for each operation, and what is recorded of it.

use vstd::prelude::*;
use vstd::string::*;

use crate::execute::{
    done_count, fs_step, make_outcome, outcome_of, step_of, ErrorModel, ExecuteError,
    ExecuteReport, FsStep, OpOutcome, OutcomeModel, StepModel,
};
use crate::paths::{file_name, name_part, parent, parent_part, path_eq, same_path};
use crate::pattern::{copy_opt, opt_view, views};
use crate::plan::{OpModel, Plan, PlannedAction, PlannedOp};
use crate::sorting::models;
use crate::text::{copy_of, decimal, decimal_of};

verus! {

// ---------------------------------------------------------------------------
// What is asked for, and what is answered
// ---------------------------------------------------------------------------
/// A rename that is to be recorded.
#[derive(Debug, PartialEq, Eq)]
pub struct RenameEntry {
    /// The session that records it.
    pub session_id: i64,
    /// Where the file is.
    pub dir: String,
    /// Its checksum.
    pub checksum: String,
    /// The unit that it belongs to.
    pub unit_id: Option<String>,
    /// The name that it had.
    pub old_name: String,
    /// The name that it got.
    pub new_name: String,
}

/// What a [`RenameEntry`] stands for.
pub struct RenameEntryModel {
    pub session_id: i64,
    pub dir: Seq<char>,
    pub checksum: Seq<char>,
    pub unit_id: Option<Seq<char>>,
    pub old_name: Seq<char>,
    pub new_name: Seq<char>,
}

impl View for RenameEntry {
    type V = RenameEntryModel;

    open spec fn view(&self) -> RenameEntryModel {
        RenameEntryModel {
            session_id: self.session_id,
            dir: self.dir@,
            checksum: self.checksum@,
            unit_id: opt_view(self.unit_id),
            old_name: self.old_name@,
            new_name: self.new_name@,
        }
    }
}

/// A copy that is to be recorded.
#[derive(Debug, PartialEq, Eq)]
pub struct CopyEntry {
    /// Where the source is.
    pub src_dir: String,
    /// Its name.
    pub src_name: String,
    /// Its checksum.
    pub src_checksum: String,
    /// Where the copy is.
    pub dst_dir: String,
    /// Its name.
    pub dst_name: String,
    /// Its checksum.
    pub dst_checksum: String,
    /// The unit that it belongs to.
    pub unit_id: Option<String>,
}

/// What a [`CopyEntry`] stands for.
pub struct CopyEntryModel {
    pub src_dir: Seq<char>,
    pub src_name: Seq<char>,
    pub src_checksum: Seq<char>,
    pub dst_dir: Seq<char>,
    pub dst_name: Seq<char>,
    pub dst_checksum: Seq<char>,
    pub unit_id: Option<Seq<char>>,
}

impl View for CopyEntry {
    type V = CopyEntryModel;

    open spec fn view(&self) -> CopyEntryModel {
        CopyEntryModel {
            src_dir: self.src_dir@,
            src_name: self.src_name@,
            src_checksum: self.src_checksum@,
            dst_dir: self.dst_dir@,
            dst_name: self.dst_name@,
            dst_checksum: self.dst_checksum@,
            unit_id: opt_view(self.unit_id),
        }
    }
}

/// What is to be done next.
#[derive(Debug, PartialEq, Eq)]
pub enum ApplyAction {
    /// Compute the checksum of the file at this path.
    Checksum(String),
    /// Ask the file system for this.
    Execute(FsStep),
    /// Find the canonical form of this directory.
    Normalize(String),
    /// Make a session for this directory.
    CreateSession(String),
    /// Record a rename.
    RecordRename(RenameEntry),
    /// Record a copy.
    RecordCopy(CopyEntry),
}

/// What an [`ApplyAction`] stands for.
pub enum ApplyActionModel {
    Checksum(Seq<char>),
    Execute(StepModel),
    Normalize(Seq<char>),
    CreateSession(Seq<char>),
    RecordRename(RenameEntryModel),
    RecordCopy(CopyEntryModel),
}

impl View for ApplyAction {
    type V = ApplyActionModel;

    open spec fn view(&self) -> ApplyActionModel {
        match self {
            ApplyAction::Checksum(p) => ApplyActionModel::Checksum(p@),
            ApplyAction::Execute(s) => ApplyActionModel::Execute(s@),
            ApplyAction::Normalize(p) => ApplyActionModel::Normalize(p@),
            ApplyAction::CreateSession(p) => ApplyActionModel::CreateSession(p@),
            ApplyAction::RecordRename(r) => ApplyActionModel::RecordRename(r@),
            ApplyAction::RecordCopy(c) => ApplyActionModel::RecordCopy(c@),
        }
    }
}

/// What came of it.
#[derive(Debug)]
pub enum ApplyEvent {
    /// The checksum.
    Sum(String),
    /// The file cannot be read, for the reason given.
    SumFailed(String),
    /// It was done, or why the file system refused.
    Executed(Option<String>),
    /// The canonical form of the directory.
    Dir(String),
    /// The number of the session.
    Session(i64),
    /// The session was not made, for the reason given.
    SessionFailed(String),
    /// It was recorded, or why it was not.
    Recorded(Option<String>),
}

/// What an [`ApplyEvent`] stands for.
pub enum ApplyEventModel {
    Sum(Seq<char>),
    SumFailed(Seq<char>),
    Executed(Option<Seq<char>>),
    Dir(Seq<char>),
    Session(i64),
    SessionFailed(Seq<char>),
    Recorded(Option<Seq<char>>),
}

impl View for ApplyEvent {
    type V = ApplyEventModel;

    open spec fn view(&self) -> ApplyEventModel {
        match self {
            ApplyEvent::Sum(s) => ApplyEventModel::Sum(s@),
            ApplyEvent::SumFailed(e) => ApplyEventModel::SumFailed(e@),
            ApplyEvent::Executed(e) => ApplyEventModel::Executed(opt_view(*e)),
            ApplyEvent::Dir(d) => ApplyEventModel::Dir(d@),
            ApplyEvent::Session(id) => ApplyEventModel::Session(*id),
            ApplyEvent::SessionFailed(e) => ApplyEventModel::SessionFailed(e@),
            ApplyEvent::Recorded(e) => ApplyEventModel::Recorded(opt_view(*e)),
        }
    }
}

// ---------------------------------------------------------------------------
// Runs
// ---------------------------------------------------------------------------
/// What is wanted for an operation.
#[derive(Debug)]
pub enum ApplyPhase {
    /// The checksum of a subtitle that is to be renamed.
    Checksum,
    /// The operation itself. A rename comes with the checksum.
    Execute(Option<String>),
    /// The canonical form of the directory of a file with this checksum, which was renamed.
    Normalize(String),
    /// A session for the file with this checksum, in this directory.
    Session(String, String),
    /// The record of the rename of the file with this checksum, in this session.
    RecordRename(String, i64),
    /// The checksum of what was copied.
    CopySource,
    /// The checksum of the copy of what has this checksum.
    CopyTarget(String),
    /// The record of the copy, with the checksums of source and copy.
    RecordCopy(String, String),
    /// Nothing: all operations have been gone through.
    Done,
}

/// What an [`ApplyPhase`] stands for.
pub enum PhaseModel {
    Checksum,
    Execute(Option<Seq<char>>),
    Normalize(Seq<char>),
    Session(Seq<char>, Seq<char>),
    RecordRename(Seq<char>, i64),
    CopySource,
    CopyTarget(Seq<char>),
    RecordCopy(Seq<char>, Seq<char>),
    Done,
}

impl View for ApplyPhase {
    type V = PhaseModel;

    open spec fn view(&self) -> PhaseModel {
        match self {
            ApplyPhase::Checksum => PhaseModel::Checksum,
            ApplyPhase::Execute(c) => PhaseModel::Execute(opt_view(*c)),
            ApplyPhase::Normalize(c) => PhaseModel::Normalize(c@),
            ApplyPhase::Session(c, d) => PhaseModel::Session(c@, d@),
            ApplyPhase::RecordRename(c, id) => PhaseModel::RecordRename(c@, *id),
            ApplyPhase::CopySource => PhaseModel::CopySource,
            ApplyPhase::CopyTarget(c) => PhaseModel::CopyTarget(c@),
            ApplyPhase::RecordCopy(a, b) => PhaseModel::RecordCopy(a@, b@),
            ApplyPhase::Done => PhaseModel::Done,
        }
    }
}

/// A session that was made for a directory.
#[derive(Debug)]
pub struct DirSession {
    /// The directory.
    pub dir: String,
    /// The number of the session.
    pub id: i64,
}

/// What a [`DirSession`] stands for.
pub struct DirSessionModel {
    pub dir: Seq<char>,
    pub id: i64,
}

impl View for DirSession {
    type V = DirSessionModel;

    open spec fn view(&self) -> DirSessionModel {
        DirSessionModel { dir: self.dir@, id: self.id }
    }
}

/// How far the application of a plan has come.
#[derive(Debug)]
pub struct ApplyRun {
    ops: Vec<PlannedOp>,
    at: usize,
    phase: ApplyPhase,
    sessions: Vec<DirSession>,
    outcomes: Vec<OpOutcome>,
    log: Vec<String>,
}

/// What an [`ApplyRun`] stands for: the operations, the one that is worked at, what is
/// wanted for it, the sessions that were made, what became of the operations so far, and
/// what there is to say.
pub struct RunModel {
    pub ops: Seq<OpModel>,
    pub at: int,
    pub phase: PhaseModel,
    pub sessions: Seq<DirSessionModel>,
    pub outcomes: Seq<OutcomeModel>,
    pub log: Seq<Seq<char>>,
}

impl View for ApplyRun {
    type V = RunModel;

    closed spec fn view(&self) -> RunModel {
        RunModel {
            ops: models(self.ops@),
            at: self.at as int,
            phase: self.phase@,
            sessions: models(self.sessions@),
            outcomes: models(self.outcomes@),
            log: views(self.log@),
        }
    }
}

/// The session of a directory.
pub open spec fn session_of(sessions: Seq<DirSessionModel>, dir: Seq<char>) -> Option<i64>
    decreases sessions.len(),
{
    if sessions.len() == 0 {
        None
    } else if let Some(id) = session_of(sessions.drop_last(), dir) {
        Some(id)
    } else if same_path(sessions.last().dir, dir) {
        Some(sessions.last().id)
    } else {
        None
    }
}

/// What a rename is recorded as is known: the names, and the directory.
pub open spec fn rename_known(op: OpModel) -> bool {
    parent_part(op.subtitle.path) is Some && name_part(op.subtitle.path) is Some && name_part(
        op.target_path,
    ) is Some
}

/// What a copy is recorded as is known: the names, and both directories.
pub open spec fn copy_known(op: OpModel) -> bool {
    rename_known(op) && parent_part(op.target_path) is Some
}

/// What is recorded of a rename.
pub open spec fn rename_entry(op: OpModel, checksum: Seq<char>, id: i64) -> RenameEntryModel {
    RenameEntryModel {
        session_id: id,
        dir: parent_part(op.subtitle.path)->0,
        checksum,
        unit_id: op.unit_id,
        old_name: name_part(op.subtitle.path)->0,
        new_name: name_part(op.target_path)->0,
    }
}

/// What is recorded of a copy.
pub open spec fn copy_entry(op: OpModel, src: Seq<char>, dst: Seq<char>) -> CopyEntryModel {
    CopyEntryModel {
        src_dir: parent_part(op.subtitle.path)->0,
        src_name: name_part(op.subtitle.path)->0,
        src_checksum: src,
        dst_dir: parent_part(op.target_path)->0,
        dst_name: name_part(op.target_path)->0,
        dst_checksum: dst,
        unit_id: op.unit_id,
    }
}

/// The outcome `o` of operation `i` gives its place in the plan, or the first place where
/// it was carried out as a plan of its own. An operation that succeeded was.
pub open spec fn placed(o: OutcomeModel, i: int) -> bool {
    (o.op_index == i || o.op_index == 0) && (o.success ==> o.op_index == 0)
}

impl RunModel {
    /// The operation that is worked at.
    pub open spec fn op(self) -> OpModel {
        self.ops[self.at]
    }

    /// The run at the beginning of its operation. A copy without a video fails at once.
    pub open spec fn entered(self) -> RunModel
        decreases self.ops.len() - self.at,
    {
        if self.at >= self.ops.len() {
            RunModel { phase: PhaseModel::Done, ..self }
        } else {
            match self.op().action {
                PlannedAction::Rename => RunModel { phase: PhaseModel::Checksum, ..self },
                PlannedAction::Copy => if self.op().video is None {
                    RunModel {
                        at: self.at + 1,
                        outcomes: self.outcomes.push(
                            outcome_of(
                                self.op(),
                                self.at,
                                Some("Copy mode requires paired video"@),
                            ),
                        ),
                        ..self
                    }.entered()
                } else {
                    RunModel { phase: PhaseModel::Execute(None), ..self }
                },
            }
        }
    }

    /// The run after its operation, which failed for the reason given or did not. The
    /// outcome gives it the place `place`.
    pub open spec fn finished(self, place: int, error: Option<Seq<char>>) -> RunModel {
        RunModel {
            at: self.at + 1,
            outcomes: self.outcomes.push(outcome_of(self.op(), place, error)),
            ..self
        }.entered()
    }

    /// The run after its operation was carried out, or was refused by the file system for
    /// the reason given. Each operation is carried out as a plan of its own, in which its
    /// place is the first.
    pub open spec fn carried_out(self, error: Option<Seq<char>>) -> RunModel {
        self.finished(0, error)
    }

    /// The run after its operation, of which something else failed for the reason given.
    /// The outcome gives its place in the whole plan.
    pub open spec fn given_up(self, error: Seq<char>) -> RunModel {
        self.finished(self.at, Some(error))
    }

    /// The run with one more thing to say.
    pub open spec fn saying(self, text: Seq<char>) -> RunModel {
        RunModel { log: self.log.push(text), ..self }
    }

    /// The run when the session of a rename is known.
    pub open spec fn recording(self, checksum: Seq<char>, id: i64) -> RunModel {
        if rename_known(self.op()) {
            RunModel { phase: PhaseModel::RecordRename(checksum, id), ..self }
        } else {
            self.carried_out(None)
        }
    }

    /// The run when the directory of a rename is known. Each directory has one session.
    pub open spec fn in_dir(self, checksum: Seq<char>, dir: Seq<char>) -> RunModel {
        match session_of(self.sessions, dir) {
            Some(id) => self.recording(checksum, id),
            None => RunModel { phase: PhaseModel::Session(checksum, dir), ..self },
        }
    }

    /// What is asked for.
    pub open spec fn asked(self) -> Option<ApplyActionModel> {
        let op = self.op();
        match self.phase {
            PhaseModel::Checksum => Some(ApplyActionModel::Checksum(op.subtitle.path)),
            PhaseModel::Execute(_) => Some(ApplyActionModel::Execute(step_of(op))),
            PhaseModel::Normalize(_) => Some(
                ApplyActionModel::Normalize(parent_part(op.subtitle.path)->0),
            ),
            PhaseModel::Session(_, d) => Some(ApplyActionModel::CreateSession(d)),
            PhaseModel::RecordRename(c, id) => Some(
                ApplyActionModel::RecordRename(rename_entry(op, c, id)),
            ),
            PhaseModel::CopySource => Some(ApplyActionModel::Checksum(op.subtitle.path)),
            PhaseModel::CopyTarget(_) => Some(ApplyActionModel::Checksum(op.target_path)),
            PhaseModel::RecordCopy(a, b) => Some(
                ApplyActionModel::RecordCopy(copy_entry(op, a, b)),
            ),
            PhaseModel::Done => None,
        }
    }

    /// The run after a record was written, or was not for the reason given.
    pub open spec fn recorded(self, error: Option<Seq<char>>) -> RunModel {
        match error {
            Some(e) => self.saying("history write failed: "@ + e).carried_out(None),
            None => self.carried_out(None),
        }
    }

    /// The run after an answer. An event that is no answer changes nothing.
    pub open spec fn after(self, event: ApplyEventModel) -> RunModel {
        match (self.phase, event) {
            (PhaseModel::Checksum, ApplyEventModel::Sum(c)) => RunModel {
                phase: PhaseModel::Execute(Some(c)),
                ..self
            },
            (PhaseModel::Checksum, ApplyEventModel::SumFailed(e)) => self.given_up(e),
            (PhaseModel::Execute(c), ApplyEventModel::Executed(error)) => match error {
                Some(e) => self.carried_out(Some(ErrorModel::Io(e).text())),
                None => match c {
                    Some(c) => match parent_part(self.op().subtitle.path) {
                        Some(_) => RunModel { phase: PhaseModel::Normalize(c), ..self },
                        None => self.in_dir(c, "."@),
                    },
                    None => if copy_known(self.op()) {
                        RunModel { phase: PhaseModel::CopySource, ..self }
                    } else {
                        self.carried_out(None)
                    },
                },
            },
            (PhaseModel::Normalize(c), ApplyEventModel::Dir(d)) => {
                let p = parent_part(self.op().subtitle.path)->0;
                if same_path(d, p) {
                    self.in_dir(c, d)
                } else {
                    self.saying(dir_warning(p, "non-canonical path"@)).in_dir(c, d)
                }
            },
            (PhaseModel::Session(c, d), ApplyEventModel::Session(id)) => RunModel {
                sessions: self.sessions.push(DirSessionModel { dir: d, id }),
                ..self
            }.recording(c, id),
            (PhaseModel::Session(_, _), ApplyEventModel::SessionFailed(e)) => self.saying(
                "history session failed: "@ + e,
            ).given_up(e),
            (PhaseModel::RecordRename(_, _), ApplyEventModel::Recorded(e)) => self.recorded(e),
            (PhaseModel::CopySource, ApplyEventModel::Sum(c)) => RunModel {
                phase: PhaseModel::CopyTarget(c),
                ..self
            },
            (PhaseModel::CopySource, ApplyEventModel::SumFailed(e)) => self.saying(
                "copy src checksum failed: "@ + e,
            ).carried_out(None),
            (PhaseModel::CopyTarget(a), ApplyEventModel::Sum(b)) => RunModel {
                phase: PhaseModel::RecordCopy(a, b),
                ..self
            },
            (PhaseModel::CopyTarget(_), ApplyEventModel::SumFailed(e)) => self.saying(
                "copy dst checksum failed: "@ + e,
            ).carried_out(None),
            (PhaseModel::RecordCopy(_, _), ApplyEventModel::Recorded(e)) => self.recorded(e),
            _ => self,
        }
    }

    /// What is wanted fits the operation that is worked at.
    pub open spec fn phase_fits(self) -> bool {
        let op = self.op();
        match self.phase {
            PhaseModel::Checksum => op.action == PlannedAction::Rename,
            PhaseModel::Execute(Some(_)) => op.action == PlannedAction::Rename,
            PhaseModel::Execute(None) => op.action == PlannedAction::Copy && op.video is Some,
            PhaseModel::Normalize(_) => op.action == PlannedAction::Rename && parent_part(
                op.subtitle.path,
            ) is Some,
            PhaseModel::Session(_, d) => op.action == PlannedAction::Rename && session_of(
                self.sessions,
                d,
            ) is None,
            PhaseModel::RecordRename(_, _) => op.action == PlannedAction::Rename && rename_known(
                op,
            ),
            PhaseModel::CopySource => op.action == PlannedAction::Copy && copy_known(op),
            PhaseModel::CopyTarget(_) => op.action == PlannedAction::Copy && copy_known(op),
            PhaseModel::RecordCopy(_, _) => op.action == PlannedAction::Copy && copy_known(op),
            PhaseModel::Done => true,
        }
    }

    /// Every operation before the one that is worked at has one outcome, and no directory
    /// has two sessions.
    pub open spec fn consistent(self) -> bool {
        &&& 0 <= self.at <= self.ops.len()
        &&& self.outcomes.len() == self.at
        &&& forall|i: int|
            0 <= i < self.at ==> placed(#[trigger] self.outcomes[i], i)
                && self.outcomes[i].src_path == self.ops[i].subtitle.path
                && self.outcomes[i].dst_path == self.ops[i].target_path
        &&& self.phase is Done <==> self.at == self.ops.len()
        &&& self.phase_fits()
        &&& forall|i: int, j: int|
            0 <= i < j < self.sessions.len() ==> !same_path(
                (#[trigger] self.sessions[i]).dir,
                (#[trigger] self.sessions[j]).dir,
            )
    }

    /// All but what is wanted is as it should be.
    pub open spec fn settled(self) -> bool {
        &&& 0 <= self.at <= self.ops.len()
        &&& self.outcomes.len() == self.at
        &&& forall|i: int|
            0 <= i < self.at ==> placed(#[trigger] self.outcomes[i], i)
                && self.outcomes[i].src_path == self.ops[i].subtitle.path
                && self.outcomes[i].dst_path == self.ops[i].target_path
        &&& forall|i: int, j: int|
            0 <= i < j < self.sessions.len() ==> !same_path(
                (#[trigger] self.sessions[i]).dir,
                (#[trigger] self.sessions[j]).dir,
            )
    }
}

/// The warning about a directory.
pub open spec fn dir_warning(dir: Seq<char>, reason: Seq<char>) -> Seq<char> {
    "normalize_dir failed for "@ + dir + ": "@ + reason
}

/// The warning about a directory whose canonical form is not known or is another.
pub fn normalize_dir_warn(dir: &str, reason: &str) -> (r: String)
    ensures
        r@ == dir_warning(dir@, reason@),
{
    let mut s = copy_of("normalize_dir failed for ");
    s.append(dir);
    s.append(": ");
    s.append(reason);
    s
}

/// How the application of a plan begins.
pub open spec fn first_run(ops: Seq<OpModel>) -> RunModel {
    RunModel {
        ops,
        at: 0,
        phase: PhaseModel::Done,
        sessions: Seq::empty(),
        outcomes: Seq::empty(),
        log: Seq::empty(),
    }.entered()
}

/// Where the answers `events` lead.
pub open spec fn run_after(ops: Seq<OpModel>, events: Seq<ApplyEventModel>) -> RunModel
    decreases events.len(),
{
    if events.len() == 0 {
        first_run(ops)
    } else {
        run_after(ops, events.drop_last()).after(events.last())
    }
}

/// What is wanted is wanted before the operation has been carried out, or nothing is.
pub open spec fn before_success(phase: PhaseModel) -> bool {
    phase is Checksum || phase is Execute || phase is Done
}

proof fn lemma_entered(s: RunModel)
    requires
        s.settled(),
    ensures
        s.entered().consistent(),
        s.entered().sessions == s.sessions,
        s.entered().ops == s.ops,
        s.entered().at >= s.at,
        before_success(s.entered().phase),
    decreases s.ops.len() - s.at,
{
    if s.at < s.ops.len() && s.op().action == PlannedAction::Copy && s.op().video is None {
        let t = RunModel {
            at: s.at + 1,
            outcomes: s.outcomes.push(
                outcome_of(s.op(), s.at, Some("Copy mode requires paired video"@)),
            ),
            ..s
        };
        assert(t.settled());
        lemma_entered(t);
    }
}

proof fn lemma_finished(s: RunModel, place: int, error: Option<Seq<char>>)
    requires
        s.settled(),
        s.at < s.ops.len(),
        place == 0 || (place == s.at && error is Some),
    ensures
        s.finished(place, error).consistent(),
        s.finished(place, error).sessions == s.sessions,
        s.finished(place, error).ops == s.ops,
        s.finished(place, error).at > s.at,
        before_success(s.finished(place, error).phase),
{
    let t = RunModel {
        at: s.at + 1,
        outcomes: s.outcomes.push(outcome_of(s.op(), place, error)),
        ..s
    };
    assert(t.settled());
    lemma_entered(t);
}

proof fn lemma_session_of(sessions: Seq<DirSessionModel>, dir: Seq<char>)
    ensures
        session_of(sessions, dir) is None <==> (forall|i: int|
            0 <= i < sessions.len() ==> !same_path((#[trigger] sessions[i]).dir, dir)),
    decreases sessions.len(),
{
    if sessions.len() > 0 {
        let t = sessions.drop_last();
        lemma_session_of(t, dir);
        assert forall|i: int| 0 <= i < t.len() implies t[i] == sessions[i] by {}
        if session_of(sessions, dir) is None {
            assert forall|i: int| 0 <= i < sessions.len() implies !same_path(
                (#[trigger] sessions[i]).dir,
                dir,
            ) by {
                if i < t.len() {
                    assert(!same_path(t[i].dir, dir));
                }
            }
        }
        if forall|i: int|
            0 <= i < sessions.len() ==> !same_path((#[trigger] sessions[i]).dir, dir) {
            assert forall|i: int| 0 <= i < t.len() implies !same_path(
                (#[trigger] t[i]).dir,
                dir,
            ) by {
                assert(!same_path(sessions[i].dir, dir));
            }
            assert(!same_path(sessions[sessions.len() - 1].dir, dir));
        }
    }
}

proof fn lemma_recording(s: RunModel, checksum: Seq<char>, id: i64)
    requires
        s.settled(),
        s.at < s.ops.len(),
        s.op().action == PlannedAction::Rename,
    ensures
        s.recording(checksum, id).consistent(),
        s.recording(checksum, id).ops == s.ops,
        s.recording(checksum, id).sessions == s.sessions,
{
    if !rename_known(s.op()) {
        lemma_finished(s, 0, None);
    }
}

/// Whatever the answers, a run stays in order: each operation that has been gone through
/// has one outcome, in the order of the plan, and no directory gets two sessions. The
/// operations stay the same.
pub proof fn law_apply_step(s: RunModel, event: ApplyEventModel)
    requires
        s.consistent(),
    ensures
        s.after(event).consistent(),
        s.after(event).ops == s.ops,
        s.after(event).sessions != s.sessions ==> s.op().action == PlannedAction::Rename
            && s.after(event).sessions.len() == s.sessions.len() + 1,
{
    if s.at < s.ops.len() {
        assert(s.settled());
        lemma_finished(s, 0, None);
        match (s.phase, event) {
            (PhaseModel::Checksum, ApplyEventModel::SumFailed(e)) => {
                lemma_finished(s, s.at, Some(e));
            },
            (PhaseModel::Execute(c), ApplyEventModel::Executed(error)) => {
                if error is Some {
                    lemma_finished(s, 0, Some(ErrorModel::Io(error->0).text()));
                } else if c is Some && parent_part(s.op().subtitle.path) is None {
                    if let Some(id) = session_of(s.sessions, "."@) {
                        lemma_recording(s, c->0, id);
                    }
                }
            },
            (PhaseModel::Normalize(c), ApplyEventModel::Dir(d)) => {
                let p = parent_part(s.op().subtitle.path)->0;
                let t = if same_path(d, p) {
                    s
                } else {
                    s.saying(dir_warning(p, "non-canonical path"@))
                };
                assert(t.settled());
                if let Some(id) = session_of(s.sessions, d) {
                    lemma_recording(t, c, id);
                }
            },
            (PhaseModel::Session(c, d), ApplyEventModel::Session(id)) => {
                let t = RunModel {
                    sessions: s.sessions.push(DirSessionModel { dir: d, id }),
                    ..s
                };
                lemma_session_of(s.sessions, d);
                assert(t.settled());
                lemma_recording(t, c, id);
            },
            (PhaseModel::Session(_, _), ApplyEventModel::SessionFailed(e)) => {
                lemma_finished(s.saying("history session failed: "@ + e), s.at, Some(e));
            },
            (PhaseModel::RecordRename(_, _), ApplyEventModel::Recorded(Some(e))) => {
                lemma_finished(s.saying("history write failed: "@ + e), 0, None);
            },
            (PhaseModel::RecordCopy(_, _), ApplyEventModel::Recorded(Some(e))) => {
                lemma_finished(s.saying("history write failed: "@ + e), 0, None);
            },
            (PhaseModel::CopySource, ApplyEventModel::SumFailed(e)) => {
                lemma_finished(s.saying("copy src checksum failed: "@ + e), 0, None);
            },
            (PhaseModel::CopyTarget(_), ApplyEventModel::SumFailed(e)) => {
                lemma_finished(s.saying("copy dst checksum failed: "@ + e), 0, None);
            },
            _ => {},
        }
    }
}

/// A run stays in order through all of its answers.
pub proof fn law_apply_run(ops: Seq<OpModel>, events: Seq<ApplyEventModel>)
    ensures
        run_after(ops, events).consistent(),
        run_after(ops, events).ops == ops,
    decreases events.len(),
{
    if events.len() == 0 {
        let s = RunModel {
            ops,
            at: 0,
            phase: PhaseModel::Done,
            sessions: Seq::empty(),
            outcomes: Seq::empty(),
            log: Seq::empty(),
        };
        assert(s.settled());
        lemma_entered(s);
    } else {
        law_apply_run(ops, events.drop_last());
        law_apply_step(run_after(ops, events.drop_last()), events.last());
    }
}

/// A plan that only copies leaves no session behind.
pub proof fn law_copies_leave_no_session(ops: Seq<OpModel>, events: Seq<ApplyEventModel>)
    requires
        forall|i: int| 0 <= i < ops.len() ==> (#[trigger] ops[i]).action == PlannedAction::Copy,
    ensures
        run_after(ops, events).sessions.len() == 0,
        !(run_after(ops, events).asked() matches Some(a) && a is CreateSession),
    decreases events.len(),
{
    law_apply_run(ops, events);
    if events.len() == 0 {
        let s = RunModel {
            ops,
            at: 0,
            phase: PhaseModel::Done,
            sessions: Seq::empty(),
            outcomes: Seq::empty(),
            log: Seq::empty(),
        };
        assert(s.settled());
        lemma_entered(s);
    } else {
        let t = run_after(ops, events.drop_last());
        law_copies_leave_no_session(ops, events.drop_last());
        law_apply_run(ops, events.drop_last());
        law_apply_step(t, events.last());
        if t.at < t.ops.len() {
            assert(ops[t.at].action == PlannedAction::Copy);
        }
    }
    let u = run_after(ops, events);
    if u.at < u.ops.len() {
        assert(ops[u.at].action == PlannedAction::Copy);
    }
}

/// Something is recorded of an operation only once it has been carried out: a run comes to
/// want what follows an operation only by the answer that the operation was carried out.
pub proof fn law_records_follow_success(s: RunModel, event: ApplyEventModel)
    requires
        s.consistent(),
        before_success(s.phase),
        !before_success(s.after(event).phase),
    ensures
        s.phase is Execute,
        event == ApplyEventModel::Executed(None),
        s.after(event).at == s.at,
{
    if s.at < s.ops.len() {
        assert(s.settled());
        lemma_finished(s, 0, None);
        match (s.phase, event) {
            (PhaseModel::Checksum, ApplyEventModel::SumFailed(e)) => {
                lemma_finished(s, s.at, Some(e));
            },
            (PhaseModel::Execute(_), ApplyEventModel::Executed(Some(e))) => {
                lemma_finished(s, 0, Some(ErrorModel::Io(e).text()));
            },
            _ => {},
        }
    }
}

// ---------------------------------------------------------------------------
// Computation
// ---------------------------------------------------------------------------
/// Why a plan is not applied: results are still awaited, or there is nothing that can be
/// done.
pub open spec fn refusal(pending: bool, plan: Option<Seq<OpModel>>) -> Option<Seq<char>> {
    if pending {
        Some("处理中,请稍候再执行。"@)
    } else {
        match plan {
            Some(ops) => if ops.len() > 0 && (forall|i: int|
                0 <= i < ops.len() ==> (#[trigger] ops[i]).conflicts.len() == 0) {
                None
            } else {
                Some("Plan empty or has conflicts."@)
            },
            None => Some("Plan empty or has conflicts."@),
        }
    }
}

/// What a plan that may be absent stands for.
pub open spec fn opt_plan(p: Option<Plan>) -> Option<Seq<OpModel>> {
    match p {
        Some(p) => Some(p@),
        None => None,
    }
}

/// Whether there is a plan that can be applied.
pub fn can_apply(pending: bool, plan: &Option<Plan>) -> (r: bool)
    ensures
        r == (refusal(pending, opt_plan(*plan)) is None),
{
    if pending {
        return false;
    }
    match plan {
        Some(p) => {
            assert(p@.len() == p.ops@.len());
            p.ops.len() > 0 && !p.has_conflicts()
        },
        None => false,
    }
}

impl ApplyRun {
    /// The run is in order.
    pub closed spec fn wf(&self) -> bool {
        self@.consistent()
    }

    /// Begins to apply a plan, or says why it is not applied.
    pub fn begin(pending: bool, plan: &Option<Plan>) -> (r: Result<Self, String>)
        ensures
            match r {
                Ok(run) => refusal(pending, opt_plan(*plan)) is None && run@ == first_run(
                    opt_plan(*plan)->0,
                ) && run.wf(),
                Err(e) => refusal(pending, opt_plan(*plan)) == Some(e@),
            },
    {
        if !can_apply(pending, plan) {
            if pending {
                return Err(copy_of("处理中,请稍候再执行。"));
            }
            return Err(copy_of("Plan empty or has conflicts."));
        }
        match plan {
            Some(p) => {
                let p = p.clone();
                let mut run = ApplyRun {
                    ops: p.ops,
                    at: 0,
                    phase: ApplyPhase::Done,
                    sessions: Vec::new(),
                    outcomes: Vec::new(),
                    log: Vec::new(),
                };
                proof {
                    assert(run@.sessions =~= Seq::empty());
                    assert(run@.outcomes =~= Seq::empty());
                    assert(run@.log =~= Seq::empty());
                    law_apply_run(run@.ops, Seq::empty());
                }
                run.enter();
                Ok(run)
            },
            None => Err(copy_of("Plan empty or has conflicts.")),
        }
    }

    /// Begins the operation that is to be worked at.
    fn enter(&mut self)
        requires
            old(self)@.at <= old(self)@.ops.len(),
        ensures
            final(self)@ == old(self)@.entered(),
    {
        let ghost start = self@;
        assert(self@.ops.len() == self.ops@.len());
        while self.at < self.ops.len()
            invariant
                start == old(self)@,
                self.at <= self.ops@.len(),
                self@.entered() == start.entered(),
            decreases self.ops@.len() - self.at,
        {
            let ghost before = self@;
            assert(before.op() == self.ops@[self.at as int]@);
            match self.ops[self.at].action {
                PlannedAction::Rename => {
                    self.phase = ApplyPhase::Checksum;
                    return;
                },
                PlannedAction::Copy => {
                    if self.ops[self.at].video.is_some() {
                        self.phase = ApplyPhase::Execute(None);
                        return;
                    }
                },
            }
            let outcome = make_outcome(
                &self.ops[self.at],
                self.at,
                Some(copy_of("Copy mode requires paired video")),
            );
            let ghost om = outcome@;
            self.outcomes.push(outcome);
            assert(self@.outcomes =~= before.outcomes.push(om));
            self.at = self.at + 1;
        }
        self.phase = ApplyPhase::Done;
    }

    /// Goes on to the next operation. The outcome gives this one the place `place`.
    fn finish(&mut self, place: usize, error: Option<String>)
        requires
            old(self)@.at < old(self)@.ops.len(),
        ensures
            final(self)@ == old(self)@.finished(place as int, opt_view(error)),
    {
        let ghost before = self@;
        assert(self@.ops.len() == self.ops@.len());
        assert(before.op() == self.ops@[self.at as int]@);
        let n = self.ops.len();
        assert(self.at < n);
        let outcome = make_outcome(&self.ops[self.at], place, error);
        let ghost om = outcome@;
        self.outcomes.push(outcome);
        assert(self@.outcomes =~= before.outcomes.push(om));
        self.at = self.at + 1;
        self.enter();
    }

    /// Has one more thing to say.
    fn say(&mut self, head: &str, tail: &str)
        ensures
            final(self)@ == old(self)@.saying(head@ + tail@),
    {
        let ghost before = self@;
        let mut s = copy_of(head);
        s.append(tail);
        let ghost t = s@;
        self.log.push(s);
        assert(self@.log =~= before.log.push(t));
    }

    /// Goes on when the session of a rename is known.
    fn record(&mut self, checksum: String, id: i64)
        requires
            old(self)@.at < old(self)@.ops.len(),
        ensures
            final(self)@ == old(self)@.recording(checksum@, id),
    {
        assert(self@.ops.len() == self.ops@.len());
        assert(self@.op() == self.ops@[self.at as int]@);
        let op = &self.ops[self.at];
        let known = parent(op.subtitle.path.as_str()).is_some() && file_name(
            op.subtitle.path.as_str(),
        ).is_some() && file_name(op.target_path.as_str()).is_some();
        if known {
            self.phase = ApplyPhase::RecordRename(checksum, id);
        } else {
            self.finish(0, None);
        }
    }

    /// The session of a directory.
    fn find_session(&self, dir: &str) -> (r: Option<i64>)
        ensures
            r == session_of(self@.sessions, dir@),
    {
        let ghost all = self@.sessions;
        let mut i: usize = 0;
        while i < self.sessions.len()
            invariant
                all == self@.sessions,
                i <= self.sessions@.len(),
                session_of(all.take(i as int), dir@) is None,
            decreases self.sessions@.len() - i,
        {
            proof {
                assert(all.take(i + 1).drop_last() =~= all.take(i as int));
                assert(all.take(i + 1).last() == self.sessions@[i as int]@);
            }
            if path_eq(self.sessions[i].dir.as_str(), dir) {
                proof {
                    lemma_session_prefix(all, dir@, i + 1);
                }
                return Some(self.sessions[i].id);
            }
            i += 1;
        }
        assert(all.take(i as int) =~= all);
        None
    }

    /// Goes on when the directory of a rename is known.
    fn place(&mut self, checksum: String, dir: String)
        requires
            old(self)@.at < old(self)@.ops.len(),
        ensures
            final(self)@ == old(self)@.in_dir(checksum@, dir@),
    {
        match self.find_session(dir.as_str()) {
            Some(id) => self.record(checksum, id),
            None => {
                self.phase = ApplyPhase::Session(checksum, dir);
            },
        }
    }

    /// What is to be done next, or `None` where all operations have been gone through.
    pub fn next_action(&self) -> (r: Option<ApplyAction>)
        requires
            self.wf(),
        ensures
            match r {
                Some(a) => self@.asked() == Some(a@),
                None => self@.asked() is None,
            },
    {
        assert(self@.ops.len() == self.ops@.len());
        if self.at >= self.ops.len() {
            return None;
        }
        let op = &self.ops[self.at];
        assert(self@.op() == op@);
        match &self.phase {
            ApplyPhase::Checksum => Some(
                ApplyAction::Checksum(copy_of(op.subtitle.path.as_str())),
            ),
            ApplyPhase::Execute(_) => Some(ApplyAction::Execute(fs_step(op))),
            ApplyPhase::Normalize(_) => Some(
                ApplyAction::Normalize(parent(op.subtitle.path.as_str()).unwrap()),
            ),
            ApplyPhase::Session(_, d) => Some(ApplyAction::CreateSession(copy_of(d.as_str()))),
            ApplyPhase::RecordRename(c, id) => Some(
                ApplyAction::RecordRename(
                    RenameEntry {
                        session_id: *id,
                        dir: parent(op.subtitle.path.as_str()).unwrap(),
                        checksum: copy_of(c.as_str()),
                        unit_id: copy_opt(&op.unit_id),
                        old_name: file_name(op.subtitle.path.as_str()).unwrap(),
                        new_name: file_name(op.target_path.as_str()).unwrap(),
                    },
                ),
            ),
            ApplyPhase::CopySource => Some(
                ApplyAction::Checksum(copy_of(op.subtitle.path.as_str())),
            ),
            ApplyPhase::CopyTarget(_) => Some(
                ApplyAction::Checksum(copy_of(op.target_path.as_str())),
            ),
            ApplyPhase::RecordCopy(a, b) => Some(
                ApplyAction::RecordCopy(
                    CopyEntry {
                        src_dir: parent(op.subtitle.path.as_str()).unwrap(),
                        src_name: file_name(op.subtitle.path.as_str()).unwrap(),
                        src_checksum: copy_of(a.as_str()),
                        dst_dir: parent(op.target_path.as_str()).unwrap(),
                        dst_name: file_name(op.target_path.as_str()).unwrap(),
                        dst_checksum: copy_of(b.as_str()),
                        unit_id: copy_opt(&op.unit_id),
                    },
                ),
            ),
            ApplyPhase::Done => None,
        }
    }

    /// Goes on after a record was written, or was not.
    fn note_record(&mut self, error: Option<String>)
        requires
            old(self)@.at < old(self)@.ops.len(),
        ensures
            final(self)@ == old(self)@.recorded(opt_view(error)),
    {
        if let Some(e) = error {
            self.say("history write failed: ", e.as_str());
        }
        self.finish(0, None);
    }

    /// Goes on after an answer. An event that is no answer changes nothing.
    pub fn answer(&mut self, event: ApplyEvent)
        requires
            old(self).wf(),
        ensures
            final(self)@ == old(self)@.after(event@),
            final(self).wf(),
    {
        let ghost before = self@;
        proof {
            law_apply_step(before, event@);
            assert(self@.ops.len() == self.ops@.len());
        }
        if self.at >= self.ops.len() {
            return;
        }
        let mut phase = ApplyPhase::Done;
        std::mem::swap(&mut phase, &mut self.phase);
        let ghost blank = self@;
        let dir = parent(self.ops[self.at].subtitle.path.as_str());
        assert(before.op() == self.ops@[self.at as int]@);
        match (phase, event) {
            (ApplyPhase::Checksum, ApplyEvent::Sum(c)) => {
                self.phase = ApplyPhase::Execute(Some(c));
            },
            (ApplyPhase::Checksum, ApplyEvent::SumFailed(e)) => {
                self.phase = ApplyPhase::Checksum;
                let at: usize = self.at;
                self.finish(at, Some(e));
            },
            (ApplyPhase::Execute(c), ApplyEvent::Executed(error)) => match error {
                Some(e) => {
                    self.phase = ApplyPhase::Execute(c);
                    self.finish(0, Some(ExecuteError::Io(e).message()));
                },
                None => match c {
                    Some(c) => match dir {
                        Some(_) => {
                            self.phase = ApplyPhase::Normalize(c);
                        },
                        None => {
                            self.phase = ApplyPhase::Execute(Some(copy_of(c.as_str())));
                            self.place(c, copy_of("."));
                        },
                    },
                    None => {
                        let op = &self.ops[self.at];
                        let known = parent(op.subtitle.path.as_str()).is_some() && file_name(
                            op.subtitle.path.as_str(),
                        ).is_some() && file_name(op.target_path.as_str()).is_some() && parent(
                            op.target_path.as_str(),
                        ).is_some();
                        if known {
                            self.phase = ApplyPhase::CopySource;
                        } else {
                            self.phase = ApplyPhase::Execute(None);
                            self.finish(0, None);
                        }
                    },
                },
            },
            (ApplyPhase::Normalize(c), ApplyEvent::Dir(d)) => {
                self.phase = ApplyPhase::Normalize(copy_of(c.as_str()));
                let p = dir.unwrap();
                if !path_eq(d.as_str(), p.as_str()) {
                    self.say(
                        "",
                        normalize_dir_warn(p.as_str(), "non-canonical path").as_str(),
                    );
                    proof {
                        reveal_strlit("");
                        assert(""@ + dir_warning(p@, "non-canonical path"@) =~= dir_warning(
                            p@,
                            "non-canonical path"@,
                        ));
                    }
                }
                self.place(c, d);
            },
            (ApplyPhase::Session(c, d), ApplyEvent::Session(id)) => {
                self.phase = ApplyPhase::Session(copy_of(c.as_str()), copy_of(d.as_str()));
                let ghost s = self@.sessions;
                let entry = DirSession { dir: d, id };
                let ghost em = entry@;
                self.sessions.push(entry);
                assert(self@.sessions =~= s.push(em));
                self.record(c, id);
            },
            (ApplyPhase::Session(c, d), ApplyEvent::SessionFailed(e)) => {
                self.phase = ApplyPhase::Session(c, d);
                self.say("history session failed: ", e.as_str());
                let at: usize = self.at;
                self.finish(at, Some(e));
            },
            (ApplyPhase::RecordRename(c, id), ApplyEvent::Recorded(e)) => {
                self.phase = ApplyPhase::RecordRename(c, id);
                self.note_record(e);
            },
            (ApplyPhase::CopySource, ApplyEvent::Sum(c)) => {
                self.phase = ApplyPhase::CopyTarget(c);
            },
            (ApplyPhase::CopySource, ApplyEvent::SumFailed(e)) => {
                self.phase = ApplyPhase::CopySource;
                self.say("copy src checksum failed: ", e.as_str());
                self.finish(0, None);
            },
            (ApplyPhase::CopyTarget(a), ApplyEvent::Sum(b)) => {
                self.phase = ApplyPhase::RecordCopy(a, b);
            },
            (ApplyPhase::CopyTarget(a), ApplyEvent::SumFailed(e)) => {
                self.phase = ApplyPhase::CopyTarget(a);
                self.say("copy dst checksum failed: ", e.as_str());
                self.finish(0, None);
            },
            (ApplyPhase::RecordCopy(a, b), ApplyEvent::Recorded(e)) => {
                self.phase = ApplyPhase::RecordCopy(a, b);
                self.note_record(e);
            },
            (p, _) => {
                self.phase = p;
            },
        }
    }

    /// What there is to say so far.
    pub fn messages(&self) -> (r: &Vec<String>)
        ensures
            views(r@) == self@.log,
    {
        &self.log
    }

    /// What became of the operations so far.
    pub fn report(self) -> (r: ExecuteReport)
        ensures
            r@ == self@.outcomes,
    {
        ExecuteReport { outcomes: self.outcomes }
    }
}

proof fn lemma_session_prefix(sessions: Seq<DirSessionModel>, dir: Seq<char>, n: int)
    requires
        0 <= n <= sessions.len(),
        session_of(sessions.take(n), dir) is Some,
    ensures
        session_of(sessions, dir) == session_of(sessions.take(n), dir),
    decreases sessions.len(),
{
    if n == sessions.len() {
        assert(sessions.take(n) =~= sessions);
    } else {
        assert(sessions.drop_last().take(n) =~= sessions.take(n));
        lemma_session_prefix(sessions.drop_last(), dir, n);
    }
}

/// What is said of a report.
pub open spec fn summary(outcomes: Seq<OutcomeModel>) -> Seq<char> {
    "Executed: "@ + decimal(done_count(outcomes)) + " ok, "@ + decimal(
        (outcomes.len() - done_count(outcomes)) as nat,
    ) + " failed"@
}

/// What is said of a report: how many operations were carried out, and how many were not.
pub fn execution_status(report: &ExecuteReport) -> (r: String)
    ensures
        r@ == summary(report@),
{
    let n = report.ok_count();
    assert(report@.len() == report.outcomes@.len());
    let bad = report.outcomes.len() - n;
    let mut s = copy_of("Executed: ");
    s.append(decimal_of(n as u64).as_str());
    s.append(" ok, ");
    s.append(decimal_of(bad as u64).as_str());
    s.append(" failed");
    s
}

} // verus!
