//! Carrying plans out, and taking renames back.

use vstd::prelude::*;
use vstd::string::*;

use crate::checksum::{short_checksum, short_form};
use crate::paths::{join, joined};
use crate::pattern::{copy_opt, opt_view};
use crate::plan::{OpModel, Plan, PlannedAction, PlannedOp};
use crate::sorting::{count_of, models};
use crate::text::{copy_of, same_str};

verus! {

// ---------------------------------------------------------------------------
// Execution
// ---------------------------------------------------------------------------
/// Why an operation or a whole plan was not carried out.
#[derive(Debug, PartialEq, Eq)]
pub enum ExecuteError {
    /// The file system refused, for the reason given.
    Io(String),
    /// The plan has no operations.
    Empty,
}

/// What an [`ExecuteError`] stands for.
pub enum ErrorModel {
    Io(Seq<char>),
    Empty,
}

impl View for ExecuteError {
    type V = ErrorModel;

    open spec fn view(&self) -> ErrorModel {
        match self {
            ExecuteError::Io(e) => ErrorModel::Io(e@),
            ExecuteError::Empty => ErrorModel::Empty,
        }
    }
}

impl ErrorModel {
    /// The error in words.
    pub open spec fn text(self) -> Seq<char> {
        match self {
            ErrorModel::Io(e) => "io error: "@ + e,
            ErrorModel::Empty => "plan is empty"@,
        }
    }
}

impl ExecuteError {
    /// The error in words.
    pub fn message(&self) -> (r: String)
        ensures
            r@ == self@.text(),
    {
        match self {
            ExecuteError::Io(e) => {
                let mut s = copy_of("io error: ");
                s.append(e.as_str());
                s
            },
            ExecuteError::Empty => copy_of("plan is empty"),
        }
    }
}

/// What became of an operation.
#[derive(Debug)]
pub struct OpOutcome {
    /// The place of the operation in its plan.
    pub op_index: usize,
    /// Whether it was carried out.
    pub success: bool,
    /// Why it was not.
    pub error: Option<String>,
    /// Where the subtitle was.
    pub src_path: String,
    /// Where it was to go.
    pub dst_path: String,
    /// What was to be done.
    pub action: PlannedAction,
}

/// What an [`OpOutcome`] stands for.
pub struct OutcomeModel {
    pub op_index: int,
    pub success: bool,
    pub error: Option<Seq<char>>,
    pub src_path: Seq<char>,
    pub dst_path: Seq<char>,
    pub action: PlannedAction,
}

impl View for OpOutcome {
    type V = OutcomeModel;

    open spec fn view(&self) -> OutcomeModel {
        OutcomeModel {
            op_index: self.op_index as int,
            success: self.success,
            error: opt_view(self.error),
            src_path: self.src_path@,
            dst_path: self.dst_path@,
            action: self.action,
        }
    }
}

impl Clone for OpOutcome {
    fn clone(&self) -> (r: Self)
        ensures
            r@ == self@,
    {
        OpOutcome {
            op_index: self.op_index,
            success: self.success,
            error: copy_opt(&self.error),
            src_path: copy_of(self.src_path.as_str()),
            dst_path: copy_of(self.dst_path.as_str()),
            action: self.action,
        }
    }
}

/// The outcome of `op` at place `i`, where `error` says why it was not carried out.
pub open spec fn outcome_of(op: OpModel, i: int, error: Option<Seq<char>>) -> OutcomeModel {
    OutcomeModel {
        op_index: i,
        success: error is None,
        error,
        src_path: op.subtitle.path,
        dst_path: op.target_path,
        action: op.action,
    }
}

/// The outcome of `op` at place `i`.
pub fn make_outcome(op: &PlannedOp, i: usize, error: Option<String>) -> (r: OpOutcome)
    ensures
        r@ == outcome_of(op@, i as int, opt_view(error)),
{
    OpOutcome {
        op_index: i,
        success: error.is_none(),
        error,
        src_path: copy_of(op.subtitle.path.as_str()),
        dst_path: copy_of(op.target_path.as_str()),
        action: op.action,
    }
}

/// What became of the operations of a plan.
#[derive(Debug)]
pub struct ExecuteReport {
    /// The outcomes.
    pub outcomes: Vec<OpOutcome>,
}

impl View for ExecuteReport {
    type V = Seq<OutcomeModel>;

    open spec fn view(&self) -> Seq<OutcomeModel> {
        models(self.outcomes@)
    }
}

impl Default for ExecuteReport {
    /// No outcomes.
    fn default() -> (r: Self)
        ensures
            r@ == Seq::<OutcomeModel>::empty(),
    {
        let r = ExecuteReport { outcomes: Vec::new() };
        assert(r@ =~= Seq::empty());
        r
    }
}

/// Every operation was carried out.
pub open spec fn all_done(outcomes: Seq<OutcomeModel>) -> bool {
    forall|i: int| 0 <= i < outcomes.len() ==> (#[trigger] outcomes[i]).success
}

/// How many operations were carried out.
pub open spec fn done_count(outcomes: Seq<OutcomeModel>) -> nat {
    count_of(outcomes, |o: OutcomeModel| o.success)
}

impl ExecuteReport {
    /// Whether every operation was carried out.
    pub fn all_ok(&self) -> (r: bool)
        ensures
            r == all_done(self@),
    {
        let mut i: usize = 0;
        while i < self.outcomes.len()
            invariant
                i <= self.outcomes@.len(),
                forall|j: int| 0 <= j < i ==> (#[trigger] self@[j]).success,
            decreases self.outcomes@.len() - i,
        {
            assert(self@[i as int].success == self.outcomes@[i as int].success);
            if !self.outcomes[i].success {
                return false;
            }
            i += 1;
        }
        true
    }

    /// How many operations were carried out.
    pub fn ok_count(&self) -> (r: usize)
        ensures
            r == done_count(self@),
            r <= self@.len(),
    {
        let ghost all = self@;
        let ghost p = |o: OutcomeModel| o.success;
        let mut n: usize = 0;
        let mut i: usize = 0;
        while i < self.outcomes.len()
            invariant
                all == self@,
                p == (|o: OutcomeModel| o.success),
                i <= self.outcomes@.len(),
                n <= i,
                n == count_of(all.take(i as int), p),
            decreases self.outcomes@.len() - i,
        {
            proof {
                assert(all.take(i + 1).drop_last() =~= all.take(i as int));
                assert(all.take(i + 1).last() == self.outcomes@[i as int]@);
            }
            if self.outcomes[i].success {
                n += 1;
            }
            i += 1;
        }
        assert(all.take(i as int) =~= all);
        n
    }
}

/// What the file system is asked to do for an operation.
#[derive(Debug, PartialEq, Eq)]
pub enum FsStep {
    /// Give the file at the first path the second path.
    Rename(String, String),
    /// Copy the file at the first path to the second path.
    Copy(String, String),
}

/// What an [`FsStep`] stands for.
pub enum StepModel {
    Rename(Seq<char>, Seq<char>),
    Copy(Seq<char>, Seq<char>),
}

impl View for FsStep {
    type V = StepModel;

    open spec fn view(&self) -> StepModel {
        match self {
            FsStep::Rename(a, b) => StepModel::Rename(a@, b@),
            FsStep::Copy(a, b) => StepModel::Copy(a@, b@),
        }
    }
}

/// What the file system is asked to do for `op`.
pub open spec fn step_of(op: OpModel) -> StepModel {
    match op.action {
        PlannedAction::Rename => StepModel::Rename(op.subtitle.path, op.target_path),
        PlannedAction::Copy => StepModel::Copy(op.subtitle.path, op.target_path),
    }
}

/// What the file system is asked to do for an operation.
pub fn fs_step(op: &PlannedOp) -> (r: FsStep)
    ensures
        r@ == step_of(op@),
{
    let from = copy_of(op.subtitle.path.as_str());
    let to = copy_of(op.target_path.as_str());
    match op.action {
        PlannedAction::Rename => FsStep::Rename(from, to),
        PlannedAction::Copy => FsStep::Copy(from, to),
    }
}

/// Why an operation failed, in words.
pub open spec fn error_text(e: Option<ExecuteError>) -> Option<Seq<char>> {
    match e {
        Some(e) => Some(e@.text()),
        None => None,
    }
}

/// What became of the operations of a plan, in the order of the plan, where `errors` says
/// of each why it was not carried out. An operation that fails does not keep the others
/// from being carried out. A plan without operations is refused.
pub fn execute_plan(plan: &Plan, errors: &Vec<Option<ExecuteError>>) -> (r: Result<
    ExecuteReport,
    ExecuteError,
>)
    requires
        errors@.len() == plan.ops@.len(),
    ensures
        match r {
            Ok(report) => plan@.len() > 0 && report@ == Seq::new(
                plan@.len(),
                |i: int| outcome_of(plan@[i], i, error_text(errors@[i])),
            ),
            Err(e) => plan@.len() == 0 && e@ == ErrorModel::Empty,
        },
{
    if plan.ops.len() == 0 {
        return Err(ExecuteError::Empty);
    }
    let ghost all = Seq::new(
        plan@.len(),
        |i: int| outcome_of(plan@[i], i, error_text(errors@[i])),
    );
    let mut outcomes: Vec<OpOutcome> = Vec::new();
    let mut i: usize = 0;
    while i < plan.ops.len()
        invariant
            errors@.len() == plan.ops@.len(),
            all == Seq::new(
                plan@.len(),
                |i: int| outcome_of(plan@[i], i, error_text(errors@[i])),
            ),
            i <= plan.ops@.len(),
            outcomes@.len() == i,
            forall|j: int| 0 <= j < i ==> (#[trigger] outcomes@[j])@ == all[j],
        decreases plan.ops@.len() - i,
    {
        let error = match &errors[i] {
            Some(e) => Some(e.message()),
            None => None,
        };
        assert(plan@[i as int] == plan.ops@[i as int]@);
        outcomes.push(make_outcome(&plan.ops[i], i, error));
        i += 1;
    }
    let report = ExecuteReport { outcomes };
    assert(report@ =~= all);
    Ok(report)
}

/// A report says that all is well exactly where nothing went wrong.
pub proof fn law_all_ok(ops: Seq<OpModel>, errors: Seq<Option<Seq<char>>>)
    requires
        ops.len() == errors.len(),
    ensures
        all_done(Seq::new(ops.len(), |i: int| outcome_of(ops[i], i, errors[i]))) <==> (forall|
            i: int,
        |
            0 <= i < errors.len() ==> #[trigger] errors[i] is None),
{
    let s = Seq::new(ops.len(), |i: int| outcome_of(ops[i], i, errors[i]));
    if all_done(s) {
        assert forall|i: int| 0 <= i < errors.len() implies #[trigger] errors[i] is None by {
            assert(s[i].success);
        }
    }
}

// ---------------------------------------------------------------------------
// Rollback
// ---------------------------------------------------------------------------
/// A file that gets its old name back.
#[derive(Debug)]
pub struct RollbackItem {
    /// Where the file is.
    pub dir: String,
    /// The checksum that it must have.
    pub checksum: String,
    /// The name that it gets back.
    pub old_name: String,
    /// The name that it has.
    pub new_name: String,
}

/// What a [`RollbackItem`] stands for.
pub struct ItemModel {
    pub dir: Seq<char>,
    pub checksum: Seq<char>,
    pub old_name: Seq<char>,
    pub new_name: Seq<char>,
}

impl View for RollbackItem {
    type V = ItemModel;

    open spec fn view(&self) -> ItemModel {
        ItemModel {
            dir: self.dir@,
            checksum: self.checksum@,
            old_name: self.old_name@,
            new_name: self.new_name@,
        }
    }
}

impl Clone for RollbackItem {
    fn clone(&self) -> (r: Self)
        ensures
            r@ == self@,
    {
        RollbackItem {
            dir: copy_of(self.dir.as_str()),
            checksum: copy_of(self.checksum.as_str()),
            old_name: copy_of(self.old_name.as_str()),
            new_name: copy_of(self.new_name.as_str()),
        }
    }
}

impl ItemModel {
    /// Where the file is now.
    pub open spec fn new_path(self) -> Seq<char> {
        joined(self.dir, self.new_name)
    }

    /// Where it goes.
    pub open spec fn old_path(self) -> Seq<char> {
        joined(self.dir, self.old_name)
    }
}

/// What became of a unit.
#[derive(Debug, PartialEq, Eq)]
pub enum RollbackOutcome {
    /// Every file has its old name back.
    Restored,
    /// A file is missing or has changed.
    DstChanged(String),
    /// An old name is taken.
    SrcOccupied(String),
    /// The file system refused.
    Io(String),
}

/// What a [`RollbackOutcome`] stands for.
pub enum EndModel {
    Restored,
    DstChanged(Seq<char>),
    SrcOccupied(Seq<char>),
    Io(Seq<char>),
}

impl View for RollbackOutcome {
    type V = EndModel;

    open spec fn view(&self) -> EndModel {
        match self {
            RollbackOutcome::Restored => EndModel::Restored,
            RollbackOutcome::DstChanged(s) => EndModel::DstChanged(s@),
            RollbackOutcome::SrcOccupied(s) => EndModel::SrcOccupied(s@),
            RollbackOutcome::Io(s) => EndModel::Io(s@),
        }
    }
}

/// How far the rollback of a unit has come.
#[derive(Debug)]
pub enum RollbackState {
    /// The checksum of the file is wanted.
    Checksum(usize),
    /// Whether its old name is taken is wanted.
    Probe(usize),
    /// The file is to get its old name back.
    Rename(usize),
    /// A later file of the unit was refused its old name, for the reason given, so that
    /// the file is to get its new name again.
    Revert(usize, String),
    /// It is over.
    Done(RollbackOutcome),
}

/// What a [`RollbackState`] stands for.
pub enum StateModel {
    Checksum(int),
    Probe(int),
    Rename(int),
    Revert(int, Seq<char>),
    Done(EndModel),
}

impl View for RollbackState {
    type V = StateModel;

    open spec fn view(&self) -> StateModel {
        match self {
            RollbackState::Checksum(i) => StateModel::Checksum(*i as int),
            RollbackState::Probe(i) => StateModel::Probe(*i as int),
            RollbackState::Rename(i) => StateModel::Rename(*i as int),
            RollbackState::Revert(i, e) => StateModel::Revert(*i as int, e@),
            RollbackState::Done(o) => StateModel::Done(o@),
        }
    }
}

/// What the file system is asked to do next.
#[derive(Debug, PartialEq, Eq)]
pub enum RollbackAction {
    /// Compute the checksum of the file at this path.
    Checksum(String),
    /// Say whether there is something at this path.
    Probe(String),
    /// Give the file at the first path the second path.
    Rename(String, String),
}

/// What a [`RollbackAction`] stands for.
pub enum ActionModel {
    Checksum(Seq<char>),
    Probe(Seq<char>),
    Rename(Seq<char>, Seq<char>),
}

impl View for RollbackAction {
    type V = ActionModel;

    open spec fn view(&self) -> ActionModel {
        match self {
            RollbackAction::Checksum(p) => ActionModel::Checksum(p@),
            RollbackAction::Probe(p) => ActionModel::Probe(p@),
            RollbackAction::Rename(a, b) => ActionModel::Rename(a@, b@),
        }
    }
}

/// What the file system answers.
#[derive(Debug)]
pub enum RollbackEvent {
    /// The checksum.
    Sum(String),
    /// The file cannot be read, for the reason given.
    ReadFailed(String),
    /// Whether there is something at the path.
    Exists(bool),
    /// The file has been renamed, or why it has not.
    Renamed(Option<String>),
}

/// What a [`RollbackEvent`] stands for.
pub enum EventModel {
    Sum(Seq<char>),
    ReadFailed(Seq<char>),
    Exists(bool),
    Renamed(Option<Seq<char>>),
}

impl View for RollbackEvent {
    type V = EventModel;

    open spec fn view(&self) -> EventModel {
        match self {
            RollbackEvent::Sum(s) => EventModel::Sum(s@),
            RollbackEvent::ReadFailed(e) => EventModel::ReadFailed(e@),
            RollbackEvent::Exists(b) => EventModel::Exists(*b),
            RollbackEvent::Renamed(e) => EventModel::Renamed(opt_view(*e)),
        }
    }
}

/// How a rollback begins.
pub open spec fn first_state(items: Seq<ItemModel>) -> StateModel {
    if items.len() == 0 {
        StateModel::Done(EndModel::Restored)
    } else {
        StateModel::Checksum(0)
    }
}

/// What is asked for in `state`.
pub open spec fn asked(state: StateModel, items: Seq<ItemModel>) -> Option<ActionModel> {
    match state {
        StateModel::Checksum(i) => Some(ActionModel::Checksum(items[i].new_path())),
        StateModel::Probe(i) => Some(ActionModel::Probe(items[i].old_path())),
        StateModel::Rename(i) => Some(
            ActionModel::Rename(items[i].new_path(), items[i].old_path()),
        ),
        StateModel::Revert(i, _) => Some(
            ActionModel::Rename(items[i].old_path(), items[i].new_path()),
        ),
        StateModel::Done(_) => None,
    }
}

/// `event` answers what is asked for in `state`.
pub open spec fn answers(state: StateModel, event: EventModel) -> bool {
    match (state, event) {
        (StateModel::Checksum(_), EventModel::Sum(_)) => true,
        (StateModel::Checksum(_), EventModel::ReadFailed(_)) => true,
        (StateModel::Probe(_), EventModel::Exists(_)) => true,
        (StateModel::Rename(_), EventModel::Renamed(_)) => true,
        (StateModel::Revert(_, _), EventModel::Renamed(_)) => true,
        _ => false,
    }
}

/// The message about a file that has changed.
pub open spec fn changed_text(current: Seq<char>, recorded: Seq<char>) -> Seq<char> {
    "dst checksum "@ + short_form(current) + " != recorded "@ + short_form(recorded)
}

/// The unit goes back to its new names, the file before `i` first, and then it is over.
pub open spec fn reverting(i: int, e: Seq<char>) -> StateModel {
    if i > 0 {
        StateModel::Revert(i - 1, e)
    } else {
        StateModel::Done(EndModel::Io(e))
    }
}

/// How the rollback goes on after an answer. Where a file is refused its old name, those
/// that have theirs back already get their new names again, the last of them first. An
/// event that is no answer changes nothing.
pub open spec fn next_state(
    state: StateModel,
    items: Seq<ItemModel>,
    event: EventModel,
) -> StateModel {
    match (state, event) {
        (StateModel::Checksum(i), EventModel::Sum(s)) => if s == items[i].checksum {
            StateModel::Probe(i)
        } else {
            StateModel::Done(EndModel::DstChanged(changed_text(s, items[i].checksum)))
        },
        (StateModel::Checksum(_), EventModel::ReadFailed(e)) => StateModel::Done(
            EndModel::DstChanged("dst missing: "@ + e),
        ),
        (StateModel::Probe(i), EventModel::Exists(there)) => if there {
            StateModel::Done(EndModel::SrcOccupied(items[i].old_path()))
        } else if i + 1 < items.len() {
            StateModel::Checksum(i + 1)
        } else {
            StateModel::Rename(0)
        },
        (StateModel::Rename(i), EventModel::Renamed(e)) => match e {
            Some(e) => reverting(i, e),
            None => if i + 1 < items.len() {
                StateModel::Rename(i + 1)
            } else {
                StateModel::Done(EndModel::Restored)
            },
        },
        (StateModel::Revert(i, e), EventModel::Renamed(_)) => reverting(i, e),
        _ => state,
    }
}

/// The state speaks of one of the items.
pub open spec fn within(state: StateModel, items: Seq<ItemModel>) -> bool {
    match state {
        StateModel::Checksum(i) => 0 <= i < items.len(),
        StateModel::Probe(i) => 0 <= i < items.len(),
        StateModel::Rename(i) => 0 <= i < items.len(),
        StateModel::Revert(i, _) => 0 <= i < items.len(),
        StateModel::Done(_) => true,
    }
}

/// Where the answers `events` lead.
pub open spec fn state_after(items: Seq<ItemModel>, events: Seq<EventModel>) -> StateModel
    decreases events.len(),
{
    if events.len() == 0 {
        first_state(items)
    } else {
        next_state(state_after(items, events.drop_last()), items, events.last())
    }
}

/// Each event answers what was asked for.
pub open spec fn all_answers(items: Seq<ItemModel>, events: Seq<EventModel>) -> bool
    decreases events.len(),
{
    events.len() == 0 || (all_answers(items, events.drop_last()) && answers(
        state_after(items, events.drop_last()),
        events.last(),
    ))
}

/// Item `i` has been found in order: the checksum matched, and the old name was free.
pub open spec fn item_vetted(items: Seq<ItemModel>, events: Seq<EventModel>, i: int) -> bool {
    events[2 * i] == EventModel::Sum(items[i].checksum) && events[2 * i + 1]
        == EventModel::Exists(false)
}

/// The first `n` items have been found in order.
pub open spec fn vetted(items: Seq<ItemModel>, events: Seq<EventModel>, n: int) -> bool {
    2 * n <= events.len() && forall|i: int| 0 <= i < n ==> #[trigger] item_vetted(items, events, i)
}

/// No file has been renamed.
pub open spec fn nothing_renamed(events: Seq<EventModel>) -> bool {
    forall|i: int| 0 <= i < events.len() ==> !((#[trigger] events[i]) is Renamed)
}

spec fn on_course(items: Seq<ItemModel>, events: Seq<EventModel>) -> bool {
    match state_after(items, events) {
        StateModel::Checksum(i) => 0 <= i < items.len() && events.len() == 2 * i && vetted(
            items,
            events,
            i,
        ) && nothing_renamed(events),
        StateModel::Probe(i) => 0 <= i < items.len() && events.len() == 2 * i + 1 && vetted(
            items,
            events,
            i,
        ) && events[2 * i] == EventModel::Sum(items[i].checksum) && nothing_renamed(events),
        StateModel::Rename(i) => 0 <= i < items.len() && vetted(items, events, items.len() as int),
        StateModel::Revert(i, _) => 0 <= i < items.len() && vetted(
            items,
            events,
            items.len() as int,
        ),
        StateModel::Done(EndModel::Restored) => vetted(items, events, items.len() as int),
        StateModel::Done(EndModel::Io(_)) => vetted(items, events, items.len() as int),
        StateModel::Done(_) => nothing_renamed(events),
    }
}

proof fn lemma_vetted_push(
    items: Seq<ItemModel>,
    events: Seq<EventModel>,
    e: EventModel,
    n: int,
)
    requires
        0 <= n,
        vetted(items, events, n),
    ensures
        vetted(items, events.push(e), n),
{
    let p = events.push(e);
    assert forall|i: int| 0 <= i < n implies #[trigger] item_vetted(items, p, i) by {
        assert(item_vetted(items, events, i));
    }
}

proof fn lemma_on_course(items: Seq<ItemModel>, events: Seq<EventModel>)
    requires
        all_answers(items, events),
    ensures
        on_course(items, events),
    decreases events.len(),
{
    if events.len() == 0 {
        assert(vetted(items, events, 0));
    } else {
        let t = events.drop_last();
        let e = events.last();
        lemma_on_course(items, t);
        assert(events =~= t.push(e));
        let s = state_after(items, t);
        match s {
            StateModel::Checksum(i) => {
                lemma_vetted_push(items, t, e, i);
                assert(events[2 * i] == e);
                if !(e is Renamed) {
                    assert(nothing_renamed(events));
                }
            },
            StateModel::Probe(i) => {
                lemma_vetted_push(items, t, e, i);
                assert(events[2 * i] == t[2 * i]);
                assert(events[2 * i + 1] == e);
                assert(nothing_renamed(events));
                if e == EventModel::Exists(false) {
                    assert(vetted(items, events, i + 1)) by {
                        assert forall|k: int| 0 <= k < i + 1 implies #[trigger] item_vetted(
                            items,
                            events,
                            k,
                        ) by {
                            if k < i {
                                assert(item_vetted(items, t, k));
                            }
                        }
                    }
                }
            },
            StateModel::Rename(_) => {
                lemma_vetted_push(items, t, e, items.len() as int);
            },
            StateModel::Revert(_, _) => {
                lemma_vetted_push(items, t, e, items.len() as int);
            },
            StateModel::Done(_) => {},
        }
    }
}

/// No file of a unit is renamed before every file of it has been found in order: where a
/// rename is asked for, or the rollback has come to its end, each checksum has matched
/// and each old name was free.
pub proof fn law_vetted_first(items: Seq<ItemModel>, events: Seq<EventModel>)
    requires
        all_answers(items, events),
        match state_after(items, events) {
            StateModel::Rename(_) => true,
            StateModel::Revert(_, _) => true,
            StateModel::Done(EndModel::Restored) => true,
            StateModel::Done(EndModel::Io(_)) => true,
            _ => false,
        },
    ensures
        vetted(items, events, items.len() as int),
{
    lemma_on_course(items, events);
}

/// A unit of which a file has changed, or of which an old name is taken, is left alone.
pub proof fn law_left_alone(items: Seq<ItemModel>, events: Seq<EventModel>)
    requires
        all_answers(items, events),
        match state_after(items, events) {
            StateModel::Done(EndModel::DstChanged(_)) => true,
            StateModel::Done(EndModel::SrcOccupied(_)) => true,
            _ => false,
        },
    ensures
        nothing_renamed(events),
{
    lemma_on_course(items, events);
}

/// The files that have their old names, by the answers.
pub open spec fn at_old(items: Seq<ItemModel>, events: Seq<EventModel>) -> Set<int>
    decreases events.len(),
{
    if events.len() == 0 {
        Set::empty()
    } else {
        let before = at_old(items, events.drop_last());
        match (state_after(items, events.drop_last()), events.last()) {
            (StateModel::Rename(i), EventModel::Renamed(None)) => before.insert(i),
            (StateModel::Revert(i, _), EventModel::Renamed(None)) => before.remove(i),
            _ => before,
        }
    }
}

/// No file was refused its new name when it was to get it again.
pub open spec fn reverts_done(items: Seq<ItemModel>, events: Seq<EventModel>) -> bool
    decreases events.len(),
{
    events.len() == 0 || {
        &&& reverts_done(items, events.drop_last())
        &&& state_after(items, events.drop_last()) is Revert ==> events.last()
            == EventModel::Renamed(None)
    }
}

/// The files below `n`.
pub open spec fn below(n: int) -> Set<int> {
    Set::new(|i: int| 0 <= i < n)
}

/// Which files have their old names in each state.
pub open spec fn placed(items: Seq<ItemModel>, events: Seq<EventModel>) -> bool {
    let old = at_old(items, events);
    match state_after(items, events) {
        StateModel::Checksum(_) => old == Set::<int>::empty(),
        StateModel::Probe(_) => old == Set::<int>::empty(),
        StateModel::Rename(i) => 0 <= i < items.len() && old == below(i),
        StateModel::Revert(i, _) => {
            &&& 0 <= i < items.len()
            &&& below(i + 1).subset_of(old)
            &&& reverts_done(items, events) ==> old == below(i + 1)
        },
        StateModel::Done(EndModel::Restored) => old == below(items.len() as int),
        StateModel::Done(EndModel::Io(_)) => reverts_done(items, events) ==> old == Set::<
            int,
        >::empty(),
        StateModel::Done(_) => old == Set::<int>::empty(),
    }
}

/// A unit is never left with some files at their old names and some at their new ones: at
/// the end all have their old names, where it was restored, and else none has. The one
/// exception is a file that is refused its new name when it is to get it again.
pub proof fn law_unit_whole(items: Seq<ItemModel>, events: Seq<EventModel>)
    requires
        all_answers(items, events),
    ensures
        placed(items, events),
    decreases events.len(),
{
    if events.len() == 0 {
        assert(below(0) =~= Set::empty());
    } else {
        let t = events.drop_last();
        law_unit_whole(items, t);
        lemma_on_course(items, t);
        match state_after(items, t) {
            StateModel::Probe(_) => {
                assert(below(0) =~= Set::empty());
            },
            StateModel::Rename(i) => {
                assert(below(i).insert(i) =~= below(i + 1));
                assert(below(0) =~= Set::empty());
            },
            StateModel::Revert(i, _) => {
                assert(below(i + 1).remove(i) =~= below(i));
                assert(below(0) =~= Set::empty());
                assert(below(i).subset_of(at_old(items, events)));
            },
            _ => {},
        }
    }
}

/// How a rollback of the items begins.
pub fn rollback_start(items: &Vec<RollbackItem>) -> (r: RollbackState)
    ensures
        r@ == first_state(models(items@)),
        within(r@, models(items@)),
{
    if items.len() == 0 {
        RollbackState::Done(RollbackOutcome::Restored)
    } else {
        RollbackState::Checksum(0)
    }
}

/// What the file system is asked to do next, or `None` where the rollback is over.
pub fn rollback_action(state: &RollbackState, items: &Vec<RollbackItem>) -> (r: Option<
    RollbackAction,
>)
    requires
        within(state@, models(items@)),
    ensures
        match r {
            Some(a) => asked(state@, models(items@)) == Some(a@),
            None => asked(state@, models(items@)) is None,
        },
{
    match state {
        RollbackState::Checksum(i) => Some(
            RollbackAction::Checksum(join(items[*i].dir.as_str(), items[*i].new_name.as_str())),
        ),
        RollbackState::Probe(i) => Some(
            RollbackAction::Probe(join(items[*i].dir.as_str(), items[*i].old_name.as_str())),
        ),
        RollbackState::Rename(i) => Some(
            RollbackAction::Rename(
                join(items[*i].dir.as_str(), items[*i].new_name.as_str()),
                join(items[*i].dir.as_str(), items[*i].old_name.as_str()),
            ),
        ),
        RollbackState::Revert(i, _) => Some(
            RollbackAction::Rename(
                join(items[*i].dir.as_str(), items[*i].old_name.as_str()),
                join(items[*i].dir.as_str(), items[*i].new_name.as_str()),
            ),
        ),
        RollbackState::Done(_) => None,
    }
}

/// The unit goes back to its new names, the file before `i` first.
fn revert_before(i: usize, e: String) -> (r: RollbackState)
    ensures
        r@ == reverting(i as int, e@),
{
    if i > 0 {
        RollbackState::Revert(i - 1, e)
    } else {
        RollbackState::Done(RollbackOutcome::Io(e))
    }
}

/// How the rollback goes on after an answer.
pub fn rollback_next(
    state: RollbackState,
    items: &Vec<RollbackItem>,
    event: RollbackEvent,
) -> (r: RollbackState)
    requires
        within(state@, models(items@)),
    ensures
        r@ == next_state(state@, models(items@), event@),
        within(r@, models(items@)),
{
    let ghost all = models(items@);
    match (state, event) {
        (RollbackState::Checksum(i), RollbackEvent::Sum(s)) => {
            assert(all[i as int] == items@[i as int]@);
            if same_str(s.as_str(), items[i].checksum.as_str()) {
                RollbackState::Probe(i)
            } else {
                let mut m = copy_of("dst checksum ");
                m.append(short_checksum(s.as_str()).as_str());
                m.append(" != recorded ");
                m.append(short_checksum(items[i].checksum.as_str()).as_str());
                RollbackState::Done(RollbackOutcome::DstChanged(m))
            }
        },
        (RollbackState::Checksum(_), RollbackEvent::ReadFailed(e)) => {
            let mut m = copy_of("dst missing: ");
            m.append(e.as_str());
            RollbackState::Done(RollbackOutcome::DstChanged(m))
        },
        (RollbackState::Probe(i), RollbackEvent::Exists(there)) => {
            assert(all[i as int] == items@[i as int]@);
            if there {
                RollbackState::Done(
                    RollbackOutcome::SrcOccupied(
                        join(items[i].dir.as_str(), items[i].old_name.as_str()),
                    ),
                )
            } else if items.len() - i > 1 {
                RollbackState::Checksum(i + 1)
            } else {
                RollbackState::Rename(0)
            }
        },
        (RollbackState::Rename(i), RollbackEvent::Renamed(e)) => match e {
            Some(e) => revert_before(i, e),
            None => if items.len() - i > 1 {
                RollbackState::Rename(i + 1)
            } else {
                RollbackState::Done(RollbackOutcome::Restored)
            },
        },
        (RollbackState::Revert(i, e), RollbackEvent::Renamed(_)) => revert_before(i, e),
        (s, _) => s,
    }
}

} // verus!
