//! Taking a session back: what becomes of the files and of the records.

use vstd::prelude::*;
use vstd::seq_lib::*;

use crate::checksum::{hex, sha256};
use crate::execute::{
    all_answers, asked, at_old, below, law_unit_whole, reverts_done, state_after, ActionModel,
    EndModel, EventModel, ItemModel, StateModel, StepModel,
};
use crate::paths::parts;
use crate::restore::{
    between, clear, files_after, lemma_between_settled, lemma_move_back, lemma_move_on,
    lemma_none_moved, lemma_paths_differ, untouched, Files, Move,
};
use crate::state::{undo_record, RenameModel, SessionModel};
use crate::undo::{
    items_of, law_units_cover, new_run, recorded_by, records_in, reversal_of, reversals_of,
    run_through, units_of, UndoModel,
};

verus! {

// ---------------------------------------------------------------------------
// Units
// ---------------------------------------------------------------------------
/// Where the files of a unit go: from their new names to their old ones.
pub open spec fn item_moves(items: Seq<ItemModel>) -> Seq<Move> {
    Seq::new(
        items.len(),
        |i: int| Move { from: parts(items[i].new_path()), to: parts(items[i].old_path()) },
    )
}

/// What a rollback has made of the files, by the answers.
pub open spec fn files_through(
    files: Files,
    items: Seq<ItemModel>,
    events: Seq<EventModel>,
) -> Files
    decreases events.len(),
{
    if events.len() == 0 {
        files
    } else {
        let before = files_through(files, items, events.drop_last());
        match (asked(state_after(items, events.drop_last()), items), events.last()) {
            (Some(ActionModel::Rename(from, to)), EventModel::Renamed(None)) => files_after(
                before,
                StepModel::Rename(from, to),
            ),
            _ => before,
        }
    }
}

/// The files of a unit can move to their old names, and are what was recorded.
pub open spec fn in_place(files: Files, items: Seq<ItemModel>) -> bool {
    &&& clear(files, item_moves(items))
    &&& forall|i: int|
        0 <= i < items.len() ==> hex(
            sha256(files[parts((#[trigger] items[i]).new_path())]),
        ) == items[i].checksum
}

proof fn lemma_files_by_names(files: Files, items: Seq<ItemModel>, events: Seq<EventModel>)
    requires
        clear(files, item_moves(items)),
        all_answers(items, events),
    ensures
        between(
            files,
            item_moves(items),
            at_old(items, events),
            files_through(files, items, events),
        ),
    decreases events.len(),
{
    let moves = item_moves(items);
    if events.len() == 0 {
        lemma_none_moved(files, moves);
    } else {
        let t = events.drop_last();
        lemma_files_by_names(files, items, t);
        law_unit_whole(items, t);
        let before = files_through(files, items, t);
        match (state_after(items, t), events.last()) {
            (StateModel::Rename(i), EventModel::Renamed(None)) => {
                lemma_move_on(files, moves, at_old(items, t), before, i);
            },
            (StateModel::Revert(i, _), EventModel::Renamed(None)) => {
                assert(below(i + 1).contains(i));
                lemma_move_back(files, moves, at_old(items, t), before, i);
            },
            _ => {},
        }
    }
}

/// A unit that is not restored is left as it was: where a later file was refused its old
/// name, and those before it were given their new names again, every file is where it was,
/// and so it is where a file has changed or an old name is taken. A unit that is restored
/// has every file at its old name.
pub proof fn law_unit_put_back(files: Files, items: Seq<ItemModel>, events: Seq<EventModel>)
    requires
        clear(files, item_moves(items)),
        all_answers(items, events),
    ensures
        match state_after(items, events) {
            StateModel::Done(EndModel::Restored) => between(
                files,
                item_moves(items),
                below(items.len() as int),
                files_through(files, items, events),
            ),
            StateModel::Done(EndModel::Io(_)) => reverts_done(items, events) ==> files_through(
                files,
                items,
                events,
            ) == files,
            StateModel::Done(_) => files_through(files, items, events) == files,
            _ => true,
        },
{
    let moves = item_moves(items);
    let now = files_through(files, items, events);
    lemma_files_by_names(files, items, events);
    law_unit_whole(items, events);
    lemma_none_moved(files, moves);
    if at_old(items, events) == Set::<int>::empty() {
        lemma_between_settled(files, moves, Set::empty(), now, files);
    }
}

/// `event` is what is true of the files where `action` is asked for. A rename may be
/// refused.
pub open spec fn true_answer(files: Files, action: ActionModel, event: EventModel) -> bool {
    match action {
        ActionModel::Checksum(p) => if files.contains_key(parts(p)) {
            event == EventModel::Sum(hex(sha256(files[parts(p)])))
        } else {
            event is ReadFailed
        },
        ActionModel::Probe(p) => event == EventModel::Exists(files.contains_key(parts(p))),
        ActionModel::Rename(_, _) => event is Renamed,
    }
}

/// Each event is what was true of the files when it was asked for.
pub open spec fn true_answers(
    files: Files,
    items: Seq<ItemModel>,
    events: Seq<EventModel>,
) -> bool
    decreases events.len(),
{
    events.len() == 0 || {
        let t = events.drop_last();
        &&& true_answers(files, items, t)
        &&& match asked(state_after(items, t), items) {
            Some(action) => true_answer(files_through(files, items, t), action, events.last()),
            None => false,
        }
    }
}

/// No rename was refused.
pub open spec fn none_refused(events: Seq<EventModel>) -> bool {
    forall|k: int|
        0 <= k < events.len() ==> ((#[trigger] events[k]) matches EventModel::Renamed(e) ==> e
            is None)
}

/// How far a rollback that meets with no refusal has come.
spec fn on_schedule(items: Seq<ItemModel>, events: Seq<EventModel>) -> bool {
    let n = items.len() as int;
    match state_after(items, events) {
        StateModel::Checksum(i) => 0 <= i < n && events.len() == 2 * i,
        StateModel::Probe(i) => 0 <= i < n && events.len() == 2 * i + 1,
        StateModel::Rename(i) => 0 <= i < n && events.len() == 2 * n + i,
        StateModel::Revert(_, _) => false,
        StateModel::Done(e) => e == EndModel::Restored && events.len() == 3 * n,
    }
}

proof fn lemma_on_schedule(files: Files, items: Seq<ItemModel>, events: Seq<EventModel>)
    requires
        in_place(files, items),
        true_answers(files, items, events),
        none_refused(events),
    ensures
        all_answers(items, events),
        on_schedule(items, events),
    decreases events.len(),
{
    if events.len() > 0 {
        let t = events.drop_last();
        let e = events.last();
        assert forall|k: int| 0 <= k < t.len() implies ((#[trigger] t[k]) matches
            EventModel::Renamed(e) ==> e is None) by {
            assert(t[k] == events[k]);
        }
        assert(events[events.len() - 1] == e);
        lemma_on_schedule(files, items, t);
        lemma_files_by_names(files, items, t);
        law_unit_whole(items, t);
        let now = files_through(files, items, t);
        let moves = item_moves(items);
        match state_after(items, t) {
            StateModel::Checksum(i) => {
                assert(now.contains_key(moves[i].from) && now[moves[i].from]
                    == files[moves[i].from]);
                assert(hex(sha256(files[parts(items[i].new_path())])) == items[i].checksum);
            },
            StateModel::Probe(i) => {
                assert(!now.contains_key(moves[i].to));
            },
            _ => {},
        }
    }
}

/// A unit whose files are in place is restored, whatever the rest of the disk holds, where
/// no rename is refused: three answers for each file lead to the end, and every file is
/// then at its old name.
pub proof fn law_unit_taken_back(files: Files, items: Seq<ItemModel>, events: Seq<EventModel>)
    requires
        in_place(files, items),
        true_answers(files, items, events),
        none_refused(events),
    ensures
        events.len() <= 3 * items.len(),
        state_after(items, events) is Done <==> events.len() == 3 * items.len(),
        state_after(items, events) is Done ==> {
            &&& state_after(items, events) == StateModel::Done(EndModel::Restored)
            &&& between(
                files,
                item_moves(items),
                below(items.len() as int),
                files_through(files, items, events),
            )
        },
{
    lemma_on_schedule(files, items, events);
    law_unit_put_back(files, items, events);
}

// ---------------------------------------------------------------------------
// Sessions
// ---------------------------------------------------------------------------
/// The records of the units, unit by unit.
pub open spec fn records_of(units: Seq<Seq<RenameModel>>) -> Seq<RenameModel>
    decreases units.len(),
{
    if units.len() == 0 {
        Seq::empty()
    } else {
        records_of(units.drop_last()) + units.last()
    }
}

/// What the rollbacks of the first units have made of the files, by the answers to each.
pub open spec fn files_over(
    files: Files,
    units: Seq<Seq<RenameModel>>,
    runs: Seq<Seq<EventModel>>,
) -> Files
    decreases runs.len(),
{
    if runs.len() == 0 {
        files
    } else {
        files_through(
            files_over(files, units, runs.drop_last()),
            items_of(units[runs.len() - 1]),
            runs.last(),
        )
    }
}

/// The first units have been rolled back, each to its end: each answer was true, and no
/// rename was refused.
pub open spec fn rolled_back(
    files: Files,
    units: Seq<Seq<RenameModel>>,
    runs: Seq<Seq<EventModel>>,
) -> bool
    decreases runs.len(),
{
    runs.len() == 0 || {
        let items = items_of(units[runs.len() - 1]);
        &&& rolled_back(files, units, runs.drop_last())
        &&& true_answers(files_over(files, units, runs.drop_last()), items, runs.last())
        &&& none_refused(runs.last())
        &&& state_after(items, runs.last()) is Done
    }
}

/// Which of the units were restored, by the answers to each.
pub open spec fn outcomes_of(
    units: Seq<Seq<RenameModel>>,
    runs: Seq<Seq<EventModel>>,
) -> Seq<bool> {
    Seq::new(
        runs.len(),
        |k: int| state_after(items_of(units[k]), runs[k]) == StateModel::Done(EndModel::Restored),
    )
}

proof fn lemma_records_prefix(units: Seq<Seq<RenameModel>>, k: int)
    requires
        0 <= k < units.len(),
    ensures
        records_of(units.take(k + 1)) == records_of(units.take(k)) + units[k],
        records_of(units).len() >= records_of(units.take(k + 1)).len(),
        forall|j: int|
            0 <= j < records_of(units.take(k + 1)).len() ==> #[trigger] records_of(
                units.take(k + 1),
            )[j] == records_of(units)[j],
    decreases units.len(),
{
    assert(units.take(k + 1).drop_last() =~= units.take(k));
    assert(units.take(k + 1).last() == units[k]);
    if k == units.len() - 1 {
        assert(units.take(k + 1) =~= units);
    } else {
        let t = units.drop_last();
        lemma_records_prefix(t, k);
        assert(t.take(k + 1) =~= units.take(k + 1));
    }
}

/// Moves of files that have not moved yet follow upon those that have.
proof fn lemma_moves_follow(
    files: Files,
    moves: Seq<Move>,
    off: int,
    more: Seq<Move>,
    now: Files,
    next: Files,
)
    requires
        clear(files, moves),
        0 <= off,
        off + more.len() <= moves.len(),
        forall|j: int| 0 <= j < more.len() ==> #[trigger] more[j] == moves[off + j],
        between(files, moves, below(off), now),
        between(now, more, below(more.len() as int), next),
    ensures
        between(files, moves, below(off + more.len()), next),
{
    let done = below(off + more.len());
    assert forall|i: int| 0 <= i < moves.len() implies if done.contains(i) {
        !next.contains_key((#[trigger] moves[i]).from) && next.contains_key(moves[i].to)
            && next[moves[i].to] == files[moves[i].from]
    } else {
        next.contains_key(moves[i].from) && next[moves[i].from] == files[moves[i].from]
            && !next.contains_key(moves[i].to)
    } by {
        if off <= i < off + more.len() {
            assert(more[i - off] == moves[i]);
            assert(below(more.len() as int).contains(i - off));
            assert(!below(off).contains(i));
        } else {
            assert forall|j: int| 0 <= j < more.len() implies (#[trigger] more[j]).from
                != moves[i].from && more[j].to != moves[i].from && more[j].from != moves[i].to
                && more[j].to != moves[i].to by {
                lemma_paths_differ(files, moves, i, off + j);
            }
            assert(untouched(more, moves[i].from));
            assert(untouched(more, moves[i].to));
            assert(next.contains_key(moves[i].from) == now.contains_key(moves[i].from));
            assert(next.contains_key(moves[i].to) == now.contains_key(moves[i].to));
            assert(done.contains(i) == below(off).contains(i));
        }
    }
    assert forall|p: Seq<Seq<char>>| untouched(moves, p) implies #[trigger] next.contains_key(p)
        == files.contains_key(p) && (files.contains_key(p) ==> next[p] == files[p]) by {
        assert forall|j: int| 0 <= j < more.len() implies (#[trigger] more[j]).from != p
            && more[j].to != p by {
            assert(more[j] == moves[off + j]);
        }
        assert(untouched(more, p));
        assert(now.contains_key(p) == files.contains_key(p));
    }
}

/// Files that are in place stay in place until they move themselves.
proof fn lemma_stay_in_place(
    files: Files,
    items: Seq<ItemModel>,
    off: int,
    more: Seq<ItemModel>,
    now: Files,
)
    requires
        in_place(files, items),
        0 <= off,
        off + more.len() <= items.len(),
        forall|j: int| 0 <= j < more.len() ==> #[trigger] more[j] == items[off + j],
        between(files, item_moves(items), below(off), now),
    ensures
        in_place(now, more),
{
    let moves = item_moves(items);
    let m = item_moves(more);
    assert forall|j: int| 0 <= j < m.len() implies now.contains_key((#[trigger] m[j]).from)
        && !now.contains_key(m[j].to) && now[m[j].from] == files[m[j].from] by {
        assert(more[j] == items[off + j]);
        assert(m[j] == moves[off + j]);
        assert(!below(off).contains(off + j));
    }
    assert forall|i: int, j: int| 0 <= i < j < m.len() implies (#[trigger] m[i]).from != (
    #[trigger] m[j]).from && m[i].to != m[j].to by {
        assert(more[i] == items[off + i]);
        assert(more[j] == items[off + j]);
        assert(m[i] == moves[off + i]);
        assert(m[j] == moves[off + j]);
    }
    assert forall|j: int| 0 <= j < more.len() implies hex(
        sha256(now[parts((#[trigger] more[j]).new_path())]),
    ) == more[j].checksum by {
        assert(more[j] == items[off + j]);
        assert(now[m[j].from] == files[m[j].from]);
    }
}

proof fn lemma_units_rolled_back(
    files: Files,
    units: Seq<Seq<RenameModel>>,
    runs: Seq<Seq<EventModel>>,
)
    requires
        runs.len() <= units.len(),
        in_place(files, items_of(records_of(units))),
        rolled_back(files, units, runs),
    ensures
        between(
            files,
            item_moves(items_of(records_of(units))),
            below(records_of(units.take(runs.len() as int)).len() as int),
            files_over(files, units, runs),
        ),
        forall|k: int| 0 <= k < runs.len() ==> #[trigger] outcomes_of(units, runs)[k],
    decreases runs.len(),
{
    let all = items_of(records_of(units));
    let moves = item_moves(all);
    if runs.len() == 0 {
        lemma_none_moved(files, moves);
        assert(units.take(0) =~= Seq::empty());
        assert(below(0) =~= Set::empty());
    } else {
        let t = runs.drop_last();
        let k = t.len() as int;
        let items = items_of(units[k]);
        let now = files_over(files, units, t);
        let off = records_of(units.take(k)).len() as int;
        lemma_units_rolled_back(files, units, t);
        lemma_records_prefix(units, k);
        assert forall|j: int| 0 <= j < items.len() implies #[trigger] items[j] == all[off + j] by {
            assert(records_of(units.take(k + 1))[off + j] == records_of(units)[off + j]);
        }
        lemma_stay_in_place(files, all, off, items, now);
        law_unit_taken_back(now, items, runs.last());
        let next = files_over(files, units, runs);
        lemma_moves_follow(files, moves, off, item_moves(items), now, next);
        assert forall|j: int| 0 <= j < runs.len() implies #[trigger] outcomes_of(
            units,
            runs,
        )[j] by {
            if j < k {
                assert(outcomes_of(units, t)[j]);
                assert(t[j] == runs[j]);
            }
        }
    }
}

proof fn lemma_records_multiset(units: Seq<Seq<RenameModel>>)
    ensures
        records_of(units).to_multiset() == records_in(units),
    decreases units.len(),
{
    broadcast use group_to_multiset_ensures;

    if units.len() > 0 {
        lemma_records_multiset(units.drop_last());
        lemma_multiset_commutative(records_of(units.drop_last()), units.last());
    } else {
        assert(Seq::<RenameModel>::empty().to_multiset() =~= records_in(units));
    }
}

/// Whether the files of records are in place does not depend on the order of the records.
proof fn lemma_reordered(files: Files, a: Seq<RenameModel>, b: Seq<RenameModel>)
    requires
        a.to_multiset() == b.to_multiset(),
        in_place(files, items_of(a)),
    ensures
        in_place(files, items_of(b)),
        forall|i: int| 0 <= i < a.len() ==> b.contains(#[trigger] a[i]),
        forall|i: int| 0 <= i < b.len() ==> a.contains(#[trigger] b[i]),
        a.len() == b.len(),
{
    broadcast use group_to_multiset_ensures;

    let ma = item_moves(items_of(a));
    let mb = item_moves(items_of(b));
    assert(a.no_duplicates()) by {
        assert forall|i: int, j: int| 0 <= i < a.len() && 0 <= j < a.len() && i != j implies a[i]
            != a[j] by {
            lemma_paths_differ(files, ma, i, j);
        }
    }
    assert(a.len() == a.to_multiset().len());
    assert(b.len() == b.to_multiset().len());
    a.lemma_multiset_has_no_duplicates();
    b.lemma_multiset_has_no_duplicates_conv();
    assert forall|i: int| 0 <= i < b.len() implies a.contains(#[trigger] b[i]) by {
        assert(b.contains(b[i]));
        assert(b.to_multiset().count(b[i]) > 0);
    }
    assert forall|i: int| 0 <= i < a.len() implies b.contains(#[trigger] a[i]) by {
        assert(a.contains(a[i]));
        assert(a.to_multiset().count(a[i]) > 0);
    }
    assert forall|i: int| 0 <= i < mb.len() implies files.contains_key((#[trigger] mb[i]).from)
        && !files.contains_key(mb[i].to) by {
        let k = choose|k: int| 0 <= k < a.len() && a[k] == b[i];
        assert(files.contains_key(ma[k].from));
    }
    assert forall|i: int, j: int| 0 <= i < j < mb.len() implies (#[trigger] mb[i]).from != (
    #[trigger] mb[j]).from && mb[i].to != mb[j].to by {
        let k = choose|k: int| 0 <= k < a.len() && a[k] == b[i];
        let m = choose|m: int| 0 <= m < a.len() && a[m] == b[j];
        assert(b[i] != b[j]);
        lemma_paths_differ(files, ma, k, m);
    }
    assert forall|i: int| 0 <= i < b.len() implies hex(
        sha256(files[parts((#[trigger] items_of(b)[i]).new_path())]),
    ) == items_of(b)[i].checksum by {
        let k = choose|k: int| 0 <= k < a.len() && a[k] == b[i];
        assert(items_of(a)[k] == items_of(b)[i]);
    }
}

proof fn lemma_all_chosen(renames: Seq<RenameModel>, session_id: i64, outcomes: Seq<bool>)
    requires
        outcomes.len() <= units_of(renames).len(),
        forall|k: int| 0 <= k < outcomes.len() ==> #[trigger] outcomes[k],
    ensures
        ({
            let run = new_run(renames, None, session_id);
            let n = outcomes.len() as int;
            &&& run_through(run, outcomes) == (UndoModel { next: n, done: n, failed: 0, ..run })
            &&& recorded_by(run, outcomes) == reversals_of(
                records_of(run.units.take(n)),
                session_id,
            )
        }),
    decreases outcomes.len(),
{
    let run = new_run(renames, None, session_id);
    let n = outcomes.len() as int;
    if n == 0 {
        assert(run.units.take(0) =~= Seq::empty());
        assert(recorded_by(run, outcomes) =~= reversals_of(
            records_of(run.units.take(0)),
            session_id,
        ));
    } else {
        let t = outcomes.drop_last();
        assert forall|k: int| 0 <= k < t.len() implies #[trigger] t[k] by {
            assert(outcomes[k]);
        }
        lemma_all_chosen(renames, session_id, t);
        assert(outcomes[n - 1]);
        lemma_records_prefix(run.units, n - 1);
        assert(recorded_by(run, outcomes) =~= reversals_of(
            records_of(run.units.take(n)),
            session_id,
        ));
    }
}

proof fn lemma_reversals_multiset(a: Seq<RenameModel>, b: Seq<RenameModel>, session_id: i64)
    requires
        a.to_multiset() == b.to_multiset(),
    ensures
        reversals_of(a, session_id).to_multiset() == reversals_of(b, session_id).to_multiset(),
    decreases a.len(),
{
    broadcast use group_to_multiset_ensures;
    broadcast use vstd::multiset::group_multiset_axioms;

    assert(a.len() == a.to_multiset().len());
    assert(b.len() == b.to_multiset().len());
    if a.len() == 0 {
        assert(reversals_of(a, session_id) =~= reversals_of(b, session_id));
    } else {
        let x = a.last();
        let t = a.drop_last();
        assert(a =~= t.push(x));
        assert(a.contains(x)) by {
            assert(a[a.len() - 1] == x);
        }
        assert(b.to_multiset().count(x) > 0);
        let i = choose|i: int| 0 <= i < b.len() && b[i] == x;
        let u = b.remove(i);
        assert(u.to_multiset() =~= t.to_multiset());
        lemma_reversals_multiset(t, u, session_id);
        assert(reversals_of(a, session_id) =~= reversals_of(t, session_id).push(
            reversal_of(x, session_id),
        ));
        let rb = reversals_of(b, session_id);
        assert(rb.remove(i) =~= reversals_of(u, session_id));
        assert(rb[i] == reversal_of(x, session_id));
        assert(rb.contains(rb[i]));
        assert(rb.to_multiset() =~= rb.remove(i).to_multiset().insert(rb[i]));
    }
}

/// The files that have their old names back are in place to be renamed again.
proof fn lemma_back_in_place(files: Files, renames: Seq<RenameModel>, now: Files, session_id: i64)
    requires
        in_place(files, items_of(renames)),
        between(files, item_moves(items_of(renames)), below(renames.len() as int), now),
    ensures
        in_place(now, items_of(reversals_of(renames, session_id))),
{
    let items = items_of(renames);
    let moves = item_moves(items);
    let back = items_of(reversals_of(renames, session_id));
    let m = item_moves(back);
    assert forall|i: int| 0 <= i < m.len() implies (#[trigger] m[i]).from == moves[i].to && m[i].to
        == moves[i].from && now.contains_key(m[i].from) && !now.contains_key(m[i].to)
        && now[m[i].from] == files[moves[i].from] by {
        assert(below(renames.len() as int).contains(i));
        assert(!now.contains_key(moves[i].from));
    }
    assert forall|i: int, j: int| 0 <= i < j < m.len() implies (#[trigger] m[i]).from != (
    #[trigger] m[j]).from && m[i].to != m[j].to by {
        lemma_paths_differ(files, moves, i, j);
    }
    assert forall|i: int| 0 <= i < back.len() implies hex(
        sha256(now[parts((#[trigger] back[i]).new_path())]),
    ) == back[i].checksum by {
        assert(m[i].from == moves[i].to);
        assert(items[i].checksum == back[i].checksum);
    }
}

/// A session is taken back as a whole. Where the files of its renames are in place, each
/// with its old name free, and no rename is refused, every unit is restored, every file is
/// at its old name, and nothing else has changed. The session that is recorded says which
/// session it takes back; its renames are those of that session with the names swapped,
/// and their files are in place, so that it can be taken back in its turn.
pub proof fn law_session_undone(
    files: Files,
    renames: Seq<RenameModel>,
    session_id: i64,
    undo_id: i64,
    now: i64,
    original: Option<SessionModel>,
    runs: Seq<Seq<EventModel>>,
)
    requires
        in_place(files, items_of(renames)),
        runs.len() == units_of(renames).len(),
        rolled_back(files, units_of(renames), runs),
    ensures
        ({
            let run = new_run(renames, None, undo_id);
            let outcomes = outcomes_of(run.units, runs);
            let recorded = recorded_by(run, outcomes);
            let after = files_over(files, run.units, runs);
            &&& forall|k: int| 0 <= k < outcomes.len() ==> #[trigger] outcomes[k]
            &&& run_through(run, outcomes) == (UndoModel {
                next: run.units.len() as int,
                done: run.units.len() as int,
                failed: 0,
                ..run
            })
            &&& between(files, item_moves(items_of(renames)), below(renames.len() as int), after)
            &&& undo_record(undo_id, now, session_id, original).undo_of == Some(session_id)
            &&& recorded.to_multiset() == reversals_of(renames, undo_id).to_multiset()
            &&& in_place(after, items_of(recorded))
        }),
{
    let run = new_run(renames, None, undo_id);
    let units = run.units;
    let outcomes = outcomes_of(units, runs);
    let after = files_over(files, units, runs);
    let flat = records_of(units);
    law_units_cover(renames);
    lemma_records_multiset(units);
    lemma_reordered(files, renames, flat);
    lemma_units_rolled_back(files, units, runs);
    assert(units.take(runs.len() as int) =~= units);
    lemma_all_chosen(renames, undo_id, outcomes);
    lemma_reversals_multiset(flat, renames, undo_id);
    lemma_back_in_place(files, flat, after, undo_id);
    lemma_between_reordered(files, flat, renames, after);
}

/// Which files have moved does not depend on the order of the moves, where all have.
proof fn lemma_between_reordered(
    files: Files,
    a: Seq<RenameModel>,
    b: Seq<RenameModel>,
    now: Files,
)
    requires
        forall|i: int| 0 <= i < a.len() ==> b.contains(#[trigger] a[i]),
        forall|i: int| 0 <= i < b.len() ==> a.contains(#[trigger] b[i]),
        between(files, item_moves(items_of(a)), below(a.len() as int), now),
    ensures
        between(files, item_moves(items_of(b)), below(b.len() as int), now),
{
    let ma = item_moves(items_of(a));
    let mb = item_moves(items_of(b));
    let done = below(b.len() as int);
    assert forall|i: int| 0 <= i < mb.len() implies if done.contains(i) {
        !now.contains_key((#[trigger] mb[i]).from) && now.contains_key(mb[i].to)
            && now[mb[i].to] == files[mb[i].from]
    } else {
        now.contains_key(mb[i].from) && now[mb[i].from] == files[mb[i].from] && !now.contains_key(
            mb[i].to,
        )
    } by {
        let k = choose|k: int| 0 <= k < a.len() && a[k] == b[i];
        assert(ma[k] == mb[i]);
        assert(below(a.len() as int).contains(k));
    }
    assert forall|p: Seq<Seq<char>>| untouched(mb, p) implies #[trigger] now.contains_key(p)
        == files.contains_key(p) && (files.contains_key(p) ==> now[p] == files[p]) by {
        assert forall|i: int| 0 <= i < ma.len() implies (#[trigger] ma[i]).from != p && ma[i].to
            != p by {
            let k = choose|k: int| 0 <= k < b.len() && b[k] == a[i];
            assert(mb[k] == ma[i]);
        }
        assert(untouched(ma, p));
    }
}

/// Taking back the session that took a session back does that session again: the files
/// are what they were before either, and what is recorded is the renames of the first
/// session.
pub proof fn law_session_redone(
    files: Files,
    renames: Seq<RenameModel>,
    undo_id: i64,
    redo_id: i64,
    runs: Seq<Seq<EventModel>>,
    again: Seq<Seq<EventModel>>,
)
    requires
        in_place(files, items_of(renames)),
        runs.len() == units_of(renames).len(),
        rolled_back(files, units_of(renames), runs),
        ({
            let run = new_run(renames, None, undo_id);
            let recorded = recorded_by(run, outcomes_of(run.units, runs));
            &&& again.len() == units_of(recorded).len()
            &&& rolled_back(
                files_over(files, run.units, runs),
                units_of(recorded),
                again,
            )
        }),
    ensures
        ({
            let run = new_run(renames, None, undo_id);
            let recorded = recorded_by(run, outcomes_of(run.units, runs));
            let redo = new_run(recorded, None, redo_id);
            &&& files_over(files_over(files, run.units, runs), redo.units, again) == files
            &&& recorded_by(redo, outcomes_of(redo.units, again)).to_multiset() == Seq::new(
                renames.len(),
                |i: int| RenameModel { session_id: redo_id, ..renames[i] },
            ).to_multiset()
        }),
{
    let run = new_run(renames, None, undo_id);
    let recorded = recorded_by(run, outcomes_of(run.units, runs));
    let after = files_over(files, run.units, runs);
    let redo = new_run(recorded, None, redo_id);
    let end = files_over(after, redo.units, again);
    law_session_undone(files, renames, 0, undo_id, 0, None, runs);
    law_session_undone(after, recorded, undo_id, redo_id, 0, None, again);
    let back = reversals_of(renames, undo_id);
    lemma_reordered(after, recorded, back);
    lemma_reordered(after, back, recorded);
    lemma_between_reordered(after, recorded, back, end);
    lemma_there_and_back(files, renames, undo_id, after, end);
    lemma_reversals_multiset(recorded, back, redo_id);
    assert(reversals_of(back, redo_id) =~= Seq::new(
        renames.len(),
        |i: int| RenameModel { session_id: redo_id, ..renames[i] },
    ));
}

proof fn lemma_there_and_back(
    files: Files,
    renames: Seq<RenameModel>,
    undo_id: i64,
    after: Files,
    end: Files,
)
    requires
        in_place(files, items_of(renames)),
        between(files, item_moves(items_of(renames)), below(renames.len() as int), after),
        between(
            after,
            item_moves(items_of(reversals_of(renames, undo_id))),
            below(renames.len() as int),
            end,
        ),
    ensures
        end == files,
{
    let m = item_moves(items_of(renames));
    let w = item_moves(items_of(reversals_of(renames, undo_id)));
    assert forall|i: int| 0 <= i < m.len() implies (#[trigger] m[i]).from == w[i].to && m[i].to
        == w[i].from && end.contains_key(m[i].from) && end[m[i].from] == files[m[i].from]
        && !end.contains_key(m[i].to) && files.contains_key(m[i].from) && !files.contains_key(
        m[i].to,
    ) by {
        assert(below(renames.len() as int).contains(i));
        assert(!end.contains_key(w[i].from));
        assert(!after.contains_key(m[i].from));
    }
    assert forall|p: Seq<Seq<char>>| #[trigger]
        end.contains_key(p) == files.contains_key(p) && (files.contains_key(p) ==> end[p]
            == files[p]) by {
        if untouched(m, p) {
            assert forall|i: int| 0 <= i < w.len() implies (#[trigger] w[i]).from != p && w[i].to
                != p by {
                assert(m[i].from != p && m[i].to != p);
            }
            assert(untouched(w, p));
            assert(after.contains_key(p) == files.contains_key(p));
        } else {
            let i = choose|i: int|
                0 <= i < m.len() && ((#[trigger] m[i]).from == p || m[i].to == p);
            assert(m[i].from == w[i].to);
        }
    }
    assert(end =~= files);
}

} // verus!
