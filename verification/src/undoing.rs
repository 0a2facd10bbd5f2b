//! What taking a session back comes to: which units, in which order, and what is recorded.

use vstd::prelude::*;
use vstd::string::*;

use crate::state::RenameModel;
use crate::text::decimal;
use crate::undo::{
    chosen_from, items_of, label_of, law_units_apart, lemma_unit_at, new_run, recorded_by,
    reversal_of, reversals_of, run_through, selected, undo_refusal, unit_at, units_of, UndoModel,
};

verus! {

// ---------------------------------------------------------------------------
// Units
// ---------------------------------------------------------------------------
/// One more record joins the unit in which a record has its id, at its end. Without an id,
/// or where no unit has it, it is a unit of its own, the last one. The other units stay as
/// they are.
pub proof fn law_unit_grows(renames: Seq<RenameModel>, r: RenameModel, i: int, k: int)
    ensures
        ({
            let u = units_of(renames);
            let w = units_of(renames.push(r));
            &&& r.unit_id is Some && 0 <= i < u.len() && 0 <= k < u[i].len() && u[i][k].unit_id
                == r.unit_id ==> w == u.update(i, u[i].push(r))
            &&& (r.unit_id is None || forall|a: int, b: int|
                0 <= a < u.len() && 0 <= b < u[a].len() ==> (#[trigger] u[a][b]).unit_id
                    != r.unit_id) ==> w == u.push(seq![r])
        }),
{
    let u = units_of(renames);
    law_units_apart(renames);
    assert(renames.push(r).drop_last() =~= renames);
    if let Some(uid) = r.unit_id {
        lemma_unit_at(u, uid);
        if 0 <= i < u.len() && 0 <= k < u[i].len() && u[i][k].unit_id == r.unit_id {
            assert(u[i][0].unit_id == r.unit_id);
            let p = unit_at(u, uid)->0;
            if p < i {
                assert(u[i][0].unit_id != u[p][0].unit_id);
            }
            if i < p {
                assert(u[p][0].unit_id != u[i][0].unit_id);
            }
        }
        if forall|a: int, b: int|
            0 <= a < u.len() && 0 <= b < u[a].len() ==> (#[trigger] u[a][b]).unit_id
                != r.unit_id {
            if let Some(p) = unit_at(u, uid) {
                assert(u[p].len() > 0);
                assert(u[p][0].unit_id != r.unit_id);
            }
        }
    }
}

/// A unit in words is its renames in words, one behind the other.
pub proof fn law_label(unit: Seq<RenameModel>, r: RenameModel)
    ensures
        label_of(seq![r]) == r.old_name + " → "@ + r.new_name,
        unit.len() > 0 ==> label_of(unit.push(r)) == label_of(unit) + "  ·  "@ + (r.old_name
            + " → "@ + r.new_name),
{
    assert(unit.push(r).drop_last() =~= unit);
}

/// A unit of which nothing was stored is chosen, and any other as it was stored.
pub proof fn law_selected(stored: Option<Seq<bool>>, n: nat, i: int)
    requires
        0 <= i < n,
    ensures
        selected(stored, n).len() == n,
        stored is None ==> selected(stored, n)[i],
        stored matches Some(s) ==> (i < s.len() ==> selected(stored, n)[i] == s[i]) && (i
            >= s.len() ==> selected(stored, n)[i]),
{
}

// ---------------------------------------------------------------------------
// Runs
// ---------------------------------------------------------------------------
proof fn lemma_next_chosen(chosen: Seq<bool>, i: int)
    requires
        0 <= i <= chosen.len(),
    ensures
        i <= chosen_from(chosen, i) <= chosen.len(),
        chosen_from(chosen, i) < chosen.len() ==> chosen[chosen_from(chosen, i)],
        forall|j: int| i <= j < chosen_from(chosen, i) ==> !#[trigger] chosen[j],
    decreases chosen.len() - i,
{
    if i < chosen.len() && !chosen[i] {
        lemma_next_chosen(chosen, i + 1);
    }
}

/// A run begins at the first unit that is chosen, with nothing done and nothing failed.
pub proof fn law_undo_begins(
    renames: Seq<RenameModel>,
    stored: Option<Seq<bool>>,
    session_id: i64,
)
    ensures
        ({
            let run = new_run(renames, stored, session_id);
            &&& run.units == units_of(renames)
            &&& run.chosen == selected(stored, run.units.len())
            &&& run.session_id == session_id
            &&& run.done == 0 && run.failed == 0
            &&& 0 <= run.next <= run.units.len()
            &&& run.next < run.units.len() ==> run.chosen[run.next]
            &&& forall|j: int| 0 <= j < run.next ==> !#[trigger] run.chosen[j]
        }),
{
    let units = units_of(renames);
    lemma_next_chosen(selected(stored, units.len()), 0);
}

/// After a unit a run goes on to the next one that is chosen, passing over none that is. The
/// unit counts as done if it was restored, and as failed otherwise.
pub proof fn law_undo_goes_on(run: UndoModel, restored: bool)
    requires
        0 <= run.next < run.units.len(),
        run.chosen.len() == run.units.len(),
    ensures
        ({
            let t = run.after(restored);
            &&& t.units == run.units && t.chosen == run.chosen && t.session_id == run.session_id
            &&& run.next < t.next <= run.units.len()
            &&& t.next < run.units.len() ==> run.chosen[t.next]
            &&& forall|j: int| run.next < j < t.next ==> !#[trigger] run.chosen[j]
            &&& restored ==> t.done == run.done + 1 && t.failed == run.failed
            &&& !restored ==> t.done == run.done && t.failed == run.failed + 1
        }),
{
    lemma_next_chosen(run.chosen, run.next + 1);
}

/// A unit that was restored is recorded as renames from the new names back to the old ones,
/// and one that was not as nothing.
pub proof fn law_undo_records(run: UndoModel, outcomes: Seq<bool>, restored: bool)
    ensures
        recorded_by(run, Seq::empty()).len() == 0,
        ({
            let at = run_through(run, outcomes);
            let before = recorded_by(run, outcomes);
            let after = recorded_by(run, outcomes.push(restored));
            let unit = at.units[at.next];
            &&& !restored ==> after == before
            &&& restored ==> {
                &&& after.len() == before.len() + unit.len()
                &&& after.take(before.len() as int) == before
                &&& forall|i: int|
                    0 <= i < unit.len() ==> {
                        let r = #[trigger] after[before.len() + i];
                        &&& r.old_name == unit[i].new_name
                        &&& r.new_name == unit[i].old_name
                        &&& r.dir == unit[i].dir
                        &&& r.checksum == unit[i].checksum
                        &&& r.unit_id == unit[i].unit_id
                        &&& r.session_id == at.session_id
                    }
            }
        }),
{
    let at = run_through(run, outcomes);
    let before = recorded_by(run, outcomes);
    let after = recorded_by(run, outcomes.push(restored));
    let unit = at.units[at.next];
    assert(outcomes.push(restored).drop_last() =~= outcomes);
    if restored {
        assert(after == before + reversals_of(unit, at.session_id));
        assert(after.take(before.len() as int) =~= before);
        assert forall|i: int| 0 <= i < unit.len() implies ({
            let r = #[trigger] after[before.len() + i];
            &&& r.old_name == unit[i].new_name
            &&& r.new_name == unit[i].old_name
            &&& r.dir == unit[i].dir
            &&& r.checksum == unit[i].checksum
            &&& r.unit_id == unit[i].unit_id
            &&& r.session_id == at.session_id
        }) by {
            assert(after[before.len() + i] == reversal_of(unit[i], at.session_id));
        }
    } else {
        assert(before + Seq::<RenameModel>::empty() =~= before);
    }
}

/// The renames of a unit taken back: the names are swapped, and the session is the one that
/// records them.
pub proof fn law_reversals(unit: Seq<RenameModel>, session_id: i64, i: int)
    requires
        0 <= i < unit.len(),
    ensures
        reversals_of(unit, session_id).len() == unit.len(),
        ({
            let r = reversals_of(unit, session_id)[i];
            &&& r.old_name == unit[i].new_name
            &&& r.new_name == unit[i].old_name
            &&& r.dir == unit[i].dir
            &&& r.checksum == unit[i].checksum
            &&& r.unit_id == unit[i].unit_id
            &&& r.session_id == session_id
        }),
{
}

/// Each record of a unit is a file that is to get its old name back: the one with the
/// checksum of the record, in its directory, under its new name.
pub proof fn law_items(unit: Seq<RenameModel>, i: int)
    requires
        0 <= i < unit.len(),
    ensures
        items_of(unit).len() == unit.len(),
        items_of(unit)[i].dir == unit[i].dir,
        items_of(unit)[i].checksum == unit[i].checksum,
        items_of(unit)[i].old_name == unit[i].old_name,
        items_of(unit)[i].new_name == unit[i].new_name,
{
}

/// What is said at the end counts the units that were restored and those that were not.
pub proof fn law_undo_text(run: UndoModel)
    requires
        run.done >= 0,
        run.failed >= 0,
    ensures
        run.text() == "Undo: "@ + decimal(run.done as nat) + " unit(s) ok, "@ + decimal(
            run.failed as nat,
        ) + " failed"@,
{
}

/// A session is taken back unless results are awaited or it has no renames.
pub proof fn law_undo_refusal(pending: bool, n: nat)
    ensures
        undo_refusal(pending, n) is None <==> !pending && n > 0,
        pending ==> undo_refusal(pending, n) == Some("处理中,请稍候再还原。"@),
        !pending && n == 0 ==> undo_refusal(pending, n) == Some(
            "Nothing to undo in this session."@,
        ),
{
}

} // verus!
