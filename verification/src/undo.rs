//! Taking sessions back: units, selections and what is recorded.

use vstd::multiset::Multiset;
use vstd::prelude::*;
use vstd::seq_lib::*;
use vstd::string::*;

use crate::execute::{ItemModel, RollbackItem, RollbackOutcome};
use crate::pattern::{copy_opt, opt_view};
use crate::sorting::{count_of, lemma_count_bound, models};
use crate::state::{RenameModel, RenameRecord};
use crate::text::{copy_of, decimal, decimal_of, same_str};

verus! {

// ---------------------------------------------------------------------------
// Units
// ---------------------------------------------------------------------------
/// What the records of each unit stand for.
pub open spec fn unit_models(v: Seq<Vec<RenameRecord>>) -> Seq<Seq<RenameModel>> {
    Seq::new(v.len(), |i: int| models(v[i]@))
}

/// The first unit that was begun with the id `uid`.
pub open spec fn unit_at(units: Seq<Seq<RenameModel>>, uid: Seq<char>) -> Option<int>
    decreases units.len(),
{
    if units.len() == 0 {
        None
    } else if let Some(i) = unit_at(units.drop_last(), uid) {
        Some(i)
    } else if units.last()[0].unit_id == Some(uid) {
        Some(units.len() - 1)
    } else {
        None
    }
}

/// The units with one more record: in the unit with its id, or else in one of its own.
pub open spec fn put_record(units: Seq<Seq<RenameModel>>, r: RenameModel) -> Seq<Seq<RenameModel>> {
    let place = match r.unit_id {
        Some(uid) => unit_at(units, uid),
        None => None,
    };
    match place {
        Some(i) => units.update(i, units[i].push(r)),
        None => units.push(seq![r]),
    }
}

/// The units of a session: records with the same id are one unit, and a record without
/// an id is a unit of its own.
pub open spec fn units_of(renames: Seq<RenameModel>) -> Seq<Seq<RenameModel>>
    decreases renames.len(),
{
    if renames.len() == 0 {
        Seq::empty()
    } else {
        put_record(units_of(renames.drop_last()), renames.last())
    }
}

/// The first unit that was begun with the id `uid`.
fn find_unit(units: &Vec<Vec<RenameRecord>>, uid: &str) -> (r: Option<usize>)
    requires
        forall|i: int| 0 <= i < units@.len() ==> (#[trigger] units@[i])@.len() > 0,
    ensures
        match r {
            Some(i) => i < units@.len() && unit_at(unit_models(units@), uid@) == Some(i as int),
            None => unit_at(unit_models(units@), uid@) is None,
        },
{
    let ghost all = unit_models(units@);
    let mut i: usize = 0;
    while i < units.len()
        invariant
            forall|i: int| 0 <= i < units@.len() ==> (#[trigger] units@[i])@.len() > 0,
            all == unit_models(units@),
            i <= units@.len(),
            unit_at(all.take(i as int), uid@) is None,
        decreases units@.len() - i,
    {
        proof {
            assert(all.take(i + 1).drop_last() =~= all.take(i as int));
            assert(all.take(i + 1).last() == models(units@[i as int]@));
            assert(models(units@[i as int]@)[0] == units@[i as int]@[0]@);
        }
        if let Some(u) = &units[i][0].unit_id {
            if same_str(u.as_str(), uid) {
                proof {
                    lemma_unit_at_prefix(all, uid@, i + 1);
                }
                return Some(i);
            }
        }
        i += 1;
    }
    assert(all.take(i as int) =~= all);
    None
}

proof fn lemma_unit_at_prefix(units: Seq<Seq<RenameModel>>, uid: Seq<char>, n: int)
    requires
        0 <= n <= units.len(),
        unit_at(units.take(n), uid) is Some,
    ensures
        unit_at(units, uid) == unit_at(units.take(n), uid),
    decreases units.len(),
{
    if n == units.len() {
        assert(units.take(n) =~= units);
    } else {
        assert(units.drop_last().take(n) =~= units.take(n));
        lemma_unit_at_prefix(units.drop_last(), uid, n);
    }
}

/// The units of a session, in the order in which they were begun.
pub fn group_units(renames: &Vec<RenameRecord>) -> (r: Vec<Vec<RenameRecord>>)
    ensures
        unit_models(r@) == units_of(models(renames@)),
        forall|i: int| 0 <= i < r@.len() ==> (#[trigger] r@[i])@.len() > 0,
{
    let ghost all = models(renames@);
    let mut units: Vec<Vec<RenameRecord>> = Vec::new();
    let mut i: usize = 0;
    assert(unit_models(units@) =~= units_of(all.take(0)));
    while i < renames.len()
        invariant
            all == models(renames@),
            i <= renames@.len(),
            unit_models(units@) == units_of(all.take(i as int)),
            forall|i: int| 0 <= i < units@.len() ==> (#[trigger] units@[i])@.len() > 0,
        decreases renames@.len() - i,
    {
        let ghost before = unit_models(units@);
        let ghost was = units@;
        let rec = renames[i].clone();
        let ghost rm = rec@;
        proof {
            assert(all.take(i + 1).drop_last() =~= all.take(i as int));
            assert(all.take(i + 1).last() == rm);
        }
        let place = match &rec.unit_id {
            Some(uid) => find_unit(&units, uid.as_str()),
            None => None,
        };
        match place {
            Some(k) => {
                units[k].push(rec);
                proof {
                    let after = unit_models(units@);
                    assert(after[k as int] =~= before[k as int].push(rm));
                    assert(after =~= before.update(k as int, before[k as int].push(rm)));
                    assert forall|j: int| 0 <= j < units@.len() implies (
                    #[trigger] units@[j])@.len() > 0 by {
                        if j != k {
                            assert(units@[j] == was[j]);
                        }
                    }
                }
            },
            None => {
                let mut unit: Vec<RenameRecord> = Vec::new();
                unit.push(rec);
                assert(models(unit@) =~= seq![rm]);
                units.push(unit);
                proof {
                    assert(unit_models(units@) =~= before.push(seq![rm]));
                    assert forall|j: int| 0 <= j < units@.len() implies (
                    #[trigger] units@[j])@.len() > 0 by {
                        if j < was.len() {
                            assert(units@[j] == was[j]);
                        }
                    }
                }
            },
        }
        i += 1;
    }
    assert(all.take(i as int) =~= all);
    units
}

/// How often each record stands in the units.
pub open spec fn records_in(units: Seq<Seq<RenameModel>>) -> Multiset<RenameModel>
    decreases units.len(),
{
    if units.len() == 0 {
        Multiset::empty()
    } else {
        records_in(units.drop_last()).add(units.last().to_multiset())
    }
}

proof fn lemma_records_update(units: Seq<Seq<RenameModel>>, i: int, r: RenameModel)
    requires
        0 <= i < units.len(),
    ensures
        records_in(units.update(i, units[i].push(r))) == records_in(units).insert(r),
    decreases units.len(),
{
    broadcast use vstd::multiset::group_multiset_axioms;
    broadcast use group_to_multiset_ensures;

    let u = units.update(i, units[i].push(r));
    if i == units.len() - 1 {
        assert(u.drop_last() =~= units.drop_last());
    } else {
        assert(u.drop_last() =~= units.drop_last().update(i, units[i].push(r)));
        assert(units.drop_last()[i] == units[i]);
        assert(u.last() == units.last());
        lemma_records_update(units.drop_last(), i, r);
    }
    assert(records_in(u) =~= records_in(units).insert(r));
}

/// The units are never empty, the one with an id was begun with it, and it is in range.
pub proof fn lemma_unit_at(units: Seq<Seq<RenameModel>>, uid: Seq<char>)
    ensures
        match unit_at(units, uid) {
            Some(i) => 0 <= i < units.len() && units[i][0].unit_id == Some(uid),
            None => forall|i: int|
                0 <= i < units.len() ==> (#[trigger] units[i])[0].unit_id != Some(uid),
        },
    decreases units.len(),
{
    if units.len() > 0 {
        let t = units.drop_last();
        lemma_unit_at(t, uid);
        assert forall|i: int| 0 <= i < t.len() implies t[i] == units[i] by {}
        if unit_at(units, uid) is None {
            assert forall|i: int| 0 <= i < units.len() implies (#[trigger] units[i])[0].unit_id
                != Some(uid) by {
                if i < t.len() {
                    assert(t[i][0].unit_id != Some(uid));
                }
            }
        }
    }
}

/// Every record stands in one unit: the units hold each record as often as it was given.
pub proof fn law_units_cover(renames: Seq<RenameModel>)
    ensures
        records_in(units_of(renames)) == renames.to_multiset(),
    decreases renames.len(),
{
    broadcast use vstd::multiset::group_multiset_axioms;
    broadcast use group_to_multiset_ensures;

    assert(Seq::<RenameModel>::empty().to_multiset() =~= Multiset::empty());
    if renames.len() == 0 {
        assert(renames =~= Seq::empty());
    } else {
        let t = renames.drop_last();
        let r = renames.last();
        let u = units_of(t);
        law_units_cover(t);
        assert(renames =~= t.push(r));
        let place = match r.unit_id {
            Some(uid) => unit_at(u, uid),
            None => None,
        };
        match place {
            Some(i) => {
                lemma_unit_at(u, r.unit_id->0);
                lemma_records_update(u, i, r);
            },
            None => {
                assert(u.push(seq![r]).drop_last() =~= u);
                assert(seq![r] =~= Seq::<RenameModel>::empty().push(r));
                assert(records_in(u.push(seq![r])) =~= records_in(u).insert(r));
            },
        }
    }
}

/// The records of a unit with more than one have the same id, and no two units have the
/// same id.
pub open spec fn units_apart(units: Seq<Seq<RenameModel>>) -> bool {
    &&& forall|i: int| 0 <= i < units.len() ==> (#[trigger] units[i]).len() > 0
    &&& forall|i: int, k: int|
        0 <= i < units.len() && 0 < k < units[i].len() ==> units[i][0].unit_id is Some && (
        #[trigger] units[i][k]).unit_id == units[i][0].unit_id
    &&& forall|i: int, j: int|
        0 <= i < j < units.len() && (#[trigger] units[i])[0].unit_id is Some ==> (
        #[trigger] units[j])[0].unit_id != units[i][0].unit_id
}

/// Units are kept apart by their ids: two records are in one unit only where they have
/// the same id, and records with the same id are in one unit.
pub proof fn law_units_apart(renames: Seq<RenameModel>)
    ensures
        units_apart(units_of(renames)),
    decreases renames.len(),
{
    if renames.len() > 0 {
        let r = renames.last();
        let u = units_of(renames.drop_last());
        law_units_apart(renames.drop_last());
        let w = units_of(renames);
        let place = match r.unit_id {
            Some(uid) => unit_at(u, uid),
            None => None,
        };
        if r.unit_id is Some {
            lemma_unit_at(u, r.unit_id->0);
        }
        match place {
            Some(p) => {
                assert(w[p] == u[p].push(r));
                assert forall|i: int, k: int|
                    0 <= i < w.len() && 0 < k < w[i].len() implies w[i][0].unit_id is Some && (
                #[trigger] w[i][k]).unit_id == w[i][0].unit_id by {
                    if k < u[i].len() {
                        assert(w[i][k] == u[i][k]);
                        assert(w[i][0] == u[i][0]);
                    }
                }
                assert forall|i: int, j: int|
                    0 <= i < j < w.len() && (#[trigger] w[i])[0].unit_id is Some implies (
                #[trigger] w[j])[0].unit_id != w[i][0].unit_id by {
                    assert(w[i][0] == u[i][0]);
                    assert(w[j][0] == u[j][0]);
                }
            },
            None => {
                assert forall|i: int, k: int|
                    0 <= i < w.len() && 0 < k < w[i].len() implies w[i][0].unit_id is Some && (
                #[trigger] w[i][k]).unit_id == w[i][0].unit_id by {
                    assert(w[i][k] == u[i][k]);
                }
                assert forall|i: int, j: int|
                    0 <= i < j < w.len() && (#[trigger] w[i])[0].unit_id is Some implies (
                #[trigger] w[j])[0].unit_id != w[i][0].unit_id by {
                    assert(w[i] == u[i]);
                    if j < u.len() {
                        assert(w[j] == u[j]);
                    }
                }
            },
        }
    }
}

/// The records with the id `uid`, in their order.
pub open spec fn with_id(renames: Seq<RenameModel>, uid: Seq<char>) -> Seq<RenameModel>
    decreases renames.len(),
{
    if renames.len() == 0 {
        Seq::empty()
    } else if renames.last().unit_id == Some(uid) {
        with_id(renames.drop_last(), uid).push(renames.last())
    } else {
        with_id(renames.drop_last(), uid)
    }
}

/// The records that are the first with their id or have none, in their order.
pub open spec fn first_ones(renames: Seq<RenameModel>) -> Seq<RenameModel>
    decreases renames.len(),
{
    if renames.len() == 0 {
        Seq::empty()
    } else {
        let before = first_ones(renames.drop_last());
        match renames.last().unit_id {
            Some(uid) => if with_id(renames.drop_last(), uid).len() > 0 {
                before
            } else {
                before.push(renames.last())
            },
            None => before.push(renames.last()),
        }
    }
}

/// What a unit holds that begins with the record `r`.
pub open spec fn unit_from(renames: Seq<RenameModel>, r: RenameModel) -> Seq<RenameModel> {
    match r.unit_id {
        Some(uid) => with_id(renames, uid),
        None => seq![r],
    }
}

proof fn lemma_id_known(renames: Seq<RenameModel>, uid: Seq<char>)
    ensures
        with_id(renames, uid).len() > 0 ==> unit_at(units_of(renames), uid) is Some,
    decreases renames.len(),
{
    if renames.len() > 0 {
        let t = renames.drop_last();
        let r = renames.last();
        let u = units_of(t);
        let w = units_of(renames);
        lemma_id_known(t, uid);
        lemma_unit_at(u, uid);
        lemma_unit_at(w, uid);
        law_units_apart(t);
        if with_id(renames, uid).len() > 0 {
            if let Some(i) = unit_at(u, uid) {
                if r.unit_id is Some {
                    lemma_unit_at(u, r.unit_id->0);
                }
                assert(w[i][0] == u[i][0]);
            } else {
                assert(w[u.len() as int][0] == r);
            }
        }
    }
}

/// The order is kept: the units come in the order of their first records, and each holds
/// the records with its id in the order in which they were given.
pub proof fn law_units_order(renames: Seq<RenameModel>)
    ensures
        units_of(renames).len() == first_ones(renames).len(),
        forall|i: int|
            0 <= i < units_of(renames).len() ==> {
                &&& (#[trigger] units_of(renames)[i]).len() > 0
                &&& units_of(renames)[i][0] == first_ones(renames)[i]
                &&& units_of(renames)[i] == unit_from(renames, first_ones(renames)[i])
            },
    decreases renames.len(),
{
    law_units_apart(renames);
    if renames.len() > 0 {
        let t = renames.drop_last();
        let r = renames.last();
        let u = units_of(t);
        let w = units_of(renames);
        law_units_order(t);
        law_units_apart(t);
        if let Some(uid) = r.unit_id {
            lemma_unit_at(u, uid);
            lemma_id_known(t, uid);
            if let Some(p) = unit_at(u, uid) {
                assert(u[p][0] == first_ones(t)[p]);
                assert(u[p] == with_id(t, uid));
            }
        }
        assert forall|i: int| 0 <= i < w.len() implies {
            &&& (#[trigger] w[i]).len() > 0
            &&& w[i][0] == first_ones(renames)[i]
            &&& w[i] == unit_from(renames, first_ones(renames)[i])
        } by {
            if i < u.len() {
                assert(u[i].len() > 0);
                assert(u[i] == unit_from(t, u[i][0]));
                if r.unit_id is Some && unit_at(u, r.unit_id->0) == Some(i) {
                    assert(w[i] =~= with_id(renames, r.unit_id->0));
                } else if r.unit_id is Some && u[i][0].unit_id == r.unit_id {
                    let p = unit_at(u, r.unit_id->0)->0;
                    assert(u[p][0].unit_id == u[i][0].unit_id);
                }
            } else {
                assert(w[i] =~= seq![r]);
                if r.unit_id is Some {
                    assert(with_id(t, r.unit_id->0).len() == 0);
                    assert(with_id(renames, r.unit_id->0) =~= seq![r]);
                }
            }
        }
    }
}

/// The renames of a unit in words.
pub open spec fn label_of(unit: Seq<RenameModel>) -> Seq<char>
    decreases unit.len(),
{
    if unit.len() == 0 {
        Seq::empty()
    } else {
        let last = unit.last().old_name + " → "@ + unit.last().new_name;
        if unit.len() == 1 {
            last
        } else {
            label_of(unit.drop_last()) + "  ·  "@ + last
        }
    }
}

/// The renames of a unit in words.
pub fn unit_label(unit: &Vec<RenameRecord>) -> (r: String)
    ensures
        r@ == label_of(models(unit@)),
{
    let ghost all = models(unit@);
    let mut s = String::new();
    let mut i: usize = 0;
    while i < unit.len()
        invariant
            all == models(unit@),
            i <= unit@.len(),
            s@ == label_of(all.take(i as int)),
        decreases unit@.len() - i,
    {
        proof {
            assert(all.take(i + 1).drop_last() =~= all.take(i as int));
            assert(all.take(i + 1).last() == unit@[i as int]@);
        }
        let mut last = copy_of(unit[i].old_name.as_str());
        last.append(" → ");
        last.append(unit[i].new_name.as_str());
        if i == 0 {
            s = last;
        } else {
            s.append("  ·  ");
            s.append(last.as_str());
            assert(s@ =~= label_of(all.take(i + 1)));
        }
        i += 1;
    }
    assert(all.take(i as int) =~= all);
    s
}

// ---------------------------------------------------------------------------
// Selections
// ---------------------------------------------------------------------------
/// What is selected of `n` units, where `stored` was selected before: units of which
/// nothing is known are selected.
pub open spec fn selected(stored: Option<Seq<bool>>, n: nat) -> Seq<bool> {
    Seq::new(
        n,
        |i: int|
            match stored {
                Some(s) => if i < s.len() {
                    s[i]
                } else {
                    true
                },
                None => true,
            },
    )
}

/// The flags of a selection that may be absent.
pub open spec fn opt_flags(v: Option<Vec<bool>>) -> Option<Seq<bool>> {
    match v {
        Some(v) => Some(v@),
        None => None,
    }
}

/// What is selected of `n` units, where `stored` was selected before.
pub fn selection_for(stored: &Option<Vec<bool>>, n: usize) -> (r: Vec<bool>)
    ensures
        r@ == selected(
            opt_flags(*stored),
            n as nat,
        ),
{
    let ghost s = opt_flags(*stored);
    let mut out: Vec<bool> = Vec::new();
    let mut i: usize = 0;
    while i < n
        invariant
            s == opt_flags(*stored),
            i <= n,
            out@.len() == i,
            forall|j: int| 0 <= j < i ==> out@[j] == selected(s, n as nat)[j],
        decreases n - i,
    {
        let b = match stored {
            Some(v) => if i < v.len() {
                v[i]
            } else {
                true
            },
            None => true,
        };
        out.push(b);
        i += 1;
    }
    assert(out@ =~= selected(s, n as nat));
    out
}

// ---------------------------------------------------------------------------
// Taking back
// ---------------------------------------------------------------------------
/// The files of a unit, which get their old names back.
pub open spec fn items_of(unit: Seq<RenameModel>) -> Seq<ItemModel> {
    Seq::new(
        unit.len(),
        |i: int|
            ItemModel {
                dir: unit[i].dir,
                checksum: unit[i].checksum,
                old_name: unit[i].old_name,
                new_name: unit[i].new_name,
            },
    )
}

/// The files of a unit, which get their old names back.
pub fn rollback_items(unit: &Vec<RenameRecord>) -> (r: Vec<RollbackItem>)
    ensures
        models(r@) == items_of(models(unit@)),
{
    let mut out: Vec<RollbackItem> = Vec::new();
    let mut i: usize = 0;
    while i < unit.len()
        invariant
            i <= unit@.len(),
            out@.len() == i,
            forall|j: int| 0 <= j < i ==> (#[trigger] out@[j])@ == items_of(models(unit@))[j],
        decreases unit@.len() - i,
    {
        out.push(
            RollbackItem {
                dir: copy_of(unit[i].dir.as_str()),
                checksum: copy_of(unit[i].checksum.as_str()),
                old_name: copy_of(unit[i].old_name.as_str()),
                new_name: copy_of(unit[i].new_name.as_str()),
            },
        );
        i += 1;
    }
    assert(models(out@) =~= items_of(models(unit@)));
    out
}

/// The rename that takes `r` back, as session `session_id` records it: the names are
/// swapped. Number and time are given when it is written.
pub open spec fn reversal_of(r: RenameModel, session_id: i64) -> RenameModel {
    RenameModel { session_id, old_name: r.new_name, new_name: r.old_name, ..r }
}

/// Taking back what took something back is doing it again.
pub proof fn law_reversal_twice(r: RenameModel, session_id: i64)
    ensures
        reversal_of(reversal_of(r, session_id), r.session_id) == r,
{
}

/// The rename that takes `r` back, as session `session_id` records it.
pub fn reversal(r: &RenameRecord, session_id: i64) -> (s: RenameRecord)
    ensures
        s@ == reversal_of(r@, session_id),
{
    RenameRecord {
        id: r.id,
        session_id,
        dir: copy_of(r.dir.as_str()),
        checksum: copy_of(r.checksum.as_str()),
        unit_id: copy_opt(&r.unit_id),
        old_name: copy_of(r.new_name.as_str()),
        new_name: copy_of(r.old_name.as_str()),
        at: r.at,
    }
}

/// The renames that take the records of a unit back.
pub open spec fn reversals_of(unit: Seq<RenameModel>, session_id: i64) -> Seq<RenameModel> {
    Seq::new(unit.len(), |i: int| reversal_of(unit[i], session_id))
}

/// What a [`UndoRun`] stands for.
pub struct UndoModel {
    pub units: Seq<Seq<RenameModel>>,
    pub chosen: Seq<bool>,
    pub session_id: i64,
    pub next: int,
    pub done: int,
    pub failed: int,
}

/// How far the undoing of a session has come.
#[derive(Debug)]
pub struct UndoRun {
    units: Vec<Vec<RenameRecord>>,
    chosen: Vec<bool>,
    session_id: i64,
    next: usize,
    done: usize,
    failed: usize,
}

impl View for UndoRun {
    type V = UndoModel;

    closed spec fn view(&self) -> UndoModel {
        UndoModel {
            units: unit_models(self.units@),
            chosen: self.chosen@,
            session_id: self.session_id,
            next: self.next as int,
            done: self.done as int,
            failed: self.failed as int,
        }
    }
}

/// The first unit from `i` on that is chosen, or the number of units.
pub open spec fn chosen_from(chosen: Seq<bool>, i: int) -> int
    decreases chosen.len() - i,
{
    if i >= chosen.len() || chosen[i] {
        i
    } else {
        chosen_from(chosen, i + 1)
    }
}

/// How many of the first `n` units are chosen.
pub open spec fn chosen_count(chosen: Seq<bool>, n: int) -> nat {
    count_of(chosen.take(n), |b: bool| b)
}

impl UndoModel {
    /// One choice for each unit, and each chosen unit before the next one is done or has
    /// failed.
    pub open spec fn consistent(self) -> bool {
        &&& self.chosen.len() == self.units.len()
        &&& 0 <= self.next <= self.units.len()
        &&& self.next == self.units.len() || self.chosen[self.next]
        &&& 0 <= self.done
        &&& 0 <= self.failed
        &&& self.done + self.failed == chosen_count(self.chosen, self.next)
    }

    /// The run after the next unit, which was restored or not.
    pub open spec fn after(self, restored: bool) -> UndoModel {
        UndoModel {
            next: chosen_from(self.chosen, self.next + 1),
            done: self.done + if restored {
                1int
            } else {
                0int
            },
            failed: self.failed + if restored {
                0int
            } else {
                1int
            },
            ..self
        }
    }

    /// What is said at the end.
    pub open spec fn text(self) -> Seq<char> {
        "Undo: "@ + decimal(self.done as nat) + " unit(s) ok, "@ + decimal(self.failed as nat)
            + " failed"@
    }
}

/// The run that takes back the chosen units of a session, before any of them.
pub open spec fn new_run(
    renames: Seq<RenameModel>,
    stored: Option<Seq<bool>>,
    session_id: i64,
) -> UndoModel {
    let units = units_of(renames);
    let chosen = selected(stored, units.len());
    UndoModel { units, chosen, session_id, next: chosen_from(chosen, 0), done: 0, failed: 0 }
}

/// The run after units of which each was restored or not.
pub open spec fn run_through(run: UndoModel, outcomes: Seq<bool>) -> UndoModel
    decreases outcomes.len(),
{
    if outcomes.len() == 0 {
        run
    } else {
        run_through(run, outcomes.drop_last()).after(outcomes.last())
    }
}

/// The renames that a run records.
pub open spec fn recorded_by(run: UndoModel, outcomes: Seq<bool>) -> Seq<RenameModel>
    decreases outcomes.len(),
{
    if outcomes.len() == 0 {
        Seq::empty()
    } else {
        let before = run_through(run, outcomes.drop_last());
        recorded_by(run, outcomes.drop_last()) + if outcomes.last() {
            reversals_of(before.units[before.next], before.session_id)
        } else {
            Seq::empty()
        }
    }
}

proof fn lemma_chosen_from(chosen: Seq<bool>, i: int)
    requires
        0 <= i <= chosen.len(),
    ensures
        i <= chosen_from(chosen, i) <= chosen.len(),
        chosen_from(chosen, i) == chosen.len() || chosen[chosen_from(chosen, i)],
        chosen_count(chosen, chosen_from(chosen, i)) == chosen_count(chosen, i),
    decreases chosen.len() - i,
{
    if i < chosen.len() && !chosen[i] {
        lemma_chosen_from(chosen, i + 1);
        assert(chosen.take(i + 1).drop_last() =~= chosen.take(i));
    }
}

/// The first unit from `i` on that is chosen.
fn find_chosen(chosen: &Vec<bool>, i: usize) -> (r: usize)
    requires
        i <= chosen@.len(),
    ensures
        r == chosen_from(chosen@, i as int),
        r <= chosen@.len(),
{
    let mut k: usize = i;
    while k < chosen.len() && !chosen[k]
        invariant
            k <= chosen@.len(),
            chosen_from(chosen@, i as int) == chosen_from(chosen@, k as int),
        decreases chosen@.len() - k,
    {
        k += 1;
    }
    k
}

impl UndoRun {
    /// The run that takes back the chosen units of a session, which session `session_id`
    /// records. `stored` is what was chosen before.
    pub fn new(renames: &Vec<RenameRecord>, stored: &Option<Vec<bool>>, session_id: i64) -> (r:
        Self)
        ensures
            r@ == new_run(models(renames@), opt_flags(*stored), session_id),
            r@.consistent(),
            r.wf(),
    {
        let units = group_units(renames);
        assert(unit_models(units@).len() == units@.len());
        let chosen = selection_for(stored, units.len());
        let next = find_chosen(&chosen, 0);
        proof {
            lemma_chosen_from(chosen@, 0);
            assert(chosen@.take(0) =~= Seq::empty());
        }
        UndoRun { units, chosen, session_id, next, done: 0, failed: 0 }
    }

    /// The counts fit.
    pub closed spec fn wf(&self) -> bool {
        self.units@.len() == self.chosen@.len() && self@.consistent()
    }

    /// The files of the next unit that is to be taken back, or `None` where all are done.
    pub fn next_items(&self) -> (r: Option<Vec<RollbackItem>>)
        requires
            self.wf(),
        ensures
            match r {
                Some(items) => self@.next < self@.units.len() && models(items@) == items_of(
                    self@.units[self@.next],
                ),
                None => self@.next == self@.units.len(),
            },
    {
        if self.next < self.units.len() {
            assert(self@.units[self@.next] == models(self.units@[self.next as int]@));
            Some(rollback_items(&self.units[self.next]))
        } else {
            None
        }
    }

    /// Takes note of what became of the next unit, and gives the renames that are to be
    /// recorded: those of the unit taken back, where it was restored.
    pub fn finish_unit(&mut self, outcome: &RollbackOutcome) -> (r: Vec<RenameRecord>)
        requires
            old(self).wf(),
            old(self)@.next < old(self)@.units.len(),
        ensures
            final(self).wf(),
            final(self)@ == old(self)@.after(*outcome is Restored),
            models(r@) == if *outcome is Restored {
                reversals_of(old(self)@.units[old(self)@.next], old(self)@.session_id)
            } else {
                Seq::empty()
            },
    {
        let ghost before = self@;
        let k = self.next;
        let total = self.chosen.len();
        assert(k < total);
        let mut out: Vec<RenameRecord> = Vec::new();
        assert(models(out@) =~= Seq::empty());
        let restored = match outcome {
            RollbackOutcome::Restored => true,
            _ => false,
        };
        let ghost unit = before.units[k as int];
        assert(unit == models(self.units@[k as int]@));
        if restored {
            let n = self.units[k].len();
            let mut i: usize = 0;
            while i < n
                invariant
                    k < self.units@.len(),
                    n == self.units@[k as int]@.len(),
                    unit == models(self.units@[k as int]@),
                    i <= n,
                    out@.len() == i,
                    forall|j: int|
                        0 <= j < i ==> (#[trigger] out@[j])@ == reversal_of(
                            unit[j],
                            self.session_id,
                        ),
                decreases n - i,
            {
                out.push(reversal(&self.units[k][i], self.session_id));
                i += 1;
            }
            assert(models(out@) =~= reversals_of(unit, self.session_id));
        }
        proof {
            lemma_chosen_from(self.chosen@, k + 1);
            assert(self.chosen@.take(k + 1).drop_last() =~= self.chosen@.take(k as int));
            lemma_count_bound(self.chosen@.take(k as int), |b: bool| b);
        }
        if restored {
            self.done = self.done + 1;
        } else {
            self.failed = self.failed + 1;
        }
        self.next = find_chosen(&self.chosen, k + 1);
        out
    }

    /// What is said at the end.
    pub fn status(&self) -> (r: String)
        requires
            self.wf(),
        ensures
            r@ == self@.text(),
    {
        let mut s = copy_of("Undo: ");
        s.append(decimal_of(self.done as u64).as_str());
        s.append(" unit(s) ok, ");
        s.append(decimal_of(self.failed as u64).as_str());
        s.append(" failed");
        s
    }
}

/// At the end of a run the units that are done and those that have failed make up the
/// chosen ones.
pub proof fn law_undo_counts(run: UndoModel)
    requires
        run.consistent(),
        run.next == run.units.len(),
    ensures
        run.done + run.failed == count_of(run.chosen, |b: bool| b),
{
    assert(run.chosen.take(run.next) =~= run.chosen);
}

// ---------------------------------------------------------------------------
// What can be taken back
// ---------------------------------------------------------------------------
/// The first session that has renames, where `counts` says how many each has. A session
/// whose renames cannot be read has none.
pub open spec fn undoable(counts: Seq<Option<usize>>) -> Option<int>
    decreases counts.len(),
{
    if counts.len() == 0 {
        None
    } else if let Some(i) = undoable(counts.drop_last()) {
        Some(i)
    } else if counts.last() matches Some(n) && n > 0 {
        Some(counts.len() - 1)
    } else {
        None
    }
}

/// The first session that has renames, where `counts` says how many each has.
pub fn session_to_undo(counts: &Vec<Option<usize>>) -> (r: Option<usize>)
    ensures
        match r {
            Some(i) => i < counts@.len() && undoable(counts@) == Some(i as int),
            None => undoable(counts@) is None,
        },
        match r {
            Some(i) => (counts@[i as int] matches Some(n) && n >= 1) && forall|j: int|
                0 <= j < i ==> (#[trigger] counts@[j] is None || counts@[j] == Some(0usize)),
            None => forall|j: int|
                0 <= j < counts@.len() ==> (#[trigger] counts@[j] is None || counts@[j] == Some(
                    0usize,
                )),
        },
{
    let mut i: usize = 0;
    while i < counts.len()
        invariant
            i <= counts@.len(),
            undoable(counts@.take(i as int)) is None,
            forall|j: int|
                0 <= j < i ==> (#[trigger] counts@[j] is None || counts@[j] == Some(0usize)),
        decreases counts@.len() - i,
    {
        assert(counts@.take(i + 1).drop_last() =~= counts@.take(i as int));
        if let Some(n) = counts[i] {
            if n > 0 {
                proof {
                    lemma_undoable_prefix(counts@, i + 1);
                }
                return Some(i);
            }
        }
        i += 1;
    }
    assert(counts@.take(i as int) =~= counts@);
    None
}

proof fn lemma_undoable_prefix(counts: Seq<Option<usize>>, n: int)
    requires
        0 <= n <= counts.len(),
        undoable(counts.take(n)) is Some,
    ensures
        undoable(counts) == undoable(counts.take(n)),
    decreases counts.len(),
{
    if n == counts.len() {
        assert(counts.take(n) =~= counts);
    } else {
        assert(counts.drop_last().take(n) =~= counts.take(n));
        lemma_undoable_prefix(counts.drop_last(), n);
    }
}

/// The session that is taken back has a rename, and none before it has one. There is none
/// to take back only where no session has a rename.
pub proof fn law_session_to_undo(counts: Seq<Option<usize>>)
    ensures
        match undoable(counts) {
            Some(i) => 0 <= i < counts.len() && (counts[i] matches Some(n) && n >= 1)
                && forall|j: int|
                0 <= j < i ==> (#[trigger] counts[j] is None || counts[j] == Some(0usize)),
            None => forall|j: int|
                0 <= j < counts.len() ==> (#[trigger] counts[j] is None || counts[j] == Some(
                    0usize,
                )),
        },
    decreases counts.len(),
{
    if counts.len() > 0 {
        let t = counts.drop_last();
        law_session_to_undo(t);
        assert forall|j: int| 0 <= j < t.len() implies #[trigger] counts[j] == t[j] by {}
    }
}

/// Why a session with `n` renames is not taken back.
pub open spec fn undo_refusal(pending: bool, n: nat) -> Option<Seq<char>> {
    if pending {
        Some("处理中,请稍候再还原。"@)
    } else if n == 0 {
        Some("Nothing to undo in this session."@)
    } else {
        None
    }
}

/// Why a session with these renames is not taken back: results are still awaited, or there
/// is nothing to take back.
pub fn refuse_undo(pending: bool, renames: &Vec<RenameRecord>) -> (r: Option<String>)
    ensures
        opt_view(r) == undo_refusal(pending, renames@.len()),
{
    if pending {
        Some(copy_of("处理中,请稍候再还原。"))
    } else if renames.len() == 0 {
        Some(copy_of("Nothing to undo in this session."))
    } else {
        None
    }
}

} // verus!
