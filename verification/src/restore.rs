//! What renames do to the files, and that taking them back restores what was there.

use vstd::prelude::*;

use crate::apply::{rename_entry, rename_known};
use crate::execute::{below, step_of, ItemModel, StepModel};
use crate::paths::{law_split, lemma_join_parts, parent_part, parts, same_opt_path};
use crate::plan::{
    conflicts_of, duplicated, is_source, ConflictModel, OpModel, PlannedAction,
};

verus! {

/// The contents of files, by the components of their paths.
pub type Files = Map<Seq<Seq<char>>, Seq<u8>>;

/// What a step makes of the files.
pub open spec fn files_after(files: Files, step: StepModel) -> Files {
    match step {
        StepModel::Rename(from, to) => files.remove(parts(from)).insert(
            parts(to),
            files[parts(from)],
        ),
        StepModel::Copy(from, to) => files.insert(parts(to), files[parts(from)]),
    }
}

/// A copy leaves every file as it is but for the one that it makes.
pub proof fn law_copy_keeps_files(
    files: Files,
    op: OpModel,
    path: Seq<char>,
)
    requires
        op.action == PlannedAction::Copy,
        files.contains_key(parts(path)),
        parts(path) != parts(op.target_path),
    ensures
        files_after(files, step_of(op)).contains_key(parts(path)),
        files_after(files, step_of(op))[parts(path)] == files[parts(path)],
{
}

/// The file of a rename, as the record of the rename has it.
pub open spec fn recorded_item(op: OpModel, checksum: Seq<char>) -> ItemModel {
    let r = rename_entry(op, checksum, 0);
    ItemModel { dir: r.dir, checksum: r.checksum, old_name: r.old_name, new_name: r.new_name }
}

/// A rename within a directory that can be recorded.
pub open spec fn recordable(op: OpModel) -> bool {
    &&& op.action == PlannedAction::Rename
    &&& rename_known(op)
    &&& same_opt_path(parent_part(op.target_path), parent_part(op.subtitle.path))
}

/// The record of a rename names its source and its target.
pub proof fn law_record_names_files(op: OpModel, checksum: Seq<char>)
    requires
        recordable(op),
    ensures
        parts(recorded_item(op, checksum).old_path()) == parts(op.subtitle.path),
        parts(recorded_item(op, checksum).new_path()) == parts(op.target_path),
{
    law_split(op.subtitle.path);
    law_split(op.target_path);
    let r = rename_entry(op, checksum, 0);
    lemma_join_parts(r.dir, r.new_name);
}

/// The files when the operations have been carried out one after the other.
pub open spec fn all_renamed(
    files: Files,
    ops: Seq<OpModel>,
) -> Files
    decreases ops.len(),
{
    if ops.len() == 0 {
        files
    } else {
        files_after(all_renamed(files, ops.drop_last()), step_of(ops.last()))
    }
}

/// The step that gives the file of `op` its old name back, by the record.
pub open spec fn way_back(op: OpModel, checksum: Seq<char>) -> StepModel {
    let item = recorded_item(op, checksum);
    StepModel::Rename(item.new_path(), item.old_path())
}

/// The files when the operations at the places `order` have been taken back one after the
/// other, by their records.
pub open spec fn all_restored(
    files: Files,
    ops: Seq<OpModel>,
    checksums: Seq<Seq<char>>,
    order: Seq<int>,
) -> Files
    decreases order.len(),
{
    if order.len() == 0 {
        files
    } else {
        files_after(
            all_restored(files, ops, checksums, order.drop_last()),
            way_back(ops[order.last()], checksums[order.last()]),
        )
    }
}

/// Each operation renames a file that is there to a path where there is none, and no two
/// have the same source or the same target.
pub open spec fn apart(files: Files, ops: Seq<OpModel>) -> bool {
    &&& forall|i: int|
        0 <= i < ops.len() ==> {
            &&& recordable(#[trigger] ops[i])
            &&& files.contains_key(parts(ops[i].subtitle.path))
            &&& !files.contains_key(parts(ops[i].target_path))
        }
    &&& forall|i: int, j: int|
        0 <= i < j < ops.len() ==> {
            &&& parts((#[trigger] ops[i]).subtitle.path) != parts(
                (#[trigger] ops[j]).subtitle.path,
            )
            &&& parts(ops[i].target_path) != parts(ops[j].target_path)
        }
}

/// A file that goes from one path to another.
pub struct Move {
    pub from: Seq<Seq<char>>,
    pub to: Seq<Seq<char>>,
}

/// Each file that is to move is there, nothing is where it goes, and no two come from the
/// same path or go to the same path.
pub open spec fn clear(files: Files, moves: Seq<Move>) -> bool {
    &&& forall|i: int|
        0 <= i < moves.len() ==> files.contains_key((#[trigger] moves[i]).from)
            && !files.contains_key(moves[i].to)
    &&& forall|i: int, j: int|
        0 <= i < j < moves.len() ==> (#[trigger] moves[i]).from != (#[trigger] moves[j]).from
            && moves[i].to != moves[j].to
}

/// No file moves from `p` or to `p`.
pub open spec fn untouched(moves: Seq<Move>, p: Seq<Seq<char>>) -> bool {
    forall|i: int| 0 <= i < moves.len() ==> (#[trigger] moves[i]).from != p && moves[i].to != p
}

/// The files are what they were, but for the moves at the places `done`, whose files are
/// where they go.
pub open spec fn between(files: Files, moves: Seq<Move>, done: Set<int>, now: Files) -> bool {
    &&& forall|i: int|
        0 <= i < moves.len() ==> if done.contains(i) {
            !now.contains_key((#[trigger] moves[i]).from) && now.contains_key(moves[i].to)
                && now[moves[i].to] == files[moves[i].from]
        } else {
            now.contains_key(moves[i].from) && now[moves[i].from] == files[moves[i].from]
                && !now.contains_key(moves[i].to)
        }
    &&& forall|p: Seq<Seq<char>>|
        untouched(moves, p) ==> #[trigger] now.contains_key(p) == files.contains_key(p) && (
        files.contains_key(p) ==> now[p] == files[p])
}

/// Before anything has moved, the files are what they were.
pub proof fn lemma_none_moved(files: Files, moves: Seq<Move>)
    requires
        clear(files, moves),
    ensures
        between(files, moves, Set::empty(), files),
{
}

pub proof fn lemma_paths_differ(files: Files, moves: Seq<Move>, i: int, k: int)
    requires
        clear(files, moves),
        0 <= i < moves.len(),
        0 <= k < moves.len(),
    ensures
        moves[i].from != moves[k].to,
        moves[i].to != moves[k].from,
        i != k ==> moves[i].from != moves[k].from && moves[i].to != moves[k].to,
{
    assert(files.contains_key(moves[i].from) && files.contains_key(moves[k].from));
    if i < k {
        assert(moves[i].from != moves[k].from);
    } else if k < i {
        assert(moves[k].from != moves[i].from);
    }
}

/// One more file moves.
pub proof fn lemma_move_on(files: Files, moves: Seq<Move>, done: Set<int>, now: Files, k: int)
    requires
        clear(files, moves),
        between(files, moves, done, now),
        0 <= k < moves.len(),
        !done.contains(k),
    ensures
        between(
            files,
            moves,
            done.insert(k),
            now.remove(moves[k].from).insert(moves[k].to, now[moves[k].from]),
        ),
{
    let next = now.remove(moves[k].from).insert(moves[k].to, now[moves[k].from]);
    assert forall|i: int| 0 <= i < moves.len() implies if done.insert(k).contains(i) {
        !next.contains_key((#[trigger] moves[i]).from) && next.contains_key(moves[i].to)
            && next[moves[i].to] == files[moves[i].from]
    } else {
        next.contains_key(moves[i].from) && next[moves[i].from] == files[moves[i].from]
            && !next.contains_key(moves[i].to)
    } by {
        lemma_paths_differ(files, moves, i, k);
        assert(now.contains_key(moves[k].from) && now[moves[k].from] == files[moves[k].from]);
    }
    assert forall|p: Seq<Seq<char>>| untouched(moves, p) implies #[trigger] next.contains_key(p)
        == files.contains_key(p) && (files.contains_key(p) ==> next[p] == files[p]) by {
        assert(moves[k].from != p && moves[k].to != p);
        assert(now.contains_key(p) == files.contains_key(p));
    }
}

/// One of the files that have moved goes back.
pub proof fn lemma_move_back(files: Files, moves: Seq<Move>, done: Set<int>, now: Files, k: int)
    requires
        clear(files, moves),
        between(files, moves, done, now),
        0 <= k < moves.len(),
        done.contains(k),
    ensures
        between(
            files,
            moves,
            done.remove(k),
            now.remove(moves[k].to).insert(moves[k].from, now[moves[k].to]),
        ),
{
    let next = now.remove(moves[k].to).insert(moves[k].from, now[moves[k].to]);
    assert forall|i: int| 0 <= i < moves.len() implies if done.remove(k).contains(i) {
        !next.contains_key((#[trigger] moves[i]).from) && next.contains_key(moves[i].to)
            && next[moves[i].to] == files[moves[i].from]
    } else {
        next.contains_key(moves[i].from) && next[moves[i].from] == files[moves[i].from]
            && !next.contains_key(moves[i].to)
    } by {
        lemma_paths_differ(files, moves, i, k);
        assert(!now.contains_key(moves[k].from) && now[moves[k].to] == files[moves[k].from]);
    }
    assert forall|p: Seq<Seq<char>>| untouched(moves, p) implies #[trigger] next.contains_key(p)
        == files.contains_key(p) && (files.contains_key(p) ==> next[p] == files[p]) by {
        assert(moves[k].from != p && moves[k].to != p);
        assert(now.contains_key(p) == files.contains_key(p));
    }
}

/// What the files are is settled by which of them have moved.
pub proof fn lemma_between_settled(
    files: Files,
    moves: Seq<Move>,
    done: Set<int>,
    a: Files,
    b: Files,
)
    requires
        between(files, moves, done, a),
        between(files, moves, done, b),
    ensures
        a == b,
{
    assert forall|p: Seq<Seq<char>>| #[trigger]
        a.contains_key(p) == b.contains_key(p) && (a.contains_key(p) ==> a[p] == b[p]) by {
        if !untouched(moves, p) {
            let i = choose|i: int|
                0 <= i < moves.len() && ((#[trigger] moves[i]).from == p || moves[i].to == p);
            assert(done.contains(i) || !done.contains(i));
        } else {
            assert(a.contains_key(p) == files.contains_key(p));
            assert(b.contains_key(p) == files.contains_key(p));
        }
    }
    assert(a =~= b);
}

/// Where the files of the operations go.
pub open spec fn op_moves(ops: Seq<OpModel>) -> Seq<Move> {
    Seq::new(
        ops.len(),
        |i: int| Move { from: parts(ops[i].subtitle.path), to: parts(ops[i].target_path) },
    )
}

proof fn lemma_apart_clear(files: Files, ops: Seq<OpModel>)
    requires
        apart(files, ops),
    ensures
        clear(files, op_moves(ops)),
{
    let m = op_moves(ops);
    assert forall|i: int| 0 <= i < m.len() implies files.contains_key((#[trigger] m[i]).from)
        && !files.contains_key(m[i].to) by {
        assert(recordable(ops[i]));
    }
    assert forall|i: int, j: int| 0 <= i < j < m.len() implies (#[trigger] m[i]).from != (
    #[trigger] m[j]).from && m[i].to != m[j].to by {
        assert(parts(ops[i].subtitle.path) != parts(ops[j].subtitle.path));
    }
}

proof fn lemma_all_renamed(files: Files, ops: Seq<OpModel>, n: int)
    requires
        apart(files, ops),
        0 <= n <= ops.len(),
    ensures
        between(files, op_moves(ops), below(n), all_renamed(files, ops.take(n))),
    decreases n,
{
    lemma_apart_clear(files, ops);
    if n == 0 {
        lemma_none_moved(files, op_moves(ops));
        assert(below(0) =~= Set::empty());
        assert(ops.take(0) =~= Seq::empty());
    } else {
        lemma_all_renamed(files, ops, n - 1);
        assert(recordable(ops[n - 1]));
        lemma_move_on(
            files,
            op_moves(ops),
            below(n - 1),
            all_renamed(files, ops.take(n - 1)),
            n - 1,
        );
        assert(ops.take(n).drop_last() =~= ops.take(n - 1));
        assert(ops.take(n).last() == ops[n - 1]);
        assert(below(n - 1).insert(n - 1) =~= below(n));
    }
}

proof fn lemma_all_restored(
    files: Files,
    ops: Seq<OpModel>,
    checksums: Seq<Seq<char>>,
    order: Seq<int>,
)
    requires
        apart(files, ops),
        order.no_duplicates(),
        forall|k: int| 0 <= k < order.len() ==> 0 <= #[trigger] order[k] < ops.len(),
    ensures
        between(
            files,
            op_moves(ops),
            Set::new(|i: int| 0 <= i < ops.len() && !order.contains(i)),
            all_restored(all_renamed(files, ops), ops, checksums, order),
        ),
    decreases order.len(),
{
    lemma_apart_clear(files, ops);
    if order.len() == 0 {
        lemma_all_renamed(files, ops, ops.len() as int);
        assert(ops.take(ops.len() as int) =~= ops);
        assert(Set::new(|i: int| 0 <= i < ops.len() && !order.contains(i)) =~= below(
            ops.len() as int,
        ));
    } else {
        let init = order.drop_last();
        let k = order.last();
        assert forall|j: int| 0 <= j < init.len() implies 0 <= #[trigger] init[j] < ops.len() by {
            assert(init[j] == order[j]);
        }
        lemma_all_restored(files, ops, checksums, init);
        let done = Set::new(|i: int| 0 <= i < ops.len() && !init.contains(i));
        assert(!init.contains(k)) by {
            if init.contains(k) {
                let j = choose|j: int| 0 <= j < init.len() && init[j] == k;
                assert(order[j] == order[order.len() - 1]);
            }
        }
        assert(recordable(ops[k]));
        law_record_names_files(ops[k], checksums[k]);
        lemma_move_back(
            files,
            op_moves(ops),
            done,
            all_restored(all_renamed(files, ops), ops, checksums, init),
            k,
        );
        let left = Set::new(|i: int| 0 <= i < ops.len() && !order.contains(i));
        assert(done.remove(k) =~= left) by {
            assert forall|i: int| done.remove(k).contains(i) == left.contains(i) by {
                if order.contains(i) && i != k {
                    let j = choose|j: int| 0 <= j < order.len() && order[j] == i;
                    assert(init[j] == i);
                }
                if init.contains(i) {
                    let j = choose|j: int| 0 <= j < init.len() && init[j] == i;
                    assert(order[j] == i);
                }
                assert(order[order.len() - 1] == k);
            }
        }
    }
}

/// Renames that are taken back, in whatever order, leave the files as they were: the same
/// paths with the same contents. Each renames a file that is there to a path where there is
/// none, and no two have the same source or the same target.
pub proof fn law_undo_restores(
    files: Files,
    ops: Seq<OpModel>,
    checksums: Seq<Seq<char>>,
    order: Seq<int>,
)
    requires
        apart(files, ops),
        order.no_duplicates(),
        forall|k: int| 0 <= k < order.len() ==> 0 <= #[trigger] order[k] < ops.len(),
        forall|i: int| 0 <= i < ops.len() ==> order.contains(i),
    ensures
        all_restored(all_renamed(files, ops), ops, checksums, order) == files,
{
    lemma_apart_clear(files, ops);
    lemma_all_restored(files, ops, checksums, order);
    lemma_none_moved(files, op_moves(ops));
    let left = Set::new(|i: int| 0 <= i < ops.len() && !order.contains(i));
    assert(left =~= Set::empty());
    lemma_between_settled(
        files,
        op_moves(ops),
        left,
        all_restored(all_renamed(files, ops), ops, checksums, order),
        files,
    );
}

/// The renames of a plan without conflicts can be taken back, where the sources are there
/// and differ, and no target is the source of another operation.
pub proof fn law_clean_plan_apart(
    files: Files,
    ops: Seq<OpModel>,
    there: Seq<bool>,
)
    requires
        there.len() == ops.len(),
        forall|i: int|
            0 <= i < ops.len() ==> {
                &&& recordable(#[trigger] ops[i])
                &&& files.contains_key(parts(ops[i].subtitle.path))
                &&& there[i] == files.contains_key(parts(ops[i].target_path))
                &&& !is_source(ops, i)
                &&& conflicts_of(ops, i, there[i]).len() == 0
            },
        forall|i: int, j: int|
            0 <= i < j < ops.len() ==> parts((#[trigger] ops[i]).subtitle.path) != parts(
                (#[trigger] ops[j]).subtitle.path,
            ),
    ensures
        apart(files, ops),
{
    assert forall|i: int| 0 <= i < ops.len() implies !there[i] && !duplicated(ops, i) by {
        assert(recordable(ops[i]));
        let c = conflicts_of(ops, i, there[i]);
        if duplicated(ops, i) {
            assert(c[0] == ConflictModel::DuplicateTarget(ops[i].target_path));
        }
    }
    assert forall|i: int, j: int| 0 <= i < j < ops.len() implies parts(
        (#[trigger] ops[i]).target_path,
    ) != parts((#[trigger] ops[j]).target_path) by {
        assert(!duplicated(ops, i));
    }
    assert forall|i: int| 0 <= i < ops.len() implies {
        &&& recordable(#[trigger] ops[i])
        &&& files.contains_key(parts(ops[i].subtitle.path))
        &&& !files.contains_key(parts(ops[i].target_path))
    } by {
        assert(!there[i]);
    }
}

} // verus!
