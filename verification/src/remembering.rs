//! What the history says of the files at hand, what of it is shown, and in which words.

use vstd::prelude::*;
use vstd::string::*;

use crate::calendar::stamp;
use crate::checksum::short_form;
use crate::paths::same_path;
use crate::sorting::{count_of, law_sort_stable};
use crate::state::{CopyModel, RenameModel, SessionModel};
use crate::text::{decimal, has_part, signed_decimal, trim_both, CharClass};
use crate::timeline::{
    all_entries, all_lower, ambiguous, any_has, clear_ids, collision_warning, copy_line,
    entry_line, first_set, has_identity, hit_entries, law_attribution, law_paging, left_out,
    no_later, rename_names, same_identity, searched, shared_ids, shown, timeline_of, title_of,
    EntryModel, HitsModel, IdentityModel,
};
use crate::unicode::unicode_lower;

verus! {

// ---------------------------------------------------------------------------
// Identities
// ---------------------------------------------------------------------------
proof fn lemma_count_none<T>(s: Seq<T>, p: spec_fn(T) -> bool)
    requires
        forall|i: int| 0 <= i < s.len() ==> !p(#[trigger] s[i]),
    ensures
        count_of(s, p) == 0,
    decreases s.len(),
{
    if s.len() > 0 {
        let t = s.drop_last();
        assert forall|i: int| 0 <= i < t.len() implies !p(#[trigger] t[i]) by {
            assert(t[i] == s[i]);
        }
        lemma_count_none(t, p);
        assert(!p(s[s.len() - 1]));
    }
}

proof fn lemma_count_two<T>(s: Seq<T>, p: spec_fn(T) -> bool, i: int)
    requires
        0 <= i < s.len(),
        p(s[i]),
    ensures
        count_of(s, p) >= 1,
        count_of(s, p) > 1 <==> exists|j: int| 0 <= j < s.len() && j != i && p(#[trigger] s[j]),
    decreases s.len(),
{
    let t = s.drop_last();
    let n = s.len() - 1;
    assert forall|j: int| 0 <= j < n implies #[trigger] t[j] == s[j] by {}
    if i < n {
        lemma_count_two(t, p, i);
        if exists|j: int| 0 <= j < t.len() && j != i && p(#[trigger] t[j]) {
            let j = choose|j: int| 0 <= j < t.len() && j != i && p(#[trigger] t[j]);
            assert(p(s[j]));
        }
        if p(s.last()) {
            assert(p(s[n]));
        }
        if exists|j: int| 0 <= j < s.len() && j != i && p(#[trigger] s[j]) {
            let j = choose|j: int| 0 <= j < s.len() && j != i && p(#[trigger] s[j]);
            if j < n {
                assert(p(t[j]));
            }
        }
    } else {
        if exists|j: int| 0 <= j < s.len() && j != i && p(#[trigger] s[j]) {
            let j = choose|j: int| 0 <= j < s.len() && j != i && p(#[trigger] s[j]);
            assert(p(t[j]));
            lemma_count_two(t, p, j);
        } else {
            assert forall|j: int| 0 <= j < t.len() implies !p(#[trigger] t[j]) by {
                assert(!p(s[j]));
            }
            lemma_count_none(t, p);
        }
    }
}

/// The files that are searched for keep their order. Those that collide are named in the
/// order in which each comes up first.
pub proof fn law_attributed_order(
    ids: Seq<IdentityModel>,
    all: Seq<IdentityModel>,
    id: IdentityModel,
)
    ensures
        clear_ids(Seq::empty(), all).len() == 0,
        shared_ids(Seq::empty(), all).len() == 0,
        ({
            let twins = count_of(
                all,
                |x: IdentityModel| same_path(x.dir, id.dir) && x.checksum == id.checksum,
            );
            let named = exists|k: int|
                0 <= k < shared_ids(ids, all).len() && same_path(
                    (#[trigger] shared_ids(ids, all)[k]).dir,
                    id.dir,
                ) && shared_ids(ids, all)[k].checksum == id.checksum;
            &&& clear_ids(ids.push(id), all) == if twins > 1 {
                clear_ids(ids, all)
            } else {
                clear_ids(ids, all).push(id)
            }
            &&& shared_ids(ids.push(id), all) == if twins > 1 && !named {
                shared_ids(ids, all).push(id)
            } else {
                shared_ids(ids, all)
            }
        }),
{
    assert(ids.push(id).drop_last() =~= ids);
    let p = |x: IdentityModel| same_path(x.dir, id.dir) && x.checksum == id.checksum;
    let q = |x: IdentityModel| same_identity(x, id);
    assert(p =~= q);
    let s = shared_ids(ids, all);
    if has_identity(s, id) {
        let k = choose|k: int| 0 <= k < s.len() && same_identity(#[trigger] s[k], id);
        assert(same_path(s[k].dir, id.dir));
    }
    if exists|k: int|
        0 <= k < s.len() && same_path((#[trigger] s[k]).dir, id.dir) && s[k].checksum
            == id.checksum {
        let k = choose|k: int|
            0 <= k < s.len() && same_path((#[trigger] s[k]).dir, id.dir) && s[k].checksum
                == id.checksum;
        assert(same_identity(s[k], id));
    }
}

/// A file is searched for in the history by its directory and checksum if no other file has
/// both. Otherwise nothing is said of it, and it is named among the collisions.
pub proof fn law_attributed(ids: Seq<IdentityModel>, i: int)
    requires
        0 <= i < ids.len(),
    ensures
        ({
            let twin = exists|j: int|
                0 <= j < ids.len() && j != i && same_path((#[trigger] ids[j]).dir, ids[i].dir)
                    && ids[j].checksum == ids[i].checksum;
            let named = exists|k: int|
                0 <= k < shared_ids(ids, ids).len() && same_path(
                    (#[trigger] shared_ids(ids, ids)[k]).dir,
                    ids[i].dir,
                ) && shared_ids(ids, ids)[k].checksum == ids[i].checksum;
            &&& clear_ids(ids, ids).contains(ids[i]) <==> !twin
            &&& named <==> twin
        }),
{
    let p = |x: IdentityModel| same_identity(x, ids[i]);
    let s = shared_ids(ids, ids);
    let c = clear_ids(ids, ids);
    law_attribution(ids);
    lemma_count_two(ids, p, i);
    assert(ambiguous(ids, ids[i]) <==> count_of(ids, p) > 1);
    if exists|j: int| 0 <= j < ids.len() && j != i && p(#[trigger] ids[j]) {
        let j = choose|j: int| 0 <= j < ids.len() && j != i && p(#[trigger] ids[j]);
        assert(same_path(ids[j].dir, ids[i].dir));
    }
    if exists|j: int|
        0 <= j < ids.len() && j != i && same_path((#[trigger] ids[j]).dir, ids[i].dir)
            && ids[j].checksum == ids[i].checksum {
        let j = choose|j: int|
            0 <= j < ids.len() && j != i && same_path((#[trigger] ids[j]).dir, ids[i].dir)
                && ids[j].checksum == ids[i].checksum;
        assert(p(ids[j]));
    }
    if c.contains(ids[i]) {
        let k = choose|k: int| 0 <= k < c.len() && c[k] == ids[i];
        assert(!ambiguous(ids, c[k]));
    }
    if has_identity(s, ids[i]) {
        let k = choose|k: int| 0 <= k < s.len() && same_identity(#[trigger] s[k], ids[i]);
        assert(same_path(s[k].dir, ids[i].dir));
    }
    if exists|k: int|
        0 <= k < s.len() && same_path((#[trigger] s[k]).dir, ids[i].dir) && s[k].checksum
            == ids[i].checksum {
        let k = choose|k: int|
            0 <= k < s.len() && same_path((#[trigger] s[k]).dir, ids[i].dir) && s[k].checksum
                == ids[i].checksum;
        assert(ambiguous(ids, s[k]));
        let q = |x: IdentityModel| same_identity(x, s[k]);
        assert forall|x: IdentityModel| #[trigger] p(x) == q(x) by {}
        assert(p =~= q);
    }
}

// ---------------------------------------------------------------------------
// The timeline
// ---------------------------------------------------------------------------
/// All renames and copies that were found of each file take part, file by file, the renames
/// of a file before its copies.
pub proof fn law_entries(hits: Seq<HitsModel>, h: HitsModel)
    ensures
        all_entries(Seq::empty()).len() == 0,
        all_entries(hits.push(h)) == all_entries(hits) + Seq::new(
            h.renames.len(),
            |i: int| EntryModel::Rename(h.renames[i]),
        ) + Seq::new(h.copies.len(), |i: int| EntryModel::Copy(h.copies[i])),
{
    assert(hits.push(h).drop_last() =~= hits);
    assert(all_entries(hits) + hit_entries(h) =~= all_entries(hits) + Seq::new(
        h.renames.len(),
        |i: int| EntryModel::Rename(h.renames[i]),
    ) + Seq::new(h.copies.len(), |i: int| EntryModel::Copy(h.copies[i])));
}

/// What happened at one time stays in the order in which it was found.
pub proof fn law_timeline_stable(hits: Seq<HitsModel>, at: i64)
    ensures
        timeline_of(hits).filter(|e: EntryModel| e.at() == at) == all_entries(hits).filter(
            |e: EntryModel| e.at() == at,
        ),
{
    law_sort_stable(
        all_entries(hits),
        |a: EntryModel, b: EntryModel| no_later(a, b),
        |e: EntryModel| e.at() == at,
    );
}

/// An entry happened when its record says.
pub proof fn law_entry_time(r: RenameModel, c: CopyModel)
    ensures
        EntryModel::Rename(r).at() == r.at,
        EntryModel::Copy(c).at() == c.at,
{
}

// ---------------------------------------------------------------------------
// Searching
// ---------------------------------------------------------------------------
proof fn lemma_names(renames: Seq<RenameModel>, needle: Seq<char>)
    ensures
        any_has(all_lower(rename_names(renames)), needle) <==> exists|i: int|
            0 <= i < renames.len() && (has_part(
                unicode_lower((#[trigger] renames[i]).old_name),
                needle,
            ) || has_part(unicode_lower(renames[i].new_name), needle)),
    decreases renames.len(),
{
    let all = all_lower(rename_names(renames));
    if renames.len() > 0 {
        let t = renames.drop_last();
        let r = renames.last();
        let n = renames.len() - 1;
        let names = rename_names(t);
        let a = all_lower(names);
        lemma_names(t, needle);
        let k = names.len() as int;
        assert(all.len() == k + 2);
        assert(all[k] == unicode_lower(r.old_name));
        assert(all[k + 1] == unicode_lower(r.new_name));
        assert forall|i: int| 0 <= i < k implies #[trigger] all[i] == a[i] by {}
        if any_has(all, needle) {
            let i = choose|i: int| 0 <= i < all.len() && has_part(#[trigger] all[i], needle);
            if i < k {
                assert(has_part(a[i], needle));
                let j = choose|j: int|
                    0 <= j < t.len() && (has_part(
                        unicode_lower((#[trigger] t[j]).old_name),
                        needle,
                    ) || has_part(unicode_lower(t[j].new_name), needle));
                assert(renames[j] == t[j]);
            } else {
                assert(renames[n] == r);
            }
        }
        if exists|i: int|
            0 <= i < renames.len() && (has_part(
                unicode_lower((#[trigger] renames[i]).old_name),
                needle,
            ) || has_part(unicode_lower(renames[i].new_name), needle)) {
            let i = choose|i: int|
                0 <= i < renames.len() && (has_part(
                    unicode_lower((#[trigger] renames[i]).old_name),
                    needle,
                ) || has_part(unicode_lower(renames[i].new_name), needle));
            if i < n {
                assert(t[i] == renames[i]);
                assert(any_has(a, needle));
                let j = choose|j: int| 0 <= j < a.len() && has_part(#[trigger] a[j], needle);
                assert(has_part(all[j], needle));
            } else if has_part(unicode_lower(r.old_name), needle) {
                assert(has_part(all[k], needle));
            } else {
                assert(has_part(all[k + 1], needle));
            }
        }
    }
}

/// A session is shown if it is in scope and what is searched for, without white space around
/// it and in any case, is nothing or stands in its number, in its directory, or in an old or
/// a new name of one of its renames. It is out of scope only where the directories at hand
/// are asked for, there are any, it has a directory, and that is none of them.
pub proof fn law_shown(
    session: SessionModel,
    renames: Seq<RenameModel>,
    current_only: bool,
    search: Seq<char>,
    canon: Seq<char>,
    dirs: Seq<Seq<char>>,
)
    ensures
        ({
            let needle = unicode_lower(trim_both(search, CharClass::Space));
            let outside = current_only && dirs.len() > 0 && session.subtitle_dir is Some && forall|
                i: int,
            |
                0 <= i < dirs.len() ==> !same_path(#[trigger] dirs[i], canon);
            let met = needle.len() == 0 || has_part(signed_decimal(session.id as int), needle) || (
            session.subtitle_dir matches Some(d) && has_part(unicode_lower(d), needle)) || exists|
                i: int,
            |
                0 <= i < renames.len() && (has_part(
                    unicode_lower((#[trigger] renames[i]).old_name),
                    needle,
                ) || has_part(unicode_lower(renames[i].new_name), needle));
            shown(session, renames, current_only, search, canon, dirs) <==> !outside && met
        }),
{
    let needle = unicode_lower(trim_both(search, CharClass::Space));
    lemma_names(renames, needle);
    let names = all_lower(rename_names(renames));
    let all = all_lower(searched(session, renames));
    if let Some(d) = session.subtitle_dir {
        assert(all[0] == unicode_lower(d));
        assert forall|i: int| 0 <= i < names.len() implies #[trigger] names[i] == all[i + 1] by {}
        if any_has(names, needle) {
            let i = choose|i: int| 0 <= i < names.len() && has_part(#[trigger] names[i], needle);
            assert(has_part(all[i + 1], needle));
        }
        if any_has(all, needle) {
            let i = choose|i: int| 0 <= i < all.len() && has_part(#[trigger] all[i], needle);
            if i > 0 {
                assert(has_part(names[i - 1], needle));
            }
        }
        if has_part(unicode_lower(d), needle) {
            assert(has_part(all[0], needle));
        }
    } else {
        assert(all =~= names);
    }
}

/// The sessions that are shown are the first that match: one that matches and is not shown
/// comes after all that are, and as many are shown as may be.
pub proof fn law_page_first(flags: Seq<bool>, limit: nat, k: int)
    requires
        0 <= k < flags.len(),
        flags[k],
        !first_set(flags, limit as int).contains(k),
    ensures
        first_set(flags, limit as int).len() == limit,
        forall|i: int|
            0 <= i < first_set(flags, limit as int).len() ==> (#[trigger] first_set(
                flags,
                limit as int,
            )[i]) < k,
    decreases flags.len(),
{
    let t = flags.drop_last();
    let a = first_set(t, limit as int);
    let b = first_set(flags, limit as int);
    law_paging(t, limit);
    law_paging(flags, limit);
    if k < t.len() {
        if a.contains(k) {
            let i = choose|i: int| 0 <= i < a.len() && a[i] == k;
            assert(b[i] == k);
            assert(b.contains(k));
        }
        law_page_first(t, limit, k);
        assert(b == a);
    } else {
        if a.len() < limit {
            assert(b[a.len() as int] == k);
            assert(b.contains(k));
        }
        assert(b == a);
        assert forall|i: int| 0 <= i < b.len() implies (#[trigger] b[i]) < k by {
            assert(a[i] < t.len());
        }
    }
}

/// How many are left out: those that match beyond the number that may be shown.
pub proof fn law_left_out(flags: Seq<bool>, limit: nat)
    ensures
        left_out(flags, limit as int) == if count_of(flags, |f: bool| f) > limit {
            count_of(flags, |f: bool| f) - limit
        } else {
            0
        },
{
}

// ---------------------------------------------------------------------------
// Texts
// ---------------------------------------------------------------------------
/// What is said of a rename, of a copy, and of a copy in a list.
pub proof fn law_entry_texts(r: RenameModel, c: CopyModel)
    ensures
        entry_line(EntryModel::Rename(r)) == "⟳ renamed "@ + r.old_name + " → "@ + r.new_name
            + " ("@ + stamp(r.at as int) + ")"@,
        entry_line(EntryModel::Copy(c)) == "⤴ copied "@ + (c.src_dir + "/"@ + c.src_name + " → "@
            + c.dst_dir + "/"@ + c.dst_name) + " ("@ + stamp(c.at as int) + ")"@,
        copy_line(c) == "⤴ "@ + stamp(c.at as int) + "  "@ + (c.src_dir + "/"@ + c.src_name
            + " → "@ + c.dst_dir + "/"@ + c.dst_name) + "  "@ + short_form(c.dst_checksum),
{
}

/// What stands above a session, and what is said of a collision.
pub proof fn law_session_texts(session: SessionModel, n: nat, id: IdentityModel)
    ensures
        title_of(session, n) == "session #"@ + signed_decimal(session.id as int) + (
        if session.undo_of is Some {
            " — undo of #"@ + signed_decimal(session.undo_of->0 as int)
        } else {
            Seq::empty()
        }) + " — "@ + stamp(session.created_at as int) + " — "@ + (
        if session.subtitle_dir is Some {
            session.subtitle_dir->0
        } else {
            "(none)"@
        }) + " — "@ + decimal(n) + " renames"@,
        collision_warning(id) == "Content collision in "@ + id.dir
            + ": multiple subtitles share checksum "@ + short_form(id.checksum)
            + " — history not attributed."@,
{
}

} // verus!
