//! What the history holds of the files at hand, and how it is searched and shown.

use vstd::prelude::*;
use vstd::string::*;

use crate::calendar::{format_epoch, stamp};
use crate::checksum::{short_checksum, short_form};
use crate::paths::{path_eq, same_path};
use crate::pattern::views;
use crate::sorting::{
    count_of, lemma_sorted_in_order, lemma_sorted_multiset, models, sort_models, sorted_by,
};
use crate::state::{CopyModel, CopyRecord, RenameModel, RenameRecord, SessionModel, SessionRecord};
use crate::text::{
    contains, copy_of, decimal, decimal_of, has_part, same_str, signed_decimal,
    signed_decimal_of, trim_both, trimmed, CharClass,
};
use crate::unicode::unicode_lower;
use crate::view::{has_path, holds_path};

verus! {

// ---------------------------------------------------------------------------
// Identities
// ---------------------------------------------------------------------------
/// What the history knows a file by: its directory and its checksum.
#[derive(Debug)]
pub struct Identity {
    /// The directory.
    pub dir: String,
    /// The checksum.
    pub checksum: String,
}

/// What an [`Identity`] stands for.
pub struct IdentityModel {
    pub dir: Seq<char>,
    pub checksum: Seq<char>,
}

impl View for Identity {
    type V = IdentityModel;

    open spec fn view(&self) -> IdentityModel {
        IdentityModel { dir: self.dir@, checksum: self.checksum@ }
    }
}

impl Clone for Identity {
    fn clone(&self) -> (r: Self)
        ensures
            r@ == self@,
    {
        Identity { dir: copy_of(self.dir.as_str()), checksum: copy_of(self.checksum.as_str()) }
    }
}

/// The same directory and the same checksum.
pub open spec fn same_identity(a: IdentityModel, b: IdentityModel) -> bool {
    same_path(a.dir, b.dir) && a.checksum == b.checksum
}

/// How many of `ids` are the identity `id`.
pub open spec fn identity_count(ids: Seq<IdentityModel>, id: IdentityModel) -> nat {
    count_of(ids, |x: IdentityModel| same_identity(x, id))
}

/// More than one file has this identity.
pub open spec fn ambiguous(ids: Seq<IdentityModel>, id: IdentityModel) -> bool {
    identity_count(ids, id) > 1
}

/// One of `ids` is the identity `id`.
pub open spec fn has_identity(ids: Seq<IdentityModel>, id: IdentityModel) -> bool {
    exists|i: int| 0 <= i < ids.len() && same_identity(#[trigger] ids[i], id)
}

/// The identities among `ids` that one file of `all` has.
pub open spec fn clear_ids(ids: Seq<IdentityModel>, all: Seq<IdentityModel>) -> Seq<IdentityModel>
    decreases ids.len(),
{
    if ids.len() == 0 {
        Seq::empty()
    } else if ambiguous(all, ids.last()) {
        clear_ids(ids.drop_last(), all)
    } else {
        clear_ids(ids.drop_last(), all).push(ids.last())
    }
}

/// The identities among `ids` that more than one file of `all` has, each once, in the order
/// in which they come up.
pub open spec fn shared_ids(ids: Seq<IdentityModel>, all: Seq<IdentityModel>) -> Seq<IdentityModel>
    decreases ids.len(),
{
    if ids.len() == 0 {
        Seq::empty()
    } else {
        let rest = shared_ids(ids.drop_last(), all);
        if ambiguous(all, ids.last()) && !has_identity(rest, ids.last()) {
            rest.push(ids.last())
        } else {
            rest
        }
    }
}

/// The identities that one file has, which the history is searched for, and those that
/// more than one file has, for which nothing can be said.
#[derive(Debug)]
pub struct Attribution {
    /// The identities that one file has.
    pub clear: Vec<Identity>,
    /// The identities that more than one file has, each once.
    pub collisions: Vec<Identity>,
}

fn same_id(a: &Identity, b: &Identity) -> (r: bool)
    ensures
        r == same_identity(a@, b@),
{
    path_eq(a.dir.as_str(), b.dir.as_str()) && same_str(a.checksum.as_str(), b.checksum.as_str())
}

fn count_same(ids: &Vec<Identity>, id: &Identity) -> (r: usize)
    ensures
        r == identity_count(models(ids@), id@),
{
    let ghost all = models(ids@);
    let ghost p = |x: IdentityModel| same_identity(x, id@);
    let mut n: usize = 0;
    let mut i: usize = 0;
    assert(all.take(0) =~= Seq::empty());
    while i < ids.len()
        invariant
            p == (|x: IdentityModel| same_identity(x, id@)),
            all == models(ids@),
            i <= ids@.len(),
            n == count_of(all.take(i as int), p),
            n <= i,
        decreases ids@.len() - i,
    {
        proof {
            assert(all.take(i + 1).drop_last() =~= all.take(i as int));
            assert(all.take(i + 1).last() == ids@[i as int]@);
        }
        if same_id(&ids[i], id) {
            n += 1;
        }
        i += 1;
    }
    assert(all.take(i as int) =~= all);
    n
}

fn holds_identity(ids: &Vec<Identity>, id: &Identity) -> (r: bool)
    ensures
        r == has_identity(models(ids@), id@),
{
    let mut i: usize = 0;
    while i < ids.len()
        invariant
            i <= ids@.len(),
            forall|j: int| 0 <= j < i ==> !same_identity(#[trigger] models(ids@)[j], id@),
        decreases ids@.len() - i,
    {
        if same_id(&ids[i], id) {
            assert(same_identity(models(ids@)[i as int], id@));
            return true;
        }
        i += 1;
    }
    false
}

/// Parts the identities that one file has from those that more than one file has.
pub fn attribute(ids: &Vec<Identity>) -> (r: Attribution)
    ensures
        models(r.clear@) == clear_ids(models(ids@), models(ids@)),
        models(r.collisions@) == shared_ids(models(ids@), models(ids@)),
{
    let ghost all = models(ids@);
    let mut clear: Vec<Identity> = Vec::new();
    let mut collisions: Vec<Identity> = Vec::new();
    let mut i: usize = 0;
    proof {
        assert(models(clear@) =~= clear_ids(all.take(0), all));
        assert(models(collisions@) =~= shared_ids(all.take(0), all));
    }
    while i < ids.len()
        invariant
            all == models(ids@),
            i <= ids@.len(),
            models(clear@) == clear_ids(all.take(i as int), all),
            models(collisions@) == shared_ids(all.take(i as int), all),
        decreases ids@.len() - i,
    {
        let ghost c = models(clear@);
        let ghost s = models(collisions@);
        let id = &ids[i];
        proof {
            assert(all.take(i + 1).drop_last() =~= all.take(i as int));
            assert(all.take(i + 1).last() == id@);
        }
        if count_same(ids, id) > 1 {
            if !holds_identity(&collisions, id) {
                collisions.push(id.clone());
                assert(models(collisions@) =~= s.push(id@));
            }
        } else {
            clear.push(id.clone());
            assert(models(clear@) =~= c.push(id@));
        }
        i += 1;
    }
    assert(all.take(i as int) =~= all);
    Attribution { clear, collisions }
}

proof fn lemma_parted(ids: Seq<IdentityModel>, all: Seq<IdentityModel>)
    ensures
        forall|i: int|
            0 <= i < ids.len() ==> if ambiguous(all, #[trigger] ids[i]) {
                has_identity(shared_ids(ids, all), ids[i])
            } else {
                clear_ids(ids, all).contains(ids[i])
            },
        forall|i: int|
            0 <= i < clear_ids(ids, all).len() ==> !ambiguous(
                all,
                #[trigger] clear_ids(ids, all)[i],
            ),
        forall|i: int|
            0 <= i < shared_ids(ids, all).len() ==> ambiguous(
                all,
                #[trigger] shared_ids(ids, all)[i],
            ),
        forall|i: int, j: int|
            0 <= i < j < shared_ids(ids, all).len() ==> !same_identity(
                #[trigger] shared_ids(ids, all)[i],
                #[trigger] shared_ids(ids, all)[j],
            ),
    decreases ids.len(),
{
    if ids.len() > 0 {
        let init = ids.drop_last();
        lemma_parted(init, all);
        let c0 = clear_ids(init, all);
        let s0 = shared_ids(init, all);
        let c = clear_ids(ids, all);
        let s = shared_ids(ids, all);
        assert forall|i: int| 0 <= i < ids.len() implies if ambiguous(all, #[trigger] ids[i]) {
            has_identity(s, ids[i])
        } else {
            c.contains(ids[i])
        } by {
            if i < init.len() {
                assert(init[i] == ids[i]);
                if ambiguous(all, ids[i]) {
                    assert(has_identity(s0, ids[i]));
                    let k = choose|k: int|
                        0 <= k < s0.len() && same_identity(#[trigger] s0[k], ids[i]);
                    assert(s[k] == s0[k]);
                } else {
                    assert(c0.contains(ids[i]));
                    let k = choose|k: int| 0 <= k < c0.len() && c0[k] == ids[i];
                    assert(c[k] == ids[i]);
                }
            } else if ambiguous(all, ids[i]) {
                if !has_identity(s0, ids.last()) {
                    assert(s[s0.len() as int] == ids.last());
                }
            } else {
                assert(c[c0.len() as int] == ids.last());
            }
        }
        assert forall|i: int| 0 <= i < c.len() implies !ambiguous(all, #[trigger] c[i]) by {
            if i < c0.len() {
                assert(c[i] == c0[i]);
            }
        }
        assert forall|i: int| 0 <= i < s.len() implies ambiguous(all, #[trigger] s[i]) by {
            if i < s0.len() {
                assert(s[i] == s0[i]);
            }
        }
        assert forall|i: int, j: int| 0 <= i < j < s.len() implies !same_identity(
            #[trigger] s[i],
            #[trigger] s[j],
        ) by {
            assert(s[i] == s0[i]);
            if j < s0.len() {
                assert(s[j] == s0[j]);
            } else {
                assert(!has_identity(s0, ids.last()));
            }
        }
    }
}

/// Each file's identity is either searched for or is among the collisions, and never both.
/// Each collision is named once.
pub proof fn law_attribution(ids: Seq<IdentityModel>)
    ensures
        forall|i: int|
            0 <= i < ids.len() ==> if ambiguous(ids, #[trigger] ids[i]) {
                has_identity(shared_ids(ids, ids), ids[i])
            } else {
                clear_ids(ids, ids).contains(ids[i])
            },
        forall|i: int|
            0 <= i < clear_ids(ids, ids).len() ==> !ambiguous(
                ids,
                #[trigger] clear_ids(ids, ids)[i],
            ),
        forall|i: int|
            0 <= i < shared_ids(ids, ids).len() ==> ambiguous(
                ids,
                #[trigger] shared_ids(ids, ids)[i],
            ),
        forall|i: int, j: int|
            0 <= i < j < shared_ids(ids, ids).len() ==> !same_identity(
                #[trigger] shared_ids(ids, ids)[i],
                #[trigger] shared_ids(ids, ids)[j],
            ),
{
    lemma_parted(ids, ids);
}

// ---------------------------------------------------------------------------
// The timeline
// ---------------------------------------------------------------------------
/// A rename or a copy.
#[derive(Debug)]
pub enum TimelineEntry {
    /// A rename.
    Rename(RenameRecord),
    /// A copy.
    Copy(CopyRecord),
}

/// What a [`TimelineEntry`] stands for.
pub enum EntryModel {
    Rename(RenameModel),
    Copy(CopyModel),
}

impl View for TimelineEntry {
    type V = EntryModel;

    open spec fn view(&self) -> EntryModel {
        match self {
            TimelineEntry::Rename(r) => EntryModel::Rename(r@),
            TimelineEntry::Copy(c) => EntryModel::Copy(c@),
        }
    }
}

impl Clone for TimelineEntry {
    fn clone(&self) -> (r: Self)
        ensures
            r@ == self@,
    {
        match self {
            TimelineEntry::Rename(r) => TimelineEntry::Rename(r.clone()),
            TimelineEntry::Copy(c) => TimelineEntry::Copy(c.clone()),
        }
    }
}

impl EntryModel {
    /// When it happened.
    pub open spec fn at(self) -> i64 {
        match self {
            EntryModel::Rename(r) => r.at,
            EntryModel::Copy(c) => c.at,
        }
    }
}

impl TimelineEntry {
    /// When it happened, in seconds since the epoch.
    pub fn at(&self) -> (r: i64)
        ensures
            r == self@.at(),
    {
        match self {
            TimelineEntry::Rename(r) => r.at,
            TimelineEntry::Copy(c) => c.at,
        }
    }
}

/// What the history holds of one identity.
#[derive(Debug)]
pub struct Hits {
    /// The renames.
    pub renames: Vec<RenameRecord>,
    /// The copies.
    pub copies: Vec<CopyRecord>,
}

/// What [`Hits`] stand for.
pub struct HitsModel {
    pub renames: Seq<RenameModel>,
    pub copies: Seq<CopyModel>,
}

impl View for Hits {
    type V = HitsModel;

    open spec fn view(&self) -> HitsModel {
        HitsModel { renames: models(self.renames@), copies: models(self.copies@) }
    }
}

/// The renames and copies of one identity.
pub open spec fn hit_entries(h: HitsModel) -> Seq<EntryModel> {
    Seq::new(h.renames.len(), |i: int| EntryModel::Rename(h.renames[i])) + Seq::new(
        h.copies.len(),
        |i: int| EntryModel::Copy(h.copies[i]),
    )
}

/// The renames and copies of all identities.
pub open spec fn all_entries(hits: Seq<HitsModel>) -> Seq<EntryModel>
    decreases hits.len(),
{
    if hits.len() == 0 {
        Seq::empty()
    } else {
        all_entries(hits.drop_last()) + hit_entries(hits.last())
    }
}

/// `a` happened no later than `b`.
pub open spec fn no_later(a: EntryModel, b: EntryModel) -> bool {
    a.at() <= b.at()
}

/// The renames and copies of all identities, the earliest first.
pub open spec fn timeline_of(hits: Seq<HitsModel>) -> Seq<EntryModel> {
    sorted_by(all_entries(hits), |a: EntryModel, b: EntryModel| no_later(a, b))
}

fn entry_le(a: &TimelineEntry, b: &TimelineEntry) -> (r: bool)
    ensures
        r == no_later(a@, b@),
{
    a.at() <= b.at()
}

/// The renames and copies of all identities, the earliest first. Where two happened at once,
/// they stay in the order in which they were found.
pub fn build_timeline(hits: &Vec<Hits>) -> (r: Vec<TimelineEntry>)
    ensures
        models(r@) == timeline_of(models(hits@)),
{
    let ghost all = models(hits@);
    let mut out: Vec<TimelineEntry> = Vec::new();
    let mut i: usize = 0;
    assert(models(out@) =~= all_entries(all.take(0)));
    while i < hits.len()
        invariant
            all == models(hits@),
            i <= hits@.len(),
            models(out@) == all_entries(all.take(i as int)),
        decreases hits@.len() - i,
    {
        let ghost before = models(out@);
        let ghost m = all[i as int];
        let renames = &hits[i].renames;
        let copies = &hits[i].copies;
        proof {
            assert(all.take(i + 1).drop_last() =~= all.take(i as int));
            assert(all.take(i + 1).last() == hits@[i as int]@);
        }
        let mut k: usize = 0;
        assert(models(out@) =~= before + hit_entries(m).take(0));
        while k < renames.len()
            invariant
                m == (HitsModel { renames: models(renames@), copies: models(copies@) }),
                k <= renames@.len(),
                models(out@) == before + hit_entries(m).take(k as int),
            decreases renames@.len() - k,
        {
            let ghost was = models(out@);
            out.push(TimelineEntry::Rename(renames[k].clone()));
            proof {
                assert(hit_entries(m)[k as int] == EntryModel::Rename(renames@[k as int]@));
                assert(models(out@) =~= was.push(EntryModel::Rename(renames@[k as int]@)));
                assert(models(out@) =~= before + hit_entries(m).take(k + 1));
            }
            k += 1;
        }
        let mut c: usize = 0;
        while c < copies.len()
            invariant
                m == (HitsModel { renames: models(renames@), copies: models(copies@) }),
                c <= copies@.len(),
                models(out@) == before + hit_entries(m).take(renames@.len() + c),
            decreases copies@.len() - c,
        {
            let ghost was = models(out@);
            out.push(TimelineEntry::Copy(copies[c].clone()));
            proof {
                let at = renames@.len() + c;
                assert(hit_entries(m)[at] == EntryModel::Copy(copies@[c as int]@));
                assert(models(out@) =~= was.push(EntryModel::Copy(copies@[c as int]@)));
                assert(models(out@) =~= before + hit_entries(m).take(at + 1));
            }
            c += 1;
        }
        assert(hit_entries(m).take(renames@.len() + c) =~= hit_entries(m));
        i += 1;
    }
    assert(all.take(i as int) =~= all);
    sort_models(out, entry_le, Ghost(|a: EntryModel, b: EntryModel| no_later(a, b)))
}

/// The timeline holds what was found of each identity, neither more nor less, and nothing
/// stands before what happened earlier.
pub proof fn law_timeline(hits: Seq<HitsModel>)
    ensures
        timeline_of(hits).to_multiset() == all_entries(hits).to_multiset(),
        forall|i: int, j: int|
            0 <= i <= j < timeline_of(hits).len() ==> #[trigger] timeline_of(hits)[i].at()
                <= #[trigger] timeline_of(hits)[j].at(),
{
    let le = |a: EntryModel, b: EntryModel| no_later(a, b);
    lemma_sorted_multiset(all_entries(hits), le);
    lemma_sorted_in_order(all_entries(hits), le);
    let t = timeline_of(hits);
    assert forall|i: int, j: int| 0 <= i <= j < t.len() implies #[trigger] t[i].at()
        <= #[trigger] t[j].at() by {
        if i < j {
            assert(le(t[i], t[j]));
        }
    }
}

// ---------------------------------------------------------------------------
// Searching
// ---------------------------------------------------------------------------
/// What of the history is shown. None of it outlives the window.
#[derive(Debug)]
pub struct HistoryView {
    /// Whether only sessions in the directories at hand are shown.
    pub scope_current_only: bool,
    /// What is searched for.
    pub search: String,
    /// How many sessions are shown at first, and how many more at each request.
    pub page_size: usize,
    /// How many more than that are shown.
    pub show_older_offset: usize,
}

impl Default for HistoryView {
    fn default() -> (r: Self)
        ensures
            r.scope_current_only,
            r.search@ == Seq::<char>::empty(),
            r.page_size == 20,
            r.show_older_offset == 0,
    {
        HistoryView {
            scope_current_only: true,
            search: String::new(),
            page_size: 20,
            show_older_offset: 0,
        }
    }
}

/// The session is not ruled out by the directories at hand. `canon` is its directory in
/// canonical form, where it has one.
pub open spec fn in_scope(
    current_only: bool,
    session: SessionModel,
    canon: Seq<char>,
    dirs: Seq<Seq<char>>,
) -> bool {
    current_only && dirs.len() > 0 && session.subtitle_dir is Some ==> has_path(dirs, canon)
}

/// One of the texts has `needle` in it.
pub open spec fn any_has(texts: Seq<Seq<char>>, needle: Seq<char>) -> bool {
    exists|i: int| 0 <= i < texts.len() && has_part(#[trigger] texts[i], needle)
}

/// The number or one of the texts has `needle` in it, or there is no needle.
pub open spec fn found(id: i64, texts: Seq<Seq<char>>, needle: Seq<char>) -> bool {
    needle.len() == 0 || has_part(signed_decimal(id as int), needle) || any_has(texts, needle)
}

/// Whether the number or one of the texts has `needle` in it. An empty needle is always
/// found.
pub fn needle_found(id: i64, texts: &Vec<String>, needle: &str) -> (r: bool)
    ensures
        r == found(id, views(texts@), needle@),
{
    if needle.is_empty() {
        return true;
    }
    if contains(signed_decimal_of(id).as_str(), needle) {
        return true;
    }
    let mut i: usize = 0;
    while i < texts.len()
        invariant
            i <= texts@.len(),
            forall|j: int| 0 <= j < i ==> !has_part(#[trigger] views(texts@)[j], needle@),
        decreases texts@.len() - i,
    {
        if contains(texts[i].as_str(), needle) {
            assert(has_part(views(texts@)[i as int], needle@));
            return true;
        }
        i += 1;
    }
    false
}

/// The names that the renames took away and gave.
pub open spec fn rename_names(renames: Seq<RenameModel>) -> Seq<Seq<char>>
    decreases renames.len(),
{
    if renames.len() == 0 {
        Seq::empty()
    } else {
        rename_names(renames.drop_last()).push(renames.last().old_name).push(
            renames.last().new_name,
        )
    }
}

/// The texts of a session that are searched: its directory and the names of its renames.
pub open spec fn searched(session: SessionModel, renames: Seq<RenameModel>) -> Seq<Seq<char>> {
    match session.subtitle_dir {
        Some(d) => seq![d] + rename_names(renames),
        None => rename_names(renames),
    }
}

/// Each text in lower case.
pub open spec fn all_lower(texts: Seq<Seq<char>>) -> Seq<Seq<char>> {
    Seq::new(texts.len(), |i: int| unicode_lower(texts[i]))
}

/// The session is shown.
pub open spec fn shown(
    session: SessionModel,
    renames: Seq<RenameModel>,
    current_only: bool,
    search: Seq<char>,
    canon: Seq<char>,
    dirs: Seq<Seq<char>>,
) -> bool {
    in_scope(current_only, session, canon, dirs) && found(
        session.id,
        all_lower(searched(session, renames)),
        unicode_lower(trim_both(search, CharClass::Space)),
    )
}

fn searched_texts(session: &SessionRecord, renames: &Vec<RenameRecord>) -> (r: Vec<String>)
    ensures
        views(r@) == all_lower(searched(session@, models(renames@))),
{
    let ghost all = models(renames@);
    let mut out: Vec<String> = Vec::new();
    if let Some(d) = &session.subtitle_dir {
        out.push(d.as_str().to_lowercase());
    }
    let ghost start = views(out@);
    let mut i: usize = 0;
    assert(views(out@) =~= start + all_lower(rename_names(all.take(0))));
    while i < renames.len()
        invariant
            all == models(renames@),
            i <= renames@.len(),
            views(out@) == start + all_lower(rename_names(all.take(i as int))),
        decreases renames@.len() - i,
    {
        let ghost before = views(out@);
        let ghost named = rename_names(all.take(i as int));
        let r = &renames[i];
        proof {
            assert(all.take(i + 1).drop_last() =~= all.take(i as int));
            assert(all.take(i + 1).last() == r@);
        }
        out.push(r.old_name.as_str().to_lowercase());
        out.push(r.new_name.as_str().to_lowercase());
        proof {
            let next = rename_names(all.take(i + 1));
            assert(views(out@) =~= before.push(unicode_lower(r@.old_name)).push(
                unicode_lower(r@.new_name),
            ));
            assert(all_lower(next) =~= all_lower(named).push(unicode_lower(r@.old_name)).push(
                unicode_lower(r@.new_name),
            ));
            assert(views(out@) =~= start + all_lower(next));
        }
        i += 1;
    }
    assert(all.take(i as int) =~= all);
    assert(views(out@) =~= all_lower(searched(session@, all)));
    out
}

/// Whether a session is shown: it is in one of the directories at hand, where that is asked
/// for, and what is searched for stands in its number, in its directory or in the name of a
/// file. `canon` is its directory in canonical form, `renames` are its renames where they
/// can be read.
pub fn session_matches(
    session: &SessionRecord,
    renames: &Vec<RenameRecord>,
    view: &HistoryView,
    canon: &str,
    dirs: &Vec<String>,
) -> (r: bool)
    ensures
        r == shown(
            session@,
            models(renames@),
            view.scope_current_only,
            view.search@,
            canon@,
            views(dirs@),
        ),
{
    assert(views(dirs@).len() == dirs@.len());
    if view.scope_current_only && dirs.len() > 0 && session.subtitle_dir.is_some() {
        if !holds_path(dirs, canon) {
            return false;
        }
    }
    let needle = trimmed(view.search.as_str(), CharClass::Space).as_str().to_lowercase();
    let texts = searched_texts(session, renames);
    needle_found(session.id, &texts, needle.as_str())
}

// ---------------------------------------------------------------------------
// Paging
// ---------------------------------------------------------------------------
/// The positions of the first `limit` flags that are set.
pub open spec fn first_set(flags: Seq<bool>, limit: int) -> Seq<int>
    decreases flags.len(),
{
    if flags.len() == 0 {
        Seq::empty()
    } else {
        let rest = first_set(flags.drop_last(), limit);
        if flags.last() && rest.len() < limit {
            rest.push(flags.len() - 1)
        } else {
            rest
        }
    }
}

/// How many flags are set.
pub open spec fn set_count(flags: Seq<bool>) -> nat {
    count_of(flags, |f: bool| f)
}

/// How many are left out where the first `limit` are shown.
pub open spec fn left_out(flags: Seq<bool>, limit: int) -> nat {
    if set_count(flags) > limit {
        (set_count(flags) - limit) as nat
    } else {
        0
    }
}

/// What is shown and what is left out make up all that match, and no more is shown than
/// the limit allows.
pub proof fn law_paging(flags: Seq<bool>, limit: nat)
    ensures
        first_set(flags, limit as int).len() + left_out(flags, limit as int) == set_count(flags),
        first_set(flags, limit as int).len() <= limit,
        forall|i: int|
            0 <= i < first_set(flags, limit as int).len() ==> 0 <= #[trigger] first_set(
                flags,
                limit as int,
            )[i] < flags.len() && flags[first_set(flags, limit as int)[i]],
        forall|i: int, j: int|
            0 <= i < j < first_set(flags, limit as int).len() ==> (#[trigger] first_set(
                flags,
                limit as int,
            )[i]) < (#[trigger] first_set(flags, limit as int)[j]),
    decreases flags.len(),
{
    if flags.len() > 0 {
        law_paging(flags.drop_last(), limit);
        let rest = first_set(flags.drop_last(), limit as int);
        let all = first_set(flags, limit as int);
        assert forall|i: int| 0 <= i < all.len() implies 0 <= #[trigger] all[i] < flags.len()
            && flags[all[i]] by {
            if i < rest.len() {
                assert(all[i] == rest[i]);
                assert(flags.drop_last()[rest[i]] == flags[rest[i]]);
            }
        }
        assert forall|i: int, j: int| 0 <= i < j < all.len() implies (#[trigger] all[i]) < (
        #[trigger] all[j]) by {
            assert(all[i] == rest[i]);
            if j < rest.len() {
                assert(all[j] == rest[j]);
            }
        }
    }
}

/// What each position stands for.
pub open spec fn positions(v: Seq<usize>) -> Seq<int> {
    Seq::new(v.len(), |i: int| v[i] as int)
}

/// A page of sessions.
#[derive(Debug)]
pub struct Page {
    /// The positions of the sessions that are shown.
    pub shown: Vec<usize>,
    /// How many match but are not shown.
    pub remaining: usize,
}

impl HistoryView {
    /// How many sessions are shown.
    pub open spec fn limit(self) -> int {
        self.page_size + self.show_older_offset
    }

    /// The page of the sessions that match.
    pub fn page(&self, matching: &Vec<bool>) -> (r: Page)
        requires
            self.limit() <= usize::MAX,
        ensures
            positions(r.shown@) == first_set(matching@, self.limit()),
            r.remaining == left_out(matching@, self.limit()),
            positions(r.shown@) == first_set(matching@, self.page_size + self.show_older_offset),
    {
        let limit = self.page_size + self.show_older_offset;
        let ghost p = |f: bool| f;
        let mut shown: Vec<usize> = Vec::new();
        let mut total: usize = 0;
        let mut i: usize = 0;
        proof {
            assert(matching@.take(0) =~= Seq::empty());
            assert(positions(shown@) =~= first_set(matching@.take(0), limit as int));
        }
        while i < matching.len()
            invariant
                p == (|f: bool| f),
                i <= matching@.len(),
                total == count_of(matching@.take(i as int), p),
                total <= i,
                positions(shown@) == first_set(matching@.take(i as int), limit as int),
            decreases matching@.len() - i,
        {
            let ghost before = positions(shown@);
            proof {
                assert(matching@.take(i + 1).drop_last() =~= matching@.take(i as int));
                assert(before.len() == shown@.len());
            }
            if matching[i] {
                total += 1;
                if shown.len() < limit {
                    shown.push(i);
                    assert(positions(shown@) =~= before.push(i as int));
                }
            }
            i += 1;
        }
        assert(matching@.take(i as int) =~= matching@);
        let remaining = if total > limit {
            total - limit
        } else {
            0
        };
        Page { shown, remaining }
    }

    /// Begins anew when the history is opened again: what was asked for is forgotten. How
    /// many sessions a page has is a preference, and stays.
    pub fn reopen(&mut self)
        ensures
            final(self).scope_current_only,
            final(self).search@ == Seq::<char>::empty(),
            final(self).show_older_offset == 0,
            final(self).page_size == old(self).page_size,
    {
        self.scope_current_only = true;
        self.search = String::new();
        self.show_older_offset = 0;
    }

    /// Drops the restriction to the directories at hand where there are none.
    pub fn settle_scope(&mut self, dirs: &Vec<String>)
        ensures
            *final(self) == (HistoryView {
                scope_current_only: old(self).scope_current_only && dirs@.len() > 0,
                ..*old(self)
            }),
    {
        if dirs.len() == 0 {
            self.scope_current_only = false;
        }
    }

    /// Shows another page of older sessions.
    pub fn show_older(&mut self)
        requires
            old(self).limit() <= usize::MAX,
        ensures
            final(self).limit() == old(self).limit() + old(self).page_size,
            final(self).show_older_offset == old(self).show_older_offset + old(self).page_size,
            *final(self) == (HistoryView {
                show_older_offset: final(self).show_older_offset,
                ..*old(self)
            }),
    {
        self.show_older_offset = self.show_older_offset + self.page_size;
    }
}

// ---------------------------------------------------------------------------
// Texts
// ---------------------------------------------------------------------------
/// What is said of an identity that more than one file has.
pub open spec fn collision_warning(id: IdentityModel) -> Seq<char> {
    "Content collision in "@ + id.dir + ": multiple subtitles share checksum "@ + short_form(
        id.checksum,
    ) + " — history not attributed."@
}

/// What is said of an identity that more than one file has.
pub fn collision_text(id: &Identity) -> (r: String)
    ensures
        r@ == collision_warning(id@),
{
    let mut s = copy_of("Content collision in ");
    s.append(id.dir.as_str());
    s.append(": multiple subtitles share checksum ");
    s.append(short_checksum(id.checksum.as_str()).as_str());
    s.append(" — history not attributed.");
    s
}

/// What is said above a timeline with `n` entries.
pub fn hint_text(n: usize) -> (r: String)
    ensures
        r@ == decimal(n as nat)
            + " dropped subtitle(s) match history records — see History panel to undo."@,
{
    let mut s = decimal_of(n as u64);
    s.append(" dropped subtitle(s) match history records — see History panel to undo.");
    s
}

/// From where to where a file was copied.
pub open spec fn route(c: CopyModel) -> Seq<char> {
    c.src_dir + "/"@ + c.src_name + " → "@ + c.dst_dir + "/"@ + c.dst_name
}

/// What is said of an entry of the timeline.
pub open spec fn entry_line(e: EntryModel) -> Seq<char> {
    match e {
        EntryModel::Rename(r) => "⟳ renamed "@ + r.old_name + " → "@ + r.new_name + " ("@
            + stamp(r.at as int) + ")"@,
        EntryModel::Copy(c) => "⤴ copied "@ + route(c) + " ("@ + stamp(c.at as int) + ")"@,
    }
}

fn route_text(c: &CopyRecord) -> (r: String)
    ensures
        r@ == route(c@),
{
    let mut s = copy_of(c.src_dir.as_str());
    s.append("/");
    s.append(c.src_name.as_str());
    s.append(" → ");
    s.append(c.dst_dir.as_str());
    s.append("/");
    s.append(c.dst_name.as_str());
    s
}

/// What is said of an entry of the timeline.
pub fn entry_text(e: &TimelineEntry) -> (r: String)
    ensures
        r@ == entry_line(e@),
{
    match e {
        TimelineEntry::Rename(r) => {
            let mut s = copy_of("⟳ renamed ");
            s.append(r.old_name.as_str());
            s.append(" → ");
            s.append(r.new_name.as_str());
            s.append(" (");
            s.append(format_epoch(r.at).as_str());
            s.append(")");
            s
        },
        TimelineEntry::Copy(c) => {
            let mut s = copy_of("⤴ copied ");
            s.append(route_text(c).as_str());
            s.append(" (");
            s.append(format_epoch(c.at).as_str());
            s.append(")");
            s
        },
    }
}

/// The title of a session with `n` renames.
pub open spec fn title_of(session: SessionModel, n: nat) -> Seq<char> {
    let undo = match session.undo_of {
        Some(o) => " — undo of #"@ + signed_decimal(o as int),
        None => Seq::empty(),
    };
    let dir = match session.subtitle_dir {
        Some(d) => d,
        None => "(none)"@,
    };
    "session #"@ + signed_decimal(session.id as int) + undo + " — "@ + stamp(
        session.created_at as int,
    ) + " — "@ + dir + " — "@ + decimal(n) + " renames"@
}

/// The title of a session with `n` renames.
pub fn session_title(session: &SessionRecord, n: usize) -> (r: String)
    ensures
        r@ == title_of(session@, n as nat),
{
    let mut s = copy_of("session #");
    s.append(signed_decimal_of(session.id).as_str());
    let mut undo = String::new();
    if let Some(o) = session.undo_of {
        undo = copy_of(" — undo of #");
        undo.append(signed_decimal_of(o).as_str());
    }
    s.append(undo.as_str());
    s.append(" — ");
    s.append(format_epoch(session.created_at).as_str());
    s.append(" — ");
    match &session.subtitle_dir {
        Some(d) => s.append(d.as_str()),
        None => s.append("(none)"),
    }
    s.append(" — ");
    s.append(decimal_of(n as u64).as_str());
    s.append(" renames");
    s
}

/// What stands on the button for older sessions.
pub fn older_label(remaining: usize) -> (r: String)
    ensures
        r@ == "Show older "@ + decimal(remaining as nat) + " more"@,
{
    let mut s = copy_of("Show older ");
    s.append(decimal_of(remaining as u64).as_str());
    s.append(" more");
    s
}

/// What stands for a page of `n` sessions.
pub fn page_label(n: usize) -> (r: String)
    ensures
        r@ == decimal(n as nat) + " / page"@,
{
    let mut s = decimal_of(n as u64);
    s.append(" / page");
    s
}

/// What stands above `n` copies.
pub fn copies_header(n: usize, expanded: bool) -> (r: String)
    ensures
        r@ == "copies ("@ + decimal(n as nat) + ") "@ + if expanded {
            "▾"@
        } else {
            "▸"@
        },
{
    let mut s = copy_of("copies (");
    s.append(decimal_of(n as u64).as_str());
    s.append(") ");
    if expanded {
        s.append("▾");
    } else {
        s.append("▸");
    }
    s
}

/// What is said of a copy.
pub open spec fn copy_line(c: CopyModel) -> Seq<char> {
    "⤴ "@ + stamp(c.at as int) + "  "@ + route(c) + "  "@ + short_form(c.dst_checksum)
}

/// What is said of a copy.
pub fn copy_text(c: &CopyRecord) -> (r: String)
    ensures
        r@ == copy_line(c@),
{
    let mut s = copy_of("⤴ ");
    s.append(format_epoch(c.at).as_str());
    s.append("  ");
    s.append(route_text(c).as_str());
    s.append("  ");
    s.append(short_checksum(c.dst_checksum.as_str()).as_str());
    s
}

} // verus!
