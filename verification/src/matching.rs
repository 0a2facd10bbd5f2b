//! What the groups of a match look like, and what changing them by hand does.

use vstd::prelude::*;
use vstd::string::*;

use crate::conservation::law_match_order;
use crate::cross::{cross_keys, law_cross_keys};
use crate::extract::{law_one_key_each, pattern_keys, raw_keys};
use crate::fields::{fields_of, single_key};
use crate::key::{key_lt, KeyModel};
use crate::matcher::{
    attached, by_key, by_stem, detached, files_of, group_le, group_of, lone_subtitles, lone_videos,
    matched, pair, pass_keys, place_subtitles, place_videos, stem_le, stems_of, stray_group,
    with_video, FileModel, GroupModel,
};
use crate::normalize::key_of;
use crate::pairing::{lemma_first_video, lemma_group_found, lemma_videos_placed, own_key};
use crate::registry::{basename_parts, FileCategory, RegistryModel};
use crate::sorting::{in_order, lemma_sorted_multiset, sorted_by};
use crate::text::lex_lt;

verus! {

// ---------------------------------------------------------------------------
// Keys
// ---------------------------------------------------------------------------
/// A pattern is what the key of every file of its side is taken with, each by itself,
/// whatever the number of files.
pub proof fn law_keys_by_pattern(
    videos: Seq<FileModel>,
    subs: Seq<FileModel>,
    pattern: Seq<char>,
    other: Option<Seq<char>>,
    i: int,
)
    ensures
        0 <= i < videos.len() ==> pass_keys(videos, subs, Some(pattern), other).0[i] == key_of(
            pattern_keys(pattern, seq![videos[i].stem])[0],
        ),
        0 <= i < subs.len() ==> pass_keys(videos, subs, other, Some(pattern)).1[i] == key_of(
            pattern_keys(pattern, seq![subs[i].stem])[0],
        ),
{
}

/// One file against many has nothing to be compared with: without a pattern each file is
/// read on its own.
pub proof fn law_keys_one_to_many(
    videos: Seq<FileModel>,
    subs: Seq<FileModel>,
    other: Option<Seq<char>>,
    i: int,
)
    requires
        (videos.len() == 1 && subs.len() > 1) || (videos.len() > 1 && subs.len() == 1),
    ensures
        0 <= i < videos.len() ==> pass_keys(videos, subs, None, other).0[i] == key_of(
            single_key(fields_of(videos[i].stem)),
        ),
        0 <= i < subs.len() ==> pass_keys(videos, subs, other, None).1[i] == key_of(
            single_key(fields_of(subs[i].stem)),
        ),
{
}

/// Two videos or more and two subtitles or more are read together where no pattern is
/// given.
pub proof fn law_keys_across(videos: Seq<FileModel>, subs: Seq<FileModel>, i: int)
    requires
        videos.len() > 1,
        subs.len() > 1,
    ensures
        ({
            let raws = cross_keys(
                Seq::new(videos.len(), |j: int| videos[j].stem),
                Seq::new(subs.len(), |j: int| subs[j].stem),
            );
            let keys = pass_keys(videos, subs, None, None);
            &&& 0 <= i < videos.len() ==> keys.0[i] == key_of(raws.0[i])
            &&& 0 <= i < subs.len() ==> keys.1[i] == key_of(raws.1[i])
        }),
{
    law_cross_keys(stems_of(videos), stems_of(subs));
    assert(stems_of(videos) =~= Seq::new(videos.len(), |j: int| videos[j].stem));
    assert(stems_of(subs) =~= Seq::new(subs.len(), |j: int| subs[j].stem));
}

/// Otherwise a side without a pattern is read together, by itself: where one side has no
/// files, where each has one, and where the other side has a pattern.
pub proof fn law_keys_by_side(
    videos: Seq<FileModel>,
    subs: Seq<FileModel>,
    other: Option<Seq<char>>,
    i: int,
)
    requires
        !((videos.len() == 1 && subs.len() > 1) || (videos.len() > 1 && subs.len() == 1)),
        videos.len() <= 1 || subs.len() <= 1 || other is Some,
    ensures
        0 <= i < videos.len() ==> pass_keys(videos, subs, None, other).0[i] == key_of(
            raw_keys(Seq::new(videos.len(), |j: int| videos[j].stem))[i],
        ),
        0 <= i < subs.len() ==> pass_keys(videos, subs, other, None).1[i] == key_of(
            raw_keys(Seq::new(subs.len(), |j: int| subs[j].stem))[i],
        ),
{
    law_one_key_each(stems_of(videos));
    law_one_key_each(stems_of(subs));
    assert(stems_of(videos) =~= Seq::new(videos.len(), |j: int| videos[j].stem));
    assert(stems_of(subs) =~= Seq::new(subs.len(), |j: int| subs[j].stem));
}

// ---------------------------------------------------------------------------
// Groups
// ---------------------------------------------------------------------------
/// One video and one subtitle that have the same key, or both have none, are one group. It
/// has that key, or a key made up for it where there is none.
pub proof fn law_sole_pair(
    v: FileModel,
    s: FileModel,
    key: Option<KeyModel>,
)
    ensures
        ({
            let r = pair(seq![v], seq![s], seq![key], seq![key]);
            &&& r.len() == 1
            &&& r[0].video == Some(v)
            &&& r[0].subtitles == seq![s]
            &&& !r[0].manual
            &&& (key matches Some(k) && k.text().len() > 0) ==> r[0].key == key->0
            &&& (key matches Some(k) && k is Number) ==> r[0].key == key->0
            &&& (key is None || key == Some(KeyModel::Text(Seq::empty()))) ==> r[0].key
                == KeyModel::Text("__single__"@)
        }),
{
    if let Some(k) = key {
        if k.text().len() > 0 {
            assert(k != KeyModel::Text(Seq::empty()));
        }
    }
}

/// The group is that of video `f`: it has the key of the video, unless the video has none
/// or a video before has it. Then it has a key made up of the stem.
pub open spec fn group_of_video(
    videos: Seq<FileModel>,
    keys: Seq<Option<KeyModel>>,
    g: GroupModel,
    f: int,
) -> bool {
    &&& 0 <= f < videos.len()
    &&& g.video == Some(videos[f])
    &&& keys[f] is None ==> g.key == KeyModel::Text("__unmatched_video:"@ + videos[f].stem)
    &&& keys[f] is Some && (exists|i: int| 0 <= i < f && #[trigger] keys[i] == keys[f]) ==> g.key
        == KeyModel::Text("__dupe_video:"@ + videos[f].stem)
    &&& keys[f] is Some && (forall|i: int| 0 <= i < f ==> #[trigger] keys[i] != keys[f]) ==> g.key
        == keys[f]->0
}

/// The group is that of subtitle `j` alone. It has a key made up of the key and the stem of
/// the subtitle.
pub open spec fn group_of_subtitle(
    subs: Seq<FileModel>,
    keys: Seq<Option<KeyModel>>,
    g: GroupModel,
    j: int,
) -> bool {
    &&& 0 <= j < subs.len()
    &&& g.video is None
    &&& g.subtitles == seq![subs[j]]
    &&& g.key == KeyModel::Text(
        "__unmatched_sub:"@ + (if keys[j] is Some {
            keys[j]->0.text()
        } else {
            Seq::empty()
        }) + ":"@ + subs[j].stem,
    )
}

/// The group is one that placing the files made: that of a video or of a subtitle alone,
/// and not changed by hand.
pub open spec fn group_made(
    videos: Seq<FileModel>,
    subs: Seq<FileModel>,
    video_keys: Seq<Option<KeyModel>>,
    sub_keys: Seq<Option<KeyModel>>,
    g: GroupModel,
) -> bool {
    &&& !g.manual
    &&& g.video is Some ==> exists|f: int| #[trigger] group_of_video(videos, video_keys, g, f)
    &&& g.video is None ==> exists|j: int| #[trigger] group_of_subtitle(subs, sub_keys, g, j)
}

proof fn lemma_video_groups(videos: Seq<FileModel>, keys: Seq<Option<KeyModel>>, f: int)
    requires
        forall|i: int|
            0 <= i < videos.len() ==> (#[trigger] keys[i] matches Some(k) ==> own_key(k)),
        0 <= f < videos.len(),
    ensures
        group_of_video(videos, keys, place_videos(videos, keys)[f], f),
        !place_videos(videos, keys)[f].manual,
    decreases videos.len(),
{
    let t = videos.drop_last();
    let n = t.len() as int;
    let g = place_videos(t, keys);
    let r = place_videos(videos, keys);
    lemma_videos_placed(t, keys);
    if f < n {
        lemma_video_groups(t, keys, f);
        assert(r[f] == g[f]);
        assert(t[f] == videos[f]);
    } else if let Some(k) = keys[f] {
        assert(own_key(k));
        lemma_group_found(g, k);
        lemma_first_video(t, keys, k);
        match group_of(g, k) {
            Some(i) => {
                assert(g[i].key == k);
                assert(keys[i] == Some(k));
            },
            None => {
                if exists|i: int| 0 <= i < f && #[trigger] keys[i] == keys[f] {
                    let i = choose|i: int| 0 <= i < f && #[trigger] keys[i] == keys[f];
                    lemma_first_place(keys, k, i);
                    let m = choose|m: int|
                        0 <= m <= i && #[trigger] keys[m] == Some(k) && forall|l: int|
                            0 <= l < m ==> #[trigger] keys[l] != Some(k);
                    assert(g[m].key == k);
                }
            },
        }
    }
}

proof fn lemma_first_place(keys: Seq<Option<KeyModel>>, k: KeyModel, i: int)
    requires
        0 <= i,
        keys[i] == Some(k),
    ensures
        exists|m: int|
            0 <= m <= i && #[trigger] keys[m] == Some(k) && forall|l: int|
                0 <= l < m ==> #[trigger] keys[l] != Some(k),
    decreases i,
{
    if exists|l: int| 0 <= l < i && #[trigger] keys[l] == Some(k) {
        let l = choose|l: int| 0 <= l < i && #[trigger] keys[l] == Some(k);
        lemma_first_place(keys, k, l);
        let m = choose|m: int|
            0 <= m <= l && #[trigger] keys[m] == Some(k) && forall|h: int|
                0 <= h < m ==> #[trigger] keys[h] != Some(k);
        assert(keys[m] == Some(k));
    } else {
        assert(keys[i] == Some(k));
    }
}

/// A group of a subtitle alone has a key made up for it.
spec fn made_up(k: KeyModel) -> bool {
    k matches KeyModel::Text(t) && t.len() > 0 && t[0] == '_'
}

proof fn lemma_made_groups(
    videos: Seq<FileModel>,
    subs: Seq<FileModel>,
    video_keys: Seq<Option<KeyModel>>,
    sub_keys: Seq<Option<KeyModel>>,
    g: int,
)
    requires
        forall|i: int|
            0 <= i < videos.len() ==> (#[trigger] video_keys[i] matches Some(k) ==> own_key(k)),
        forall|i: int|
            0 <= i < subs.len() ==> (#[trigger] sub_keys[i] matches Some(k) ==> own_key(k)),
        0 <= g < place_subtitles(place_videos(videos, video_keys), subs, sub_keys).len(),
    ensures
        ({
            let x = place_subtitles(place_videos(videos, video_keys), subs, sub_keys)[g];
            &&& group_made(videos, subs, video_keys, sub_keys, x)
            &&& x.video is None ==> made_up(x.key)
        }),
    decreases subs.len(),
{
    let a = place_videos(videos, video_keys);
    let r = place_subtitles(a, subs, sub_keys);
    lemma_videos_placed(videos, video_keys);
    if subs.len() == 0 {
        lemma_video_groups(videos, video_keys, g);
        assert(group_of_video(videos, video_keys, r[g], g));
    } else {
        let t = subs.drop_last();
        let n = t.len() as int;
        let p = place_subtitles(a, t, sub_keys);
        let key = sub_keys[n];
        let sub = subs.last();
        if key is Some {
            assert(sub_keys[n] matches Some(k) ==> own_key(k));
            lemma_group_found(p, key->0);
        }
        if g < p.len() {
            lemma_made_groups(videos, t, video_keys, sub_keys, g);
            let x = p[g];
            if r[g] != x {
                assert(key is Some && group_of(p, key->0) == Some(g));
                assert(x.key == key->0);
                assert(x.video is Some);
                let f = choose|f: int| #[trigger] group_of_video(videos, video_keys, x, f);
                assert(group_of_video(videos, video_keys, r[g], f));
            } else if x.video is None {
                let j = choose|j: int| #[trigger] group_of_subtitle(t, sub_keys, x, j);
                assert(t[j] == subs[j]);
                assert(group_of_subtitle(subs, sub_keys, r[g], j));
            }
        } else {
            reveal_strlit("__unmatched_sub:");
            assert(r[g] == stray_group(sub, key));
            assert(r[g].key->Text_0[0] == '_');
            assert(group_of_subtitle(subs, sub_keys, r[g], n));
        }
    }
}

/// Every group of a pairing is that of a video, with the key of the video or one made up, or
/// that of a subtitle alone, with a key made up, and none counts as changed by hand.
pub proof fn law_groups_made(
    videos: Seq<FileModel>,
    subs: Seq<FileModel>,
    video_keys: Seq<Option<KeyModel>>,
    sub_keys: Seq<Option<KeyModel>>,
    g: int,
)
    requires
        forall|i: int|
            0 <= i < videos.len() ==> (#[trigger] video_keys[i] matches Some(k) ==> own_key(k)),
        forall|i: int|
            0 <= i < subs.len() ==> (#[trigger] sub_keys[i] matches Some(k) ==> own_key(k)),
        !(videos.len() == 1 && subs.len() == 1 && video_keys[0] == sub_keys[0]),
        0 <= g < pair(videos, subs, video_keys, sub_keys).len(),
    ensures
        group_made(
            videos,
            subs,
            video_keys,
            sub_keys,
            pair(videos, subs, video_keys, sub_keys)[g],
        ),
{
    broadcast use vstd::seq_lib::group_to_multiset_ensures;

    let a = place_subtitles(place_videos(videos, video_keys), subs, sub_keys);
    let le = |a: GroupModel, b: GroupModel| group_le(a, b);
    let b = by_key(a);
    let r = pair(videos, subs, video_keys, sub_keys);
    lemma_sorted_multiset(a, le);
    assert(b.contains(b[g]));
    assert(b.to_multiset().count(b[g]) > 0);
    assert(a.to_multiset().count(b[g]) > 0);
    assert(a.contains(b[g]));
    let h = choose|h: int| 0 <= h < a.len() && a[h] == b[g];
    lemma_made_groups(videos, subs, video_keys, sub_keys, h);
    let x = a[h];
    let y = r[g];
    assert(y.key == x.key && y.video == x.video && y.manual == x.manual);
    if x.video is Some {
        let f = choose|f: int| #[trigger] group_of_video(videos, video_keys, x, f);
        assert(group_of_video(videos, video_keys, y, f));
    } else {
        let j = choose|j: int| #[trigger] group_of_subtitle(subs, sub_keys, x, j);
        lemma_sorted_multiset(
            x.subtitles,
            |a: FileModel, b: FileModel| stem_le(a, b),
        );
        assert(x.subtitles =~= Seq::<FileModel>::empty().push(subs[j]));
        assert(x.subtitles.drop_last() =~= Seq::empty());
        assert(by_stem(x.subtitles) =~= x.subtitles) by {
            reveal_with_fuel(sorted_by, 2);
        }
        assert(group_of_subtitle(subs, sub_keys, y, j));
    }
}

/// The groups stand in the order of their keys.
pub proof fn law_groups_ordered(
    videos: Seq<FileModel>,
    subs: Seq<FileModel>,
    video_pattern: Option<Seq<char>>,
    sub_pattern: Option<Seq<char>>,
    i: int,
    j: int,
)
    requires
        0 <= i < j < matched(videos, subs, video_pattern, sub_pattern).len(),
    ensures
        !key_lt(
            matched(videos, subs, video_pattern, sub_pattern)[j].key,
            matched(videos, subs, video_pattern, sub_pattern)[i].key,
        ),
{
    let le = |a: GroupModel, b: GroupModel| group_le(a, b);
    law_match_order(videos, subs, video_pattern, sub_pattern);
    let r = matched(videos, subs, video_pattern, sub_pattern);
    assert(le(r[i], r[j]));
}

/// The subtitles of every group stand in the order of their stems.
pub proof fn law_subtitles_ordered(
    videos: Seq<FileModel>,
    subs: Seq<FileModel>,
    video_pattern: Option<Seq<char>>,
    sub_pattern: Option<Seq<char>>,
    g: int,
    i: int,
    j: int,
)
    requires
        0 <= g < matched(videos, subs, video_pattern, sub_pattern).len(),
        0 <= i < j < matched(videos, subs, video_pattern, sub_pattern)[g].subtitles.len(),
    ensures
        ({
            let s = matched(videos, subs, video_pattern, sub_pattern)[g].subtitles;
            !lex_lt(s[j].stem, s[i].stem)
        }),
{
    let le = |a: FileModel, b: FileModel| stem_le(a, b);
    law_match_order(videos, subs, video_pattern, sub_pattern);
    let r = matched(videos, subs, video_pattern, sub_pattern);
    assert(in_order(r[g].subtitles, le));
    assert(le(r[g].subtitles[i], r[g].subtitles[j]));
}

/// Leftovers are matched again only where no pattern is given and two videos or more and two
/// subtitles or more are left over. Otherwise the groups of one pass are the result.
pub proof fn law_one_pass(
    videos: Seq<FileModel>,
    subs: Seq<FileModel>,
    video_pattern: Option<Seq<char>>,
    sub_pattern: Option<Seq<char>>,
)
    ensures
        ({
            let keys = pass_keys(videos, subs, video_pattern, sub_pattern);
            let once = pair(videos, subs, keys.0, keys.1);
            video_pattern is Some || sub_pattern is Some || lone_videos(once).len() <= 1
                || lone_subtitles(once).len() <= 1 ==> matched(
                videos,
                subs,
                video_pattern,
                sub_pattern,
            ).to_multiset() == once.to_multiset()
        }),
{
    let keys = pass_keys(videos, subs, video_pattern, sub_pattern);
    let once = pair(videos, subs, keys.0, keys.1);
    lemma_sorted_multiset(once, |a: GroupModel, b: GroupModel| group_le(a, b));
}

// ---------------------------------------------------------------------------
// What a result says
// ---------------------------------------------------------------------------
/// The groups with a video, the videos without subtitles and the subtitles without a video
/// are listed group by group.
pub proof fn law_lists(groups: Seq<GroupModel>, g: GroupModel)
    ensures
        with_video(Seq::empty()).len() == 0,
        lone_videos(Seq::empty()).len() == 0,
        lone_subtitles(Seq::empty()).len() == 0,
        with_video(groups.push(g)) == if g.video is Some {
            with_video(groups).push(g)
        } else {
            with_video(groups)
        },
        lone_videos(groups.push(g)) == if g.video is Some && g.subtitles.len() == 0 {
            lone_videos(groups).push(g.video->0)
        } else {
            lone_videos(groups)
        },
        lone_subtitles(groups.push(g)) == if g.video is None {
            lone_subtitles(groups) + g.subtitles
        } else {
            lone_subtitles(groups)
        },
{
    assert(groups.push(g).drop_last() =~= groups);
    if g.video is None && g.subtitles.len() == 0 {
        assert(lone_subtitles(groups) + g.subtitles =~= lone_subtitles(groups));
    }
}

// ---------------------------------------------------------------------------
// By hand
// ---------------------------------------------------------------------------
/// Attaching moves the first subtitle of group `i` behind those of group `v`, which then
/// counts as changed by hand, and changes nothing else.
pub proof fn law_attach(groups: Seq<GroupModel>, v: int, i: int)
    requires
        0 <= v < groups.len(),
        0 <= i < groups.len(),
        groups[v].video is Some,
        groups[i].subtitles.len() > 0,
    ensures
        ({
            let r = attached(groups, v, i);
            let moved = groups[i].subtitles[0];
            &&& r.len() == groups.len()
            &&& forall|g: int|
                0 <= g < groups.len() ==> (#[trigger] r[g]).video == groups[g].video && r[g].key
                    == groups[g].key
            &&& forall|g: int|
                0 <= g < groups.len() && g != v && g != i ==> #[trigger] r[g] == groups[g]
            &&& r[v].manual
            &&& v != i ==> r[v].subtitles == groups[v].subtitles.push(moved) && r[i].subtitles
                == groups[i].subtitles.skip(1) && r[i].manual == groups[i].manual
            &&& v == i ==> r[v].subtitles == groups[v].subtitles.skip(1).push(moved)
        }),
{
    assert(groups[i].subtitles.skip(1) =~= groups[i].subtitles.drop_first());
}

/// Detaching takes subtitle `i` out of group `v`, which then counts as changed by hand, and
/// puts it into a new group at the end that has no video. Nothing else changes.
pub proof fn law_detach(groups: Seq<GroupModel>, v: int, i: int)
    requires
        0 <= v < groups.len(),
        0 <= i < groups[v].subtitles.len(),
    ensures
        ({
            let r = detached(groups, v, i);
            let out = groups[v].subtitles[i];
            &&& r.len() == groups.len() + 1
            &&& forall|g: int| 0 <= g < groups.len() && g != v ==> #[trigger] r[g] == groups[g]
            &&& r[v].video == groups[v].video && r[v].key == groups[v].key && r[v].manual
            &&& r[v].subtitles == groups[v].subtitles.take(i) + groups[v].subtitles.skip(i + 1)
            &&& r.last().video is None && r.last().subtitles == seq![out] && !r.last().manual
            &&& r.last().key == KeyModel::Text(
                "__unmatched_sub:"@ + groups[v].key.text() + ":"@ + out.stem,
            )
        }),
{
    assert(groups[v].subtitles.remove(i) =~= groups[v].subtitles.take(i)
        + groups[v].subtitles.skip(i + 1));
}

/// What cannot be attached or detached leaves the groups as they are.
pub proof fn law_by_hand_refused(groups: Seq<GroupModel>, v: int, i: int)
    requires
        v >= 0,
        i >= 0,
    ensures
        (v >= groups.len() || i >= groups.len() || groups[v].video is None
            || groups[i].subtitles.len() == 0) ==> attached(groups, v, i) == groups,
        (v >= groups.len() || i >= groups[v].subtitles.len()) ==> detached(groups, v, i) == groups,
{
}

// ---------------------------------------------------------------------------
// Files
// ---------------------------------------------------------------------------
/// The files of a category are those of its extensions, in their order, each with its path,
/// stem and extension.
pub proof fn law_files(registry: RegistryModel, paths: Seq<Seq<char>>, p: Seq<char>, c: FileCategory)
    ensures
        files_of(registry, Seq::empty(), c).len() == 0,
        files_of(registry, paths.push(p), c) == if registry.category(p) == c {
            files_of(registry, paths, c).push(
                FileModel { path: p, stem: basename_parts(p).0, ext: basename_parts(p).1 },
            )
        } else {
            files_of(registry, paths, c)
        },
{
    assert(paths.push(p).drop_last() =~= paths);
}

} // verus!
