//! What the pairing of files is for: files with the same key come together, and no others.

use vstd::prelude::*;
use vstd::seq_lib::*;

use crate::conservation::{
    given_with, law_one_group_each, law_pair_keeps_files, law_placed_by_key, lemma_in_concat,
    lemma_in_kept, subtitles_in, videos_in,
};
use crate::cross::cross_keys;
use crate::extract::{pattern_keys, raw_keys, single_keys};
use crate::key::KeyModel;
use crate::normalize::{chinese_numerals, first_prefix, first_word, key_of, special_tags};
use crate::matcher::{
    by_key, group_le, group_of, kept, keys_for, lone_subtitles, lone_videos, matched, one_pass,
    one_to_many, pair, pass_keys, place_subtitle, place_subtitles, place_videos, rematch, stem_le,
    stems_of, tidy, FileModel, GroupModel,
};
use crate::sorting::{lemma_sorted_multiset, put_in, sorted_by};
use crate::text::{lemma_lead, lower, trim_both, trim_start, upper, upper_char, CharClass};
use crate::unicode::alphanumeric;

verus! {

/// Some group has the video `v` and the subtitle `s`.
pub open spec fn together(groups: Seq<GroupModel>, v: FileModel, s: FileModel) -> bool {
    exists|g: int|
        0 <= g < groups.len() && (#[trigger] groups[g]).video == Some(v)
            && groups[g].subtitles.contains(s)
}

/// A key that the text of a file gives. Keys that begin with `_` are made up for files that
/// have none of their own.
pub open spec fn own_key(k: KeyModel) -> bool {
    k matches KeyModel::Text(t) ==> !(t.len() > 0 && t[0] == '_')
}

// ---------------------------------------------------------------------------
// Placing
// ---------------------------------------------------------------------------
pub proof fn lemma_made_up(stem: Seq<char>, k: KeyModel)
    requires
        own_key(k),
    ensures
        k != KeyModel::Text("__dupe_video:"@ + stem),
        k != KeyModel::Text("__unmatched_video:"@ + stem),
{
    reveal_strlit("__dupe_video:");
    reveal_strlit("__unmatched_video:");
    assert(("__dupe_video:"@ + stem)[0] == '_');
    assert(("__unmatched_video:"@ + stem)[0] == '_');
}

pub proof fn lemma_group_found(groups: Seq<GroupModel>, k: KeyModel)
    ensures
        match group_of(groups, k) {
            Some(i) => 0 <= i < groups.len() && groups[i].key == k && forall|j: int|
                0 <= j < i ==> (#[trigger] groups[j]).key != k,
            None => forall|j: int| 0 <= j < groups.len() ==> (#[trigger] groups[j]).key != k,
        },
    decreases groups.len(),
{
    if groups.len() > 0 {
        let t = groups.drop_last();
        lemma_group_found(t, k);
        assert forall|j: int| 0 <= j < t.len() implies t[j] == groups[j] by {}
        match group_of(groups, k) {
            Some(i) => {
                assert forall|j: int| 0 <= j < i implies (#[trigger] groups[j]).key != k by {
                    assert(t[j].key != k);
                }
            },
            None => {
                assert forall|j: int| 0 <= j < groups.len() implies (#[trigger] groups[j]).key
                    != k by {
                    if j < t.len() {
                        assert(t[j].key != k);
                    }
                }
            },
        }
    }
}

pub proof fn lemma_videos_placed(videos: Seq<FileModel>, keys: Seq<Option<KeyModel>>)
    ensures
        place_videos(videos, keys).len() == videos.len(),
        forall|i: int|
            0 <= i < videos.len() ==> (#[trigger] place_videos(videos, keys)[i]).video == Some(
                videos[i],
            ) && place_videos(videos, keys)[i].subtitles.len() == 0,
    decreases videos.len(),
{
    if videos.len() > 0 {
        lemma_videos_placed(videos.drop_last(), keys);
    }
}

/// The first video with a key of its own has it as the key of its group, and no group
/// before has it.
pub proof fn lemma_first_video(videos: Seq<FileModel>, keys: Seq<Option<KeyModel>>, k: KeyModel)
    requires
        own_key(k),
    ensures
        forall|i: int|
            0 <= i < videos.len() && (#[trigger] place_videos(videos, keys)[i]).key == k
                ==> keys[i] == Some(k),
        forall|f: int|
            0 <= f < videos.len() && keys[f] == Some(k) && (forall|i: int|
                0 <= i < f ==> #[trigger] keys[i] != Some(k)) ==> (#[trigger] place_videos(
                videos,
                keys,
            )[f]).key == k,
    decreases videos.len(),
{
    if videos.len() > 0 {
        let t = videos.drop_last();
        let n = t.len() as int;
        let g = place_videos(t, keys);
        let r = place_videos(videos, keys);
        lemma_first_video(t, keys, k);
        lemma_videos_placed(t, keys);
        lemma_made_up(videos.last().stem, k);
        if keys[n] is Some {
            lemma_group_found(g, keys[n]->0);
        }
        assert forall|i: int| 0 <= i < videos.len() && (#[trigger] r[i]).key == k implies keys[i]
            == Some(k) by {
            if i < n {
                assert(r[i] == g[i]);
            }
        }
        assert forall|f: int|
            0 <= f < videos.len() && keys[f] == Some(k) && (forall|i: int|
                0 <= i < f ==> #[trigger] keys[i] != Some(k)) implies (#[trigger] r[f]).key
            == k by {
            if f < n {
                assert(r[f] == g[f]);
            } else {
                if let Some(i) = group_of(g, k) {
                    assert(g[i].key == k);
                    assert(keys[i] == Some(k));
                }
            }
        }
    }
}

/// Some group has a key that some video has, and all groups are those of videos.
proof fn lemma_some_video(videos: Seq<FileModel>, keys: Seq<Option<KeyModel>>, k: KeyModel, f: int)
    requires
        0 <= f < videos.len(),
        keys[f] == Some(k),
    ensures
        exists|i: int| 0 <= i < videos.len() && (#[trigger] place_videos(videos, keys)[i]).key == k,
    decreases videos.len(),
{
    let t = videos.drop_last();
    let g = place_videos(t, keys);
    let r = place_videos(videos, keys);
    lemma_videos_placed(t, keys);
    if f < t.len() {
        lemma_some_video(t, keys, k, f);
        let i = choose|i: int| 0 <= i < t.len() && (#[trigger] g[i]).key == k;
        assert(r[i] == g[i]);
    } else {
        lemma_group_found(g, k);
        match group_of(g, k) {
            Some(i) => {
                assert(r[i] == g[i]);
            },
            None => {
                assert(r[t.len() as int].key == k);
            },
        }
    }
}

/// Placing subtitles leaves the groups of the videos where they are, with their keys.
pub proof fn lemma_groups_stay(
    groups: Seq<GroupModel>,
    subs: Seq<FileModel>,
    keys: Seq<Option<KeyModel>>,
)
    ensures
        place_subtitles(groups, subs, keys).len() >= groups.len(),
        forall|i: int|
            0 <= i < groups.len() ==> (#[trigger] place_subtitles(groups, subs, keys)[i]).key
                == groups[i].key && place_subtitles(groups, subs, keys)[i].video
                == groups[i].video,
        forall|i: int|
            groups.len() <= i < place_subtitles(groups, subs, keys).len() ==> (
            #[trigger] place_subtitles(groups, subs, keys)[i]).video is None,
    decreases subs.len(),
{
    if subs.len() > 0 {
        let t = subs.drop_last();
        lemma_groups_stay(groups, t, keys);
        let g = place_subtitles(groups, t, keys);
        let key = keys[subs.len() - 1];
        if key is Some {
            lemma_group_found(g, key->0);
        }
    }
}

/// A subtitle whose key some video has is put with a video, whatever the key is: with the
/// first video that has it, where it is a key of their own.
proof fn lemma_placed_with_video(
    videos: Seq<FileModel>,
    subs: Seq<FileModel>,
    video_keys: Seq<Option<KeyModel>>,
    sub_keys: Seq<Option<KeyModel>>,
    j: int,
    f: int,
)
    requires
        0 <= j < subs.len(),
        0 <= f < videos.len(),
        sub_keys[j] is Some,
        video_keys[f] == sub_keys[j],
    ensures
        ({
            let r = place_subtitles(place_videos(videos, video_keys), subs, sub_keys);
            &&& exists|i: int|
                0 <= i < videos.len() && (#[trigger] r[i]).video == Some(videos[i])
                    && r[i].subtitles.contains(subs[j])
            &&& own_key(sub_keys[j]->0) && (forall|i: int|
                0 <= i < f ==> #[trigger] video_keys[i] != sub_keys[j]) ==> r[f].video == Some(
                videos[f],
            ) && r[f].subtitles.contains(subs[j])
        }),
    decreases subs.len(),
{
    let a = place_videos(videos, video_keys);
    let k = sub_keys[j]->0;
    let t = subs.drop_last();
    let g = place_subtitles(a, t, sub_keys);
    let r = place_subtitles(a, subs, sub_keys);
    let first = own_key(k) && (forall|i: int|
        0 <= i < f ==> #[trigger] video_keys[i] != sub_keys[j]);
    lemma_videos_placed(videos, video_keys);
    lemma_groups_stay(a, t, sub_keys);
    lemma_groups_stay(a, subs, sub_keys);
    let key = sub_keys[subs.len() - 1];
    if key is Some {
        lemma_group_found(g, key->0);
    }
    if j < t.len() {
        lemma_placed_with_video(videos, t, video_keys, sub_keys, j, f);
        let i = choose|i: int|
            0 <= i < videos.len() && (#[trigger] g[i]).video == Some(videos[i])
                && g[i].subtitles.contains(t[j]);
        lemma_still_there(g, subs.last(), key, i, subs[j]);
        assert(r[i].video == Some(videos[i]));
        if first {
            lemma_still_there(g, subs.last(), key, f, subs[j]);
            assert(r[f].video == a[f].video);
        }
    } else {
        lemma_some_video(videos, video_keys, k, f);
        let i = choose|i: int| 0 <= i < videos.len() && (#[trigger] a[i]).key == k;
        assert(g[i].key == k);
        let p = group_of(g, k)->0;
        assert(p <= i);
        assert(r[p].subtitles[g[p].subtitles.len() as int] == subs[j]);
        assert(r[p].video == a[p].video);
        if first {
            lemma_first_video(videos, video_keys, k);
            assert(a[f].key == k);
            assert(g[f].key == k);
            if p < f {
                assert(a[p].key == k);
                assert(video_keys[p] == Some(k));
            }
        }
    }
}

proof fn lemma_still_there(
    groups: Seq<GroupModel>,
    sub: FileModel,
    key: Option<KeyModel>,
    i: int,
    s: FileModel,
)
    requires
        0 <= i < groups.len(),
        groups[i].subtitles.contains(s),
    ensures
        place_subtitle(groups, sub, key).len() >= groups.len(),
        place_subtitle(groups, sub, key)[i].subtitles.contains(s),
{
    let r = place_subtitle(groups, sub, key);
    if key is Some {
        lemma_group_found(groups, key->0);
    }
    let m = choose|m: int| 0 <= m < groups[i].subtitles.len() && groups[i].subtitles[m] == s;
    assert(r[i].subtitles[m] == s);
}

// ---------------------------------------------------------------------------
// Sorting
// ---------------------------------------------------------------------------
proof fn lemma_sorted_has<T>(s: Seq<T>, le: spec_fn(T, T) -> bool, x: T)
    ensures
        sorted_by(s, le).contains(x) <==> s.contains(x),
{
    broadcast use group_to_multiset_ensures;

    lemma_sorted_multiset(s, le);
    assert(s.contains(x) <==> s.to_multiset().count(x) > 0);
    assert(sorted_by(s, le).contains(x) <==> sorted_by(s, le).to_multiset().count(x) > 0);
}

proof fn lemma_together_sorted(
    groups: Seq<GroupModel>,
    le: spec_fn(GroupModel, GroupModel) -> bool,
    v: FileModel,
    s: FileModel,
)
    ensures
        together(sorted_by(groups, le), v, s) <==> together(groups, v, s),
{
    let r = sorted_by(groups, le);
    if together(groups, v, s) {
        let g = choose|g: int|
            0 <= g < groups.len() && (#[trigger] groups[g]).video == Some(v)
                && groups[g].subtitles.contains(s);
        lemma_sorted_has(groups, le, groups[g]);
        let h = choose|h: int| 0 <= h < r.len() && r[h] == groups[g];
        assert(r[h].video == Some(v));
    }
    if together(r, v, s) {
        let g = choose|g: int|
            0 <= g < r.len() && (#[trigger] r[g]).video == Some(v) && r[g].subtitles.contains(s);
        lemma_sorted_has(groups, le, r[g]);
        let h = choose|h: int| 0 <= h < groups.len() && groups[h] == r[g];
        assert(groups[h].video == Some(v));
    }
}

proof fn lemma_together_tidy(groups: Seq<GroupModel>, v: FileModel, s: FileModel)
    ensures
        together(tidy(groups), v, s) <==> together(groups, v, s),
{
    let r = tidy(groups);
    assert forall|g: int| 0 <= g < groups.len() implies (#[trigger] r[g]).video == groups[g].video
        && (r[g].subtitles.contains(s) <==> groups[g].subtitles.contains(s)) by {
        lemma_sorted_has(groups[g].subtitles, |a: FileModel, b: FileModel| stem_le(a, b), s);
    }
    if together(groups, v, s) {
        let g = choose|g: int|
            0 <= g < groups.len() && (#[trigger] groups[g]).video == Some(v)
                && groups[g].subtitles.contains(s);
        assert(r[g].video == Some(v));
    }
    if together(r, v, s) {
        let g = choose|g: int|
            0 <= g < r.len() && (#[trigger] r[g]).video == Some(v) && r[g].subtitles.contains(s);
        assert(groups[g].video == Some(v));
    }
}

// ---------------------------------------------------------------------------
// Pairs
// ---------------------------------------------------------------------------
/// Pairing is complete. A subtitle whose key some video has, a number or a text, is put
/// with a video; and it is put with the first video that has the key, where the key is one
/// of their own.
pub proof fn law_pair_complete(
    videos: Seq<FileModel>,
    subs: Seq<FileModel>,
    video_keys: Seq<Option<KeyModel>>,
    sub_keys: Seq<Option<KeyModel>>,
    j: int,
    f: int,
)
    requires
        0 <= j < subs.len(),
        0 <= f < videos.len(),
        sub_keys[j] is Some,
        video_keys[f] == sub_keys[j],
    ensures
        exists|v: FileModel|
            videos.contains(v) && #[trigger] together(
                pair(videos, subs, video_keys, sub_keys),
                v,
                subs[j],
            ),
        own_key(sub_keys[j]->0) && (forall|i: int|
            0 <= i < f ==> #[trigger] video_keys[i] != sub_keys[j]) ==> together(
            pair(videos, subs, video_keys, sub_keys),
            videos[f],
            subs[j],
        ),
{
    let p = pair(videos, subs, video_keys, sub_keys);
    if videos.len() == 1 && subs.len() == 1 && video_keys[0] == sub_keys[0] {
        assert(p[0].video == Some(videos[0]));
        assert(p[0].subtitles.contains(subs[0]));
        assert(together(p, videos[f], subs[j]));
        assert(videos.contains(videos[f]));
    } else {
        let r = place_subtitles(place_videos(videos, video_keys), subs, sub_keys);
        let le = |a: GroupModel, b: GroupModel| group_le(a, b);
        lemma_placed_with_video(videos, subs, video_keys, sub_keys, j, f);
        lemma_videos_placed(videos, video_keys);
        lemma_groups_stay(place_videos(videos, video_keys), subs, sub_keys);
        let i = choose|i: int|
            0 <= i < videos.len() && (#[trigger] r[i]).video == Some(videos[i])
                && r[i].subtitles.contains(subs[j]);
        assert(together(r, videos[i], subs[j]));
        lemma_together_sorted(r, le, videos[i], subs[j]);
        lemma_together_tidy(by_key(r), videos[i], subs[j]);
        assert(videos.contains(videos[i]));
        if own_key(sub_keys[j]->0) && (forall|i: int|
            0 <= i < f ==> #[trigger] video_keys[i] != sub_keys[j]) {
            assert(r[f].video == Some(videos[f]));
            assert(together(r, videos[f], subs[j]));
            lemma_together_sorted(r, le, videos[f], subs[j]);
            lemma_together_tidy(by_key(r), videos[f], subs[j]);
        }
    }
}

/// `videos[i]` and `subs[j]` are these files, and they have the same key, which is absent
/// only where there are no other files.
pub open spec fn same_key(
    videos: Seq<FileModel>,
    subs: Seq<FileModel>,
    video_keys: Seq<Option<KeyModel>>,
    sub_keys: Seq<Option<KeyModel>>,
    v: FileModel,
    s: FileModel,
) -> bool {
    exists|i: int, j: int|
        0 <= i < videos.len() && 0 <= j < subs.len() && #[trigger] videos[i] == v
            && #[trigger] subs[j] == s && video_keys[i] == sub_keys[j] && (video_keys[i] is Some
            || (videos.len() == 1 && subs.len() == 1))
}

/// Pairing is sound. A subtitle is put with a video only where the two have the same key,
/// or are the only files and have none.
pub proof fn law_pair_sound(
    videos: Seq<FileModel>,
    subs: Seq<FileModel>,
    video_keys: Seq<Option<KeyModel>>,
    sub_keys: Seq<Option<KeyModel>>,
    v: FileModel,
    s: FileModel,
)
    requires
        forall|j: int| 0 <= j < subs.len() ==> (#[trigger] sub_keys[j] matches Some(k) ==> own_key(k)),
        together(pair(videos, subs, video_keys, sub_keys), v, s),
    ensures
        same_key(videos, subs, video_keys, sub_keys, v, s),
{
    let p = pair(videos, subs, video_keys, sub_keys);
    if videos.len() == 1 && subs.len() == 1 && video_keys[0] == sub_keys[0] {
        assert(videos[0] == v);
        assert(subs[0] == s);
    } else {
        let a = place_videos(videos, video_keys);
        let r = place_subtitles(a, subs, sub_keys);
        let le = |a: GroupModel, b: GroupModel| group_le(a, b);
        lemma_together_tidy(by_key(r), v, s);
        lemma_together_sorted(r, le, v, s);
        lemma_videos_placed(videos, video_keys);
        lemma_groups_stay(a, subs, sub_keys);
        law_placed_by_key(videos, subs, video_keys, sub_keys);
        let g = choose|g: int|
            0 <= g < r.len() && (#[trigger] r[g]).video == Some(v) && r[g].subtitles.contains(s);
        let m = choose|m: int| 0 <= m < r[g].subtitles.len() && r[g].subtitles[m] == s;
        assert(given_with(r[g].subtitles[m], r[g].key, subs, sub_keys));
        let j = choose|j: int|
            0 <= j < subs.len() && #[trigger] subs[j] == s && sub_keys[j] == Some(r[g].key);
        assert(sub_keys[j] == Some(r[g].key));
        lemma_first_video(videos, video_keys, r[g].key);
        assert(a[g].key == r[g].key);
        assert(videos[g] == v);
    }
}

// ---------------------------------------------------------------------------
// Matching
// ---------------------------------------------------------------------------
proof fn lemma_kept_pairs(groups: Seq<GroupModel>, v: FileModel, s: FileModel)
    ensures
        together(kept(groups), v, s) <==> together(groups, v, s),
    decreases groups.len(),
{
    if groups.len() > 0 {
        let t = groups.drop_last();
        let g = groups.last();
        let k = kept(groups);
        lemma_kept_pairs(t, v, s);
        if together(groups, v, s) {
            let i = choose|i: int|
                0 <= i < groups.len() && (#[trigger] groups[i]).video == Some(v)
                    && groups[i].subtitles.contains(s);
            if i < t.len() {
                assert(t[i].video == Some(v));
                let h = choose|h: int|
                    0 <= h < kept(t).len() && (#[trigger] kept(t)[h]).video == Some(v)
                        && kept(t)[h].subtitles.contains(s);
                assert(k[h].video == Some(v));
            } else {
                assert(k[k.len() - 1].video == Some(v));
            }
        }
        if together(k, v, s) {
            let h = choose|h: int|
                0 <= h < k.len() && (#[trigger] k[h]).video == Some(v)
                    && k[h].subtitles.contains(s);
            if h < kept(t).len() {
                assert(kept(t)[h].video == Some(v));
                let i = choose|i: int|
                    0 <= i < t.len() && (#[trigger] t[i]).video == Some(v)
                        && t[i].subtitles.contains(s);
                assert(groups[i].video == Some(v));
            } else {
                assert(groups[groups.len() - 1].video == Some(v));
            }
        }
    }
}

proof fn lemma_concat_pairs(
    a: Seq<GroupModel>,
    b: Seq<GroupModel>,
    v: FileModel,
    s: FileModel,
)
    ensures
        together(a + b, v, s) <==> (together(a, v, s) || together(b, v, s)),
{
    if together(a, v, s) {
        let g = choose|g: int|
            0 <= g < a.len() && (#[trigger] a[g]).video == Some(v) && a[g].subtitles.contains(s);
        assert((a + b)[g].video == Some(v));
    }
    if together(b, v, s) {
        let g = choose|g: int|
            0 <= g < b.len() && (#[trigger] b[g]).video == Some(v) && b[g].subtitles.contains(s);
        assert((a + b)[g + a.len()].video == Some(v));
    }
    if together(a + b, v, s) {
        let g = choose|g: int|
            0 <= g < (a + b).len() && (#[trigger] (a + b)[g]).video == Some(v)
                && (a + b)[g].subtitles.contains(s);
        if g < a.len() {
            assert(a[g].video == Some(v));
        } else {
            assert(b[g - a.len()].video == Some(v));
        }
    }
}

proof fn lemma_rematch_keeps_pairs(
    groups: Seq<GroupModel>,
    before: nat,
    v: FileModel,
    s: FileModel,
)
    requires
        together(groups, v, s),
    ensures
        together(rematch(groups, before), v, s),
    decreases before,
{
    let lv = lone_videos(groups);
    let ls = lone_subtitles(groups);
    if !(lv.len() <= 1 || ls.len() <= 1 || lv.len() + ls.len() >= before) {
        let more = one_pass(lv, ls, None, None);
        lemma_kept_pairs(groups, v, s);
        lemma_concat_pairs(kept(groups), more, v, s);
        lemma_rematch_keeps_pairs(kept(groups) + more, lv.len() + ls.len(), v, s);
    }
}

/// Matching is complete. Where the keys of the first pass are those of `pass_keys`, a
/// subtitle with the key of some video ends up with a video, a number or a text, and with
/// the first video that has the key, where the key is one of their own.
pub proof fn law_match_complete(
    videos: Seq<FileModel>,
    subs: Seq<FileModel>,
    video_pattern: Option<Seq<char>>,
    sub_pattern: Option<Seq<char>>,
    j: int,
    f: int,
)
    requires
        0 <= j < subs.len(),
        0 <= f < videos.len(),
        pass_keys(videos, subs, video_pattern, sub_pattern).1[j] is Some,
        pass_keys(videos, subs, video_pattern, sub_pattern).0[f] == pass_keys(
            videos,
            subs,
            video_pattern,
            sub_pattern,
        ).1[j],
    ensures
        ({
            let keys = pass_keys(videos, subs, video_pattern, sub_pattern);
            let r = matched(videos, subs, video_pattern, sub_pattern);
            &&& exists|v: FileModel| videos.contains(v) && #[trigger] together(r, v, subs[j])
            &&& own_key(keys.1[j]->0) && (forall|i: int|
                0 <= i < f ==> #[trigger] keys.0[i] != keys.1[j]) ==> together(
                r,
                videos[f],
                subs[j],
            )
        }),
{
    let keys = pass_keys(videos, subs, video_pattern, sub_pattern);
    let first = one_pass(videos, subs, video_pattern, sub_pattern);
    let n = videos.len() + subs.len() + 1;
    let le = |a: GroupModel, b: GroupModel| group_le(a, b);
    let all = if video_pattern is None && sub_pattern is None {
        rematch(first, n)
    } else {
        first
    };
    law_pair_complete(videos, subs, keys.0, keys.1, j, f);
    let v = choose|v: FileModel| videos.contains(v) && #[trigger] together(first, v, subs[j]);
    lemma_rematch_keeps_pairs(first, n, v, subs[j]);
    lemma_together_sorted(all, le, v, subs[j]);
    assert(together(matched(videos, subs, video_pattern, sub_pattern), v, subs[j]));
    if together(first, videos[f], subs[j]) {
        lemma_rematch_keeps_pairs(first, n, videos[f], subs[j]);
        lemma_together_sorted(all, le, videos[f], subs[j]);
    }
}

/// A subtitle that was given once and has the key of some video is not left over: it
/// stands in no group without a video.
pub proof fn law_match_not_left_over(
    videos: Seq<FileModel>,
    subs: Seq<FileModel>,
    video_pattern: Option<Seq<char>>,
    sub_pattern: Option<Seq<char>>,
    j: int,
    f: int,
    g: int,
)
    requires
        subs.no_duplicates(),
        0 <= j < subs.len(),
        0 <= f < videos.len(),
        pass_keys(videos, subs, video_pattern, sub_pattern).1[j] is Some,
        pass_keys(videos, subs, video_pattern, sub_pattern).0[f] == pass_keys(
            videos,
            subs,
            video_pattern,
            sub_pattern,
        ).1[j],
        0 <= g < matched(videos, subs, video_pattern, sub_pattern).len(),
        matched(videos, subs, video_pattern, sub_pattern)[g].subtitles.contains(subs[j]),
    ensures
        matched(videos, subs, video_pattern, sub_pattern)[g].video is Some,
{
    let r = matched(videos, subs, video_pattern, sub_pattern);
    law_match_complete(videos, subs, video_pattern, sub_pattern, j, f);
    let v = choose|v: FileModel| videos.contains(v) && #[trigger] together(r, v, subs[j]);
    let h = choose|h: int|
        0 <= h < r.len() && (#[trigger] r[h]).video == Some(v) && r[h].subtitles.contains(subs[j]);
    law_one_group_each(videos, subs, video_pattern, sub_pattern, g, h, subs[j]);
}

proof fn lemma_text_key(text: Seq<char>)
    requires
        text.len() > 0,
        text[0] != '_',
    ensures
        own_key(KeyModel::Text(upper(text))),
        own_key(KeyModel::Text(text)),
{
    assert(upper(text)[0] == upper_char(text[0]));
}

proof fn lemma_listed(s: Seq<char>, words: Seq<Seq<char>>)
    ensures
        first_prefix(s, words) matches Some(w) ==> words.contains(w),
    decreases words.len(),
{
    if words.len() > 0 {
        let t = words.drop_first();
        lemma_listed(s, t);
        if let Some(w) = first_prefix(s, words) {
            if w == words[0] {
                assert(words.contains(w));
            } else {
                let i = choose|i: int| 0 <= i < t.len() && t[i] == w;
                assert(words[i + 1] == w);
            }
        }
    }
}

/// The keys of files are keys of their own, where `_` is no letter.
pub proof fn lemma_key_own(raw: Option<Seq<char>>)
    requires
        !alphanumeric('_'),
    ensures
        key_of(raw) matches Some(k) ==> own_key(k),
{
    if let Some(r) = raw {
        let s = trim_both(r, CharClass::Space);
        lemma_listed(lower(s), special_tags());
        lemma_listed(lower(s), chinese_numerals());
        lemma_words_own();
        if let Some(t) = first_prefix(lower(s), special_tags()) {
            lemma_text_key(t);
        } else if let Some(t) = first_prefix(lower(s), chinese_numerals()) {
            lemma_text_key(t);
        } else {
            let w = first_word(s);
            if w.len() > 0 {
                let t = trim_start(s, CharClass::Other);
                lemma_lead(t, CharClass::Alphanumeric);
                assert(CharClass::Alphanumeric.has(t[0]));
                lemma_text_key(w);
            }
        }
    }
}

proof fn lemma_words_own()
    ensures
        forall|t: Seq<char>| #[trigger] special_tags().contains(t) ==> t.len() > 0 && t[0] != '_',
        forall|t: Seq<char>| #[trigger]
            chinese_numerals().contains(t) ==> t.len() > 0 && t[0] != '_',
{
    reveal_strlit("ncop");
    reveal_strlit("nced");
    reveal_strlit("sp");
    reveal_strlit("op");
    reveal_strlit("ed");
    reveal_strlit("ova");
    reveal_strlit("pv");
    reveal_strlit("cm");
    reveal_strlit("menu");
    reveal_strlit("一");
    reveal_strlit("二");
    reveal_strlit("三");
    reveal_strlit("四");
    reveal_strlit("五");
    reveal_strlit("六");
    reveal_strlit("七");
    reveal_strlit("八");
    reveal_strlit("九");
    reveal_strlit("十");
    reveal_strlit("壹");
    reveal_strlit("贰");
    reveal_strlit("叁");
    reveal_strlit("肆");
    reveal_strlit("伍");
    reveal_strlit("陆");
    reveal_strlit("柒");
    reveal_strlit("捌");
    reveal_strlit("玖");
    reveal_strlit("拾");
}

/// The keys of a pass are keys of files.
proof fn lemma_pass_keys_own(
    videos: Seq<FileModel>,
    subs: Seq<FileModel>,
    video_pattern: Option<Seq<char>>,
    sub_pattern: Option<Seq<char>>,
)
    requires
        !alphanumeric('_'),
    ensures
        ({
            let keys = pass_keys(videos, subs, video_pattern, sub_pattern);
            forall|j: int|
                0 <= j < keys.1.len() ==> (#[trigger] keys.1[j] matches Some(k) ==> own_key(k))
        }),
{
    let keys = pass_keys(videos, subs, video_pattern, sub_pattern);
    assert forall|j: int| 0 <= j < keys.1.len() implies (#[trigger] keys.1[j] matches Some(k)
        ==> own_key(k)) by {
        let raws = if one_to_many(videos, subs) && sub_pattern is None {
            single_keys(stems_of(subs))
        } else if !one_to_many(videos, subs) && videos.len() > 1 && subs.len() > 1
            && video_pattern is None && sub_pattern is None {
            cross_keys(
                stems_of(videos),
                stems_of(subs),
            ).1
        } else {
            match sub_pattern {
                Some(p) => pattern_keys(p, stems_of(subs)),
                None => raw_keys(stems_of(subs)),
            }
        };
        assert(keys.1 == keys_for(raws));
        lemma_key_own(raws[j]);
    }
}

/// Two or more files of each side, all of which were given.
pub open spec fn batch(
    vs: Seq<FileModel>,
    ss: Seq<FileModel>,
    videos: Seq<FileModel>,
    subs: Seq<FileModel>,
) -> bool {
    &&& vs.len() > 1 && ss.len() > 1
    &&& forall|i: int| 0 <= i < vs.len() ==> videos.contains(#[trigger] vs[i])
    &&& forall|j: int| 0 <= j < ss.len() ==> subs.contains(#[trigger] ss[j])
}

/// A video and a subtitle had the same key in a pass over some of the files that were
/// given.
pub open spec fn same_key_later(
    videos: Seq<FileModel>,
    subs: Seq<FileModel>,
    v: FileModel,
    s: FileModel,
) -> bool {
    exists|vs: Seq<FileModel>, ss: Seq<FileModel>| #[trigger]
        batch(vs, ss, videos, subs) && same_key(
            vs,
            ss,
            pass_keys(vs, ss, None, None).0,
            pass_keys(vs, ss, None, None).1,
            v,
            s,
        )
}

proof fn lemma_lone_given(
    groups: Seq<GroupModel>,
    videos: Seq<FileModel>,
    subs: Seq<FileModel>,
)
    requires
        forall|x: FileModel| #[trigger] videos_in(groups).count(x) > 0 ==> videos.contains(x),
        forall|x: FileModel| #[trigger] subtitles_in(groups).count(x) > 0 ==> subs.contains(x),
    ensures
        forall|i: int|
            0 <= i < lone_videos(groups).len() ==> videos.contains(#[trigger] lone_videos(groups)[i]),
        forall|j: int|
            0 <= j < lone_subtitles(groups).len() ==> subs.contains(
                #[trigger] lone_subtitles(groups)[j],
            ),
{
    broadcast use group_to_multiset_ensures;
    broadcast use vstd::multiset::group_multiset_axioms;

    lemma_in_kept(groups);
    let lv = lone_videos(groups);
    let ls = lone_subtitles(groups);
    assert forall|i: int| 0 <= i < lv.len() implies videos.contains(#[trigger] lv[i]) by {
        assert(lv.contains(lv[i]));
        assert(lv.to_multiset().count(lv[i]) > 0);
        assert(videos_in(groups).count(lv[i]) > 0);
    }
    assert forall|j: int| 0 <= j < ls.len() implies subs.contains(#[trigger] ls[j]) by {
        assert(ls.contains(ls[j]));
        assert(ls.to_multiset().count(ls[j]) > 0);
        assert(subtitles_in(groups).count(ls[j]) > 0);
    }
}

proof fn lemma_rematch_sound(
    groups: Seq<GroupModel>,
    before: nat,
    videos: Seq<FileModel>,
    subs: Seq<FileModel>,
    v: FileModel,
    s: FileModel,
)
    requires
        !alphanumeric('_'),
        videos_in(groups) == videos.to_multiset(),
        subtitles_in(groups) == subs.to_multiset(),
        together(rematch(groups, before), v, s),
    ensures
        together(groups, v, s) || same_key_later(videos, subs, v, s),
    decreases before,
{
    broadcast use group_to_multiset_ensures;

    let lv = lone_videos(groups);
    let ls = lone_subtitles(groups);
    if !(lv.len() <= 1 || ls.len() <= 1 || lv.len() + ls.len() >= before) {
        let keys = pass_keys(lv, ls, None, None);
        let more = one_pass(lv, ls, None, None);
        assert forall|x: FileModel| #[trigger] videos_in(groups).count(x)
            > 0 implies videos.contains(x) by {}
        assert forall|x: FileModel| #[trigger] subtitles_in(groups).count(x)
            > 0 implies subs.contains(x) by {}
        lemma_lone_given(groups, videos, subs);
        law_pair_keeps_files(lv, ls, keys.0, keys.1);
        lemma_in_kept(groups);
        lemma_in_concat(kept(groups), more);
        lemma_rematch_sound(kept(groups) + more, lv.len() + ls.len(), videos, subs, v, s);
        if together(kept(groups) + more, v, s) {
            lemma_concat_pairs(kept(groups), more, v, s);
            lemma_kept_pairs(groups, v, s);
            if together(more, v, s) {
                lemma_pass_keys_own(lv, ls, None, None);
                law_pair_sound(lv, ls, keys.0, keys.1, v, s);
                assert(batch(lv, ls, videos, subs));
            }
        }
    }
}

/// Matching is sound. A subtitle ends up with a video only where the two had the same key,
/// in the pass over all files or, without patterns, in a pass over some of them, or where
/// they are the only files.
pub proof fn law_match_sound(
    videos: Seq<FileModel>,
    subs: Seq<FileModel>,
    video_pattern: Option<Seq<char>>,
    sub_pattern: Option<Seq<char>>,
    v: FileModel,
    s: FileModel,
)
    requires
        !alphanumeric('_'),
        together(matched(videos, subs, video_pattern, sub_pattern), v, s),
    ensures
        same_key(
            videos,
            subs,
            pass_keys(videos, subs, video_pattern, sub_pattern).0,
            pass_keys(videos, subs, video_pattern, sub_pattern).1,
            v,
            s,
        ) || (video_pattern is None && sub_pattern is None && same_key_later(videos, subs, v, s)),
{
    let keys = pass_keys(videos, subs, video_pattern, sub_pattern);
    let first = one_pass(videos, subs, video_pattern, sub_pattern);
    let n = videos.len() + subs.len() + 1;
    let le = |a: GroupModel, b: GroupModel| group_le(a, b);
    lemma_pass_keys_own(videos, subs, video_pattern, sub_pattern);
    law_pair_keeps_files(videos, subs, keys.0, keys.1);
    if video_pattern is None && sub_pattern is None {
        lemma_together_sorted(rematch(first, n), le, v, s);
        lemma_rematch_sound(first, n, videos, subs, v, s);
    } else {
        lemma_together_sorted(first, le, v, s);
    }
    if together(first, v, s) {
        law_pair_sound(videos, subs, keys.0, keys.1, v, s);
    }
}

// ---------------------------------------------------------------------------
// Leftovers
// ---------------------------------------------------------------------------
proof fn lemma_lone_concat(a: Seq<GroupModel>, b: Seq<GroupModel>)
    ensures
        lone_videos(a + b) == lone_videos(a) + lone_videos(b),
        lone_subtitles(a + b) == lone_subtitles(a) + lone_subtitles(b),
    decreases b.len(),
{
    if b.len() == 0 {
        assert(a + b =~= a);
        assert(lone_videos(a) + lone_videos(b) =~= lone_videos(a));
        assert(lone_subtitles(a) + lone_subtitles(b) =~= lone_subtitles(a));
    } else {
        lemma_lone_concat(a, b.drop_last());
        assert((a + b).drop_last() =~= a + b.drop_last());
        assert((a + b).last() == b.last());
        assert(lone_videos(a + b) =~= lone_videos(a) + lone_videos(b));
        assert(lone_subtitles(a + b) =~= lone_subtitles(a) + lone_subtitles(b));
    }
}

proof fn lemma_kept_none_lone(groups: Seq<GroupModel>)
    ensures
        lone_videos(kept(groups)) == Seq::<FileModel>::empty(),
        lone_subtitles(kept(groups)) == Seq::<FileModel>::empty(),
    decreases groups.len(),
{
    if groups.len() > 0 {
        lemma_kept_none_lone(groups.drop_last());
        let k = kept(groups);
        if !(groups.last().lone_video() || groups.last().lone_subtitles()) {
            assert(k.drop_last() =~= kept(groups.drop_last()));
        }
    }
}

proof fn lemma_has_video(groups: Seq<GroupModel>, i: int)
    requires
        0 <= i < groups.len(),
        groups[i].video is Some,
    ensures
        videos_in(groups).len() > 0,
    decreases groups.len(),
{
    broadcast use vstd::multiset::group_multiset_axioms;

    if i < groups.len() - 1 {
        lemma_has_video(groups.drop_last(), i);
    }
}

/// A pass that leaves every file over pairs none.
proof fn lemma_all_left_over(vs: Seq<FileModel>, ss: Seq<FileModel>)
    requires
        lone_videos(one_pass(vs, ss, None, None)).len() + lone_subtitles(
            one_pass(vs, ss, None, None),
        ).len() >= vs.len() + ss.len(),
    ensures
        lone_videos(one_pass(vs, ss, None, None)).to_multiset() == vs.to_multiset(),
        lone_subtitles(one_pass(vs, ss, None, None)).to_multiset() == ss.to_multiset(),
        forall|v: FileModel, s: FileModel| !#[trigger] together(one_pass(vs, ss, None, None), v, s),
{
    broadcast use group_to_multiset_ensures;
    broadcast use vstd::multiset::group_multiset_axioms;

    let p = one_pass(vs, ss, None, None);
    let keys = pass_keys(vs, ss, None, None);
    law_pair_keeps_files(vs, ss, keys.0, keys.1);
    lemma_in_kept(p);
    let a = videos_in(kept(p));
    let b = subtitles_in(kept(p));
    let lv = lone_videos(p).to_multiset();
    let ls = lone_subtitles(p).to_multiset();
    assert(vs.to_multiset().len() == vs.len());
    assert(ss.to_multiset().len() == ss.len());
    assert(lv.len() == lone_videos(p).len());
    assert(ls.len() == lone_subtitles(p).len());
    assert(a.add(lv).len() == a.len() + lv.len());
    assert(b.add(ls).len() == b.len() + ls.len());
    assert(a.len() == 0 && b.len() == 0);
    assert(a =~= vstd::multiset::Multiset::empty());
    assert(b =~= vstd::multiset::Multiset::empty());
    assert(lv =~= vs.to_multiset());
    assert(ls =~= ss.to_multiset());
    assert forall|v: FileModel, s: FileModel| !#[trigger] together(p, v, s) by {
        lemma_kept_pairs(p, v, s);
        if together(kept(p), v, s) {
            let g = choose|g: int|
                0 <= g < kept(p).len() && (#[trigger] kept(p)[g]).video == Some(v)
                    && kept(p)[g].subtitles.contains(s);
            lemma_has_video(kept(p), g);
        }
    }
}

/// A pass over these files puts no subtitle with a video.
pub open spec fn pairs_none(vs: Seq<FileModel>, ss: Seq<FileModel>) -> bool {
    forall|v: FileModel, s: FileModel| !#[trigger] together(one_pass(vs, ss, None, None), v, s)
}

/// Nothing more comes of the leftovers `lv` and `ls`: one side has at most one file, or a
/// pass over them pairs none.
pub open spec fn nothing_more(lv: Seq<FileModel>, ls: Seq<FileModel>) -> bool {
    ||| lv.len() <= 1
    ||| ls.len() <= 1
    ||| exists|vs: Seq<FileModel>, ss: Seq<FileModel>| #[trigger]
        pairs_none(vs, ss) && vs.to_multiset() == lv.to_multiset() && ss.to_multiset()
            == ls.to_multiset()
}

proof fn lemma_rematch_final(
    groups: Seq<GroupModel>,
    before: nat,
    done: Seq<GroupModel>,
    vs: Seq<FileModel>,
    ss: Seq<FileModel>,
)
    requires
        (lone_videos(groups).len() + lone_subtitles(groups).len() < before) || {
            &&& before == vs.len() + ss.len()
            &&& groups == kept(done) + one_pass(vs, ss, None, None)
        },
    ensures
        nothing_more(
            lone_videos(rematch(groups, before)),
            lone_subtitles(rematch(groups, before)),
        ),
    decreases before,
{
    let lv = lone_videos(groups);
    let ls = lone_subtitles(groups);
    if !(lv.len() <= 1 || ls.len() <= 1 || lv.len() + ls.len() >= before) {
        lemma_rematch_final(
            kept(groups) + one_pass(lv, ls, None, None),
            lv.len() + ls.len(),
            groups,
            lv,
            ls,
        );
    } else if lv.len() > 1 && ls.len() > 1 {
        let p = one_pass(vs, ss, None, None);
        lemma_lone_concat(kept(done), p);
        lemma_kept_none_lone(done);
        assert(lv =~= lone_videos(p));
        assert(ls =~= lone_subtitles(p));
        lemma_all_left_over(vs, ss);
        assert(pairs_none(vs, ss));
    }
}

proof fn lemma_lone_sorted(groups: Seq<GroupModel>, le: spec_fn(GroupModel, GroupModel) -> bool)
    ensures
        lone_videos(sorted_by(groups, le)).to_multiset() == lone_videos(groups).to_multiset(),
        lone_subtitles(sorted_by(groups, le)).to_multiset() == lone_subtitles(groups).to_multiset(),
    decreases groups.len(),
{
    if groups.len() > 0 {
        lemma_lone_sorted(groups.drop_last(), le);
        let r = sorted_by(groups.drop_last(), le);
        lemma_lone_put(r, groups.last(), le);
        lemma_lone_push(r, groups.last());
        lemma_lone_push(groups.drop_last(), groups.last());
        assert(groups =~= groups.drop_last().push(groups.last()));
    }
}

proof fn lemma_lone_push(groups: Seq<GroupModel>, g: GroupModel)
    ensures
        lone_videos(groups.push(g)).to_multiset() == lone_videos(groups).to_multiset().add(
            lone_videos(seq![g]).to_multiset(),
        ),
        lone_subtitles(groups.push(g)).to_multiset() == lone_subtitles(groups).to_multiset().add(
            lone_subtitles(seq![g]).to_multiset(),
        ),
{
    assert(groups.push(g) =~= groups + seq![g]);
    lemma_lone_concat(groups, seq![g]);
    lemma_multiset_commutative(lone_videos(groups), lone_videos(seq![g]));
    lemma_multiset_commutative(lone_subtitles(groups), lone_subtitles(seq![g]));
}

proof fn lemma_lone_put(
    groups: Seq<GroupModel>,
    g: GroupModel,
    le: spec_fn(GroupModel, GroupModel) -> bool,
)
    ensures
        lone_videos(put_in(groups, g, le)).to_multiset() == lone_videos(
            groups.push(g),
        ).to_multiset(),
        lone_subtitles(put_in(groups, g, le)).to_multiset() == lone_subtitles(
            groups.push(g),
        ).to_multiset(),
    decreases groups.len(),
{
    broadcast use vstd::multiset::group_multiset_axioms;

    if !(groups.len() == 0 || le(groups.last(), g)) {
        let t = groups.drop_last();
        let x = groups.last();
        let q = put_in(t, g, le);
        lemma_lone_put(t, g, le);
        lemma_lone_push(q, x);
        lemma_lone_push(t, g);
        lemma_lone_push(t, x);
        lemma_lone_push(groups, g);
        assert(groups =~= t.push(x));
        assert(lone_videos(q.push(x)).to_multiset() =~= lone_videos(groups.push(g)).to_multiset());
        assert(lone_subtitles(q.push(x)).to_multiset() =~= lone_subtitles(
            groups.push(g),
        ).to_multiset());
    }
}

/// Without patterns the leftovers are matched until nothing more comes of it.
pub proof fn law_match_to_the_end(videos: Seq<FileModel>, subs: Seq<FileModel>)
    ensures
        nothing_more(
            lone_videos(matched(videos, subs, None, None)),
            lone_subtitles(matched(videos, subs, None, None)),
        ),
{
    broadcast use group_to_multiset_ensures;
    broadcast use vstd::multiset::group_multiset_axioms;

    let keys = pass_keys(videos, subs, None, None);
    let first = one_pass(videos, subs, None, None);
    let n = videos.len() + subs.len() + 1;
    let le = |a: GroupModel, b: GroupModel| group_le(a, b);
    let end = rematch(first, n);
    law_pair_keeps_files(videos, subs, keys.0, keys.1);
    lemma_in_kept(first);
    assert(videos.to_multiset().len() == videos.len());
    assert(subs.to_multiset().len() == subs.len());
    assert(lone_videos(first).to_multiset().len() == lone_videos(first).len());
    assert(lone_subtitles(first).to_multiset().len() == lone_subtitles(first).len());
    lemma_rematch_final(first, n, first, videos, subs);
    lemma_lone_sorted(end, le);
    let r = sorted_by(end, le);
    assert(lone_videos(r).len() == lone_videos(r).to_multiset().len());
    assert(lone_subtitles(r).len() == lone_subtitles(r).to_multiset().len());
    assert(lone_videos(end).len() == lone_videos(end).to_multiset().len());
    assert(lone_subtitles(end).len() == lone_subtitles(end).to_multiset().len());
    assert(matched(videos, subs, None, None) == r);
    if lone_videos(r).len() > 1 && lone_subtitles(r).len() > 1 {
        let (vs, ss) = choose|vs: Seq<FileModel>, ss: Seq<FileModel>| #[trigger]
            pairs_none(vs, ss) && vs.to_multiset() == lone_videos(end).to_multiset()
                && ss.to_multiset() == lone_subtitles(end).to_multiset();
        assert(pairs_none(vs, ss));
    }
}

} // verus!
