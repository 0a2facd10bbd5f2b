//! What the matching keeps: every file, the order, and the keys.

use vstd::multiset::Multiset;
use vstd::prelude::*;
use vstd::seq_lib::*;

use crate::key::{law_key_order, KeyModel};
use crate::matcher::{
    attached, by_key, detached, group_le, group_of, kept, lone_subtitles, lone_videos, matched,
    one_pass, pair, pass_keys, place_subtitle, place_subtitles, place_videos, rematch, stem_le,
    stray_group, tidy, with_video, FileModel, GroupModel,
};
use crate::sorting::{
    in_order, lemma_sorted_in_order, lemma_sorted_multiset, put_in, sorted_by, total_preorder,
};
use crate::text::{lemma_lex_le_trans, lemma_lex_total};

verus! {

/// How often each video stands in the groups.
pub open spec fn videos_in(groups: Seq<GroupModel>) -> Multiset<FileModel>
    decreases groups.len(),
{
    if groups.len() == 0 {
        Multiset::empty()
    } else {
        match groups.last().video {
            Some(v) => videos_in(groups.drop_last()).insert(v),
            None => videos_in(groups.drop_last()),
        }
    }
}

/// How often each subtitle stands in the groups.
pub open spec fn subtitles_in(groups: Seq<GroupModel>) -> Multiset<FileModel>
    decreases groups.len(),
{
    if groups.len() == 0 {
        Multiset::empty()
    } else {
        subtitles_in(groups.drop_last()).add(groups.last().subtitles.to_multiset())
    }
}

proof fn lemma_in_push(groups: Seq<GroupModel>, g: GroupModel)
    ensures
        subtitles_in(groups.push(g)) == subtitles_in(groups).add(g.subtitles.to_multiset()),
        videos_in(groups.push(g)) == match g.video {
            Some(v) => videos_in(groups).insert(v),
            None => videos_in(groups),
        },
{
    assert(groups.push(g).drop_last() =~= groups);
}

pub proof fn lemma_in_concat(a: Seq<GroupModel>, b: Seq<GroupModel>)
    ensures
        subtitles_in(a + b) == subtitles_in(a).add(subtitles_in(b)),
        videos_in(a + b) == videos_in(a).add(videos_in(b)),
    decreases b.len(),
{
    broadcast use vstd::multiset::group_multiset_axioms;

    if b.len() == 0 {
        assert(a + b =~= a);
        assert(subtitles_in(a + b) =~= subtitles_in(a).add(subtitles_in(b)));
        assert(videos_in(a + b) =~= videos_in(a).add(videos_in(b)));
    } else {
        lemma_in_concat(a, b.drop_last());
        assert((a + b).drop_last() =~= a + b.drop_last());
        assert((a + b).last() == b.last());
        assert(subtitles_in(a + b) =~= subtitles_in(a).add(subtitles_in(b)));
        assert(videos_in(a + b) =~= videos_in(a).add(videos_in(b)));
    }
}

proof fn lemma_in_update(groups: Seq<GroupModel>, i: int, g: GroupModel)
    requires
        0 <= i < groups.len(),
        g.video == groups[i].video,
    ensures
        videos_in(groups.update(i, g)) == videos_in(groups),
        subtitles_in(groups.update(i, g)).add(groups[i].subtitles.to_multiset()) == subtitles_in(
            groups,
        ).add(g.subtitles.to_multiset()),
    decreases groups.len(),
{
    broadcast use vstd::multiset::group_multiset_axioms;

    let u = groups.update(i, g);
    if i == groups.len() - 1 {
        assert(u.drop_last() =~= groups.drop_last());
    } else {
        assert(u.drop_last() =~= groups.drop_last().update(i, g));
        assert(u.last() == groups.last());
        lemma_in_update(groups.drop_last(), i, g);
    }
    let l = subtitles_in(u).add(groups[i].subtitles.to_multiset());
    let r = subtitles_in(groups).add(g.subtitles.to_multiset());
    assert forall|x: FileModel| l.count(x) == r.count(x) by {
        if i != groups.len() - 1 {
            let m = subtitles_in(groups.drop_last().update(i, g)).add(
                groups[i].subtitles.to_multiset(),
            );
            let n = subtitles_in(groups.drop_last()).add(g.subtitles.to_multiset());
            assert(m.count(x) == n.count(x));
        }
    }
    assert(l =~= r);
}

proof fn lemma_in_sorted(groups: Seq<GroupModel>, le: spec_fn(GroupModel, GroupModel) -> bool)
    ensures
        subtitles_in(sorted_by(groups, le)) == subtitles_in(groups),
        videos_in(sorted_by(groups, le)) == videos_in(groups),
    decreases groups.len(),
{
    if groups.len() > 0 {
        lemma_in_sorted(groups.drop_last(), le);
        lemma_in_put(sorted_by(groups.drop_last(), le), groups.last(), le);
    }
}

proof fn lemma_in_put(
    groups: Seq<GroupModel>,
    g: GroupModel,
    le: spec_fn(GroupModel, GroupModel) -> bool,
)
    ensures
        subtitles_in(put_in(groups, g, le)) == subtitles_in(groups).add(g.subtitles.to_multiset()),
        videos_in(put_in(groups, g, le)) == match g.video {
            Some(v) => videos_in(groups).insert(v),
            None => videos_in(groups),
        },
    decreases groups.len(),
{
    broadcast use vstd::multiset::group_multiset_axioms;

    if groups.len() == 0 || le(groups.last(), g) {
        lemma_in_push(groups, g);
    } else {
        lemma_in_put(groups.drop_last(), g, le);
        lemma_in_push(put_in(groups.drop_last(), g, le), groups.last());
        assert(subtitles_in(put_in(groups, g, le)) =~= subtitles_in(groups).add(
            g.subtitles.to_multiset(),
        ));
        match g.video {
            Some(v) => {
                assert(videos_in(put_in(groups, g, le)) =~= videos_in(groups).insert(v));
            },
            None => {},
        }
    }
}

proof fn lemma_in_tidy(groups: Seq<GroupModel>)
    ensures
        subtitles_in(tidy(groups)) == subtitles_in(groups),
        videos_in(tidy(groups)) == videos_in(groups),
    decreases groups.len(),
{
    if groups.len() > 0 {
        lemma_in_tidy(groups.drop_last());
        assert(tidy(groups).drop_last() =~= tidy(groups.drop_last()));
        lemma_sorted_multiset(
            groups.last().subtitles,
            |a: FileModel, b: FileModel| stem_le(a, b),
        );
    }
}

proof fn lemma_in_videos(videos: Seq<FileModel>, keys: Seq<Option<KeyModel>>)
    ensures
        videos_in(place_videos(videos, keys)) == videos.to_multiset(),
        subtitles_in(place_videos(videos, keys)) == Multiset::<FileModel>::empty(),
    decreases videos.len(),
{
    broadcast use vstd::multiset::group_multiset_axioms;
    broadcast use group_to_multiset_ensures;

    if videos.len() == 0 {
        assert(videos.to_multiset() =~= Multiset::empty());
    } else {
        lemma_in_videos(videos.drop_last(), keys);
        let g = place_videos(videos.drop_last(), keys);
        let all = place_videos(videos, keys);
        lemma_in_push(g, all.last());
        assert(all =~= g.push(all.last()));
        assert(videos =~= videos.drop_last().push(videos.last()));
        assert(Seq::<FileModel>::empty().to_multiset() =~= Multiset::empty());
        assert(subtitles_in(all) =~= Multiset::empty());
    }
}

proof fn lemma_group_of(groups: Seq<GroupModel>, k: KeyModel)
    ensures
        group_of(groups, k) matches Some(i) ==> 0 <= i < groups.len() && groups[i].key == k,
    decreases groups.len(),
{
    if groups.len() > 0 {
        lemma_group_of(groups.drop_last(), k);
    }
}

proof fn lemma_in_subtitle(groups: Seq<GroupModel>, sub: FileModel, key: Option<KeyModel>)
    ensures
        videos_in(place_subtitle(groups, sub, key)) == videos_in(groups),
        subtitles_in(place_subtitle(groups, sub, key)) == subtitles_in(groups).insert(sub),
{
    broadcast use vstd::multiset::group_multiset_axioms;
    broadcast use group_to_multiset_ensures;

    let place = match key {
        Some(k) => group_of(groups, k),
        None => None,
    };
    match place {
        Some(i) => {
            lemma_group_of(groups, key->0);
            let g = GroupModel { subtitles: groups[i].subtitles.push(sub), ..groups[i] };
            lemma_in_update(groups, i, g);
            let l = subtitles_in(groups.update(i, g));
            let r = subtitles_in(groups).insert(sub);
            assert forall|x: FileModel| l.count(x) == r.count(x) by {
                assert(l.add(groups[i].subtitles.to_multiset()).count(x) == subtitles_in(
                    groups,
                ).add(g.subtitles.to_multiset()).count(x));
            }
            assert(l =~= r);
        },
        None => {
            let g = place_subtitle(groups, sub, key).last();
            lemma_in_push(groups, g);
            assert(seq![sub] =~= Seq::<FileModel>::empty().push(sub));
            assert(Seq::<FileModel>::empty().to_multiset() =~= Multiset::empty());
            assert(subtitles_in(groups.push(g)) =~= subtitles_in(groups).insert(sub));
        },
    }
}

proof fn lemma_in_subtitles(
    groups: Seq<GroupModel>,
    subs: Seq<FileModel>,
    keys: Seq<Option<KeyModel>>,
)
    ensures
        videos_in(place_subtitles(groups, subs, keys)) == videos_in(groups),
        subtitles_in(place_subtitles(groups, subs, keys)) == subtitles_in(groups).add(
            subs.to_multiset(),
        ),
    decreases subs.len(),
{
    broadcast use vstd::multiset::group_multiset_axioms;
    broadcast use group_to_multiset_ensures;

    if subs.len() == 0 {
        assert(subs.to_multiset() =~= Multiset::empty());
        assert(subtitles_in(groups) =~= subtitles_in(groups).add(subs.to_multiset()));
    } else {
        lemma_in_subtitles(groups, subs.drop_last(), keys);
        lemma_in_subtitle(
            place_subtitles(groups, subs.drop_last(), keys),
            subs.last(),
            keys[subs.len() - 1],
        );
        assert(subs =~= subs.drop_last().push(subs.last()));
        assert(subtitles_in(place_subtitles(groups, subs, keys)) =~= subtitles_in(groups).add(
            subs.to_multiset(),
        ));
    }
}

/// Pairing loses no file and doubles none, whatever the keys.
pub proof fn law_pair_keeps_files(
    videos: Seq<FileModel>,
    subs: Seq<FileModel>,
    video_keys: Seq<Option<KeyModel>>,
    sub_keys: Seq<Option<KeyModel>>,
)
    ensures
        videos_in(pair(videos, subs, video_keys, sub_keys)) == videos.to_multiset(),
        subtitles_in(pair(videos, subs, video_keys, sub_keys)) == subs.to_multiset(),
{
    broadcast use vstd::multiset::group_multiset_axioms;
    broadcast use group_to_multiset_ensures;

    if videos.len() == 1 && subs.len() == 1 && video_keys[0] == sub_keys[0] {
        let p = pair(videos, subs, video_keys, sub_keys);
        assert(p =~= Seq::<GroupModel>::empty().push(p[0]));
        lemma_in_push(Seq::empty(), p[0]);
        assert(videos =~= Seq::<FileModel>::empty().push(videos[0]));
        assert(Seq::<FileModel>::empty().to_multiset() =~= Multiset::empty());
        assert(subtitles_in(p) =~= subs.to_multiset());
    } else {
        let a = place_videos(videos, video_keys);
        let b = place_subtitles(a, subs, sub_keys);
        lemma_in_videos(videos, video_keys);
        lemma_in_subtitles(a, subs, sub_keys);
        lemma_in_sorted(b, |a: GroupModel, b: GroupModel| group_le(a, b));
        lemma_in_tidy(by_key(b));
        assert(subtitles_in(b) =~= subs.to_multiset());
    }
}

pub proof fn lemma_in_kept(groups: Seq<GroupModel>)
    ensures
        videos_in(groups) == videos_in(kept(groups)).add(lone_videos(groups).to_multiset()),
        subtitles_in(groups) == subtitles_in(kept(groups)).add(
            lone_subtitles(groups).to_multiset(),
        ),
    decreases groups.len(),
{
    broadcast use vstd::multiset::group_multiset_axioms;
    broadcast use group_to_multiset_ensures;

    assert(Seq::<FileModel>::empty().to_multiset() =~= Multiset::empty());
    if groups.len() == 0 {
        assert(videos_in(groups) =~= videos_in(kept(groups)).add(
            lone_videos(groups).to_multiset(),
        ));
        assert(subtitles_in(groups) =~= subtitles_in(kept(groups)).add(
            lone_subtitles(groups).to_multiset(),
        ));
    } else {
        let h = groups.drop_last();
        let g = groups.last();
        lemma_in_kept(h);
        lemma_multiset_commutative(lone_subtitles(h), g.subtitles);
        if g.subtitles.len() == 0 {
            assert(g.subtitles =~= Seq::empty());
        }
        if !(g.lone_video() || g.lone_subtitles()) {
            lemma_in_push(kept(h), g);
        }
        assert(videos_in(groups) =~= videos_in(kept(groups)).add(
            lone_videos(groups).to_multiset(),
        ));
        assert(subtitles_in(groups) =~= subtitles_in(kept(groups)).add(
            lone_subtitles(groups).to_multiset(),
        ));
    }
}

proof fn lemma_in_rematch(groups: Seq<GroupModel>, before: nat)
    ensures
        videos_in(rematch(groups, before)) == videos_in(groups),
        subtitles_in(rematch(groups, before)) == subtitles_in(groups),
    decreases before,
{
    let v = lone_videos(groups);
    let s = lone_subtitles(groups);
    if !(v.len() <= 1 || s.len() <= 1 || v.len() + s.len() >= before) {
        let keys = pass_keys(v, s, None, None);
        let more = one_pass(v, s, None, None);
        law_pair_keeps_files(v, s, keys.0, keys.1);
        lemma_in_kept(groups);
        lemma_in_concat(kept(groups), more);
        lemma_in_rematch(kept(groups) + more, v.len() + s.len());
    }
}

/// Matching loses no file and doubles none: each video and each subtitle stands in the
/// groups as often as it was given.
pub proof fn law_match_keeps_files(
    videos: Seq<FileModel>,
    subs: Seq<FileModel>,
    video_pattern: Option<Seq<char>>,
    sub_pattern: Option<Seq<char>>,
)
    ensures
        videos_in(matched(videos, subs, video_pattern, sub_pattern)) == videos.to_multiset(),
        subtitles_in(matched(videos, subs, video_pattern, sub_pattern)) == subs.to_multiset(),
{
    let keys = pass_keys(videos, subs, video_pattern, sub_pattern);
    let first = one_pass(videos, subs, video_pattern, sub_pattern);
    let le = |a: GroupModel, b: GroupModel| group_le(a, b);
    law_pair_keeps_files(videos, subs, keys.0, keys.1);
    if video_pattern is None && sub_pattern is None {
        lemma_in_rematch(first, videos.len() + subs.len() + 1);
        lemma_in_sorted(rematch(first, videos.len() + subs.len() + 1), le);
    } else {
        lemma_in_sorted(first, le);
    }
}

/// A subtitle that was given once stands in one group: no other group has it.
pub proof fn law_one_group_each(
    videos: Seq<FileModel>,
    subs: Seq<FileModel>,
    video_pattern: Option<Seq<char>>,
    sub_pattern: Option<Seq<char>>,
    i: int,
    j: int,
    sub: FileModel,
)
    requires
        subs.no_duplicates(),
        0 <= i < matched(videos, subs, video_pattern, sub_pattern).len(),
        0 <= j < matched(videos, subs, video_pattern, sub_pattern).len(),
        matched(videos, subs, video_pattern, sub_pattern)[i].subtitles.contains(sub),
        matched(videos, subs, video_pattern, sub_pattern)[j].subtitles.contains(sub),
    ensures
        i == j,
{
    broadcast use group_to_multiset_ensures;

    let groups = matched(videos, subs, video_pattern, sub_pattern);
    law_match_keeps_files(videos, subs, video_pattern, sub_pattern);
    subs.lemma_multiset_has_no_duplicates();
    if i != j {
        lemma_count_two(groups, i, j, sub);
    }
}

proof fn lemma_count_one(groups: Seq<GroupModel>, i: int, sub: FileModel)
    requires
        0 <= i < groups.len(),
    ensures
        subtitles_in(groups).count(sub) >= groups[i].subtitles.to_multiset().count(sub),
    decreases groups.len(),
{
    broadcast use vstd::multiset::group_multiset_axioms;

    if i < groups.len() - 1 {
        lemma_count_one(groups.drop_last(), i, sub);
    }
}

proof fn lemma_count_two(groups: Seq<GroupModel>, i: int, j: int, sub: FileModel)
    requires
        0 <= i < groups.len(),
        0 <= j < groups.len(),
        i != j,
    ensures
        subtitles_in(groups).count(sub) >= groups[i].subtitles.to_multiset().count(sub)
            + groups[j].subtitles.to_multiset().count(sub),
    decreases groups.len(),
{
    broadcast use vstd::multiset::group_multiset_axioms;

    let n = groups.len() - 1;
    if i == n {
        lemma_count_one(groups.drop_last(), j, sub);
    } else if j == n {
        lemma_count_one(groups.drop_last(), i, sub);
    } else {
        lemma_count_two(groups.drop_last(), i, j, sub);
    }
}

/// Moving a subtitle by hand loses no file and doubles none.
pub proof fn law_attach_keeps_files(groups: Seq<GroupModel>, v: int, i: int)
    ensures
        videos_in(attached(groups, v, i)) == videos_in(groups),
        subtitles_in(attached(groups, v, i)) == subtitles_in(groups),
        attached(groups, v, i).len() == groups.len(),
{
    broadcast use vstd::multiset::group_multiset_axioms;
    broadcast use group_to_multiset_ensures;

    if 0 <= v < groups.len() && 0 <= i < groups.len() && groups[v].video is Some
        && groups[i].subtitles.len() > 0 {
        let sub = groups[i].subtitles[0];
        let g = GroupModel { subtitles: groups[i].subtitles.drop_first(), ..groups[i] };
        let without = groups.update(i, g);
        let h = GroupModel {
            subtitles: without[v].subtitles.push(sub),
            manual: true,
            ..without[v]
        };
        lemma_in_update(groups, i, g);
        lemma_in_update(without, v, h);
        assert(groups[i].subtitles =~= seq![sub] + g.subtitles);
        lemma_multiset_commutative(seq![sub], g.subtitles);
        assert(seq![sub] =~= Seq::<FileModel>::empty().push(sub));
        assert(Seq::<FileModel>::empty().to_multiset() =~= Multiset::empty());
        let l = subtitles_in(without.update(v, h));
        let r = subtitles_in(groups);
        assert forall|x: FileModel| l.count(x) == r.count(x) by {
            assert(l.add(without[v].subtitles.to_multiset()).count(x) == subtitles_in(
                without,
            ).add(h.subtitles.to_multiset()).count(x));
            assert(subtitles_in(without).add(groups[i].subtitles.to_multiset()).count(x)
                == r.add(g.subtitles.to_multiset()).count(x));
        }
        assert(l =~= r);
    }
}

/// Taking a subtitle out of a group by hand loses no file and doubles none, and the
/// subtitle is then the last of those without a video.
pub proof fn law_detach_keeps_files(groups: Seq<GroupModel>, v: int, i: int)
    ensures
        videos_in(detached(groups, v, i)) == videos_in(groups),
        subtitles_in(detached(groups, v, i)) == subtitles_in(groups),
        0 <= v < groups.len() && groups[v].video is Some && 0 <= i < groups[v].subtitles.len()
            ==> lone_subtitles(detached(groups, v, i)) == lone_subtitles(groups).push(
            groups[v].subtitles[i],
        ),
{
    broadcast use vstd::multiset::group_multiset_axioms;
    broadcast use group_to_multiset_ensures;

    if 0 <= v < groups.len() && 0 <= i < groups[v].subtitles.len() {
        let sub = groups[v].subtitles[i];
        let g = GroupModel { subtitles: groups[v].subtitles.remove(i), manual: true, ..groups[v] };
        let rest = groups.update(v, g);
        let stray = stray_group(sub, Some(groups[v].key));
        lemma_in_update(groups, v, g);
        lemma_in_push(rest, stray);
        assert(seq![sub] =~= Seq::<FileModel>::empty().push(sub));
        assert(Seq::<FileModel>::empty().to_multiset() =~= Multiset::empty());
        let l = subtitles_in(rest.push(stray));
        let r = subtitles_in(groups);
        assert forall|x: FileModel| l.count(x) == r.count(x) by {
            assert(subtitles_in(rest).add(groups[v].subtitles.to_multiset()).count(x) == r.add(
                g.subtitles.to_multiset(),
            ).count(x));
        }
        assert(l =~= r);
        if groups[v].video is Some {
            lemma_strays_update(groups, v, g);
            assert(rest.push(stray).drop_last() =~= rest);
            assert(lone_subtitles(rest) + seq![sub] =~= lone_subtitles(groups).push(sub));
        }
    }
}

proof fn lemma_strays_update(groups: Seq<GroupModel>, i: int, g: GroupModel)
    requires
        0 <= i < groups.len(),
        groups[i].video is Some,
        g.video is Some,
    ensures
        lone_subtitles(groups.update(i, g)) == lone_subtitles(groups),
    decreases groups.len(),
{
    let u = groups.update(i, g);
    if i == groups.len() - 1 {
        assert(u.drop_last() =~= groups.drop_last());
    } else {
        assert(u.drop_last() =~= groups.drop_last().update(i, g));
        lemma_strays_update(groups.drop_last(), i, g);
    }
}

/// The groups with a video and the subtitles without one cover the files, each once:
/// every video stands in the former, every subtitle in the former or among the latter.
/// The videos without subtitles are those of the former that have none.
pub proof fn law_parts_cover(groups: Seq<GroupModel>)
    ensures
        videos_in(with_video(groups)) == videos_in(groups),
        subtitles_in(with_video(groups)).add(lone_subtitles(groups).to_multiset())
            == subtitles_in(groups),
        lone_videos(with_video(groups)) == lone_videos(groups),
        lone_subtitles(with_video(groups)) == Seq::<FileModel>::empty(),
    decreases groups.len(),
{
    broadcast use vstd::multiset::group_multiset_axioms;
    broadcast use group_to_multiset_ensures;

    assert(Seq::<FileModel>::empty().to_multiset() =~= Multiset::empty());
    if groups.len() == 0 {
        assert(subtitles_in(with_video(groups)).add(lone_subtitles(groups).to_multiset())
            =~= subtitles_in(groups));
    } else {
        let h = groups.drop_last();
        let g = groups.last();
        law_parts_cover(h);
        lemma_multiset_commutative(lone_subtitles(h), g.subtitles);
        if g.subtitles.len() == 0 {
            assert(g.subtitles =~= Seq::empty());
        }
        if g.video is Some {
            lemma_in_push(with_video(h), g);
            assert(with_video(h).push(g).drop_last() =~= with_video(h));
        }
        assert(subtitles_in(with_video(groups)).add(lone_subtitles(groups).to_multiset())
            =~= subtitles_in(groups));
    }
}

/// What the matching hands out covers the files that were given, each once.
pub proof fn law_match_covers(
    videos: Seq<FileModel>,
    subs: Seq<FileModel>,
    video_pattern: Option<Seq<char>>,
    sub_pattern: Option<Seq<char>>,
)
    ensures
        ({
            let groups = matched(videos, subs, video_pattern, sub_pattern);
            &&& videos_in(with_video(groups)) == videos.to_multiset()
            &&& subtitles_in(with_video(groups)).add(lone_subtitles(groups).to_multiset())
                == subs.to_multiset()
            &&& videos_in(kept(groups)).add(lone_videos(groups).to_multiset())
                == videos.to_multiset()
        }),
{
    let groups = matched(videos, subs, video_pattern, sub_pattern);
    law_match_keeps_files(videos, subs, video_pattern, sub_pattern);
    law_parts_cover(groups);
    lemma_in_kept(groups);
}

// ---------------------------------------------------------------------------
// Order
// ---------------------------------------------------------------------------
pub proof fn lemma_stem_order()
    ensures
        total_preorder(|a: FileModel, b: FileModel| stem_le(a, b)),
{
    let le = |a: FileModel, b: FileModel| stem_le(a, b);
    assert forall|a: FileModel, b: FileModel| #[trigger] le(a, b) || le(b, a) by {
        lemma_lex_total(a.stem, b.stem);
    }
    assert forall|a: FileModel, b: FileModel, c: FileModel| #[trigger]
        le(a, b) && #[trigger] le(b, c) implies le(a, c) by {
        lemma_lex_le_trans(a.stem, b.stem, c.stem);
    }
}

pub proof fn lemma_group_order()
    ensures
        total_preorder(|a: GroupModel, b: GroupModel| group_le(a, b)),
{
    let le = |a: GroupModel, b: GroupModel| group_le(a, b);
    assert forall|a: GroupModel, b: GroupModel| #[trigger] le(a, b) || le(b, a) by {
        law_key_order(a.key, b.key, b.key);
    }
    assert forall|a: GroupModel, b: GroupModel, c: GroupModel| #[trigger]
        le(a, b) && #[trigger] le(b, c) implies le(a, c) by {
        law_key_order(a.key, b.key, c.key);
        law_key_order(b.key, c.key, a.key);
        law_key_order(c.key, a.key, b.key);
    }
}

/// Every group has its subtitles in the order of their stems.
pub open spec fn all_tidy(groups: Seq<GroupModel>) -> bool {
    forall|i: int|
        0 <= i < groups.len() ==> in_order(
            (#[trigger] groups[i]).subtitles,
            |a: FileModel, b: FileModel| stem_le(a, b),
        )
}

proof fn lemma_tidy_put(
    groups: Seq<GroupModel>,
    g: GroupModel,
    le: spec_fn(GroupModel, GroupModel) -> bool,
)
    requires
        all_tidy(groups),
        in_order(g.subtitles, |a: FileModel, b: FileModel| stem_le(a, b)),
    ensures
        all_tidy(put_in(groups, g, le)),
    decreases groups.len(),
{
    if !(groups.len() == 0 || le(groups.last(), g)) {
        let h = groups.drop_last();
        assert forall|i: int| 0 <= i < h.len() implies in_order(
            (#[trigger] h[i]).subtitles,
            |a: FileModel, b: FileModel| stem_le(a, b),
        ) by {
            assert(h[i] == groups[i]);
        }
        lemma_tidy_put(h, g, le);
        assert(groups[groups.len() - 1] == groups.last());
    }
}

proof fn lemma_tidy_sorted(groups: Seq<GroupModel>, le: spec_fn(GroupModel, GroupModel) -> bool)
    requires
        all_tidy(groups),
    ensures
        all_tidy(sorted_by(groups, le)),
    decreases groups.len(),
{
    if groups.len() > 0 {
        let h = groups.drop_last();
        assert forall|i: int| 0 <= i < h.len() implies in_order(
            (#[trigger] h[i]).subtitles,
            |a: FileModel, b: FileModel| stem_le(a, b),
        ) by {
            assert(h[i] == groups[i]);
        }
        lemma_tidy_sorted(h, le);
        assert(groups[groups.len() - 1] == groups.last());
        lemma_tidy_put(sorted_by(h, le), groups.last(), le);
    }
}

proof fn lemma_tidy_pair(
    videos: Seq<FileModel>,
    subs: Seq<FileModel>,
    video_keys: Seq<Option<KeyModel>>,
    sub_keys: Seq<Option<KeyModel>>,
)
    ensures
        all_tidy(pair(videos, subs, video_keys, sub_keys)),
{
    let le = |a: FileModel, b: FileModel| stem_le(a, b);
    if !(videos.len() == 1 && subs.len() == 1 && video_keys[0] == sub_keys[0]) {
        let g = by_key(place_subtitles(place_videos(videos, video_keys), subs, sub_keys));
        lemma_stem_order();
        assert forall|i: int| 0 <= i < tidy(g).len() implies in_order(
            (#[trigger] tidy(g)[i]).subtitles,
            le,
        ) by {
            lemma_sorted_in_order(g[i].subtitles, le);
        }
    }
}

proof fn lemma_tidy_kept(groups: Seq<GroupModel>)
    requires
        all_tidy(groups),
    ensures
        all_tidy(kept(groups)),
    decreases groups.len(),
{
    if groups.len() > 0 {
        let h = groups.drop_last();
        assert forall|i: int| 0 <= i < h.len() implies in_order(
            (#[trigger] h[i]).subtitles,
            |a: FileModel, b: FileModel| stem_le(a, b),
        ) by {
            assert(h[i] == groups[i]);
        }
        lemma_tidy_kept(h);
        assert(groups[groups.len() - 1] == groups.last());
    }
}

proof fn lemma_tidy_rematch(groups: Seq<GroupModel>, before: nat)
    requires
        all_tidy(groups),
    ensures
        all_tidy(rematch(groups, before)),
    decreases before,
{
    let v = lone_videos(groups);
    let s = lone_subtitles(groups);
    if !(v.len() <= 1 || s.len() <= 1 || v.len() + s.len() >= before) {
        let keys = pass_keys(v, s, None, None);
        let more = one_pass(v, s, None, None);
        lemma_tidy_pair(v, s, keys.0, keys.1);
        lemma_tidy_kept(groups);
        let k = kept(groups);
        assert forall|i: int| 0 <= i < (k + more).len() implies in_order(
            (#[trigger] (k + more)[i]).subtitles,
            |a: FileModel, b: FileModel| stem_le(a, b),
        ) by {
            if i < k.len() {
                assert((k + more)[i] == k[i]);
            } else {
                assert((k + more)[i] == more[i - k.len()]);
            }
        }
        lemma_tidy_rematch(k + more, v.len() + s.len());
    }
}

/// The groups stand in the order of their keys, and the subtitles of each in the order
/// of their stems.
pub proof fn law_match_order(
    videos: Seq<FileModel>,
    subs: Seq<FileModel>,
    video_pattern: Option<Seq<char>>,
    sub_pattern: Option<Seq<char>>,
)
    ensures
        in_order(
            matched(videos, subs, video_pattern, sub_pattern),
            |a: GroupModel, b: GroupModel| group_le(a, b),
        ),
        all_tidy(matched(videos, subs, video_pattern, sub_pattern)),
{
    let keys = pass_keys(videos, subs, video_pattern, sub_pattern);
    let first = one_pass(videos, subs, video_pattern, sub_pattern);
    let le = |a: GroupModel, b: GroupModel| group_le(a, b);
    let n = videos.len() + subs.len() + 1;
    lemma_tidy_pair(videos, subs, keys.0, keys.1);
    lemma_group_order();
    lemma_tidy_rematch(first, n);
    let groups = if video_pattern is None && sub_pattern is None {
        rematch(first, n)
    } else {
        first
    };
    lemma_sorted_in_order(groups, le);
    lemma_tidy_sorted(groups, le);
}

// ---------------------------------------------------------------------------
// Keys
// ---------------------------------------------------------------------------
/// Every subtitle of a group with a video was given with the key of the group.
pub open spec fn keyed(
    groups: Seq<GroupModel>,
    subs: Seq<FileModel>,
    keys: Seq<Option<KeyModel>>,
) -> bool {
    forall|i: int, m: int|
        0 <= i < groups.len() && groups[i].video is Some && 0 <= m < groups[i].subtitles.len()
            ==> given_with(#[trigger] groups[i].subtitles[m], groups[i].key, subs, keys)
}

/// `f` is one of `subs`, and `k` is its key.
pub open spec fn given_with(
    f: FileModel,
    k: KeyModel,
    subs: Seq<FileModel>,
    keys: Seq<Option<KeyModel>>,
) -> bool {
    exists|j: int| 0 <= j < subs.len() && #[trigger] subs[j] == f && keys[j] == Some(k)
}

/// A subtitle is put with a video only where their keys are the same: the key of the
/// subtitle is the key of the group.
pub proof fn law_placed_by_key(
    videos: Seq<FileModel>,
    subs: Seq<FileModel>,
    video_keys: Seq<Option<KeyModel>>,
    sub_keys: Seq<Option<KeyModel>>,
)
    ensures
        keyed(place_subtitles(place_videos(videos, video_keys), subs, sub_keys), subs, sub_keys),
    decreases subs.len(),
{
    let a = place_videos(videos, video_keys);
    if subs.len() == 0 {
        lemma_no_subtitles(videos, video_keys);
    } else {
        let t = subs.drop_last();
        let sub = subs.last();
        let key = sub_keys[subs.len() - 1];
        law_placed_by_key(videos, t, video_keys, sub_keys);
        let g = place_subtitles(a, t, sub_keys);
        let r = place_subtitle(g, sub, key);
        assert forall|i: int, m: int|
            0 <= i < r.len() && r[i].video is Some && 0 <= m
                < r[i].subtitles.len() implies given_with(
            #[trigger] r[i].subtitles[m],
            r[i].key,
            subs,
            sub_keys,
        ) by {
            let f = r[i].subtitles[m];
            if key is Some {
                lemma_group_of(g, key->0);
            }
            if i < g.len() && m < g[i].subtitles.len() {
                assert(f == g[i].subtitles[m]);
                assert(given_with(g[i].subtitles[m], g[i].key, t, sub_keys));
                let j = choose|j: int|
                    0 <= j < t.len() && #[trigger] t[j] == f && sub_keys[j] == Some(g[i].key);
                assert(subs[j] == f);
            } else {
                assert(subs[subs.len() - 1] == f);
            }
        }
    }
}

proof fn lemma_no_subtitles(videos: Seq<FileModel>, keys: Seq<Option<KeyModel>>)
    ensures
        forall|i: int|
            0 <= i < place_videos(videos, keys).len() ==> (#[trigger] place_videos(
                videos,
                keys,
            )[i]).subtitles.len() == 0,
    decreases videos.len(),
{
    if videos.len() > 0 {
        lemma_no_subtitles(videos.drop_last(), keys);
    }
}

} // verus!
