//! Pairing of videos and subtitles by their episode keys.

use vstd::prelude::*;
use vstd::string::*;

use crate::cross::{cross_keys, cross_with};
use crate::extract::{
    extract_by, extract_with, pattern_keys, raw_keys, single_keys, singles_with,
};
use crate::key::{key_le, opt_key, opt_keys, raw_views, EpisodeKey, KeyModel, RawKey};
use crate::normalize::{key_of, normalize_all};
use crate::pattern::{opt_str, views, Patterns};
use crate::registry::{basename_parts, ExtensionRegistry, FileCategory, RegistryModel};
use crate::sorting::{models, sort_models, sorted_by};
use crate::text::{copy_of, lex_le, str_before};

verus! {

// ---------------------------------------------------------------------------
// Files and groups
// ---------------------------------------------------------------------------
/// A file that takes part in the matching.
#[derive(Debug)]
pub struct FileEntry {
    /// Where the file is.
    pub path: String,
    /// Its name without the extension.
    pub stem: String,
    /// Its extension.
    pub ext: String,
}

/// What a [`FileEntry`] stands for.
pub struct FileModel {
    pub path: Seq<char>,
    pub stem: Seq<char>,
    pub ext: Seq<char>,
}

impl View for FileEntry {
    type V = FileModel;

    open spec fn view(&self) -> FileModel {
        FileModel { path: self.path@, stem: self.stem@, ext: self.ext@ }
    }
}

impl Clone for FileEntry {
    fn clone(&self) -> (r: Self)
        ensures
            r@ == self@,
    {
        FileEntry {
            path: copy_of(self.path.as_str()),
            stem: copy_of(self.stem.as_str()),
            ext: copy_of(self.ext.as_str()),
        }
    }
}

impl FileEntry {
    /// The entry of the file at `path`.
    pub fn from_path(path: String) -> (r: Self)
        ensures
            r@ == file_at(path@),
    {
        let (stem, ext) = ExtensionRegistry::split_basename(path.as_str());
        FileEntry { path, stem, ext }
    }
}

/// What a file that may be absent stands for.
pub open spec fn opt_file(f: Option<FileEntry>) -> Option<FileModel> {
    match f {
        Some(f) => Some(f@),
        None => None,
    }
}

/// A second value for the same file.
pub fn copy_file(f: &Option<FileEntry>) -> (r: Option<FileEntry>)
    ensures
        opt_file(r) == opt_file(*f),
{
    match f {
        Some(f) => Some(f.clone()),
        None => None,
    }
}

/// A second value for the same files.
pub fn copy_files(v: &Vec<FileEntry>) -> (r: Vec<FileEntry>)
    ensures
        models(r@) == models(v@),
{
    let mut out: Vec<FileEntry> = Vec::new();
    let mut i: usize = 0;
    while i < v.len()
        invariant
            i <= v@.len(),
            out@.len() == i,
            forall|j: int| 0 <= j < i ==> (#[trigger] out@[j])@ == v@[j]@,
        decreases v@.len() - i,
    {
        out.push(v[i].clone());
        i += 1;
    }
    assert(models(out@) =~= models(v@));
    out
}

/// A group: a video and the subtitles that go with it.
#[derive(Debug)]
pub struct PairGroup {
    /// The video, where there is one.
    pub video: Option<FileEntry>,
    /// The subtitles.
    pub subtitles: Vec<FileEntry>,
    /// The key that holds the group together.
    pub key: EpisodeKey,
    /// Whether the group was changed by hand.
    pub manual: bool,
}

/// What a [`PairGroup`] stands for.
pub struct GroupModel {
    pub video: Option<FileModel>,
    pub subtitles: Seq<FileModel>,
    pub key: KeyModel,
    pub manual: bool,
}

impl View for PairGroup {
    type V = GroupModel;

    open spec fn view(&self) -> GroupModel {
        GroupModel {
            video: opt_file(self.video),
            subtitles: models(self.subtitles@),
            key: self.key@,
            manual: self.manual,
        }
    }
}

impl Clone for PairGroup {
    fn clone(&self) -> (r: Self)
        ensures
            r@ == self@,
    {
        PairGroup {
            video: copy_file(&self.video),
            subtitles: copy_files(&self.subtitles),
            key: self.key.clone(),
            manual: self.manual,
        }
    }
}

impl GroupModel {
    /// A video without subtitles.
    pub open spec fn lone_video(self) -> bool {
        self.video is Some && self.subtitles.len() == 0
    }

    /// Subtitles without a video.
    pub open spec fn lone_subtitles(self) -> bool {
        self.video is None && self.subtitles.len() > 0
    }
}

/// The outcome of the matching.
#[derive(Debug)]
pub struct MatchResult {
    /// The groups.
    pub groups: Vec<PairGroup>,
}

impl View for MatchResult {
    type V = Seq<GroupModel>;

    open spec fn view(&self) -> Seq<GroupModel> {
        models(self.groups@)
    }
}

impl Default for MatchResult {
    /// No groups.
    fn default() -> (r: Self)
        ensures
            r@ == Seq::<GroupModel>::empty(),
    {
        let r = MatchResult { groups: Vec::new() };
        assert(r@ =~= Seq::empty());
        r
    }
}

impl Clone for MatchResult {
    fn clone(&self) -> (r: Self)
        ensures
            r@ == self@,
    {
        let mut out: Vec<PairGroup> = Vec::new();
        let mut i: usize = 0;
        while i < self.groups.len()
            invariant
                i <= self.groups@.len(),
                out@.len() == i,
                forall|j: int| 0 <= j < i ==> (#[trigger] out@[j])@ == self.groups@[j]@,
            decreases self.groups@.len() - i,
        {
            out.push(self.groups[i].clone());
            i += 1;
        }
        assert(models(out@) =~= models(self.groups@));
        MatchResult { groups: out }
    }
}

/// The groups with a video.
pub open spec fn with_video(groups: Seq<GroupModel>) -> Seq<GroupModel>
    decreases groups.len(),
{
    if groups.len() == 0 {
        Seq::empty()
    } else if groups.last().video is Some {
        with_video(groups.drop_last()).push(groups.last())
    } else {
        with_video(groups.drop_last())
    }
}

/// The videos that have no subtitles.
pub open spec fn lone_videos(groups: Seq<GroupModel>) -> Seq<FileModel>
    decreases groups.len(),
{
    if groups.len() == 0 {
        Seq::empty()
    } else if groups.last().lone_video() {
        lone_videos(groups.drop_last()).push(groups.last().video->0)
    } else {
        lone_videos(groups.drop_last())
    }
}

/// The subtitles that have no video.
pub open spec fn lone_subtitles(groups: Seq<GroupModel>) -> Seq<FileModel>
    decreases groups.len(),
{
    if groups.len() == 0 {
        Seq::empty()
    } else if groups.last().lone_subtitles() {
        lone_subtitles(groups.drop_last()) + groups.last().subtitles
    } else {
        lone_subtitles(groups.drop_last())
    }
}

impl MatchResult {
    /// The groups with a video.
    pub fn paired(&self) -> (r: Vec<PairGroup>)
        ensures
            models(r@) == with_video(self@),
    {
        let ghost all = self@;
        let mut out: Vec<PairGroup> = Vec::new();
        let mut i: usize = 0;
        assert(models(out@) =~= with_video(all.take(0)));
        while i < self.groups.len()
            invariant
                all == self@,
                i <= self.groups@.len(),
                models(out@) == with_video(all.take(i as int)),
            decreases self.groups@.len() - i,
        {
            let ghost before = models(out@);
            proof {
                assert(all.take(i + 1).drop_last() =~= all.take(i as int));
                assert(all.take(i + 1).last() == self.groups@[i as int]@);
            }
            if self.groups[i].video.is_some() {
                out.push(self.groups[i].clone());
                assert(models(out@) =~= before.push(self.groups@[i as int]@));
            }
            i += 1;
        }
        assert(all.take(i as int) =~= all);
        out
    }

    /// The videos that have no subtitles.
    pub fn unmatched_videos(&self) -> (r: Vec<FileEntry>)
        ensures
            models(r@) == lone_videos(self@),
    {
        let ghost all = self@;
        let mut out: Vec<FileEntry> = Vec::new();
        let mut i: usize = 0;
        assert(models(out@) =~= lone_videos(all.take(0)));
        while i < self.groups.len()
            invariant
                all == self@,
                i <= self.groups@.len(),
                models(out@) == lone_videos(all.take(i as int)),
            decreases self.groups@.len() - i,
        {
            let ghost before = models(out@);
            let g = &self.groups[i];
            proof {
                assert(all.take(i + 1).drop_last() =~= all.take(i as int));
                assert(all.take(i + 1).last() == g@);
                assert(g@.subtitles.len() == g.subtitles@.len());
            }
            if let Some(v) = &g.video {
                if g.subtitles.len() == 0 {
                    out.push(v.clone());
                    assert(models(out@) =~= before.push(v@));
                }
            }
            i += 1;
        }
        assert(all.take(i as int) =~= all);
        out
    }

    /// The subtitles that have no video.
    pub fn unmatched_subtitles(&self) -> (r: Vec<FileEntry>)
        ensures
            models(r@) == lone_subtitles(self@),
    {
        let ghost all = self@;
        let mut out: Vec<FileEntry> = Vec::new();
        let mut i: usize = 0;
        assert(models(out@) =~= lone_subtitles(all.take(0)));
        while i < self.groups.len()
            invariant
                all == self@,
                i <= self.groups@.len(),
                models(out@) == lone_subtitles(all.take(i as int)),
            decreases self.groups@.len() - i,
        {
            let ghost before = models(out@);
            let g = &self.groups[i];
            proof {
                assert(all.take(i + 1).drop_last() =~= all.take(i as int));
                assert(all.take(i + 1).last() == g@);
            }
            if g.video.is_none() {
                let mut more = copy_files(&g.subtitles);
                let ghost added = models(more@);
                let ghost was = out@;
                out.append(&mut more);
                proof {
                    assert(models(out@) =~= before + added);
                    if added.len() == 0 {
                        assert(before + added =~= before);
                    }
                }
            }
            i += 1;
        }
        assert(all.take(i as int) =~= all);
        out
    }
}

/// What the pairs of files and of their keys are sorted by.
pub open spec fn stem_le(a: FileModel, b: FileModel) -> bool {
    lex_le(a.stem, b.stem)
}

/// The order of groups.
pub open spec fn group_le(a: GroupModel, b: GroupModel) -> bool {
    key_le(a.key, b.key)
}

/// The files in the order of their stems.
pub open spec fn by_stem(files: Seq<FileModel>) -> Seq<FileModel> {
    sorted_by(files, |a: FileModel, b: FileModel| stem_le(a, b))
}

/// The groups in the order of their keys.
pub open spec fn by_key(groups: Seq<GroupModel>) -> Seq<GroupModel> {
    sorted_by(groups, |a: GroupModel, b: GroupModel| group_le(a, b))
}

// ---------------------------------------------------------------------------
// Placing
// ---------------------------------------------------------------------------
/// The first group with the key `k`.
pub open spec fn group_of(groups: Seq<GroupModel>, k: KeyModel) -> Option<int>
    decreases groups.len(),
{
    if groups.len() == 0 {
        None
    } else if let Some(i) = group_of(groups.drop_last(), k) {
        Some(i)
    } else if groups.last().key == k {
        Some(groups.len() - 1)
    } else {
        None
    }
}

/// The key of the group that a video gets: its own, unless it has none or another
/// video has it.
pub open spec fn video_key(
    groups: Seq<GroupModel>,
    video: FileModel,
    key: Option<KeyModel>,
) -> KeyModel {
    match key {
        Some(k) => if group_of(groups, k) is Some {
            KeyModel::Text("__dupe_video:"@ + video.stem)
        } else {
            k
        },
        None => KeyModel::Text("__unmatched_video:"@ + video.stem),
    }
}

/// Each video in a group of its own.
pub open spec fn place_videos(videos: Seq<FileModel>, keys: Seq<Option<KeyModel>>) -> Seq<
    GroupModel,
>
    decreases videos.len(),
{
    if videos.len() == 0 {
        Seq::empty()
    } else {
        let g = place_videos(videos.drop_last(), keys);
        let v = videos.last();
        g.push(
            GroupModel {
                video: Some(v),
                subtitles: Seq::empty(),
                key: video_key(g, v, keys[videos.len() - 1]),
                manual: false,
            },
        )
    }
}

/// The key of a group that a subtitle gets for want of one with its own key.
pub open spec fn stray_key(sub: FileModel, key: Option<KeyModel>) -> KeyModel {
    let k = match key {
        Some(k) => k.text(),
        None => Seq::empty(),
    };
    KeyModel::Text("__unmatched_sub:"@ + k + ":"@ + sub.stem)
}

/// The group of a subtitle that has no video.
pub open spec fn stray_group(sub: FileModel, key: Option<KeyModel>) -> GroupModel {
    GroupModel { video: None, subtitles: seq![sub], key: stray_key(sub, key), manual: false }
}

/// The groups with one more subtitle: in the first group with its key, or else in a
/// group of its own.
pub open spec fn place_subtitle(
    groups: Seq<GroupModel>,
    sub: FileModel,
    key: Option<KeyModel>,
) -> Seq<GroupModel> {
    let place = match key {
        Some(k) => group_of(groups, k),
        None => None,
    };
    match place {
        Some(i) => groups.update(
            i,
            GroupModel { subtitles: groups[i].subtitles.push(sub), ..groups[i] },
        ),
        None => groups.push(stray_group(sub, key)),
    }
}

/// The groups with more subtitles.
pub open spec fn place_subtitles(
    groups: Seq<GroupModel>,
    subs: Seq<FileModel>,
    keys: Seq<Option<KeyModel>>,
) -> Seq<GroupModel>
    decreases subs.len(),
{
    if subs.len() == 0 {
        groups
    } else {
        place_subtitle(
            place_subtitles(groups, subs.drop_last(), keys),
            subs.last(),
            keys[subs.len() - 1],
        )
    }
}

/// The groups with their subtitles in the order of the stems.
pub open spec fn tidy(groups: Seq<GroupModel>) -> Seq<GroupModel> {
    Seq::new(
        groups.len(),
        |i: int| GroupModel { subtitles: by_stem(groups[i].subtitles), ..groups[i] },
    )
}

/// The key of a pair that stands alone.
pub open spec fn sole_key(key: Option<KeyModel>) -> KeyModel {
    match key {
        Some(k) => if k == KeyModel::Text(Seq::empty()) {
            KeyModel::Text("__single__"@)
        } else {
            k
        },
        None => KeyModel::Text("__single__"@),
    }
}

/// The groups that these files with these keys form. One video and one subtitle that
/// have the same key, or have none, are a pair in any case.
pub open spec fn pair(
    videos: Seq<FileModel>,
    subs: Seq<FileModel>,
    video_keys: Seq<Option<KeyModel>>,
    sub_keys: Seq<Option<KeyModel>>,
) -> Seq<GroupModel> {
    if videos.len() == 1 && subs.len() == 1 && video_keys[0] == sub_keys[0] {
        seq![
            GroupModel {
                video: Some(videos[0]),
                subtitles: subs,
                key: sole_key(video_keys[0]),
                manual: false,
            },
        ]
    } else {
        tidy(by_key(place_subtitles(place_videos(videos, video_keys), subs, sub_keys)))
    }
}

/// Whether the stem of `a` does not come behind that of `b`.
pub(crate) fn stem_before(a: &FileEntry, b: &FileEntry) -> (r: bool)
    ensures
        r == stem_le(a@, b@),
{
    !str_before(b.stem.as_str(), a.stem.as_str())
}

/// Whether the key of `a` does not come behind that of `b`.
fn group_before(a: &PairGroup, b: &PairGroup) -> (r: bool)
    ensures
        r == group_le(a@, b@),
{
    !b.key.before(&a.key)
}

/// The first group with the key `k`.
fn find_group_of(groups: &Vec<PairGroup>, k: &EpisodeKey) -> (r: Option<usize>)
    ensures
        match r {
            Some(i) => group_of(models(groups@), k@) == Some(i as int) && i < groups@.len(),
            None => group_of(models(groups@), k@) is None,
        },
{
    let ghost all = models(groups@);
    let mut i: usize = 0;
    while i < groups.len()
        invariant
            all == models(groups@),
            i <= groups@.len(),
            group_of(all.take(i as int), k@) is None,
        decreases groups@.len() - i,
    {
        proof {
            assert(all.take(i + 1).drop_last() =~= all.take(i as int));
            assert(all.take(i + 1).last() == groups@[i as int]@);
        }
        if groups[i].key.same(k) {
            proof {
                lemma_group_of_prefix(all, k@, i + 1);
            }
            return Some(i);
        }
        i += 1;
    }
    assert(all.take(i as int) =~= all);
    None
}

proof fn lemma_group_of_prefix(groups: Seq<GroupModel>, k: KeyModel, n: int)
    requires
        0 <= n <= groups.len(),
        group_of(groups.take(n), k) is Some,
    ensures
        group_of(groups, k) == group_of(groups.take(n), k),
    decreases groups.len(),
{
    if n == groups.len() {
        assert(groups.take(n) =~= groups);
    } else {
        assert(groups.drop_last().take(n) =~= groups.take(n));
        lemma_group_of_prefix(groups.drop_last(), k, n);
    }
}

/// `a` followed by `b`, as a text key.
fn tagged(a: &str, b: &str) -> (r: EpisodeKey)
    ensures
        r@ == KeyModel::Text(a@ + b@),
{
    let mut s = copy_of(a);
    s.append(b);
    EpisodeKey::Text(s)
}

/// Each video in a group of its own.
fn group_videos(videos: &Vec<FileEntry>, keys: &Vec<Option<EpisodeKey>>) -> (r: Vec<PairGroup>)
    requires
        videos@.len() == keys@.len(),
    ensures
        models(r@) == place_videos(models(videos@), opt_keys(keys@)),
{
    let ghost all = models(videos@);
    let ghost ks = opt_keys(keys@);
    let mut groups: Vec<PairGroup> = Vec::new();
    let mut i: usize = 0;
    assert(models(groups@) =~= place_videos(all.take(0), ks));
    while i < videos.len()
        invariant
            all == models(videos@),
            ks == opt_keys(keys@),
            videos@.len() == keys@.len(),
            i <= videos@.len(),
            models(groups@) == place_videos(all.take(i as int), ks),
        decreases videos@.len() - i,
    {
        let ghost before = models(groups@);
        let v = &videos[i];
        proof {
            assert(all.take(i + 1).drop_last() =~= all.take(i as int));
            assert(all.take(i + 1).last() == v@);
            assert(ks[i as int] == opt_key(keys@[i as int]));
        }
        let key = match &keys[i] {
            Some(k) => if find_group_of(&groups, k).is_some() {
                tagged("__dupe_video:", v.stem.as_str())
            } else {
                k.clone()
            },
            None => tagged("__unmatched_video:", v.stem.as_str()),
        };
        let g = PairGroup {
            video: Some(v.clone()),
            subtitles: Vec::new(),
            key,
            manual: false,
        };
        proof {
            assert(g@.subtitles =~= Seq::empty());
            assert(key@ == video_key(before, v@, ks[i as int]));
        }
        let ghost gm = g@;
        groups.push(g);
        assert(models(groups@) =~= before.push(gm));
        i += 1;
    }
    assert(all.take(i as int) =~= all);
    groups
}

/// The group of a subtitle that has no video.
fn new_stray_group(sub: FileEntry, key: &Option<EpisodeKey>) -> (r: PairGroup)
    ensures
        r@ == stray_group(sub@, opt_key(*key)),
{
    let mut text = copy_of("__unmatched_sub:");
    if let Some(k) = key {
        text.append(k.as_str());
    }
    assert(text@ =~= "__unmatched_sub:"@ + (match opt_key(*key) {
        Some(k) => k.text(),
        None => Seq::empty(),
    }));
    text.append(":");
    text.append(sub.stem.as_str());
    let ghost subm = sub@;
    let mut subtitles: Vec<FileEntry> = Vec::new();
    subtitles.push(sub);
    assert(models(subtitles@) =~= seq![subm]);
    PairGroup { video: None, subtitles, key: EpisodeKey::Text(text), manual: false }
}

/// Puts one more subtitle in its place.
fn put_subtitle(groups: &mut Vec<PairGroup>, sub: &FileEntry, key: &Option<EpisodeKey>)
    ensures
        models(final(groups)@) == place_subtitle(models(old(groups)@), sub@, opt_key(*key)),
{
    let ghost before = models(groups@);
    let ghost was = groups@;
    let place = match key {
        Some(k) => find_group_of(groups, k),
        None => None,
    };
    match place {
        Some(i) => {
            groups[i].subtitles.push(sub.clone());
            proof {
                let after = models(groups@);
                assert(after[i as int].subtitles =~= before[i as int].subtitles.push(sub@));
                assert(after =~= before.update(
                    i as int,
                    GroupModel {
                        subtitles: before[i as int].subtitles.push(sub@),
                        ..before[i as int]
                    },
                ));
            }
        },
        None => {
            let g = new_stray_group(sub.clone(), key);
            let ghost gm = g@;
            groups.push(g);
            assert(models(groups@) =~= before.push(gm));
        },
    }
}

/// The groups with their subtitles in the order of the stems.
fn tidied(groups: Vec<PairGroup>) -> (r: Vec<PairGroup>)
    ensures
        models(r@) == tidy(models(groups@)),
{
    let mut out: Vec<PairGroup> = Vec::new();
    let mut i: usize = 0;
    while i < groups.len()
        invariant
            i <= groups@.len(),
            out@.len() == i,
            forall|j: int| 0 <= j < i ==> (#[trigger] out@[j])@ == tidy(models(groups@))[j],
        decreases groups@.len() - i,
    {
        let g = &groups[i];
        let subtitles = sort_models(
            copy_files(&g.subtitles),
            stem_before,
            Ghost(|a: FileModel, b: FileModel| stem_le(a, b)),
        );
        out.push(
            PairGroup {
                video: copy_file(&g.video),
                subtitles,
                key: g.key.clone(),
                manual: g.manual,
            },
        );
        i += 1;
    }
    assert(models(out@) =~= tidy(models(groups@)));
    out
}

/// The groups in the order of their keys.
fn sort_groups(groups: Vec<PairGroup>) -> (r: Vec<PairGroup>)
    ensures
        models(r@) == by_key(models(groups@)),
{
    sort_models(groups, group_before, Ghost(|a: GroupModel, b: GroupModel| group_le(a, b)))
}

/// The groups that these files with these keys form.
pub fn pair_by_keys(
    videos: &Vec<FileEntry>,
    subtitles: &Vec<FileEntry>,
    video_keys: &Vec<Option<EpisodeKey>>,
    subtitle_keys: &Vec<Option<EpisodeKey>>,
) -> (r: MatchResult)
    requires
        videos@.len() == video_keys@.len(),
        subtitles@.len() == subtitle_keys@.len(),
    ensures
        r@ == pair(
            models(videos@),
            models(subtitles@),
            opt_keys(video_keys@),
            opt_keys(subtitle_keys@),
        ),
{
    let ghost vs = models(videos@);
    let ghost ss = models(subtitles@);
    let ghost vk = opt_keys(video_keys@);
    let ghost sk = opt_keys(subtitle_keys@);
    if videos.len() == 1 && subtitles.len() == 1 {
        assert(vk[0] == opt_key(video_keys@[0]));
        assert(sk[0] == opt_key(subtitle_keys@[0]));
        let key = match (&video_keys[0], &subtitle_keys[0]) {
            (Some(a), Some(b)) => if a.same(b) {
                let blank = match a {
                    EpisodeKey::Text(t) => t.as_str().is_empty(),
                    EpisodeKey::Number(_) => false,
                };
                if blank {
                    assert(a@->Text_0 =~= Seq::empty());
                    Some(EpisodeKey::Text(copy_of("__single__")))
                } else {
                    Some(a.clone())
                }
            } else {
                None
            },
            (None, None) => Some(EpisodeKey::Text(copy_of("__single__"))),
            _ => None,
        };
        if let Some(key) = key {
            assert(vk[0] == sk[0]);
            assert(key@ == sole_key(vk[0]));
            let group = PairGroup {
                video: Some(videos[0].clone()),
                subtitles: copy_files(subtitles),
                key,
                manual: false,
            };
            let ghost gm = group@;
            let mut groups: Vec<PairGroup> = Vec::new();
            groups.push(group);
            assert(models(groups@) =~= seq![gm]);
            return MatchResult { groups };
        }
        assert(vk[0] != sk[0]);
    }
    let mut groups = group_videos(videos, video_keys);
    let ghost base = models(groups@);
    let mut i: usize = 0;
    assert(ss.take(0) =~= Seq::empty());
    while i < subtitles.len()
        invariant
            ss == models(subtitles@),
            sk == opt_keys(subtitle_keys@),
            subtitles@.len() == subtitle_keys@.len(),
            i <= subtitles@.len(),
            models(groups@) == place_subtitles(base, ss.take(i as int), sk),
        decreases subtitles@.len() - i,
    {
        proof {
            assert(ss.take(i + 1).drop_last() =~= ss.take(i as int));
            assert(ss.take(i + 1).last() == subtitles@[i as int]@);
            assert(sk[i as int] == opt_key(subtitle_keys@[i as int]));
        }
        put_subtitle(&mut groups, &subtitles[i], &subtitle_keys[i]);
        i += 1;
    }
    assert(ss.take(i as int) =~= ss);
    MatchResult { groups: tidied(sort_groups(groups)) }
}

// ---------------------------------------------------------------------------
// Keys of the files
// ---------------------------------------------------------------------------
/// The stems of the files.
pub open spec fn stems_of(files: Seq<FileModel>) -> Seq<Seq<char>> {
    Seq::new(files.len(), |i: int| files[i].stem)
}

/// The keys that raw keys stand for.
pub open spec fn keys_for(raws: Seq<Option<Seq<char>>>) -> Seq<Option<KeyModel>> {
    Seq::new(raws.len(), |i: int| key_of(raws[i]))
}

/// The keys of one side: what the pattern takes out of the stems, where one is given.
pub open spec fn side_keys(files: Seq<FileModel>, pattern: Option<Seq<char>>) -> Seq<
    Option<KeyModel>,
> {
    match pattern {
        Some(p) => keys_for(pattern_keys(p, stems_of(files))),
        None => keys_for(raw_keys(stems_of(files))),
    }
}

/// One side has one file and the other has more.
pub open spec fn one_to_many(videos: Seq<FileModel>, subs: Seq<FileModel>) -> bool {
    (videos.len() == 1 && subs.len() > 1) || (videos.len() > 1 && subs.len() == 1)
}

/// The keys of one side where one file stands against many: what the pattern takes out
/// of the stems, where one is given, and else the key of each file on its own.
pub open spec fn lone_side_keys(files: Seq<FileModel>, pattern: Option<Seq<char>>) -> Seq<
    Option<KeyModel>,
> {
    match pattern {
        Some(_) => side_keys(files, pattern),
        None => keys_for(single_keys(stems_of(files))),
    }
}

/// The keys of both sides. A side with a pattern is read by it. Without one, two files
/// or more on each side are read together. One file against many leaves nothing to
/// compare, so that each is read on its own.
pub open spec fn pass_keys(
    videos: Seq<FileModel>,
    subs: Seq<FileModel>,
    video_pattern: Option<Seq<char>>,
    sub_pattern: Option<Seq<char>>,
) -> (Seq<Option<KeyModel>>, Seq<Option<KeyModel>>) {
    if one_to_many(videos, subs) {
        (lone_side_keys(videos, video_pattern), lone_side_keys(subs, sub_pattern))
    } else if videos.len() > 1 && subs.len() > 1 && video_pattern is None && sub_pattern is None {
        let raws = cross_keys(stems_of(videos), stems_of(subs));
        (keys_for(raws.0), keys_for(raws.1))
    } else {
        (side_keys(videos, video_pattern), side_keys(subs, sub_pattern))
    }
}

/// The groups that one pass over the files forms.
pub open spec fn one_pass(
    videos: Seq<FileModel>,
    subs: Seq<FileModel>,
    video_pattern: Option<Seq<char>>,
    sub_pattern: Option<Seq<char>>,
) -> Seq<GroupModel> {
    let keys = pass_keys(videos, subs, video_pattern, sub_pattern);
    pair(videos, subs, keys.0, keys.1)
}

/// The groups that are no leftovers.
pub open spec fn kept(groups: Seq<GroupModel>) -> Seq<GroupModel>
    decreases groups.len(),
{
    if groups.len() == 0 {
        Seq::empty()
    } else if groups.last().lone_video() || groups.last().lone_subtitles() {
        kept(groups.drop_last())
    } else {
        kept(groups.drop_last()).push(groups.last())
    }
}

/// The groups with their leftovers matched again, as long as two videos or more and
/// two subtitles or more are left over and they are fewer than `before`.
pub open spec fn rematch(groups: Seq<GroupModel>, before: nat) -> Seq<GroupModel>
    decreases before,
{
    let v = lone_videos(groups);
    let s = lone_subtitles(groups);
    if v.len() <= 1 || s.len() <= 1 || v.len() + s.len() >= before {
        groups
    } else {
        rematch(kept(groups) + one_pass(v, s, None, None), v.len() + s.len())
    }
}

/// The groups that the files form, in the order of their keys. Where no pattern is
/// given, leftovers are matched again.
pub open spec fn matched(
    videos: Seq<FileModel>,
    subs: Seq<FileModel>,
    video_pattern: Option<Seq<char>>,
    sub_pattern: Option<Seq<char>>,
) -> Seq<GroupModel> {
    let first = one_pass(videos, subs, video_pattern, sub_pattern);
    by_key(
        if video_pattern is None && sub_pattern is None {
            rematch(first, videos.len() + subs.len() + 1)
        } else {
            first
        },
    )
}

/// The stems of the files.
fn stem_list(files: &Vec<FileEntry>) -> (r: Vec<String>)
    ensures
        views(r@) == stems_of(models(files@)),
        r@.len() == files@.len(),
{
    let mut out: Vec<String> = Vec::new();
    let mut i: usize = 0;
    while i < files.len()
        invariant
            i <= files@.len(),
            out@.len() == i,
            forall|j: int| 0 <= j < i ==> (#[trigger] out@[j])@ == files@[j].stem@,
        decreases files@.len() - i,
    {
        out.push(copy_of(files[i].stem.as_str()));
        i += 1;
    }
    assert(views(out@) =~= stems_of(models(files@)));
    out
}

/// The keys that raw keys stand for.
fn keys_of_raws(patterns: &Patterns, raws: &Vec<RawKey>) -> (r: Vec<Option<EpisodeKey>>)
    requires
        patterns.wf(),
    ensures
        opt_keys(r@) == keys_for(raw_views(raws@)),
        r@.len() == raws@.len(),
{
    let r = normalize_all(patterns, raws);
    assert(opt_keys(r@) =~= keys_for(raw_views(raws@)));
    r
}

/// The keys of one side.
fn compute_keys(patterns: &Patterns, files: &Vec<FileEntry>, pattern: Option<&str>) -> (r: Vec<
    Option<EpisodeKey>,
>)
    requires
        patterns.wf(),
    ensures
        opt_keys(r@) == side_keys(models(files@), opt_str(pattern)),
{
    let stems = stem_list(files);
    let raws = match pattern {
        Some(p) => extract_by(&stems, p),
        None => extract_with(patterns, &stems),
    };
    keys_of_raws(patterns, &raws)
}

/// The keys of one side where one file stands against many.
fn heuristic_keys(patterns: &Patterns, files: &Vec<FileEntry>, pattern: Option<&str>) -> (r: Vec<
    Option<EpisodeKey>,
>)
    requires
        patterns.wf(),
    ensures
        opt_keys(r@) == lone_side_keys(models(files@), opt_str(pattern)),
{
    if pattern.is_some() {
        compute_keys(patterns, files, pattern)
    } else {
        keys_of_raws(patterns, &singles_with(patterns, &stem_list(files)))
    }
}

/// Every file has a key or has none: the keys are as many as the files.
proof fn lemma_key_counts(
    videos: Seq<FileModel>,
    subs: Seq<FileModel>,
    video_pattern: Option<Seq<char>>,
    sub_pattern: Option<Seq<char>>,
)
    ensures
        pass_keys(videos, subs, video_pattern, sub_pattern).0.len() == videos.len(),
        pass_keys(videos, subs, video_pattern, sub_pattern).1.len() == subs.len(),
{
}

/// A pattern is never passed over: whatever the number of files on either side, the
/// keys of a side with a pattern are what the pattern takes out of its stems.
pub proof fn law_pattern_consulted(
    videos: Seq<FileModel>,
    subs: Seq<FileModel>,
    video_pattern: Option<Seq<char>>,
    sub_pattern: Option<Seq<char>>,
)
    ensures
        video_pattern matches Some(p) ==> pass_keys(videos, subs, video_pattern, sub_pattern).0
            == keys_for(pattern_keys(p, stems_of(videos))),
        sub_pattern matches Some(p) ==> pass_keys(videos, subs, video_pattern, sub_pattern).1
            == keys_for(pattern_keys(p, stems_of(subs))),
{
}

/// The groups that one pass over the files forms.
fn match_once(
    patterns: &Patterns,
    videos: &Vec<FileEntry>,
    subtitles: &Vec<FileEntry>,
    video_pattern: Option<&str>,
    subtitle_pattern: Option<&str>,
) -> (r: MatchResult)
    requires
        patterns.wf(),
    ensures
        r@ == one_pass(
            models(videos@),
            models(subtitles@),
            opt_str(video_pattern),
            opt_str(subtitle_pattern),
        ),
{
    let one_against_many = (videos.len() == 1 && subtitles.len() > 1) || (videos.len() > 1
        && subtitles.len() == 1);
    let (video_keys, subtitle_keys) = if one_against_many {
        (
            heuristic_keys(patterns, videos, video_pattern),
            heuristic_keys(patterns, subtitles, subtitle_pattern),
        )
    } else if videos.len() > 1 && subtitles.len() > 1 && video_pattern.is_none()
        && subtitle_pattern.is_none() {
        let (v, s) = cross_with(patterns, &stem_list(videos), &stem_list(subtitles));
        (keys_of_raws(patterns, &v), keys_of_raws(patterns, &s))
    } else {
        (
            compute_keys(patterns, videos, video_pattern),
            compute_keys(patterns, subtitles, subtitle_pattern),
        )
    };
    proof {
        lemma_key_counts(
            models(videos@),
            models(subtitles@),
            opt_str(video_pattern),
            opt_str(subtitle_pattern),
        );
        assert(opt_keys(video_keys@).len() == video_keys@.len());
        assert(opt_keys(subtitle_keys@).len() == subtitle_keys@.len());
    }
    pair_by_keys(videos, subtitles, &video_keys, &subtitle_keys)
}

/// Whether the group is a lone video, or subtitles without a video.
pub fn is_leftover(group: &PairGroup) -> (r: bool)
    ensures
        r == (group@.lone_video() || group@.lone_subtitles()),
{
    assert(group@.subtitles.len() == group.subtitles@.len());
    (group.video.is_some() && group.subtitles.len() == 0) || (group.video.is_none()
        && group.subtitles.len() > 0)
}

/// The groups that are no leftovers.
fn keep_matched(groups: &Vec<PairGroup>) -> (r: Vec<PairGroup>)
    ensures
        models(r@) == kept(models(groups@)),
{
    let ghost all = models(groups@);
    let mut out: Vec<PairGroup> = Vec::new();
    let mut i: usize = 0;
    assert(models(out@) =~= kept(all.take(0)));
    while i < groups.len()
        invariant
            all == models(groups@),
            i <= groups@.len(),
            models(out@) == kept(all.take(i as int)),
        decreases groups@.len() - i,
    {
        let ghost before = models(out@);
        proof {
            assert(all.take(i + 1).drop_last() =~= all.take(i as int));
            assert(all.take(i + 1).last() == groups@[i as int]@);
        }
        if !is_leftover(&groups[i]) {
            out.push(groups[i].clone());
            assert(models(out@) =~= before.push(groups@[i as int]@));
        }
        i += 1;
    }
    assert(all.take(i as int) =~= all);
    out
}

/// The files of a slice.
fn file_vec(files: &[FileEntry]) -> (r: Vec<FileEntry>)
    ensures
        models(r@) == models(files@),
{
    let mut out: Vec<FileEntry> = Vec::new();
    let mut i: usize = 0;
    while i < files.len()
        invariant
            i <= files@.len(),
            out@.len() == i,
            forall|j: int| 0 <= j < i ==> (#[trigger] out@[j])@ == files@[j]@,
        decreases files@.len() - i,
    {
        out.push(files[i].clone());
        i += 1;
    }
    assert(models(out@) =~= models(files@));
    out
}

/// The groups with the first subtitle of group `i` moved to the end of group `v`, which
/// has a video.
pub open spec fn attached(groups: Seq<GroupModel>, v: int, i: int) -> Seq<GroupModel> {
    if 0 <= v < groups.len() && 0 <= i < groups.len() && groups[v].video is Some
        && groups[i].subtitles.len() > 0 {
        let sub = groups[i].subtitles[0];
        let without = groups.update(
            i,
            GroupModel { subtitles: groups[i].subtitles.drop_first(), ..groups[i] },
        );
        without.update(
            v,
            GroupModel {
                subtitles: without[v].subtitles.push(sub),
                manual: true,
                ..without[v]
            },
        )
    } else {
        groups
    }
}

/// The groups with subtitle `i` of group `v` in a group of its own, which has no video.
pub open spec fn detached(groups: Seq<GroupModel>, v: int, i: int) -> Seq<GroupModel> {
    if 0 <= v < groups.len() && 0 <= i && groups[v].subtitles.len() > i {
        groups.update(
            v,
            GroupModel { subtitles: groups[v].subtitles.remove(i), manual: true, ..groups[v] },
        ).push(stray_group(groups[v].subtitles[i], Some(groups[v].key)))
    } else {
        groups
    }
}

/// Matches files, and changes matches by hand.
#[derive(Debug)]
pub struct Matcher;

impl Matcher {
    /// A matcher.
    pub fn new() -> (r: Self)
        ensures
            r == Matcher,
    {
        Matcher
    }

    /// Matches videos and subtitles. A pass favours one way of naming, so that what is
    /// left over is matched again until nothing more comes of it. Where a pattern is
    /// given, its group 1 is the key of the files of its side.
    pub fn match_files(
        &self,
        videos: &[FileEntry],
        subtitles: &[FileEntry],
        video_regex: Option<&str>,
        subtitle_regex: Option<&str>,
    ) -> (r: MatchResult)
        ensures
            r@ == matched(
                models(videos@),
                models(subtitles@),
                opt_str(video_regex),
                opt_str(subtitle_regex),
            ),
    {
        let patterns = Patterns::new();
        let v = file_vec(videos);
        let s = file_vec(subtitles);
        let mut result = match_once(&patterns, &v, &s, video_regex, subtitle_regex);
        if video_regex.is_none() && subtitle_regex.is_none() {
            let ghost first = result@;
            let mut before: u128 = videos.len() as u128 + subtitles.len() as u128 + 1;
            let ghost start = before as nat;
            let mut going = true;
            while going
                invariant
                    patterns.wf(),
                    going ==> rematch(first, start) == rematch(result@, before as nat),
                    !going ==> rematch(first, start) == result@,
                decreases before, going as int,
            {
                let left_videos = result.unmatched_videos();
                let left_subs = result.unmatched_subtitles();
                assert(models(left_videos@).len() == left_videos@.len());
                assert(models(left_subs@).len() == left_subs@.len());
                let left: u128 = left_videos.len() as u128 + left_subs.len() as u128;
                if left_videos.len() <= 1 || left_subs.len() <= 1 || left >= before {
                    going = false;
                } else {
                    let mut more = match_once(&patterns, &left_videos, &left_subs, None, None);
                    let mut groups = keep_matched(&result.groups);
                    let ghost a = models(groups@);
                    let ghost b = more@;
                    groups.append(&mut more.groups);
                    assert(models(groups@) =~= a + b);
                    result = MatchResult { groups };
                    before = left;
                }
            }
        }
        MatchResult { groups: sort_groups(result.groups) }
    }

    /// Moves the first subtitle of one group to the end of a group with a video.
    pub fn manual_attach(
        &self,
        result: &mut MatchResult,
        video_index: usize,
        subtitle_index: usize,
    )
        ensures
            final(result)@ == attached(old(result)@, video_index as int, subtitle_index as int),
    {
        let ghost before = result@;
        if video_index < result.groups.len() && subtitle_index < result.groups.len() {
            assert(before[subtitle_index as int].subtitles.len()
                == result.groups@[subtitle_index as int].subtitles@.len());
            if result.groups[video_index].video.is_some()
                && result.groups[subtitle_index].subtitles.len() > 0 {
                let sub = result.groups[subtitle_index].subtitles.remove(0);
                let ghost mid = result@;
                proof {
                    let b = before[subtitle_index as int];
                    assert(mid[subtitle_index as int].subtitles =~= b.subtitles.drop_first());
                    assert(mid =~= before.update(
                        subtitle_index as int,
                        GroupModel { subtitles: b.subtitles.drop_first(), ..b },
                    ));
                }
                let ghost subm = sub@;
                result.groups[video_index].subtitles.push(sub);
                result.groups[video_index].manual = true;
                proof {
                    let m = mid[video_index as int];
                    assert(result@[video_index as int].subtitles =~= m.subtitles.push(subm));
                    assert(result@ =~= mid.update(
                        video_index as int,
                        GroupModel { subtitles: m.subtitles.push(subm), manual: true, ..m },
                    ));
                }
            }
        }
    }

    /// Takes a subtitle out of a group. It is kept in a group of its own, without a
    /// video, so that it counts as unmatched.
    pub fn manual_detach(
        &self,
        result: &mut MatchResult,
        video_index: usize,
        subtitle_index: usize,
    )
        ensures
            final(result)@ == detached(old(result)@, video_index as int, subtitle_index as int),
    {
        let ghost before = result@;
        if video_index < result.groups.len() {
            assert(before[video_index as int].subtitles.len()
                == result.groups@[video_index as int].subtitles@.len());
            if subtitle_index < result.groups[video_index].subtitles.len() {
                let sub = result.groups[video_index].subtitles.remove(subtitle_index);
                result.groups[video_index].manual = true;
                let ghost mid = result@;
                proof {
                    let b = before[video_index as int];
                    assert(mid[video_index as int].subtitles =~= b.subtitles.remove(
                        subtitle_index as int,
                    ));
                    assert(mid =~= before.update(
                        video_index as int,
                        GroupModel {
                            subtitles: b.subtitles.remove(subtitle_index as int),
                            manual: true,
                            ..b
                        },
                    ));
                }
                let key = Some(result.groups[video_index].key.clone());
                let group = new_stray_group(sub, &key);
                let ghost gm = group@;
                result.groups.push(group);
                assert(result@ =~= mid.push(gm));
            }
        }
    }
}

impl Default for Matcher {
    /// A matcher.
    fn default() -> (r: Self)
        ensures
            r == Matcher,
    {
        Matcher
    }
}

// ---------------------------------------------------------------------------
// Media files
// ---------------------------------------------------------------------------
/// The entry of the file at `path`.
pub open spec fn file_at(path: Seq<char>) -> FileModel {
    FileModel { path, stem: basename_parts(path).0, ext: basename_parts(path).1 }
}

/// The files of one category among `paths`.
pub open spec fn files_of(
    registry: RegistryModel,
    paths: Seq<Seq<char>>,
    category: FileCategory,
) -> Seq<FileModel>
    decreases paths.len(),
{
    if paths.len() == 0 {
        Seq::empty()
    } else {
        let f = files_of(registry, paths.drop_last(), category);
        if registry.category(paths.last()) == category {
            f.push(file_at(paths.last()))
        } else {
            f
        }
    }
}

/// The videos and the subtitles among the files at `paths`. Other files are left out.
pub fn classify_files(registry: &ExtensionRegistry, paths: &Vec<String>) -> (r: (
    Vec<FileEntry>,
    Vec<FileEntry>,
))
    ensures
        models(r.0@) == files_of(registry@, views(paths@), FileCategory::Video),
        models(r.1@) == files_of(registry@, views(paths@), FileCategory::Subtitle),
{
    let ghost all = views(paths@);
    let mut videos: Vec<FileEntry> = Vec::new();
    let mut subtitles: Vec<FileEntry> = Vec::new();
    let mut i: usize = 0;
    assert(models(videos@) =~= files_of(registry@, all.take(0), FileCategory::Video));
    assert(models(subtitles@) =~= files_of(registry@, all.take(0), FileCategory::Subtitle));
    while i < paths.len()
        invariant
            all == views(paths@),
            i <= paths@.len(),
            models(videos@) == files_of(registry@, all.take(i as int), FileCategory::Video),
            models(subtitles@) == files_of(registry@, all.take(i as int), FileCategory::Subtitle),
        decreases paths@.len() - i,
    {
        let ghost v = models(videos@);
        let ghost s = models(subtitles@);
        proof {
            assert(all.take(i + 1).drop_last() =~= all.take(i as int));
            assert(all.take(i + 1).last() == paths@[i as int]@);
        }
        match registry.categorize(paths[i].as_str()) {
            FileCategory::Video => {
                videos.push(FileEntry::from_path(copy_of(paths[i].as_str())));
                assert(models(videos@) =~= v.push(file_at(paths@[i as int]@)));
            },
            FileCategory::Subtitle => {
                subtitles.push(FileEntry::from_path(copy_of(paths[i].as_str())));
                assert(models(subtitles@) =~= s.push(file_at(paths@[i as int]@)));
            },
            FileCategory::Unknown => {},
        }
        i += 1;
    }
    assert(all.take(i as int) =~= all);
    (videos, subtitles)
}

} // verus!
