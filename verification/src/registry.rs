//! Which files are videos and which are subtitles.

use vstd::prelude::*;

use crate::extract::holds_string;
use crate::normalize::str_views;
use crate::paths::{file_name, name_part};
use crate::pattern::{opt_view, views};
use crate::text::{
    chars_of, copy_of, find_last, last_index, lemma_last_index, lower, string_of_range, to_lower, trim_start,
    trimmed_start, CharClass,
};

verus! {

/// What a file is.
#[derive(Debug, Clone, Copy, PartialEq, Eq, Hash, Structural)]
pub enum FileCategory {
    /// A video.
    Video,
    /// A subtitle.
    Subtitle,
    /// Neither.
    Unknown,
}

/// The extensions of videos that are known from the start.
pub open spec fn builtin_video() -> Seq<Seq<char>> {
    seq![
        "mkv"@, "mp4"@, "m4v"@, "avi"@, "mov"@, "wmv"@, "flv"@, "ts"@, "m2ts"@, "mts"@, "mpg"@,
        "mpeg"@, "vob"@, "webm"@, "rmvb"@, "f4v"@, "3gp"@,
    ]
}

/// The extensions of subtitles that are known from the start.
pub open spec fn builtin_subtitle() -> Seq<Seq<char>> {
    seq!["ass"@, "ssa"@, "srt"@, "sub"@, "idx"@, "vtt"@, "smi"@, "sup"@]
}

/// The extensions that a registry knows.
#[derive(Debug)]
pub struct ExtensionRegistry {
    video: Vec<String>,
    subtitle: Vec<String>,
    custom_video: Vec<String>,
    custom_subtitle: Vec<String>,
}

/// What an [`ExtensionRegistry`] stands for.
pub struct RegistryModel {
    pub video: Set<Seq<char>>,
    pub subtitle: Set<Seq<char>>,
    pub custom_video: Set<Seq<char>>,
    pub custom_subtitle: Set<Seq<char>>,
}

impl View for ExtensionRegistry {
    type V = RegistryModel;

    closed spec fn view(&self) -> RegistryModel {
        RegistryModel {
            video: views(self.video@).to_set(),
            subtitle: views(self.subtitle@).to_set(),
            custom_video: views(self.custom_video@).to_set(),
            custom_subtitle: views(self.custom_subtitle@).to_set(),
        }
    }
}

/// The extension of the file at `path`: what stands after the last `.` of its name. A
/// name with no `.`, or with none but at its start, has no extension.
pub open spec fn extension_part(path: Seq<char>) -> Option<Seq<char>> {
    match name_part(path) {
        Some(name) => match last_index(name, '.') {
            Some(i) => if i > 0 {
                Some(name.skip(i + 1))
            } else {
                None
            },
            None => None,
        },
        None => None,
    }
}

/// What stands before and after the last `.` of the name of the file at `path`. A name
/// with no `.` stands before it. Both are empty where the path does not end in a name.
pub open spec fn basename_parts(path: Seq<char>) -> (Seq<char>, Seq<char>) {
    match name_part(path) {
        Some(name) => match last_index(name, '.') {
            Some(i) => (name.take(i), name.skip(i + 1)),
            None => (name, Seq::empty()),
        },
        None => (Seq::empty(), Seq::empty()),
    }
}

impl RegistryModel {
    /// What the file at `path` is, by its extension in lower case. Videos come first.
    pub open spec fn category(self, path: Seq<char>) -> FileCategory {
        match extension_part(path) {
            Some(e) => if self.video.contains(lower(e)) || self.custom_video.contains(lower(e)) {
                FileCategory::Video
            } else if self.subtitle.contains(lower(e)) || self.custom_subtitle.contains(lower(e)) {
                FileCategory::Subtitle
            } else {
                FileCategory::Unknown
            },
            None => FileCategory::Unknown,
        }
    }
}

/// The lower-case forms of `v`.
pub open spec fn lowered(v: Seq<Seq<char>>) -> Set<Seq<char>> {
    Seq::new(v.len(), |i: int| lower(v[i])).to_set()
}

/// Adds `t` to `v`, unless it is there.
fn insert_string(v: &mut Vec<String>, t: String)
    requires
        views(old(v)@).no_duplicates(),
    ensures
        views(final(v)@).no_duplicates(),
        views(final(v)@).to_set() == views(old(v)@).to_set().insert(t@),
{
    let ghost before = views(v@);
    if !holds_string(v, t.as_str()) {
        let ghost added = t@;
        v.push(t);
        proof {
            let after = views(v@);
            assert(after =~= before.push(added));
            assert forall|x: Seq<char>| #[trigger] after.to_set().contains(x)
                <==> before.to_set().insert(added).contains(x) by {
                if before.contains(x) {
                    let i = choose|i: int| 0 <= i < before.len() && before[i] == x;
                    assert(after[i] == x);
                }
                if x == added {
                    assert(after[before.len() as int] == x);
                }
                if after.contains(x) {
                    let i = choose|i: int| 0 <= i < after.len() && after[i] == x;
                    if i < before.len() {
                        assert(before[i] == x);
                    }
                }
            }
            assert(after.to_set() =~= before.to_set().insert(added));
        }
    } else {
        assert(before.to_set().insert(t@) =~= before.to_set());
    }
}

/// The strings of `words`, each once.
fn set_of(words: &Vec<&'static str>) -> (r: Vec<String>)
    ensures
        views(r@).no_duplicates(),
        views(r@).to_set() == str_views(words@).to_set(),
{
    let ghost all = str_views(words@);
    let mut out: Vec<String> = Vec::new();
    let mut i: usize = 0;
    proof {
        assert(views(out@) =~= Seq::<Seq<char>>::empty());
        assert(views(out@).to_set() =~= all.take(0).to_set());
    }
    while i < words.len()
        invariant
            all == str_views(words@),
            i <= words@.len(),
            views(out@).no_duplicates(),
            views(out@).to_set() == all.take(i as int).to_set(),
        decreases words@.len() - i,
    {
        insert_string(&mut out, copy_of(words[i]));
        proof {
            lemma_set_push(all, i as int);
        }
        i += 1;
    }
    assert(all.take(i as int) =~= all);
    out
}

proof fn lemma_set_push(s: Seq<Seq<char>>, i: int)
    requires
        0 <= i < s.len(),
    ensures
        s.take(i + 1).to_set() == s.take(i).to_set().insert(s[i]),
{
    let a = s.take(i);
    let b = s.take(i + 1);
    assert forall|x: Seq<char>| #[trigger] b.to_set().contains(x) <==> a.to_set().insert(
        s[i],
    ).contains(x) by {
        if a.contains(x) {
            let k = choose|k: int| 0 <= k < a.len() && a[k] == x;
            assert(b[k] == x);
        }
        if x == s[i] {
            assert(b[i] == x);
        }
        if b.contains(x) {
            let k = choose|k: int| 0 <= k < b.len() && b[k] == x;
            if k < i {
                assert(a[k] == x);
            }
        }
    }
    assert(b.to_set() =~= a.to_set().insert(s[i]));
}

/// Adds the lower-case forms of `words` to `v`.
fn insert_lowered(v: &mut Vec<String>, words: &Vec<String>)
    requires
        views(old(v)@).no_duplicates(),
    ensures
        views(final(v)@).no_duplicates(),
        views(final(v)@).to_set() == views(old(v)@).to_set().union(lowered(views(words@))),
{
    let ghost base = views(v@).to_set();
    let ghost all = Seq::new(words@.len(), |i: int| lower(views(words@)[i]));
    let mut i: usize = 0;
    assert(base =~= base.union(all.take(0).to_set()));
    while i < words.len()
        invariant
            all == Seq::new(words@.len(), |i: int| lower(views(words@)[i])),
            i <= words@.len(),
            views(v@).no_duplicates(),
            views(v@).to_set() == base.union(all.take(i as int).to_set()),
        decreases words@.len() - i,
    {
        insert_string(v, to_lower(words[i].as_str()));
        proof {
            lemma_set_push(all, i as int);
            assert(base.union(all.take(i as int).to_set()).insert(all[i as int]) =~= base.union(
                all.take(i + 1).to_set(),
            ));
        }
        i += 1;
    }
    assert(all.take(i as int) =~= all);
}

impl ExtensionRegistry {
    /// No extension is kept twice, and those that are known from the start are there.
    pub closed spec fn wf(&self) -> bool {
        &&& self@.video == builtin_video().to_set()
        &&& self@.subtitle == builtin_subtitle().to_set()
        &&& views(self.video@).no_duplicates()
        &&& views(self.subtitle@).no_duplicates()
        &&& views(self.custom_video@).no_duplicates()
        &&& views(self.custom_subtitle@).no_duplicates()
    }

    /// A registry of the extensions that are known from the start.
    pub fn new() -> (r: Self)
        ensures
            r.wf(),
            r@.video == builtin_video().to_set(),
            r@.subtitle == builtin_subtitle().to_set(),
            r@.custom_video == Set::<Seq<char>>::empty(),
            r@.custom_subtitle == Set::<Seq<char>>::empty(),
    {
        let video_words = vec![
            "mkv", "mp4", "m4v", "avi", "mov", "wmv", "flv", "ts", "m2ts", "mts", "mpg", "mpeg",
            "vob", "webm", "rmvb", "f4v", "3gp",
        ];
        let subtitle_words = vec!["ass", "ssa", "srt", "sub", "idx", "vtt", "smi", "sup"];
        assert(str_views(video_words@) =~= builtin_video());
        assert(str_views(subtitle_words@) =~= builtin_subtitle());
        let r = ExtensionRegistry {
            video: set_of(&video_words),
            subtitle: set_of(&subtitle_words),
            custom_video: Vec::new(),
            custom_subtitle: Vec::new(),
        };
        assert(r@.custom_video =~= Set::empty());
        assert(r@.custom_subtitle =~= Set::empty());
        r
    }

    /// The registry with more extensions, which are put in lower case.
    #[must_use]
    pub fn with_custom(self, video: Vec<String>, subtitle: Vec<String>) -> (r: Self)
        requires
            self.wf(),
        ensures
            r.wf(),
            r@ == (RegistryModel {
                custom_video: self@.custom_video.union(lowered(views(video@))),
                custom_subtitle: self@.custom_subtitle.union(lowered(views(subtitle@))),
                ..self@
            }),
    {
        let mut r = self;
        insert_lowered(&mut r.custom_video, &video);
        insert_lowered(&mut r.custom_subtitle, &subtitle);
        r
    }

    /// Adds an extension of videos. Leading dots are dropped, and it is put in lower case.
    pub fn add_custom_video(&mut self, ext: &str)
        requires
            old(self).wf(),
        ensures
            final(self).wf(),
            final(self)@ == (RegistryModel {
                custom_video: old(self)@.custom_video.insert(
                    lower(trim_start(ext@, CharClass::Dot)),
                ),
                ..old(self)@
            }),
    {
        insert_string(
            &mut self.custom_video,
            to_lower(trimmed_start(ext, CharClass::Dot).as_str()),
        );
    }

    /// Adds an extension of subtitles. Leading dots are dropped, and it is put in lower
    /// case.
    pub fn add_custom_subtitle(&mut self, ext: &str)
        requires
            old(self).wf(),
        ensures
            final(self).wf(),
            final(self)@ == (RegistryModel {
                custom_subtitle: old(self)@.custom_subtitle.insert(
                    lower(trim_start(ext@, CharClass::Dot)),
                ),
                ..old(self)@
            }),
    {
        insert_string(
            &mut self.custom_subtitle,
            to_lower(trimmed_start(ext, CharClass::Dot).as_str()),
        );
    }

    /// The extensions of videos that were added, each once.
    pub fn custom_video(&self) -> (r: &Vec<String>)
        requires
            self.wf(),
        ensures
            views(r@).to_set() == self@.custom_video,
            views(r@).no_duplicates(),
    {
        &self.custom_video
    }

    /// The extensions of subtitles that were added, each once.
    pub fn custom_subtitle(&self) -> (r: &Vec<String>)
        requires
            self.wf(),
        ensures
            views(r@).to_set() == self@.custom_subtitle,
            views(r@).no_duplicates(),
    {
        &self.custom_subtitle
    }

    /// All extensions of videos, each once.
    pub fn video_exts(&self) -> (r: Vec<String>)
        requires
            self.wf(),
        ensures
            views(r@).to_set() == self@.video.union(self@.custom_video),
            views(r@).no_duplicates(),
    {
        merged(&self.video, &self.custom_video)
    }

    /// All extensions of subtitles, each once.
    pub fn subtitle_exts(&self) -> (r: Vec<String>)
        requires
            self.wf(),
        ensures
            views(r@).to_set() == self@.subtitle.union(self@.custom_subtitle),
            views(r@).no_duplicates(),
    {
        merged(&self.subtitle, &self.custom_subtitle)
    }

    /// What the file at `path` is, by its extension.
    pub fn categorize(&self, path: &str) -> (r: FileCategory)
        ensures
            r == self@.category(path@),
    {
        match extension(path) {
            Some(e) => {
                let e = to_lower(e.as_str());
                if holds_string(&self.video, e.as_str()) || holds_string(
                    &self.custom_video,
                    e.as_str(),
                ) {
                    FileCategory::Video
                } else if holds_string(&self.subtitle, e.as_str()) || holds_string(
                    &self.custom_subtitle,
                    e.as_str(),
                ) {
                    FileCategory::Subtitle
                } else {
                    FileCategory::Unknown
                }
            },
            None => FileCategory::Unknown,
        }
    }

    /// The stem and the extension of the file at `path`, parted at the last `.` of its
    /// name.
    pub fn split_basename(path: &str) -> (r: (String, String))
        ensures
            (r.0@, r.1@) == basename_parts(path@),
    {
        match file_name(path) {
            Some(name) => {
                let c = chars_of(name.as_str());
                match find_last(&c, '.') {
                    Some(i) => {
                        let n = c.len();
                        let stem = string_of_range(&c, 0, i);
                        let ext = string_of_range(&c, i + 1, n);
                        assert(stem@ =~= name@.take(i as int));
                        assert(ext@ =~= name@.skip(i + 1));
                        (stem, ext)
                    },
                    None => (name, String::new()),
                }
            },
            None => (String::new(), String::new()),
        }
    }
}

impl Default for ExtensionRegistry {
    /// A registry of the extensions that are known from the start.
    fn default() -> (r: Self)
        ensures
            r.wf(),
            r@.video == builtin_video().to_set(),
            r@.subtitle == builtin_subtitle().to_set(),
            r@.custom_video == Set::<Seq<char>>::empty(),
            r@.custom_subtitle == Set::<Seq<char>>::empty(),
    {
        ExtensionRegistry::new()
    }
}

/// The strings of `a` and of `b`, each once.
fn merged(a: &Vec<String>, b: &Vec<String>) -> (r: Vec<String>)
    ensures
        views(r@).to_set() == views(a@).to_set().union(views(b@).to_set()),
        views(r@).no_duplicates(),
{
    let mut out: Vec<String> = Vec::new();
    proof {
        assert(views(out@) =~= Seq::<Seq<char>>::empty());
        assert(views(out@).to_set() =~= Set::empty());
    }
    insert_all(&mut out, a);
    insert_all(&mut out, b);
    proof {
        assert(views(out@).to_set() =~= views(a@).to_set().union(views(b@).to_set()));
    }
    out
}

/// Adds the strings of `words` to `v`.
fn insert_all(v: &mut Vec<String>, words: &Vec<String>)
    requires
        views(old(v)@).no_duplicates(),
    ensures
        views(final(v)@).no_duplicates(),
        views(final(v)@).to_set() == views(old(v)@).to_set().union(views(words@).to_set()),
{
    let ghost base = views(v@).to_set();
    let ghost all = views(words@);
    let mut i: usize = 0;
    assert(base =~= base.union(all.take(0).to_set()));
    while i < words.len()
        invariant
            all == views(words@),
            i <= words@.len(),
            views(v@).no_duplicates(),
            views(v@).to_set() == base.union(all.take(i as int).to_set()),
        decreases words@.len() - i,
    {
        insert_string(v, copy_of(words[i].as_str()));
        proof {
            lemma_set_push(all, i as int);
            assert(base.union(all.take(i as int).to_set()).insert(all[i as int]) =~= base.union(
                all.take(i + 1).to_set(),
            ));
        }
        i += 1;
    }
    assert(all.take(i as int) =~= all);
}

/// The extension of the file at `path`.
fn extension(path: &str) -> (r: Option<String>)
    ensures
        opt_view(r) == extension_part(path@),
{
    let name = match file_name(path) {
        Some(name) => name,
        None => {
            return None;
        },
    };
    let c = chars_of(name.as_str());
    if let Some(i) = find_last(&c, '.') {
        if i > 0 {
            let n = c.len();
            let ext = string_of_range(&c, i + 1, n);
            assert(ext@ =~= name@.skip(i + 1));
            return Some(ext);
        }
    }
    None
}

/// The extensions that are known from the start stay known, whatever was added: a file
/// with one of those of videos is a video, and one with one of those of subtitles is a
/// subtitle, unless that extension was added as one of videos.
pub proof fn law_builtin_known(registry: ExtensionRegistry, path: Seq<char>)
    requires
        registry.wf(),
    ensures
        registry@.video == builtin_video().to_set(),
        registry@.subtitle == builtin_subtitle().to_set(),
        extension_part(path) matches Some(e) ==> {
            &&& builtin_video().contains(lower(e)) ==> registry@.category(path)
                == FileCategory::Video
            &&& builtin_subtitle().contains(lower(e)) && !registry@.custom_video.contains(lower(e))
                ==> registry@.category(path) == FileCategory::Subtitle
        },
{
    if let Some(e) = extension_part(path) {
        if builtin_subtitle().contains(lower(e)) && builtin_video().contains(lower(e)) {
            lemma_builtin_apart(lower(e));
        }
    }
}

/// No extension is known both of videos and of subtitles from the start.
proof fn lemma_builtin_apart(e: Seq<char>)
    ensures
        !(builtin_video().contains(e) && builtin_subtitle().contains(e)),
{
    reveal_strlit("mkv");
    reveal_strlit("mp4");
    reveal_strlit("m4v");
    reveal_strlit("avi");
    reveal_strlit("mov");
    reveal_strlit("wmv");
    reveal_strlit("flv");
    reveal_strlit("ts");
    reveal_strlit("m2ts");
    reveal_strlit("mts");
    reveal_strlit("mpg");
    reveal_strlit("mpeg");
    reveal_strlit("vob");
    reveal_strlit("webm");
    reveal_strlit("rmvb");
    reveal_strlit("f4v");
    reveal_strlit("3gp");
    reveal_strlit("ass");
    reveal_strlit("ssa");
    reveal_strlit("srt");
    reveal_strlit("sub");
    reveal_strlit("idx");
    reveal_strlit("vtt");
    reveal_strlit("smi");
    reveal_strlit("sup");
    if builtin_subtitle().contains(e) {
        assert(e.len() == 3);
        assert(e[0] == 's' || e[0] == 'i' || e[1] == 's' || e[1] == 't');
    }
    if builtin_video().contains(e) {
        assert(e.len() == 3 ==> e[0] != 's' && e[0] != 'i' && e[1] != 's' && (e[1] != 't' || e[0]
            == 'm'));
    }
}

/// A file is a video if its extension, in any case, is one of those of videos, known from
/// the start or added. Otherwise it is a subtitle if it is one of those of subtitles.
pub proof fn law_category(registry: RegistryModel, path: Seq<char>)
    ensures
        registry.category(path) == FileCategory::Video <==> (extension_part(path) matches Some(e)
            && (registry.video.contains(lower(e)) || registry.custom_video.contains(lower(e)))),
        registry.category(path) == FileCategory::Subtitle <==> (extension_part(path) matches Some(e)
            && !registry.video.contains(lower(e)) && !registry.custom_video.contains(lower(e)) && (
        registry.subtitle.contains(lower(e)) || registry.custom_subtitle.contains(lower(e)))),
{
}

/// The stem and the extension of a name are parted at its last `.`. What stands before it
/// and behind it, put together again, is the name. A `.` at the start alone parts the stem
/// but does not make an extension by which a file is known.
pub proof fn law_extension(path: Seq<char>, stem: Seq<char>, ext: Seq<char>)
    requires
        name_part(path) == Some(stem.push('.') + ext),
        !ext.contains('.'),
    ensures
        basename_parts(path) == (stem, ext),
        extension_part(path) == if stem.len() > 0 {
            Some(ext)
        } else {
            None
        },
{
    let name = stem.push('.') + ext;
    lemma_last_index(name, '.');
    assert(name[stem.len() as int] == '.');
    assert forall|j: int| stem.len() < j < name.len() implies name[j] != '.' by {
        assert(name[j] == ext[j - stem.len() - 1]);
        assert(ext.contains(ext[j - stem.len() - 1]));
    }
    assert(last_index(name, '.') == Some(stem.len() as int));
    assert(name.take(stem.len() as int) =~= stem);
    assert(name.skip(stem.len() as int + 1) =~= ext);
}

/// A name without a `.` is a stem without an extension, and a path without a name has
/// neither.
pub proof fn law_no_extension(path: Seq<char>)
    ensures
        name_part(path) matches Some(n) ==> !n.contains('.') ==> basename_parts(path) == (
            n,
            Seq::<char>::empty(),
        ) && extension_part(path) is None,
        name_part(path) is None ==> basename_parts(path).0.len() == 0 && basename_parts(path).1.len()
            == 0 && extension_part(path) is None,
{
    if let Some(n) = name_part(path) {
        lemma_last_index(n, '.');
        if let Some(i) = last_index(n, '.') {
            assert(n.contains(n[i]));
        }
    }
}

/// The extensions that are known from the start.
pub proof fn law_builtin(e: Seq<char>)
    ensures
        builtin_video().contains(e) <==> (e == "mkv"@ || e == "mp4"@ || e == "m4v"@ || e == "avi"@
            || e == "mov"@ || e == "wmv"@ || e == "flv"@ || e == "ts"@ || e == "m2ts"@ || e
            == "mts"@ || e == "mpg"@ || e == "mpeg"@ || e == "vob"@ || e == "webm"@ || e
            == "rmvb"@ || e == "f4v"@ || e == "3gp"@),
        builtin_subtitle().contains(e) <==> (e == "ass"@ || e == "ssa"@ || e == "srt"@ || e
            == "sub"@ || e == "idx"@ || e == "vtt"@ || e == "smi"@ || e == "sup"@),
{
    let v = builtin_video();
    let s = builtin_subtitle();
    assert(v[0] == "mkv"@ && v[1] == "mp4"@ && v[2] == "m4v"@ && v[3] == "avi"@ && v[4] == "mov"@);
    assert(v[5] == "wmv"@ && v[6] == "flv"@ && v[7] == "ts"@ && v[8] == "m2ts"@ && v[9] == "mts"@);
    assert(v[10] == "mpg"@ && v[11] == "mpeg"@ && v[12] == "vob"@ && v[13] == "webm"@);
    assert(v[14] == "rmvb"@ && v[15] == "f4v"@ && v[16] == "3gp"@);
    assert(s[0] == "ass"@ && s[1] == "ssa"@ && s[2] == "srt"@ && s[3] == "sub"@);
    assert(s[4] == "idx"@ && s[5] == "vtt"@ && s[6] == "smi"@ && s[7] == "sup"@);
}

/// Extensions that are added together are known in lower case, each of them and no other.
pub proof fn law_lowered(words: Seq<Seq<char>>, e: Seq<char>)
    ensures
        lowered(words).contains(e) <==> exists|i: int|
            0 <= i < words.len() && e == lower(#[trigger] words[i]),
{
    let all = Seq::new(words.len(), |i: int| lower(words[i]));
    if all.contains(e) {
        let i = choose|i: int| 0 <= i < all.len() && all[i] == e;
        assert(e == lower(words[i]));
    }
    if exists|i: int| 0 <= i < words.len() && e == lower(#[trigger] words[i]) {
        let i = choose|i: int| 0 <= i < words.len() && e == lower(#[trigger] words[i]);
        assert(all[i] == e);
        assert(all.contains(e));
    }
}

} // verus!
