//! The files at hand, and the results that belong to them.

use vstd::prelude::*;
use vstd::string::*;

use crate::apply::opt_plan;
use crate::config::{copy_all, UserConfig};
use crate::matcher::{
    copy_files, file_at, matched, with_video, FileEntry, FileModel, GroupModel, MatchResult,
    Matcher,
};
use crate::naming::{MappingModel, NamingConfig, NamingModel, TokenMapping};
use crate::paths::{parent, parent_part, path_eq, same_path};
use crate::pattern::{opt_view, views};
use crate::plan::{
    generate_plan, jobs, missing_video_text, ops_for, planned, ActionMode, FsProbe, OpModel, Plan,
};
use crate::registry::{
    builtin_subtitle, builtin_video, ExtensionRegistry, FileCategory, RegistryModel,
};
use crate::sorting::models;
use crate::text::{
    copy_of, decimal, decimal_of, law_trim, lemma_trim_both, lower, trim_both, trim_start, trimmed, CharClass,
};
use crate::timeline::{Identity, IdentityModel};

verus! {

/// How many lines the log keeps.
pub const MAX_LOG_LINES: usize = 10_000;

/// The side that files are put on, whatever their extension.
#[derive(Debug, Clone, Copy, PartialEq, Eq, Structural)]
pub enum ForcedSide {
    /// The videos.
    Video,
    /// The subtitles.
    Subtitle,
}

/// The last lines of a log.
pub open spec fn last_lines(log: Seq<Seq<char>>) -> Seq<Seq<char>> {
    if log.len() > MAX_LOG_LINES {
        log.skip(log.len() - MAX_LOG_LINES)
    } else {
        log
    }
}

/// Adds a line to the log, and drops lines at the front where it has grown too long.
pub fn push_line(log: &mut Vec<String>, line: String)
    requires
        old(log)@.len() <= MAX_LOG_LINES,
    ensures
        views(final(log)@) == last_lines(views(old(log)@).push(line@)),
        final(log)@.len() <= MAX_LOG_LINES,
{
    let ghost before = views(log@);
    let ghost added = line@;
    log.push(line);
    assert(views(log@) =~= before.push(added));
    if log.len() > MAX_LOG_LINES {
        let ghost was = log@;
        let _ = log.remove(0);
        proof {
            assert(log@ =~= was.skip(1));
            assert(views(log@) =~= before.push(added).skip(1));
        }
    }
}

/// What the background work is asked to find out, and of which files.
#[derive(Debug)]
pub struct RefreshRequest {
    /// The number of the request.
    pub epoch: u64,
    /// The videos.
    pub videos: Vec<FileEntry>,
    /// The subtitles.
    pub subtitles: Vec<FileEntry>,
    /// The pattern for videos.
    pub video_regex: Option<String>,
    /// The pattern for subtitles.
    pub subtitle_regex: Option<String>,
    /// How target names are made.
    pub naming: NamingConfig,
    /// Where subtitles go.
    pub action_mode: ActionMode,
}

/// What the background work found out about the files at hand.
#[derive(Debug)]
pub struct RefreshResult {
    /// The request that it belongs to.
    pub epoch: u64,
    /// The groups.
    pub result: MatchResult,
    /// The plan.
    pub plan: Plan,
    /// What the history knows the subtitles by.
    pub identities: Vec<Identity>,
    /// Why there is no plan.
    pub error: Option<String>,
}

/// The identities of the subtitles that are in a directory and whose checksum is known.
pub open spec fn identities_of(
    subs: Seq<FileModel>,
    checksums: Seq<Option<String>>,
) -> Seq<IdentityModel>
    decreases subs.len(),
{
    if subs.len() == 0 {
        Seq::empty()
    } else {
        let n = subs.len() - 1;
        let rest = identities_of(subs.drop_last(), checksums);
        match (parent_part(subs[n].path), checksum_at(checksums, n)) {
            (Some(dir), Some(checksum)) => rest.push(IdentityModel { dir, checksum }),
            _ => rest,
        }
    }
}

/// The checksum of file `i`, where it is known.
pub open spec fn checksum_at(checksums: Seq<Option<String>>, i: int) -> Option<Seq<char>> {
    if i < checksums.len() {
        opt_view(checksums[i])
    } else {
        None
    }
}

/// The identities of the subtitles that are in a directory and whose checksum is known.
pub fn subtitle_identities(subs: &Vec<FileEntry>, checksums: &Vec<Option<String>>) -> (r: Vec<
    Identity,
>)
    ensures
        models(r@) == identities_of(models(subs@), checksums@),
{
    let ghost all = models(subs@);
    let mut out: Vec<Identity> = Vec::new();
    let mut i: usize = 0;
    assert(models(out@) =~= identities_of(all.take(0), checksums@));
    while i < subs.len()
        invariant
            all == models(subs@),
            i <= subs@.len(),
            models(out@) == identities_of(all.take(i as int), checksums@),
        decreases subs@.len() - i,
    {
        let ghost before = models(out@);
        proof {
            assert(all.take(i + 1).drop_last() =~= all.take(i as int));
            assert(all.take(i + 1)[i as int] == subs@[i as int]@);
        }
        if i < checksums.len() {
            if let Some(c) = &checksums[i] {
                if let Some(dir) = parent(subs[i].path.as_str()) {
                    let id = Identity { dir, checksum: copy_of(c.as_str()) };
                    let ghost m = id@;
                    out.push(id);
                    assert(models(out@) =~= before.push(m));
                }
            }
        }
        i += 1;
    }
    assert(all.take(i as int) =~= all);
    out
}

/// `plan` and `error` are what comes of planning for the groups: a plan by some answers of
/// `probe`, or an empty one and the reason.
pub open spec fn refreshed<P: FsProbe>(
    groups: Seq<GroupModel>,
    naming: NamingModel,
    mode: ActionMode,
    probe: &P,
    plan: Seq<OpModel>,
    error: Option<Seq<char>>,
) -> bool {
    match ops_for(jobs(groups), naming, mode) {
        Ok(ops) => planned(plan, ops, probe) && error is None,
        Err(i) => plan.len() == 0 && error == Some(missing_video_text(i as nat)),
    }
}

/// Matches the files of a request and plans for them. `checksums` are those of the
/// subtitles, where they are known.
pub fn run_refresh<P: FsProbe>(
    req: &RefreshRequest,
    checksums: &Vec<Option<String>>,
    probe: &P,
) -> (r: RefreshResult)
    ensures
        r.epoch == req.epoch,
        r.result@ == matched(
            models(req.videos@),
            models(req.subtitles@),
            opt_view(req.video_regex),
            opt_view(req.subtitle_regex),
        ),
        models(r.identities@) == identities_of(models(req.subtitles@), checksums@),
        refreshed(
            r.result@,
            req.naming@,
            req.action_mode,
            probe,
            r.plan@,
            opt_view(r.error),
        ),
{
    let video_regex = match &req.video_regex {
        Some(p) => Some(p.as_str()),
        None => None,
    };
    let subtitle_regex = match &req.subtitle_regex {
        Some(p) => Some(p.as_str()),
        None => None,
    };
    let result = Matcher::new().match_files(
        req.videos.as_slice(),
        req.subtitles.as_slice(),
        video_regex,
        subtitle_regex,
    );
    let identities = subtitle_identities(&req.subtitles, checksums);
    match generate_plan(&result, &req.naming, probe, req.action_mode) {
        Ok(plan) => RefreshResult { epoch: req.epoch, result, plan, identities, error: None },
        Err(e) => RefreshResult {
            epoch: req.epoch,
            result,
            plan: Plan::default(),
            identities,
            error: Some(e.message()),
        },
    }
}

/// The files at hand, and the results that belong to them.
#[derive(Debug)]
pub struct Workspace {
    registry: ExtensionRegistry,
    videos: Vec<FileEntry>,
    subtitles: Vec<FileEntry>,
    unknown: Vec<FileEntry>,
    result: Option<MatchResult>,
    plan: Option<Plan>,
    log: Vec<String>,
    epoch: u64,
    pending: bool,
}

/// What a [`Workspace`] stands for.
pub struct WorkspaceModel {
    pub registry: RegistryModel,
    pub videos: Seq<FileModel>,
    pub subtitles: Seq<FileModel>,
    pub unknown: Seq<FileModel>,
    pub result: Option<Seq<GroupModel>>,
    pub plan: Option<Seq<OpModel>>,
    pub log: Seq<Seq<char>>,
    pub epoch: u64,
    pub pending: bool,
}

/// What a result that may be absent stands for.
pub open spec fn opt_result(r: Option<MatchResult>) -> Option<Seq<GroupModel>> {
    match r {
        Some(r) => Some(r@),
        None => None,
    }
}

impl View for Workspace {
    type V = WorkspaceModel;

    closed spec fn view(&self) -> WorkspaceModel {
        WorkspaceModel {
            registry: self.registry@,
            videos: models(self.videos@),
            subtitles: models(self.subtitles@),
            unknown: models(self.unknown@),
            result: opt_result(self.result),
            plan: opt_plan(self.plan),
            log: views(self.log@),
            epoch: self.epoch,
            pending: self.pending,
        }
    }
}

/// The request that follows request `epoch`.
pub open spec fn next_epoch(epoch: u64) -> u64 {
    if epoch == u64::MAX {
        0
    } else {
        (epoch + 1) as u64
    }
}

/// What is said of the files at hand.
pub open spec fn counts_text(videos: nat, subtitles: nat, groups: nat) -> Seq<char> {
    decimal(videos) + " video(s), "@ + decimal(subtitles) + " subtitle(s) → "@ + decimal(groups)
        + " pair group(s)"@
}

impl WorkspaceModel {
    /// The category of the file at `path`: the side that it is put on, or else what its
    /// extension says.
    pub open spec fn category(self, path: Seq<char>, force: Option<ForcedSide>) -> FileCategory {
        match force {
            Some(ForcedSide::Video) => FileCategory::Video,
            Some(ForcedSide::Subtitle) => FileCategory::Subtitle,
            None => self.registry.category(path),
        }
    }

    /// The workspace with the file at `path`.
    pub open spec fn with_file(self, path: Seq<char>, force: Option<ForcedSide>) -> WorkspaceModel {
        let f = file_at(path);
        match self.category(path, force) {
            FileCategory::Video => WorkspaceModel { videos: self.videos.push(f), ..self },
            FileCategory::Subtitle => WorkspaceModel { subtitles: self.subtitles.push(f), ..self },
            FileCategory::Unknown => WorkspaceModel { unknown: self.unknown.push(f), ..self },
        }
    }

    /// The workspace with one more line in its log.
    pub open spec fn saying(self, line: Seq<char>) -> WorkspaceModel {
        WorkspaceModel { log: last_lines(self.log.push(line)), ..self }
    }

    /// The workspace after a result came in. Only the result of the latest request counts.
    pub open spec fn after_result(
        self,
        epoch: u64,
        groups: Seq<GroupModel>,
        ops: Seq<OpModel>,
        error: Option<Seq<char>>,
    ) -> WorkspaceModel {
        if epoch != self.epoch {
            self
        } else {
            let s = WorkspaceModel { result: Some(groups), pending: false, ..self };
            match error {
                Some(e) => WorkspaceModel { plan: Some(Seq::empty()), ..s }.saying(
                    "Plan error: "@ + e,
                ),
                None => WorkspaceModel { plan: Some(ops), ..s }.saying(
                    counts_text(
                        self.videos.len(),
                        self.subtitles.len(),
                        with_video(groups).len(),
                    ),
                ),
            }
        }
    }
}

/// The files that are not at `path`.
pub open spec fn files_elsewhere(files: Seq<FileModel>, path: Seq<char>) -> Seq<FileModel>
    decreases files.len(),
{
    if files.len() == 0 {
        Seq::empty()
    } else if same_path(files.last().path, path) {
        files_elsewhere(files.drop_last(), path)
    } else {
        files_elsewhere(files.drop_last(), path).push(files.last())
    }
}

impl Workspace {
    /// The registry is in order, and the log is not too long.
    pub closed spec fn wf(&self) -> bool {
        self.registry.wf() && self.log@.len() <= MAX_LOG_LINES
    }

    /// A workspace without files.
    pub fn new(registry: ExtensionRegistry) -> (r: Self)
        requires
            registry.wf(),
        ensures
            r.wf(),
            r@ == (WorkspaceModel {
                registry: registry@,
                videos: Seq::empty(),
                subtitles: Seq::empty(),
                unknown: Seq::empty(),
                result: None,
                plan: None,
                log: seq!["Use Browse to load files, or start from a media folder."@],
                epoch: 0,
                pending: false,
            }),
    {
        let mut log: Vec<String> = Vec::new();
        log.push(copy_of("Use Browse to load files, or start from a media folder."));
        let r = Workspace {
            registry,
            videos: Vec::new(),
            subtitles: Vec::new(),
            unknown: Vec::new(),
            result: None,
            plan: None,
            log,
            epoch: 0,
            pending: false,
        };
        proof {
            assert(r@.videos =~= Seq::empty());
            assert(r@.subtitles =~= Seq::empty());
            assert(r@.unknown =~= Seq::empty());
            assert(r@.log =~= seq!["Use Browse to load files, or start from a media folder."@]);
        }
        r
    }

    /// Adds a line to the log.
    pub fn push_status(&mut self, line: String)
        requires
            old(self).wf(),
        ensures
            final(self).wf(),
            final(self)@ == old(self)@.saying(line@),
    {
        push_line(&mut self.log, line);
    }

    /// Adds the file at `path`, on the side that is given or else by its extension.
    pub fn add_file(&mut self, path: String, force: Option<ForcedSide>)
        requires
            old(self).wf(),
        ensures
            final(self).wf(),
            final(self)@ == old(self)@.with_file(path@, force),
    {
        let ghost before = self@;
        let category = match force {
            Some(ForcedSide::Video) => FileCategory::Video,
            Some(ForcedSide::Subtitle) => FileCategory::Subtitle,
            None => self.registry.categorize(path.as_str()),
        };
        let entry = FileEntry::from_path(path);
        let ghost f = entry@;
        match category {
            FileCategory::Video => {
                self.videos.push(entry);
                assert(self@.videos =~= before.videos.push(f));
            },
            FileCategory::Subtitle => {
                self.subtitles.push(entry);
                assert(self@.subtitles =~= before.subtitles.push(f));
            },
            FileCategory::Unknown => {
                self.unknown.push(entry);
                assert(self@.unknown =~= before.unknown.push(f));
            },
        }
    }

    /// Adds videos and subtitles.
    pub fn add_media(&mut self, videos: Vec<FileEntry>, subtitles: Vec<FileEntry>)
        requires
            old(self).wf(),
        ensures
            final(self).wf(),
            final(self)@ == (WorkspaceModel {
                videos: old(self)@.videos + models(videos@),
                subtitles: old(self)@.subtitles + models(subtitles@),
                ..old(self)@
            }),
    {
        let ghost before = self@;
        let ghost v = models(videos@);
        let ghost s = models(subtitles@);
        let mut videos = videos;
        let mut subtitles = subtitles;
        self.videos.append(&mut videos);
        self.subtitles.append(&mut subtitles);
        assert(self@.videos =~= before.videos + v);
        assert(self@.subtitles =~= before.subtitles + s);
    }

    /// Lets go of the videos.
    pub fn clear_videos(&mut self)
        requires
            old(self).wf(),
        ensures
            final(self).wf(),
            final(self)@ == (WorkspaceModel { videos: Seq::empty(), ..old(self)@ }),
    {
        self.videos = Vec::new();
        assert(self@.videos =~= Seq::empty());
    }

    /// Lets go of the subtitles.
    pub fn clear_subtitles(&mut self)
        requires
            old(self).wf(),
        ensures
            final(self).wf(),
            final(self)@ == (WorkspaceModel { subtitles: Seq::empty(), ..old(self)@ }),
    {
        self.subtitles = Vec::new();
        assert(self@.subtitles =~= Seq::empty());
    }

    /// Lets go of all files.
    pub fn clear_all(&mut self)
        requires
            old(self).wf(),
        ensures
            final(self).wf(),
            final(self)@ == (WorkspaceModel {
                videos: Seq::empty(),
                subtitles: Seq::empty(),
                unknown: Seq::empty(),
                ..old(self)@
            }),
    {
        self.clear_videos();
        self.clear_subtitles();
        self.unknown = Vec::new();
        assert(self@.unknown =~= Seq::empty());
    }

    /// Lets go of the subtitles at `path`.
    pub fn remove_subtitle(&mut self, path: &str)
        requires
            old(self).wf(),
        ensures
            final(self).wf(),
            final(self)@ == (WorkspaceModel {
                subtitles: files_elsewhere(old(self)@.subtitles, path@),
                ..old(self)@
            }),
    {
        let ghost all = self@.subtitles;
        let mut rest: Vec<FileEntry> = Vec::new();
        let mut i: usize = 0;
        assert(models(rest@) =~= files_elsewhere(all.take(0), path@));
        while i < self.subtitles.len()
            invariant
                all == models(self.subtitles@),
                i <= self.subtitles@.len(),
                models(rest@) == files_elsewhere(all.take(i as int), path@),
            decreases self.subtitles@.len() - i,
        {
            let ghost before = models(rest@);
            proof {
                assert(all.take(i + 1).drop_last() =~= all.take(i as int));
                assert(all.take(i + 1).last() == self.subtitles@[i as int]@);
            }
            if !path_eq(self.subtitles[i].path.as_str(), path) {
                rest.push(self.subtitles[i].clone());
                assert(models(rest@) =~= before.push(self.subtitles@[i as int]@));
            }
            i += 1;
        }
        assert(all.take(i as int) =~= all);
        self.subtitles = rest;
    }

    /// Begins a new request, which makes older ones stale, and gives its number.
    fn begin_refresh(&mut self) -> (r: u64)
        requires
            old(self).wf(),
        ensures
            final(self).wf(),
            final(self)@ == (WorkspaceModel { epoch: next_epoch(old(self)@.epoch), ..old(self)@ }),
            r == final(self)@.epoch,
    {
        self.epoch = if self.epoch == u64::MAX {
            0
        } else {
            self.epoch + 1
        };
        self.epoch
    }

    /// Begins a new request, which makes older ones stale: the files at hand, and what the
    /// settings say.
    pub fn request(&mut self, settings: &Settings) -> (r: RefreshRequest)
        requires
            old(self).wf(),
        ensures
            final(self).wf(),
            final(self)@ == (WorkspaceModel { epoch: next_epoch(old(self)@.epoch), ..old(self)@ }),
            r.epoch == final(self)@.epoch,
            models(r.videos@) == final(self)@.videos,
            models(r.subtitles@) == final(self)@.subtitles,
            opt_view(r.video_regex) == meant(settings.video_regex@),
            opt_view(r.subtitle_regex) == meant(settings.subtitle_regex@),
            r.naming@ == settings.naming_model(),
            r.action_mode == settings.action_mode,
    {
        let epoch = self.begin_refresh();
        RefreshRequest {
            epoch,
            videos: copy_files(&self.videos),
            subtitles: copy_files(&self.subtitles),
            video_regex: non_empty(settings.video_regex.as_str()),
            subtitle_regex: non_empty(settings.subtitle_regex.as_str()),
            naming: settings.naming(),
            action_mode: settings.action_mode,
        }
    }

    /// Takes note of whether the request was taken up.
    pub fn refresh_sent(&mut self, sent: bool)
        requires
            old(self).wf(),
        ensures
            final(self).wf(),
            final(self)@ == if sent {
                (WorkspaceModel { pending: true, ..old(self)@ }).saying("处理中…"@)
            } else {
                old(self)@.saying("后台刷新线程不可用"@)
            },
    {
        if sent {
            self.pending = true;
            self.push_status(copy_of("处理中…"));
        } else {
            self.push_status(copy_of("后台刷新线程不可用"));
        }
    }

    /// Takes in a result, where it belongs to the latest request, and says whether it does.
    pub fn accept_result(&mut self, res: RefreshResult) -> (r: bool)
        requires
            old(self).wf(),
        ensures
            final(self).wf(),
            final(self)@ == old(self)@.after_result(
                res.epoch,
                res.result@,
                res.plan@,
                opt_view(res.error),
            ),
            r == (res.epoch == old(self)@.epoch),
    {
        if res.epoch != self.epoch {
            return false;
        }
        self.pending = false;
        match res.error {
            Some(e) => {
                self.plan = Some(Plan::default());
                self.result = Some(res.result);
                let mut s = copy_of("Plan error: ");
                s.append(e.as_str());
                self.push_status(s);
            },
            None => {
                let groups = res.result.paired();
                let n = groups.len();
                assert(models(groups@).len() == groups@.len());
                assert(self@.videos.len() == self.videos@.len());
                assert(self@.subtitles.len() == self.subtitles@.len());
                let mut s = decimal_of(self.videos.len() as u64);
                s.append(" video(s), ");
                s.append(decimal_of(self.subtitles.len() as u64).as_str());
                s.append(" subtitle(s) → ");
                s.append(decimal_of(n as u64).as_str());
                s.append(" pair group(s)");
                self.result = Some(res.result);
                self.plan = Some(res.plan);
                self.push_status(s);
            },
        }
        true
    }

    /// The registry.
    pub fn registry(&self) -> (r: &ExtensionRegistry)
        requires
            self.wf(),
        ensures
            r@ == self@.registry,
            r.wf(),
    {
        &self.registry
    }

    /// The videos.
    pub fn videos(&self) -> (r: &Vec<FileEntry>)
        ensures
            models(r@) == self@.videos,
    {
        &self.videos
    }

    /// The subtitles.
    pub fn subtitles(&self) -> (r: &Vec<FileEntry>)
        ensures
            models(r@) == self@.subtitles,
    {
        &self.subtitles
    }

    /// The files that are neither.
    pub fn unknown(&self) -> (r: &Vec<FileEntry>)
        ensures
            models(r@) == self@.unknown,
    {
        &self.unknown
    }

    /// The groups, where they are known.
    pub fn result(&self) -> (r: &Option<MatchResult>)
        ensures
            opt_result(*r) == self@.result,
    {
        &self.result
    }

    /// The plan, where there is one.
    pub fn plan(&self) -> (r: &Option<Plan>)
        ensures
            opt_plan(*r) == self@.plan,
    {
        &self.plan
    }

    /// The log.
    pub fn log(&self) -> (r: &Vec<String>)
        ensures
            views(r@) == self@.log,
    {
        &self.log
    }

    /// Whether results are still awaited.
    pub fn pending(&self) -> (r: bool)
        ensures
            r == self@.pending,
    {
        self.pending
    }
}

/// A result that was asked for before the latest request changes nothing, and the result
/// of the latest one ends the wait.
pub proof fn law_latest_wins(
    w: WorkspaceModel,
    epoch: u64,
    groups: Seq<GroupModel>,
    ops: Seq<OpModel>,
    error: Option<Seq<char>>,
)
    ensures
        epoch != w.epoch ==> w.after_result(epoch, groups, ops, error) == w,
        epoch == w.epoch ==> !w.after_result(epoch, groups, ops, error).pending
            && w.after_result(epoch, groups, ops, error).result == Some(groups),
        epoch == w.epoch && error is Some ==> w.after_result(epoch, groups, ops, error).plan
            == Some(Seq::<OpModel>::empty()),
        epoch == w.epoch && error is None ==> w.after_result(epoch, groups, ops, error).plan
            == Some(ops),
        next_epoch(w.epoch) != w.epoch,
{
}

// ---------------------------------------------------------------------------
// Settings
// ---------------------------------------------------------------------------
/// The text without white space around it, where something is left.
pub open spec fn meant(s: Seq<char>) -> Option<Seq<char>> {
    let t = trim_both(s, CharClass::Space);
    if t.len() == 0 {
        None
    } else {
        Some(t)
    }
}

/// The text without white space around it, where something is left.
pub fn non_empty(s: &str) -> (r: Option<String>)
    ensures
        opt_view(r) == meant(s@),
{
    let t = trimmed(s, CharClass::Space);
    if t.as_str().is_empty() {
        None
    } else {
        Some(t)
    }
}

/// The mappings of which no part is empty.
pub open spec fn usable(mappings: Seq<MappingModel>) -> Seq<MappingModel>
    decreases mappings.len(),
{
    if mappings.len() == 0 {
        Seq::empty()
    } else {
        let m = mappings.last();
        let rest = usable(mappings.drop_last());
        if m.token.len() > 0 && m.value.len() > 0 && m.var.len() > 0 {
            rest.push(m)
        } else {
            rest
        }
    }
}

/// Settings that were saved once are saved as they are: the mappings that can be used all
/// stay, and so does the text of a pattern.
pub proof fn law_saved_once(mappings: Seq<MappingModel>, s: Seq<char>)
    ensures
        usable(usable(mappings)) == usable(mappings),
        meant(s) matches Some(t) ==> meant(t) == Some(t),
    decreases mappings.len(),
{
    let t = trim_both(s, CharClass::Space);
    lemma_trim_both(s, CharClass::Space);
    if t.len() > 0 {
        assert(t.skip(0) =~= t);
        assert(t.take(t.len() as int) =~= t);
    }
    if mappings.len() > 0 {
        law_saved_once(mappings.drop_last(), s);
        let m = mappings.last();
        let rest = usable(mappings.drop_last());
        assert(rest.push(m).drop_last() =~= rest);
    }
}

/// What has been typed into the settings.
#[derive(Debug)]
pub struct Settings {
    /// The template.
    pub template: String,
    /// Whether built-in aliases fill `lang`.
    pub auto_fill_lang: bool,
    /// Whether case matters to tokens.
    pub case_sensitive: bool,
    /// The mappings, some of which may be unfinished.
    pub mappings: Vec<TokenMapping>,
    /// The pattern for videos.
    pub video_regex: String,
    /// The pattern for subtitles.
    pub subtitle_regex: String,
    /// Where subtitles go.
    pub action_mode: ActionMode,
    /// Whether the window stays on top.
    pub always_on_top: bool,
}

impl Settings {
    /// How target names are made: unfinished mappings are left out.
    pub open spec fn naming_model(self) -> NamingModel {
        NamingModel {
            template: self.template@,
            auto_fill_lang: self.auto_fill_lang,
            case_sensitive: self.case_sensitive,
            mappings: usable(models(self.mappings@)),
        }
    }

    /// The settings that a configuration holds.
    pub fn from_config(config: &UserConfig) -> (r: Self)
        ensures
            r.template@ == config@.suffix.template,
            r.auto_fill_lang == config@.suffix.auto_fill_lang,
            r.case_sensitive == config@.suffix.case_sensitive,
            models(r.mappings@) == config@.suffix.mappings,
            r.video_regex@ == (match config@.video_regex {
                Some(p) => p,
                None => Seq::empty(),
            }),
            r.subtitle_regex@ == (match config@.subtitle_regex {
                Some(p) => p,
                None => Seq::empty(),
            }),
            r.action_mode == config@.action_mode,
            r.always_on_top == config@.always_on_top,
    {
        let suffix = config.suffix.clone();
        Settings {
            template: suffix.template,
            auto_fill_lang: suffix.auto_fill_lang,
            case_sensitive: suffix.case_sensitive,
            mappings: suffix.mappings,
            video_regex: match &config.video_regex {
                Some(p) => copy_of(p.as_str()),
                None => String::new(),
            },
            subtitle_regex: match &config.subtitle_regex {
                Some(p) => copy_of(p.as_str()),
                None => String::new(),
            },
            action_mode: config.action_mode,
            always_on_top: config.always_on_top,
        }
    }

    /// How target names are made: unfinished mappings are left out.
    pub fn naming(&self) -> (r: NamingConfig)
        ensures
            r@ == self.naming_model(),
    {
        let ghost all = models(self.mappings@);
        let mut mappings: Vec<TokenMapping> = Vec::new();
        let mut i: usize = 0;
        assert(models(mappings@) =~= usable(all.take(0)));
        while i < self.mappings.len()
            invariant
                all == models(self.mappings@),
                i <= self.mappings@.len(),
                models(mappings@) == usable(all.take(i as int)),
            decreases self.mappings@.len() - i,
        {
            let ghost before = models(mappings@);
            let m = &self.mappings[i];
            proof {
                assert(all.take(i + 1).drop_last() =~= all.take(i as int));
                assert(all.take(i + 1).last() == m@);
            }
            if !m.token.as_str().is_empty() && !m.value.as_str().is_empty()
                && !m.var.as_str().is_empty() {
                mappings.push(m.clone());
                assert(models(mappings@) =~= before.push(m@));
            }
            i += 1;
        }
        assert(all.take(i as int) =~= all);
        NamingConfig {
            template: copy_of(self.template.as_str()),
            auto_fill_lang: self.auto_fill_lang,
            case_sensitive: self.case_sensitive,
            mappings,
        }
    }

    /// Adds a mapping for `lang` that has yet to be filled in.
    pub fn add_mapping(&mut self)
        ensures
            models(final(self).mappings@) == models(old(self).mappings@).push(
                MappingModel { token: Seq::empty(), value: Seq::empty(), var: "lang"@ },
            ),
            *final(self) == (Settings { mappings: final(self).mappings, ..*old(self) }),
    {
        let ghost before = models(self.mappings@);
        let m = TokenMapping { token: String::new(), value: String::new(), var: copy_of("lang") };
        let ghost mm = m@;
        self.mappings.push(m);
        assert(models(self.mappings@) =~= before.push(mm));
    }

    /// The configuration that these settings and the extensions of the registry make.
    pub fn to_config(&self, registry: &ExtensionRegistry) -> (r: UserConfig)
        requires
            registry.wf(),
        ensures
            r@.suffix == self.naming_model(),
            r@.custom_video_exts.to_set() == registry@.custom_video,
            r@.custom_video_exts.no_duplicates(),
            r@.custom_subtitle_exts.to_set() == registry@.custom_subtitle,
            r@.custom_subtitle_exts.no_duplicates(),
            r@.video_regex == meant(self.video_regex@),
            r@.subtitle_regex == meant(self.subtitle_regex@),
            r@.action_mode == self.action_mode,
            r@.always_on_top == self.always_on_top,
    {
        UserConfig {
            suffix: self.naming(),
            custom_video_exts: copy_all(registry.custom_video()),
            custom_subtitle_exts: copy_all(registry.custom_subtitle()),
            video_regex: non_empty(self.video_regex.as_str()),
            subtitle_regex: non_empty(self.subtitle_regex.as_str()),
            action_mode: self.action_mode,
            always_on_top: self.always_on_top,
        }
    }
}

/// The extensions that a configuration adds: without leading dots, in lower case.
pub open spec fn trimmed_exts(exts: Seq<Seq<char>>) -> Set<Seq<char>>
    decreases exts.len(),
{
    if exts.len() == 0 {
        Set::empty()
    } else {
        trimmed_exts(exts.drop_last()).insert(
            lower(trim_start(exts.last(), CharClass::Dot)),
        )
    }
}

/// The registry that a configuration makes.
pub fn registry_for(config: &UserConfig) -> (r: ExtensionRegistry)
    ensures
        r.wf(),
        r@ == (RegistryModel {
            video: builtin_video().to_set(),
            subtitle: builtin_subtitle().to_set(),
            custom_video: trimmed_exts(config@.custom_video_exts),
            custom_subtitle: trimmed_exts(config@.custom_subtitle_exts),
        }),
{
    let mut r = ExtensionRegistry::new();
    let ghost base = r@;
    let ghost v = config@.custom_video_exts;
    let ghost s = config@.custom_subtitle_exts;
    let mut i: usize = 0;
    while i < config.custom_video_exts.len()
        invariant
            r.wf(),
            v == views(config.custom_video_exts@),
            i <= config.custom_video_exts@.len(),
            r@ == (RegistryModel { custom_video: trimmed_exts(v.take(i as int)), ..base }),
        decreases config.custom_video_exts@.len() - i,
    {
        assert(v.take(i + 1).drop_last() =~= v.take(i as int));
        r.add_custom_video(config.custom_video_exts[i].as_str());
        i += 1;
    }
    assert(v.take(i as int) =~= v);
    let ghost mid = r@;
    let mut k: usize = 0;
    while k < config.custom_subtitle_exts.len()
        invariant
            r.wf(),
            s == views(config.custom_subtitle_exts@),
            k <= config.custom_subtitle_exts@.len(),
            r@ == (RegistryModel { custom_subtitle: trimmed_exts(s.take(k as int)), ..mid }),
        decreases config.custom_subtitle_exts@.len() - k,
    {
        assert(s.take(k + 1).drop_last() =~= s.take(k as int));
        r.add_custom_subtitle(config.custom_subtitle_exts[k].as_str());
        k += 1;
    }
    assert(s.take(k as int) =~= s);
    r
}

// ---------------------------------------------------------------------------
// Laws
// ---------------------------------------------------------------------------
/// A line that is said is the last of the log. The lines before it stay, but for the first
/// where there would be more than ten thousand.
pub proof fn law_log(w: WorkspaceModel, line: Seq<char>)
    requires
        w.log.len() <= 10_000,
    ensures
        w.log.len() < 10_000 ==> w.saying(line).log == w.log.push(line),
        w.log.len() == 10_000 ==> w.saying(line).log == w.log.skip(1).push(line),
        w.saying(line) == (WorkspaceModel { log: w.saying(line).log, ..w }),
{
    if w.log.len() == 10_000 {
        assert(w.log.push(line).skip(1) =~= w.log.skip(1).push(line));
    }
}

/// A file goes to the side that is forced, or else to that of its extension, and to neither
/// where it has none that is known. It comes last there, and the other files stay.
pub proof fn law_file_added(w: WorkspaceModel, path: Seq<char>, force: Option<ForcedSide>)
    ensures
        ({
            let t = w.with_file(path, force);
            let f = file_at(path);
            let video = force == Some(ForcedSide::Video) || (force is None && w.registry.category(
                path,
            ) == FileCategory::Video);
            let subtitle = force == Some(ForcedSide::Subtitle) || (force is None
                && w.registry.category(path) == FileCategory::Subtitle);
            &&& t.videos == if video {
                w.videos.push(f)
            } else {
                w.videos
            }
            &&& t.subtitles == if subtitle {
                w.subtitles.push(f)
            } else {
                w.subtitles
            }
            &&& t.unknown == if !video && !subtitle {
                w.unknown.push(f)
            } else {
                w.unknown
            }
            &&& f.path == path
            &&& t == (WorkspaceModel {
                videos: t.videos,
                subtitles: t.subtitles,
                unknown: t.unknown,
                ..w
            })
        }),
{
}

/// A result of the latest request takes the place of the groups and the plan, and what is
/// said of it is added to the log. Nothing else changes.
pub proof fn law_result_taken(
    w: WorkspaceModel,
    groups: Seq<GroupModel>,
    ops: Seq<OpModel>,
    e: Seq<char>,
)
    ensures
        w.after_result(w.epoch, groups, ops, Some(e)) == (WorkspaceModel {
            result: Some(groups),
            plan: Some(Seq::empty()),
            pending: false,
            ..w
        }).saying("Plan error: "@ + e),
        w.after_result(w.epoch, groups, ops, None) == (WorkspaceModel {
            result: Some(groups),
            plan: Some(ops),
            pending: false,
            ..w
        }).saying(
            decimal(w.videos.len()) + " video(s), "@ + decimal(w.subtitles.len())
                + " subtitle(s) → "@ + decimal(with_video(groups).len()) + " pair group(s)"@,
        ),
{
}

/// Each request has the number after that of the one before, and begins at zero again after
/// the greatest.
pub proof fn law_next_epoch(epoch: u64)
    ensures
        epoch < u64::MAX ==> next_epoch(epoch) == epoch + 1,
        next_epoch(u64::MAX) == 0,
{
}

/// What is known of a subtitle is its directory and its checksum, where it has the one and
/// the other is known.
pub proof fn law_identities(subs: Seq<FileModel>, f: FileModel, checksums: Seq<Option<String>>)
    ensures
        identities_of(Seq::empty(), checksums).len() == 0,
        ({
            let n = subs.len() as int;
            let known = n < checksums.len() && checksums[n] is Some && parent_part(f.path) is Some;
            let r = identities_of(subs.push(f), checksums);
            &&& !known ==> r == identities_of(subs, checksums)
            &&& known ==> {
                &&& r.len() == identities_of(subs, checksums).len() + 1
                &&& r.drop_last() == identities_of(subs, checksums)
                &&& r.last().dir == parent_part(f.path)->0
                &&& r.last().checksum == checksums[n]->0@
            }
        }),
{
    assert(subs.push(f).drop_last() =~= subs);
    let rest = identities_of(subs, checksums);
    let r = identities_of(subs.push(f), checksums);
    if r.len() > rest.len() {
        assert(r.drop_last() =~= rest);
    }
}

/// Where planning fails there is no plan, and the reason names the operation. Otherwise
/// there is a plan and no reason.
pub proof fn law_refreshed<P: FsProbe>(
    groups: Seq<GroupModel>,
    naming: NamingModel,
    mode: ActionMode,
    probe: &P,
    plan: Seq<OpModel>,
    error: Option<Seq<char>>,
)
    requires
        refreshed(groups, naming, mode, probe, plan, error),
    ensures
        error is None <==> ops_for(jobs(groups), naming, mode) is Ok,
        ops_for(jobs(groups), naming, mode) matches Ok(ops) ==> planned(plan, ops, probe),
        ops_for(jobs(groups), naming, mode) matches Err(i) ==> plan.len() == 0 && error == Some(
            "Copy mode requires paired video (op #"@ + decimal(i as nat) + ")"@,
        ),
{
}

/// Letting go of a path drops the files at it, each of them and no other.
pub proof fn law_let_go(files: Seq<FileModel>, f: FileModel, path: Seq<char>)
    ensures
        files_elsewhere(Seq::empty(), path).len() == 0,
        files_elsewhere(files.push(f), path) == if same_path(f.path, path) {
            files_elsewhere(files, path)
        } else {
            files_elsewhere(files, path).push(f)
        },
{
    assert(files.push(f).drop_last() =~= files);
}

/// A mapping counts if and only if it has a token, a value and a variable.
pub proof fn law_usable(mappings: Seq<MappingModel>, m: MappingModel)
    ensures
        usable(Seq::empty()).len() == 0,
        usable(mappings.push(m)) == if m.token.len() == 0 || m.value.len() == 0 || m.var.len()
            == 0 {
            usable(mappings)
        } else {
            usable(mappings).push(m)
        },
{
    assert(mappings.push(m).drop_last() =~= mappings);
}

/// A text of nothing but white space means nothing, and any other what is left without the
/// white space around it.
pub proof fn law_meant(s: Seq<char>)
    ensures
        meant(s) is None <==> forall|i: int|
            0 <= i < s.len() ==> CharClass::Space.has(#[trigger] s[i]),
        meant(s) matches Some(t) ==> t.len() > 0 && !CharClass::Space.has(t[0])
            && !CharClass::Space.has(t.last()) && exists|a: int, b: int|
            0 <= a <= b <= s.len() && t == #[trigger] s.subrange(a, b) && forall|i: int|
                (0 <= i < a || b <= i < s.len()) ==> CharClass::Space.has(#[trigger] s[i]),
{
    let k = CharClass::Space;
    law_trim(s, k);
    let t = trim_both(s, k);
    let (a, b) = choose|a: int, b: int|
        0 <= a <= b <= s.len() && t == #[trigger] s.subrange(a, b) && forall|i: int|
            (0 <= i < a || b <= i < s.len()) ==> k.has(#[trigger] s[i]);
    if t.len() > 0 {
        assert(t[0] == s[a]);
    }
}

/// The extensions that a configuration adds are known without the dots before them and in
/// lower case, each of them and no other.
pub proof fn law_trimmed_exts(exts: Seq<Seq<char>>, e: Seq<char>)
    ensures
        trimmed_exts(exts).contains(e) <==> exists|i: int|
            0 <= i < exts.len() && e == lower(trim_start(#[trigger] exts[i], CharClass::Dot)),
    decreases exts.len(),
{
    if exts.len() > 0 {
        let t = exts.drop_last();
        law_trimmed_exts(t, e);
        if trimmed_exts(t).contains(e) {
            let i = choose|i: int|
                0 <= i < t.len() && e == lower(trim_start(#[trigger] t[i], CharClass::Dot));
            assert(exts[i] == t[i]);
        }
        if e == lower(trim_start(exts.last(), CharClass::Dot)) {
            assert(exts[exts.len() - 1] == exts.last());
        }
        if exists|i: int|
            0 <= i < exts.len() && e == lower(trim_start(#[trigger] exts[i], CharClass::Dot)) {
            let i = choose|i: int|
                0 <= i < exts.len() && e == lower(trim_start(#[trigger] exts[i], CharClass::Dot));
            if i < t.len() {
                assert(t[i] == exts[i]);
            }
        }
    }
}

} // verus!
