//! The records of what was done, and the database that keeps them.

use vstd::prelude::*;
use vstd::string::*;

use crate::paths::{join, joined, lemma_join_parts, parent, parent_part, parts, plain_name};
use crate::pattern::{copy_opt, opt_view};
use crate::text::copy_of;

verus! {

// ---------------------------------------------------------------------------
// Records
// ---------------------------------------------------------------------------
/// A session: the renames that were done at one time in one directory.
#[derive(Debug, PartialEq, Eq)]
pub struct SessionRecord {
    /// The number of the session.
    pub id: i64,
    /// When it was made, in seconds since the epoch.
    pub created_at: i64,
    /// Where the subtitles were.
    pub subtitle_dir: Option<String>,
    /// The session that it takes back.
    pub undo_of: Option<i64>,
}

/// What a [`SessionRecord`] stands for.
pub struct SessionModel {
    pub id: i64,
    pub created_at: i64,
    pub subtitle_dir: Option<Seq<char>>,
    pub undo_of: Option<i64>,
}

impl View for SessionRecord {
    type V = SessionModel;

    open spec fn view(&self) -> SessionModel {
        SessionModel {
            id: self.id,
            created_at: self.created_at,
            subtitle_dir: opt_view(self.subtitle_dir),
            undo_of: self.undo_of,
        }
    }
}

impl Clone for SessionRecord {
    fn clone(&self) -> (r: Self)
        ensures
            r@ == self@,
    {
        SessionRecord {
            id: self.id,
            created_at: self.created_at,
            subtitle_dir: copy_opt(&self.subtitle_dir),
            undo_of: self.undo_of,
        }
    }
}

/// A rename.
#[derive(Debug, PartialEq, Eq)]
pub struct RenameRecord {
    /// The number of the record.
    pub id: i64,
    /// The session that it belongs to.
    pub session_id: i64,
    /// Where the file is.
    pub dir: String,
    /// Its checksum.
    pub checksum: String,
    /// The unit that it belongs to.
    pub unit_id: Option<String>,
    /// The name that it had.
    pub old_name: String,
    /// The name that it got.
    pub new_name: String,
    /// When it was renamed, in seconds since the epoch.
    pub at: i64,
}

/// What a [`RenameRecord`] stands for.
pub struct RenameModel {
    pub id: i64,
    pub session_id: i64,
    pub dir: Seq<char>,
    pub checksum: Seq<char>,
    pub unit_id: Option<Seq<char>>,
    pub old_name: Seq<char>,
    pub new_name: Seq<char>,
    pub at: i64,
}

impl View for RenameRecord {
    type V = RenameModel;

    open spec fn view(&self) -> RenameModel {
        RenameModel {
            id: self.id,
            session_id: self.session_id,
            dir: self.dir@,
            checksum: self.checksum@,
            unit_id: opt_view(self.unit_id),
            old_name: self.old_name@,
            new_name: self.new_name@,
            at: self.at,
        }
    }
}

impl Clone for RenameRecord {
    fn clone(&self) -> (r: Self)
        ensures
            r@ == self@,
    {
        RenameRecord {
            id: self.id,
            session_id: self.session_id,
            dir: copy_of(self.dir.as_str()),
            checksum: copy_of(self.checksum.as_str()),
            unit_id: copy_opt(&self.unit_id),
            old_name: copy_of(self.old_name.as_str()),
            new_name: copy_of(self.new_name.as_str()),
            at: self.at,
        }
    }
}

/// A copy.
#[derive(Debug, PartialEq, Eq)]
pub struct CopyRecord {
    /// The number of the record.
    pub id: i64,
    /// The session that it belongs to.
    pub session_id: Option<i64>,
    /// When the file was copied, in seconds since the epoch.
    pub at: i64,
    /// Where the source is.
    pub src_dir: String,
    /// Its name.
    pub src_name: String,
    /// Its checksum.
    pub src_checksum: String,
    /// Where the copy is.
    pub dst_dir: String,
    /// Its name.
    pub dst_name: String,
    /// Its checksum.
    pub dst_checksum: String,
    /// The unit that it belongs to.
    pub unit_id: Option<String>,
}

/// What a [`CopyRecord`] stands for.
pub struct CopyModel {
    pub id: i64,
    pub session_id: Option<i64>,
    pub at: i64,
    pub src_dir: Seq<char>,
    pub src_name: Seq<char>,
    pub src_checksum: Seq<char>,
    pub dst_dir: Seq<char>,
    pub dst_name: Seq<char>,
    pub dst_checksum: Seq<char>,
    pub unit_id: Option<Seq<char>>,
}

impl View for CopyRecord {
    type V = CopyModel;

    open spec fn view(&self) -> CopyModel {
        CopyModel {
            id: self.id,
            session_id: self.session_id,
            at: self.at,
            src_dir: self.src_dir@,
            src_name: self.src_name@,
            src_checksum: self.src_checksum@,
            dst_dir: self.dst_dir@,
            dst_name: self.dst_name@,
            dst_checksum: self.dst_checksum@,
            unit_id: opt_view(self.unit_id),
        }
    }
}

impl Clone for CopyRecord {
    fn clone(&self) -> (r: Self)
        ensures
            r@ == self@,
    {
        CopyRecord {
            id: self.id,
            session_id: self.session_id,
            at: self.at,
            src_dir: copy_of(self.src_dir.as_str()),
            src_name: copy_of(self.src_name.as_str()),
            src_checksum: copy_of(self.src_checksum.as_str()),
            dst_dir: copy_of(self.dst_dir.as_str()),
            dst_name: copy_of(self.dst_name.as_str()),
            dst_checksum: copy_of(self.dst_checksum.as_str()),
            unit_id: copy_opt(&self.unit_id),
        }
    }
}

// ---------------------------------------------------------------------------
// Migration
// ---------------------------------------------------------------------------
/// The version of the schema.
pub const CURRENT_VERSION: i64 = 4;

/// A step that brings a database nearer to the schema.
#[derive(Debug, Clone, Copy, PartialEq, Eq, Structural)]
pub enum MigrationStep {
    /// Drop the table `operations`.
    DropOperations,
    /// Drop the table `sessions`.
    DropSessions,
    /// Drop the table `renames`.
    DropRenames,
    /// Drop the table `token_mappings`.
    DropTokenMappings,
    /// Rename the column `working_dir` of `sessions` to `subtitle_dir`.
    RenameWorkingDir,
    /// Make the table `copies` and its indexes.
    AddCopies,
    /// Set the version.
    SetVersion(i64),
}

/// The steps that a database of version `version` needs before the tables that it lacks
/// are made. Versions before 2 are of another shape and are dropped; later ones keep
/// their records.
pub open spec fn migration(version: i64) -> Seq<MigrationStep> {
    if version < 2 {
        seq![
            MigrationStep::DropOperations,
            MigrationStep::DropSessions,
            MigrationStep::DropRenames,
            MigrationStep::DropTokenMappings,
            MigrationStep::SetVersion(CURRENT_VERSION),
        ]
    } else if version == 2 {
        seq![
            MigrationStep::DropTokenMappings,
            MigrationStep::RenameWorkingDir,
            MigrationStep::AddCopies,
            MigrationStep::SetVersion(CURRENT_VERSION),
        ]
    } else if version == 3 {
        seq![
            MigrationStep::RenameWorkingDir,
            MigrationStep::AddCopies,
            MigrationStep::SetVersion(CURRENT_VERSION),
        ]
    } else {
        seq![]
    }
}

/// The steps that a database of version `version` needs.
pub fn migration_steps(version: i64) -> (r: Vec<MigrationStep>)
    ensures
        r@ == migration(version),
{
    let mut v: Vec<MigrationStep> = Vec::new();
    if version < 2 {
        v.push(MigrationStep::DropOperations);
        v.push(MigrationStep::DropSessions);
        v.push(MigrationStep::DropRenames);
        v.push(MigrationStep::DropTokenMappings);
        v.push(MigrationStep::SetVersion(CURRENT_VERSION));
    } else if version == 2 {
        v.push(MigrationStep::DropTokenMappings);
        v.push(MigrationStep::RenameWorkingDir);
        v.push(MigrationStep::AddCopies);
        v.push(MigrationStep::SetVersion(CURRENT_VERSION));
    } else if version == 3 {
        v.push(MigrationStep::RenameWorkingDir);
        v.push(MigrationStep::AddCopies);
        v.push(MigrationStep::SetVersion(CURRENT_VERSION));
    }
    assert(v@ =~= migration(version));
    v
}

/// What a database holds: its version, whether it has sessions and renames, and how the
/// directory of a session is called there.
pub struct Schema {
    pub version: i64,
    pub has_records: bool,
    pub subtitle_dir: bool,
    pub has_copies: bool,
    pub has_token_mappings: bool,
}

impl Schema {
    /// The database after one step.
    pub open spec fn after(self, step: MigrationStep) -> Schema {
        match step {
            MigrationStep::DropOperations => self,
            MigrationStep::DropSessions => Schema { has_records: false, ..self },
            MigrationStep::DropRenames => Schema { has_records: false, ..self },
            MigrationStep::DropTokenMappings => Schema { has_token_mappings: false, ..self },
            MigrationStep::RenameWorkingDir => Schema { subtitle_dir: true, ..self },
            MigrationStep::AddCopies => Schema { has_copies: true, ..self },
            MigrationStep::SetVersion(v) => Schema { version: v, ..self },
        }
    }

    /// The database after all of the steps.
    pub open spec fn after_all(self, steps: Seq<MigrationStep>) -> Schema
        decreases steps.len(),
    {
        if steps.len() == 0 {
            self
        } else {
            self.after_all(steps.drop_last()).after(steps.last())
        }
    }

    /// The database is what its version says it is.
    pub open spec fn consistent(self) -> bool {
        &&& self.version == 2 || self.version == 3 ==> !self.subtitle_dir
        &&& self.version >= 3 ==> !self.has_token_mappings
        &&& self.version >= 4 ==> self.subtitle_dir && self.has_copies
    }
}

/// A migrated database is of the current version or a later one, has no token mappings,
/// and keeps its records from version 2 on. What records it has left name their
/// directory as the schema does.
pub proof fn law_migration(s: Schema)
    requires
        s.consistent(),
    ensures
        ({
            let t = s.after_all(migration(s.version));
            &&& t.version >= CURRENT_VERSION
            &&& t.version == CURRENT_VERSION || t == s
            &&& !t.has_token_mappings
            &&& s.version >= 2 ==> t.has_records == s.has_records
            &&& t.has_records ==> t.subtitle_dir && t.has_copies
            &&& migration(t.version).len() == 0
        }),
{
    reveal_with_fuel(Schema::after_all, 6);
    let m = migration(s.version);
    if s.version < 2 {
        let a = seq![
            MigrationStep::DropOperations,
            MigrationStep::DropSessions,
            MigrationStep::DropRenames,
            MigrationStep::DropTokenMappings,
        ];
        assert(m.drop_last() =~= a);
        assert(a.drop_last() =~= a.take(3));
        assert(a.take(3).drop_last() =~= a.take(2));
        assert(a.take(2).drop_last() =~= a.take(1));
        assert(a.take(1).drop_last() =~= Seq::empty());
    } else if s.version == 2 {
        assert(m.drop_last() =~= m.take(3));
        assert(m.take(3).drop_last() =~= m.take(2));
        assert(m.take(2).drop_last() =~= m.take(1));
        assert(m.take(1).drop_last() =~= Seq::empty());
    } else if s.version == 3 {
        assert(m.drop_last() =~= m.take(2));
        assert(m.take(2).drop_last() =~= m.take(1));
        assert(m.take(1).drop_last() =~= Seq::empty());
    }
}

// ---------------------------------------------------------------------------
// Paths and queries
// ---------------------------------------------------------------------------
/// The file `name` in the directory of this program below `base`.
pub open spec fn own_file(base: Option<Seq<char>>, name: Seq<char>) -> Seq<char> {
    joined(
        joined(
            match base {
                Some(b) => b,
                None => "."@,
            },
            "subtitle-renamer"@,
        ),
        name,
    )
}

/// The file `name` in the directory of this program below `base`, or below the working
/// directory where no base is known.
pub fn own_path(base: Option<String>, name: &str) -> (r: String)
    ensures
        r@ == own_file(opt_view(base), name@),
{
    let base = match base {
        Some(b) => b,
        None => copy_of("."),
    };
    join(join(base.as_str(), "subtitle-renamer").as_str(), name)
}

/// Calls `dirs::data_dir`, the directory for the data of programs. It depends on the
/// machine and the environment, and nothing is said of it. What is not Unicode in its path
/// is replaced.
#[verifier::external_body]
pub(crate) fn data_dir() -> (r: Option<String>) {
    dirs::data_dir().map(|p| p.to_string_lossy().into_owned())
}

/// `path` is where the database is: below the directory that `data_dir` gives, or below the working
/// directory where it gives none.
pub closed spec fn is_state_path(path: Seq<char>) -> bool {
    exists|base: Option<String>| #[trigger]
        call_ensures(data_dir, (), base) && path == own_file(opt_view(base), "state.db"@)
}

/// Where the database is.
pub fn default_state_path() -> (r: String)
    ensures
        is_state_path(r@),
        exists|base: Option<Seq<char>>| r@ == own_file(base, "state.db"@),
{
    let base = data_dir();
    assert(call_ensures(data_dir, (), base));
    let r = own_path(base, "state.db");
    assert(r@ == own_file(opt_view(base), "state.db"@));
    r
}

/// The database of old that becomes the one at `path`, where it is there.
pub open spec fn legacy_file(path: Seq<char>, there: bool) -> Option<Seq<char>> {
    match parent_part(path) {
        Some(d) => if there {
            None
        } else {
            Some(joined(d, "app.db"@))
        },
        None => None,
    }
}

/// The database of old that becomes the one at `path`, if there is one: `app.db` beside
/// it, unless there is something at `path` already, as `there` says.
pub fn legacy_path(path: &str, there: bool) -> (r: Option<String>)
    ensures
        opt_view(r) == legacy_file(path@, there),
{
    match parent(path) {
        Some(d) => if there {
            None
        } else {
            Some(join(d.as_str(), "app.db"))
        },
        None => None,
    }
}

/// `n` question marks, with commas between them.
pub open spec fn marks(n: int) -> Seq<char>
    decreases n,
{
    if n <= 0 {
        Seq::empty()
    } else if n == 1 {
        "?"@
    } else {
        marks(n - 1) + ",?"@
    }
}

/// `n` question marks, with commas between them: places for `n` values in a query.
pub fn placeholders(n: usize) -> (r: String)
    ensures
        r@ == marks(n as int),
{
    let mut s = String::new();
    let mut i: usize = 0;
    while i < n
        invariant
            i <= n,
            s@ == marks(i as int),
        decreases n - i,
    {
        if i == 0 {
            s.append("?");
            assert(s@ =~= "?"@);
        } else {
            s.append(",?");
        }
        i += 1;
    }
    s
}

/// The query for the copies that touch one of `n` directories, newest first. The
/// directories are given twice.
pub open spec fn copies_query_text(n: int) -> Seq<char> {
    "SELECT id, session_id, at, src_dir, src_name, src_checksum, dst_dir, dst_name, dst_checksum, unit_id FROM copies WHERE src_dir IN ("@
        + marks(n) + ") OR dst_dir IN ("@ + marks(n) + ") ORDER BY at DESC, id DESC"@
}

/// The query for the copies that touch one of `n` directories, newest first. The
/// directories are given twice. There is none for no directories.
pub fn copies_query(n: usize) -> (r: Option<String>)
    ensures
        opt_view(r) == if n == 0 {
            None
        } else {
            Some(copies_query_text(n as int))
        },
{
    if n == 0 {
        return None;
    }
    let m = placeholders(n);
    let mut s = copy_of(
        "SELECT id, session_id, at, src_dir, src_name, src_checksum, dst_dir, dst_name, dst_checksum, unit_id FROM copies WHERE src_dir IN (",
    );
    s.append(m.as_str());
    s.append(") OR dst_dir IN (");
    s.append(m.as_str());
    s.append(") ORDER BY at DESC, id DESC");
    Some(s)
}

/// The session that takes back the session `undo_of`, where `original` is what is known
/// of that: it has the directory of that session.
pub open spec fn undo_record(
    id: i64,
    now: i64,
    undo_of: i64,
    original: Option<SessionModel>,
) -> SessionModel {
    SessionModel {
        id,
        created_at: now,
        subtitle_dir: match original {
            Some(s) => s.subtitle_dir,
            None => None,
        },
        undo_of: Some(undo_of),
    }
}

/// What a session that may be absent stands for.
pub open spec fn opt_session(s: Option<SessionRecord>) -> Option<SessionModel> {
    match s {
        Some(s) => Some(s@),
        None => None,
    }
}

/// The session that takes back the session `undo_of`. It has the directory of that
/// session, where that is known.
pub fn undo_session_record(
    id: i64,
    now: i64,
    undo_of: i64,
    original: &Option<SessionRecord>,
) -> (r: SessionRecord)
    ensures
        r@ == undo_record(id, now, undo_of, opt_session(*original)),
{
    SessionRecord {
        id,
        created_at: now,
        subtitle_dir: match original {
            Some(s) => copy_opt(&s.subtitle_dir),
            None => None,
        },
        undo_of: Some(undo_of),
    }
}

/// A database before version 2 loses all of its tables, and no later one loses records. One
/// of the current version or later needs nothing.
pub proof fn law_migration_drops(version: i64)
    ensures
        ({
            let m = migration(version);
            &&& m.contains(MigrationStep::DropOperations) <==> version < 2
            &&& m.contains(MigrationStep::DropSessions) <==> version < 2
            &&& m.contains(MigrationStep::DropRenames) <==> version < 2
            &&& m.contains(MigrationStep::DropTokenMappings) <==> version < 3
            &&& m.contains(MigrationStep::RenameWorkingDir) <==> 2 <= version < 4
            &&& m.contains(MigrationStep::AddCopies) <==> 2 <= version < 4
            &&& m.len() == 0 <==> version >= 4
            &&& m.len() > 0 ==> m.last() == MigrationStep::SetVersion(4)
        }),
{
    let m = migration(version);
    if version < 2 {
        assert(m[0] == MigrationStep::DropOperations && m[1] == MigrationStep::DropSessions);
        assert(m[2] == MigrationStep::DropRenames && m[3] == MigrationStep::DropTokenMappings);
    } else if version == 2 {
        assert(m[0] == MigrationStep::DropTokenMappings && m[1] == MigrationStep::RenameWorkingDir);
        assert(m[2] == MigrationStep::AddCopies);
    } else if version == 3 {
        assert(m[0] == MigrationStep::RenameWorkingDir && m[1] == MigrationStep::AddCopies);
    }
}

/// The files of this program are in a directory of its own below the base, which is the
/// working directory where none is known.
pub proof fn law_own_file(base: Seq<char>, name: Seq<char>)
    requires
        plain_name(name),
    ensures
        parts(own_file(Some(base), name)) == parts(base).push("subtitle-renamer"@).push(name),
        own_file(None, name) == own_file(Some("."@), name),
{
    reveal_strlit("subtitle-renamer");
    let own = "subtitle-renamer"@;
    assert(own.len() == 16 && own[0] == 's');
    assert(!own.contains('/'));
    lemma_join_parts(base, own);
    lemma_join_parts(joined(base, own), name);
}

/// The database of old is `app.db` beside the new one, and counts only where that is not
/// there.
pub proof fn law_legacy_file(path: Seq<char>, there: bool)
    ensures
        there ==> legacy_file(path, there) is None,
        parent_part(path) is None ==> legacy_file(path, there) is None,
        !there && parent_part(path) is Some ==> legacy_file(path, there) == Some(
            joined(parent_part(path)->0, "app.db"@),
        ),
{
}

/// The places for values are as many question marks, with a comma between each two.
pub proof fn law_marks(n: int)
    requires
        n > 0,
    ensures
        marks(0).len() == 0,
        marks(n).len() == 2 * n - 1,
        forall|i: int| 0 <= i < 2 * n - 1 ==> #[trigger] marks(n)[i] == if i % 2 == 0 {
            '?'
        } else {
            ','
        },
    decreases n,
{
    reveal_strlit("?");
    reveal_strlit(",?");
    assert("?"@ =~= seq!['?']);
    assert(",?"@ =~= seq![',', '?']);
    if n > 1 {
        law_marks(n - 1);
        assert forall|i: int| 0 <= i < 2 * n - 1 implies #[trigger] marks(n)[i] == if i % 2 == 0 {
            '?'
        } else {
            ','
        } by {
            if i < 2 * n - 3 {
                assert(marks(n)[i] == marks(n - 1)[i]);
            } else {
                assert(marks(n)[i] == ",?"@[i - (2 * n - 3)]);
            }
        }
    }
}

/// Copies are asked for by either directory, with a place for each of the directories at
/// both, the newest first.
pub proof fn law_copies_query(n: int)
    ensures
        copies_query_text(n)
            == "SELECT id, session_id, at, src_dir, src_name, src_checksum, dst_dir, dst_name, dst_checksum, unit_id FROM copies WHERE src_dir IN ("@
            + marks(n) + ") OR dst_dir IN ("@ + marks(n) + ") ORDER BY at DESC, id DESC"@,
{
}

/// A session that takes another back says which, and has its directory where that is known.
pub proof fn law_undo_record(id: i64, now: i64, undo_of: i64, original: Option<SessionModel>)
    ensures
        ({
            let r = undo_record(id, now, undo_of, original);
            &&& r.id == id
            &&& r.created_at == now
            &&& r.undo_of == Some(undo_of)
            &&& original is None ==> r.subtitle_dir is None
            &&& original matches Some(s) ==> r.subtitle_dir == s.subtitle_dir
        }),
{
}

/// The database is a file of its own in the directory of this program, wherever that is.
pub proof fn law_state_path(path: Seq<char>)
    requires
        is_state_path(path),
    ensures
        exists|base: Seq<char>| parts(path) == #[trigger] parts(base).push(
            "subtitle-renamer"@,
        ).push("state.db"@),
{
    let base = choose|base: Option<String>| #[trigger]
        call_ensures(data_dir, (), base) && path == own_file(opt_view(base), "state.db"@);
    let name = "state.db"@;
    reveal_strlit("state.db");
    assert(name.len() == 8);
    assert(name[0] == 's');
    assert(!name.contains('/'));
    let b = match opt_view(base) {
        Some(b) => b,
        None => "."@,
    };
    law_own_file(b, name);
    assert(parts(path) == parts(b).push("subtitle-renamer"@).push(name));
}

} // verus!
