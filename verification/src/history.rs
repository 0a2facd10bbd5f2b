//! The history of renames alone, which came before copies were recorded.

use vstd::prelude::*;
use vstd::string::*;

use crate::paths::parts;
use crate::pattern::{copy_opt, opt_view};
use crate::state::{data_dir, law_own_file, own_file, own_path};

verus! {

/// The version of the schema.
pub const CURRENT_VERSION: i64 = 2;

/// A session: the renames that were done at one time.
#[derive(Debug, PartialEq, Eq)]
pub struct SessionRecord {
    /// The number of the session.
    pub id: i64,
    /// When it was made, in seconds since the epoch.
    pub created_at: i64,
    /// The directory that was worked in.
    pub working_dir: Option<String>,
    /// The session that it takes back.
    pub undo_of: Option<i64>,
}

/// What a [`SessionRecord`] stands for.
pub struct SessionModel {
    pub id: i64,
    pub created_at: i64,
    pub working_dir: Option<Seq<char>>,
    pub undo_of: Option<i64>,
}

impl View for SessionRecord {
    type V = SessionModel;

    open spec fn view(&self) -> SessionModel {
        SessionModel {
            id: self.id,
            created_at: self.created_at,
            working_dir: opt_view(self.working_dir),
            undo_of: self.undo_of,
        }
    }
}

impl Clone for SessionRecord {
    fn clone(&self) -> (r: Self)
        ensures
            r@ == self@,
    {
        SessionRecord {
            id: self.id,
            created_at: self.created_at,
            working_dir: copy_opt(&self.working_dir),
            undo_of: self.undo_of,
        }
    }
}

/// Whether a database of version `version` is of another shape and has to be made anew.
pub fn needs_rebuild(version: i64) -> (r: bool)
    ensures
        r == (version < CURRENT_VERSION),
        r <==> version < 2,
{
    version < CURRENT_VERSION
}

/// `path` is where the database is: below the directory that `data_dir` gives, or below the working
/// directory where it gives none.
pub closed spec fn is_db_path(path: Seq<char>) -> bool {
    exists|base: Option<String>| #[trigger]
        call_ensures(data_dir, (), base) && path == own_file(opt_view(base), "history.db"@)
}

/// Where the database is.
pub fn default_db_path() -> (r: String)
    ensures
        is_db_path(r@),
        exists|base: Option<Seq<char>>| r@ == own_file(base, "history.db"@),
{
    let base = data_dir();
    assert(call_ensures(data_dir, (), base));
    let r = own_path(base, "history.db");
    assert(r@ == own_file(opt_view(base), "history.db"@));
    r
}

/// The database is a file of its own in the directory of this program, wherever that is.
pub proof fn law_db_path(path: Seq<char>)
    requires
        is_db_path(path),
    ensures
        exists|base: Seq<char>| parts(path) == #[trigger] parts(base).push(
            "subtitle-renamer"@,
        ).push("history.db"@),
{
    let base = choose|base: Option<String>| #[trigger]
        call_ensures(data_dir, (), base) && path == own_file(opt_view(base), "history.db"@);
    let name = "history.db"@;
    reveal_strlit("history.db");
    assert(name.len() == 10);
    assert(name[0] == 'h');
    assert(!name.contains('/'));
    let b = match opt_view(base) {
        Some(b) => b,
        None => "."@,
    };
    law_own_file(b, name);
    assert(parts(path) == parts(b).push("subtitle-renamer"@).push(name));
}

} // verus!
