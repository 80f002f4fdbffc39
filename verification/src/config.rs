//! Setting up a backend: what its arguments ask for.
//!
//! The root must not be empty. Without a mime database argument,
//! `/etc/mime.types` is tried and silently dropped if it cannot be read; an
//! empty argument disables mime-type detection; any other path must name a
//! readable database.

use vstd::prelude::*;
use crate::mime::MimeDb;

verus! {

/// Where the mime table of a backend comes from.
pub enum MimeSource {
    /// `/etc/mime.types`, if it can be read; no table otherwise.
    Default,
    /// No table: mime-type detection is off.
    Disabled,
    /// The file at this path, which must be readable.
    File(String),
}

/// What a backend is set up with.
pub struct RootPlan {
    /// The directory that files are served from.
    pub path: String,
    /// Where the mime table comes from.
    pub mimes: MimeSource,
    /// Whether the root is opened once at setup so that each request is
    /// resolved below it one segment at a time, never following a symlink.
    pub open_root_dir: bool,
}

/// The mime database tried when none is named.
pub open spec fn default_mime_db_path() -> Seq<char> {
    "/etc/mime.types"@
}

/// The message that refuses an empty root for the backend `name`.
pub open spec fn empty_path_message(name: Seq<char>) -> Seq<char> {
    "fileserver: can't create "@ + name + " with an empty path"@
}

/// Checks the arguments of a new backend named `name`, rooted at `path`:
/// an empty root is refused; the mime source follows `mime_db`; the root is
/// opened at setup unless `follow_links` is set.
pub fn plan_root(name: &str, path: &str, mime_db: Option<&str>, follow_links: bool) -> (r: Result<
    RootPlan,
    String,
>)
    ensures
        r is Err <==> path@.len() == 0,
        r matches Err(e) ==> e@ == empty_path_message(name@),
        r matches Ok(p) ==> {
            &&& p.path@ == path@
            &&& p.open_root_dir == !follow_links
            &&& mime_db is None ==> p.mimes is Default
            &&& mime_db matches Some(m) ==> (m@.len() == 0 ==> p.mimes is Disabled)
            &&& mime_db matches Some(m) ==> (m@.len() > 0 ==> (p.mimes matches MimeSource::File(f)
                && f@ == m@))
        },
{
    if path.unicode_len() == 0 {
        let mut msg = String::from_str("fileserver: can't create ");
        msg.append(name);
        msg.append(" with an empty path");
        return Err(msg);
    }
    let mimes = match mime_db {
        None => MimeSource::Default,
        Some(m) => if m.unicode_len() == 0 {
            MimeSource::Disabled
        } else {
            MimeSource::File(String::from_str(m))
        },
    };
    Ok(RootPlan { path: String::from_str(path), mimes, open_root_dir: !follow_links })
}

impl MimeSource {
    /// The mime database file to read, if any.
    pub fn path(&self) -> (r: Option<String>)
        ensures
            self is Default ==> (r matches Some(p) && p@ == default_mime_db_path()),
            self is Disabled ==> r is None,
            self matches MimeSource::File(f) ==> (r matches Some(p) && p@ == f@),
    {
        match self {
            MimeSource::Default => Some(String::from_str("/etc/mime.types")),
            MimeSource::Disabled => None,
            MimeSource::File(f) => Some(f.clone()),
        }
    }

    /// The mime table of the backend, given what reading the database gave:
    /// a failure is dropped for the default database and refuses the setup
    /// for a named one.
    pub fn settle(&self, loaded: Result<MimeDb, String>) -> (r: Result<Option<MimeDb>, String>)
        ensures
            self is Disabled ==> r matches Ok(None),
            self is Default ==> match loaded {
                Ok(db) => (r matches Ok(Some(d)) && d@ == db@),
                Err(_) => r matches Ok(None),
            },
            self is File ==> match loaded {
                Ok(db) => (r matches Ok(Some(d)) && d@ == db@),
                Err(e) => (r matches Err(e2) && e2@ == e@),
            },
    {
        match self {
            MimeSource::Disabled => Ok(None),
            MimeSource::Default => match loaded {
                Ok(db) => Ok(Some(db)),
                Err(_) => Ok(None),
            },
            MimeSource::File(_) => match loaded {
                Ok(db) => Ok(Some(db)),
                Err(e) => Err(e),
            },
        }
    }
}

} // verus!
