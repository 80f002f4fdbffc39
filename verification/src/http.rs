//! How the backend answers a request for a file.
//!
//! Only `GET` and `HEAD` are served, and the method is checked before any
//! lookup on disk. A missing file is answered 404 and an unreadable one 403.
//! `etag`/`if-none-match` and `last-modified`/`if-modified-since` let a
//! client revalidate, with a 304 and no body.

use vstd::prelude::*;
use crate::dates::{format_utc, parse_rfc2822, rfc2822_instant, utc_format_text};
use crate::mime::MimeDb;
use crate::text::{chars_of, decimal, push_char, push_decimal, str_eq};
use crate::url_path::{
    assemble_file_path, clamp_segments, file_extension, open_steps, spec_assemble, spec_clamp,
    spec_extension, spec_open_steps, spec_strip_query, strip_query, views,
};

verus! {

/// The text of an optional string slice.
pub open spec fn opt_text(o: Option<&str>) -> Option<Seq<char>> {
    match o {
        Some(s) => Some(s@),
        None => None,
    }
}

// ---------------------------------------------------------------------------
// Methods
// ---------------------------------------------------------------------------

/// The two request methods that are served.
#[derive(PartialEq, Eq, Structural, Clone, Copy, Debug)]
pub enum Method {
    Get,
    Head,
}

/// The method a request is served with, if it is served at all.
pub open spec fn spec_method(method: Option<Seq<char>>) -> Option<Method> {
    match method {
        Some(m) => if m == "GET"@ {
            Some(Method::Get)
        } else if m == "HEAD"@ {
            Some(Method::Head)
        } else {
            None
        },
        None => None,
    }
}

/// Which of `GET` and `HEAD` the request method is; `None` for any other
/// method, or none.
pub fn check_method(method: Option<&str>) -> (r: Option<Method>)
    ensures
        r == spec_method(opt_text(method)),
{
    match method {
        Some(m) => if str_eq(m, "GET") {
            Some(Method::Get)
        } else if str_eq(m, "HEAD") {
            Some(Method::Head)
        } else {
            None
        },
        None => None,
    }
}

// ---------------------------------------------------------------------------
// Starting a request
// ---------------------------------------------------------------------------

/// What to do first with a request.
pub enum Action<'a> {
    /// Answer at once with this status; nothing is looked up on disk.
    Reject(u16),
    /// Look the file up: descend through `dirs` below the root, then open
    /// `file` in the last of them.
    Lookup { method: Method, dirs: Vec<&'a str>, file: &'a str },
}

/// The path on disk that a request names, and what to do first.
pub struct RequestStart<'a> {
    pub disk_path: String,
    pub action: Action<'a>,
}

/// Starts a request for `url` with `method` on a backend rooted at
/// `root_path`: the query string is dropped, the path is resolved under the
/// root, and a method other than `GET` or `HEAD` is answered 405 before any
/// lookup.
pub fn start_request<'a>(root_path: &str, url: &'a str, method: Option<&str>) -> (r: RequestStart<'a>)
    requires
        root_path@.len() > 0,
    ensures
        r.disk_path@ == spec_assemble(root_path@, spec_strip_query(url@)),
        spec_method(opt_text(method)) is None ==> r.action == Action::<'a>::Reject(405),
        spec_method(opt_text(method)) matches Some(m) ==> (r.action matches Action::Lookup {
            method: m2,
            dirs,
            file,
        } && m2 == m && (views(dirs@), file@) == spec_open_steps(
            spec_clamp(spec_strip_query(url@)),
        )),
{
    let path = strip_query(url);
    let disk_path = assemble_file_path(root_path, path);
    match check_method(method) {
        None => RequestStart { disk_path, action: Action::Reject(405) },
        Some(m) => {
            let segs = clamp_segments(path);
            let (dirs, file) = open_steps(&segs);
            RequestStart { disk_path, action: Action::Lookup { method: m, dirs, file } }
        },
    }
}

/// Why a file could not be opened.
#[derive(PartialEq, Eq, Structural, Clone, Copy, Debug)]
pub enum OpenFailure {
    NotFound,
    PermissionDenied,
    Other,
}

/// The status that answers a failed open: 404 for a missing file, 403 for
/// an unreadable one; `None` for any other failure, which is an error of
/// the backend rather than an answer.
pub fn open_failure_status(failure: OpenFailure) -> (r: Option<u16>)
    ensures
        r == match failure {
            OpenFailure::NotFound => Some(404u16),
            OpenFailure::PermissionDenied => Some(403u16),
            OpenFailure::Other => None,
        },
{
    match failure {
        OpenFailure::NotFound => Some(404),
        OpenFailure::PermissionDenied => Some(403),
        OpenFailure::Other => None,
    }
}

// ---------------------------------------------------------------------------
// Revalidation
// ---------------------------------------------------------------------------

/// An instant: seconds since the Unix epoch and nanoseconds past that
/// second.
#[derive(PartialEq, Eq, Structural, Clone, Copy, Debug)]
pub struct Instant {
    pub secs: i64,
    pub nanos: u32,
}

/// Whether the date `t` is at or after the modification time `m`, to the
/// second: `last-modified` is sent in whole seconds, so a client that sends
/// it back must count as current even when `m` has a fraction of a second.
pub open spec fn at_or_after(t: (i64, u32), m: Instant) -> bool {
    t.0 >= m.secs
}

/// The entity tag of a file whose metadata digest is `digest`: the digest in
/// decimal, between double quotes.
pub open spec fn spec_etag(digest: u64) -> Seq<char> {
    seq!['"'] + decimal(digest as nat) + seq!['"']
}

/// The entity tag of a file whose metadata digest is `digest`.
pub fn etag_from_digest(digest: u64) -> (r: String)
    ensures
        r@ == spec_etag(digest),
{
    let mut out = String::new();
    push_char(&mut out, '"');
    push_decimal(&mut out, digest);
    push_char(&mut out, '"');
    assert(out@ =~= spec_etag(digest));
    out
}

/// Whether an `if-none-match` value names the entity tag `etag`, either as
/// it is or as a weak tag (`W/` before it).
pub open spec fn etag_matches(inm: Seq<char>, etag: Seq<char>) -> bool {
    inm == etag || (inm.len() >= 2 && inm[0] == 'W' && inm[1] == '/' && inm.skip(2) == etag)
}

/// Whether the `if-none-match` value `inm` names the entity tag `etag`.
pub fn if_none_match_hits(inm: &str, etag: &str) -> (r: bool)
    ensures
        r == etag_matches(inm@, etag@),
{
    if str_eq(inm, etag) {
        return true;
    }
    let cs = chars_of(inm);
    if cs.len() >= 2 && cs[0] == 'W' && cs[1] == '/' {
        let rest = inm.substring_char(2, cs.len());
        assert(rest@ =~= inm@.skip(2));
        str_eq(rest, etag)
    } else {
        false
    }
}

/// Whether a request can be answered 304, given its `if-none-match` value,
/// the file's entity tag, the file's modification instant and what reading
/// its `if-modified-since` value gave (`None` when the header is absent).
///
/// `if-none-match`, when present, decides alone; otherwise the request is
/// answered 304 when the date it sends is at or after the modification,
/// compared in whole seconds.
pub open spec fn spec_not_modified(
    inm: Option<Seq<char>>,
    etag: Seq<char>,
    modified: Option<Instant>,
    ims: Option<Option<(i64, u32)>>,
) -> bool {
    match inm {
        Some(v) => etag_matches(v, etag),
        None => match (modified, ims) {
            (Some(m), Some(Some(t))) => at_or_after(t, m),
            _ => false,
        },
    }
}

/// Whether a request can be answered 304, given the instant that its
/// `if-modified-since` value was read as (`ims_read`: `None` when the header
/// is absent, `Some(None)` when it is no date).
pub fn not_modified_given(
    if_none_match: Option<&str>,
    etag: &str,
    modified: Option<Instant>,
    ims_read: Option<Option<(i64, u32)>>,
) -> (r: bool)
    ensures
        r == spec_not_modified(opt_text(if_none_match), etag@, modified, ims_read),
{
    match if_none_match {
        Some(inm) => if_none_match_hits(inm, etag),
        None => match (modified, ims_read) {
            (Some(m), Some(Some(t))) => t.0 >= m.secs,
            _ => false,
        },
    }
}

/// What reading an optional `if-modified-since` value gives.
pub open spec fn ims_reading(ims: Option<&str>) -> Option<Option<(i64, u32)>> {
    match ims {
        Some(s) => Some(rfc2822_instant(s@)),
        None => None,
    }
}

/// Whether a request can be answered 304, reading its `if-modified-since`
/// value as an RFC 2822 date only where it matters.
pub fn is_not_modified(
    if_none_match: Option<&str>,
    etag: &str,
    modified: Option<Instant>,
    if_modified_since: Option<&str>,
) -> (r: bool)
    ensures
        r == spec_not_modified(opt_text(if_none_match), etag@, modified, ims_reading(if_modified_since)),
{
    if if_none_match.is_some() || modified.is_none() {
        return not_modified_given(if_none_match, etag, modified, None);
    }
    let read = match if_modified_since {
        Some(s) => Some(parse_rfc2822(s)),
        None => None,
    };
    not_modified_given(if_none_match, etag, modified, read)
}

// ---------------------------------------------------------------------------
// The response
// ---------------------------------------------------------------------------

/// What the backend knows of an opened file.
#[derive(Clone, Copy, Debug)]
pub struct FileFacts {
    /// Its length in bytes.
    pub len: u64,
    /// When it was last modified, if that can be read.
    pub modified: Option<Instant>,
    /// A digest of its inode, size and modification time, computed by the
    /// caller with std's hasher; the library only writes it as the etag.
    pub digest: u64,
}

/// The response to a request for an opened file.
pub struct ResponsePlan {
    /// 200, or 304 when the client's copy is current.
    pub status: u16,
    /// The headers to set, in order.
    pub headers: Vec<(String, String)>,
    /// `Some(n)` when a body of the file's first `n` bytes follows.
    pub body_len: Option<u64>,
}

/// The texts of a sequence of headers.
pub open spec fn header_texts(h: Seq<(String, String)>) -> Seq<(Seq<char>, Seq<char>)> {
    h.map_values(|p: (String, String)| (p.0@, p.1@))
}

/// The format of `last-modified` dates.
pub open spec fn http_date_pattern() -> Seq<char> {
    "%a, %d %b %Y %H:%M:%S GMT"@
}

/// The `last-modified` date of a file modified at `modified`, as `chrono`
/// writes it, if it can.
pub open spec fn last_modified_reading(modified: Option<Instant>) -> Option<Seq<char>> {
    match modified {
        Some(m) => utc_format_text(m.secs, m.nanos, http_date_pattern()),
        None => None,
    }
}

/// The `content-type` header: only for a nonempty file whose name has an
/// extension that the mime table maps.
pub open spec fn content_type_headers(
    len: u64,
    disk_path: Seq<char>,
    mimes: Option<Map<Seq<char>, Seq<char>>>,
) -> Seq<(Seq<char>, Seq<char>)> {
    if len > 0 {
        match (spec_extension(disk_path), mimes) {
            (Some(e), Some(db)) => if db.dom().contains(e) {
                seq![("content-type"@, db[e])]
            } else {
                seq![]
            },
            _ => seq![],
        }
    } else {
        seq![]
    }
}

/// The headers of a response for a file of `len` bytes whose metadata digest
/// is `digest`: `content-length` and `etag`, then `last-modified` when its
/// date text is given, then `content-type` where it applies.
pub open spec fn spec_headers_given(
    len: u64,
    digest: u64,
    last_modified: Option<Seq<char>>,
    disk_path: Seq<char>,
    mimes: Option<Map<Seq<char>, Seq<char>>>,
) -> Seq<(Seq<char>, Seq<char>)> {
    seq![("content-length"@, decimal(len as nat)), ("etag"@, spec_etag(digest))] + match last_modified {
        Some(t) => seq![("last-modified"@, t)],
        None => seq![],
    } + content_type_headers(len, disk_path, mimes)
}

/// The headers of a response for an opened file.
pub open spec fn spec_headers(
    file: FileFacts,
    disk_path: Seq<char>,
    mimes: Option<Map<Seq<char>, Seq<char>>>,
) -> Seq<(Seq<char>, Seq<char>)> {
    spec_headers_given(file.len, file.digest, last_modified_reading(file.modified), disk_path, mimes)
}

/// The view of an optional mime table.
pub open spec fn mimes_view(mimes: Option<&MimeDb>) -> Option<Map<Seq<char>, Seq<char>>> {
    match mimes {
        Some(db) => Some(db@),
        None => None,
    }
}

/// The text of an optional string.
pub open spec fn opt_string_text(o: Option<String>) -> Option<Seq<char>> {
    match o {
        Some(s) => Some(s@),
        None => None,
    }
}

/// The `last-modified` date of a file modified at `modified`, in the form
/// `Sun, 06 Nov 1994 08:49:37 GMT`.
pub fn last_modified_text(modified: Instant) -> (r: Option<String>)
    ensures
        opt_string_text(r) == last_modified_reading(Some(modified)),
{
    format_utc(modified.secs, modified.nanos, "%a, %d %b %Y %H:%M:%S GMT")
}

/// The headers of a response for a file of `len` bytes at `disk_path`,
/// whose metadata digest is `digest` and whose `last-modified` date text,
/// if any, is `last_modified`.
pub fn response_headers(
    len: u64,
    digest: u64,
    last_modified: Option<&str>,
    disk_path: &str,
    mimes: Option<&MimeDb>,
) -> (r: Vec<(String, String)>)
    ensures
        header_texts(r@) == spec_headers_given(
            len,
            digest,
            opt_text(last_modified),
            disk_path@,
            mimes_view(mimes),
        ),
{
    let mut headers: Vec<(String, String)> = Vec::new();
    let mut len_text = String::new();
    push_decimal(&mut len_text, len);
    headers.push((String::from_str("content-length"), len_text));
    headers.push((String::from_str("etag"), etag_from_digest(digest)));
    assert(header_texts(headers@) =~= seq![
        ("content-length"@, decimal(len as nat)),
        ("etag"@, spec_etag(digest)),
    ]);
    let ghost base = header_texts(headers@);

    if let Some(t) = last_modified {
        headers.push((String::from_str("last-modified"), String::from_str(t)));
    }
    let ghost with_date = header_texts(headers@);
    assert(with_date =~= base + match opt_text(last_modified) {
        Some(t) => seq![("last-modified"@, t)],
        None => Seq::<(Seq<char>, Seq<char>)>::empty(),
    });

    if len > 0 {
        if let Some(ext) = file_extension(disk_path) {
            if let Some(db) = mimes {
                if let Some(ct) = db.get(ext.as_str()) {
                    headers.push((String::from_str("content-type"), String::from_str(ct)));
                }
            }
        }
    }
    assert(header_texts(headers@) =~= with_date + content_type_headers(
        len,
        disk_path@,
        mimes_view(mimes),
    ));
    headers
}

/// Answers a request for the opened file at `disk_path`: 304 with no body
/// when the client's copy is current, otherwise 200 with the file as body
/// for `GET` and no body for `HEAD`.
pub fn plan_response(
    method: Method,
    file: &FileFacts,
    if_none_match: Option<&str>,
    if_modified_since: Option<&str>,
    disk_path: &str,
    mimes: Option<&MimeDb>,
) -> (r: ResponsePlan)
    ensures
        r.status == if spec_not_modified(
            opt_text(if_none_match),
            spec_etag(file.digest),
            file.modified,
            ims_reading(if_modified_since),
        ) {
            304u16
        } else {
            200u16
        },
        r.body_len == if r.status == 200 && method == Method::Get {
            Some(file.len)
        } else {
            None
        },
        header_texts(r.headers@) == spec_headers(*file, disk_path@, mimes_view(mimes)),
{
    let etag = etag_from_digest(file.digest);
    let nm = is_not_modified(if_none_match, etag.as_str(), file.modified, if_modified_since);
    let status: u16 = if nm { 304 } else { 200 };
    let body_len = if !nm && method == Method::Get { Some(file.len) } else { None };
    let date = match file.modified {
        Some(m) => last_modified_text(m),
        None => None,
    };
    let headers = match &date {
        Some(t) => response_headers(file.len, file.digest, Some(t.as_str()), disk_path, mimes),
        None => response_headers(file.len, file.digest, None, disk_path, mimes),
    };
    ResponsePlan { status, headers, body_len }
}

// ---------------------------------------------------------------------------
// Laws of revalidation
// ---------------------------------------------------------------------------

/// An `if-none-match` value, when present, decides alone: the
/// `if-modified-since` date and the modification time play no part.
pub proof fn lemma_if_none_match_decides(
    inm: Seq<char>,
    etag: Seq<char>,
    modified: Option<Instant>,
    ims: Option<Option<(i64, u32)>>,
)
    ensures
        spec_not_modified(Some(inm), etag, modified, ims) == etag_matches(inm, etag),
{
}

/// A weak tag (`W/` before the entity tag) matches as the tag itself does.
pub proof fn lemma_weak_etag_matches(etag: Seq<char>)
    ensures
        etag_matches(etag, etag),
        etag_matches(seq!['W', '/'] + etag, etag),
{
    assert((seq!['W', '/'] + etag).skip(2) =~= etag);
}

/// An `if-modified-since` date in the same second as the modification time
/// gets a 304, whatever fraction of a second either has, as does any later
/// one; one in an earlier second does not. In particular a client that sends
/// back the `last-modified` date (whole seconds) gets a 304.
pub proof fn lemma_modified_since_boundary(etag: Seq<char>, m: Instant, t: (i64, u32))
    ensures
        spec_not_modified(None, etag, Some(m), Some(Some((m.secs, 0u32)))),
        spec_not_modified(None, etag, Some(m), Some(Some((m.secs, m.nanos)))),
        spec_not_modified(None, etag, Some(m), Some(Some(t))) <==> t.0 >= m.secs,
{
}

/// Only `GET` and `HEAD` are served, each as itself; any other method, or
/// none, is refused.
pub proof fn lemma_only_get_and_head(m: Seq<char>)
    ensures
        spec_method(Some(m)) == Some(Method::Get) <==> m == "GET"@,
        spec_method(Some(m)) == Some(Method::Head) <==> m == "HEAD"@,
        spec_method(Some(m)) is None <==> (m != "GET"@ && m != "HEAD"@),
        spec_method(None) is None,
{
    reveal_strlit("GET");
    reveal_strlit("HEAD");
    assert("GET"@.len() != "HEAD"@.len());
}

/// An `if-none-match` value names the entity tag exactly when it is the tag
/// itself or the tag with `W/` before it; any other value does not.
pub proof fn lemma_etag_match_exact(inm: Seq<char>, etag: Seq<char>)
    ensures
        etag_matches(inm, etag) <==> (inm == etag || inm == seq!['W', '/'] + etag),
{
    let w = seq!['W', '/'] + etag;
    assert(w.skip(2) =~= etag);
    assert(w[0] == 'W' && w[1] == '/');
    if inm.len() >= 2 && inm[0] == 'W' && inm[1] == '/' && inm.skip(2) == etag {
        assert(inm =~= w);
    }
}

/// Two files whose digests differ have different entity tags, so a client
/// holding the tag of one never gets a 304 for the other by `if-none-match`.
pub proof fn lemma_distinct_digests_do_not_match(d1: u64, d2: u64)
    requires
        d1 != d2,
    ensures
        !etag_matches(spec_etag(d1), spec_etag(d2)),
        !etag_matches(seq!['W', '/'] + spec_etag(d1), spec_etag(d2)),
{
    lemma_etag_match_exact(spec_etag(d1), spec_etag(d2));
    lemma_etag_match_exact(seq!['W', '/'] + spec_etag(d1), spec_etag(d2));
    crate::text::lemma_decimal_reads_back(d1 as nat);
    crate::text::lemma_decimal_reads_back(d2 as nat);
    let a = spec_etag(d1);
    let b = spec_etag(d2);
    if a == b {
        assert(a.subrange(1, a.len() - 1) =~= decimal(d1 as nat));
        assert(b.subrange(1, b.len() - 1) =~= decimal(d2 as nat));
    }
    let wa = seq!['W', '/'] + a;
    if wa == seq!['W', '/'] + b {
        assert(wa.skip(2) =~= a);
        assert((seq!['W', '/'] + b).skip(2) =~= b);
        assert(a.subrange(1, a.len() - 1) =~= decimal(d1 as nat));
        assert(b.subrange(1, b.len() - 1) =~= decimal(d2 as nat));
    }
    assert(a[0] == '"');
    assert(wa[0] == 'W');
    if wa == b {
        assert(b[0] == '"');
    }
}

} // verus!
