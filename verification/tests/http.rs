use vmod_fileserver::http::{
    check_method, etag_from_digest, last_modified_text, response_headers, if_none_match_hits, is_not_modified, not_modified_given,
    open_failure_status, plan_response, start_request, Action, FileFacts, Instant, Method,
    OpenFailure,
};
use vmod_fileserver::mime::parse_mime_lines;
use vmod_fileserver::text::decimal_string;

#[test]
fn only_get_and_head_are_served() {
    assert_eq!(check_method(Some("GET")), Some(Method::Get));
    assert_eq!(check_method(Some("HEAD")), Some(Method::Head));
    assert_eq!(check_method(Some("POST")), None);
    assert_eq!(check_method(Some("get")), None);
    assert_eq!(check_method(Some("")), None);
    assert_eq!(check_method(None), None);
}

#[test]
fn rejected_method_gets_405_without_lookup() {
    let start = start_request("/srv", "/a/b.txt?x=1", Some("DELETE"));
    assert_eq!(start.disk_path, "/srv/a/b.txt");
    assert!(matches!(start.action, Action::Reject(405)));
}

#[test]
fn accepted_method_looks_up_the_clamped_path() {
    let start = start_request("/srv", "/a/../b/./c.txt?v=/../d", Some("GET"));
    assert_eq!(start.disk_path, "/srv/b/c.txt");
    match start.action {
        Action::Lookup { method, dirs, file } => {
            assert_eq!(method, Method::Get);
            assert_eq!(dirs, vec!["b"]);
            assert_eq!(file, "c.txt");
        }
        Action::Reject(_) => panic!("GET must be looked up"),
    }
}

#[test]
fn failed_opens() {
    assert_eq!(open_failure_status(OpenFailure::NotFound), Some(404));
    assert_eq!(open_failure_status(OpenFailure::PermissionDenied), Some(403));
    assert_eq!(open_failure_status(OpenFailure::Other), None);
}

#[test]
fn decimal_notation() {
    assert_eq!(decimal_string(0), "0");
    assert_eq!(decimal_string(7), "7");
    assert_eq!(decimal_string(10), "10");
    assert_eq!(decimal_string(1234567890), "1234567890");
    assert_eq!(decimal_string(u64::MAX), u64::MAX.to_string());
}

#[test]
fn etag_is_the_quoted_digest() {
    assert_eq!(etag_from_digest(0), "\"0\"");
    assert_eq!(etag_from_digest(u64::MAX), format!("\"{}\"", u64::MAX));
}

#[test]
fn if_none_match_strong_and_weak() {
    assert!(if_none_match_hits("\"42\"", "\"42\""));
    assert!(if_none_match_hits("W/\"42\"", "\"42\""));
    assert!(!if_none_match_hits("w/\"42\"", "\"42\""));
    assert!(!if_none_match_hits("\"43\"", "\"42\""));
    assert!(!if_none_match_hits("W/", "\"42\""));
    assert!(!if_none_match_hits("*", "\"42\""));
}

#[test]
fn if_none_match_takes_precedence() {
    let m = Some(Instant { secs: 100, nanos: 0 });
    // a matching date does not help a non-matching tag
    assert!(!not_modified_given(Some("\"1\""), "\"2\"", m, Some(Some((200, 0)))));
    assert!(not_modified_given(Some("\"2\""), "\"2\"", None, None));
}

#[test]
fn modified_since_compares_instants() {
    let m = Some(Instant { secs: 100, nanos: 500 });
    assert!(not_modified_given(None, "\"x\"", m, Some(Some((100, 500)))));
    assert!(not_modified_given(None, "\"x\"", m, Some(Some((101, 0)))));
    // the date is compared in whole seconds: last-modified carries no fraction
    assert!(not_modified_given(None, "\"x\"", m, Some(Some((100, 0)))));
    assert!(!not_modified_given(None, "\"x\"", m, Some(Some((99, 999_999_999)))));
    assert!(!not_modified_given(None, "\"x\"", m, Some(None)));
    assert!(!not_modified_given(None, "\"x\"", m, None));
    assert!(!not_modified_given(None, "\"x\"", None, Some(Some((200, 0)))));
}

#[test]
fn modified_since_reads_rfc2822_dates() {
    // Sun, 06 Nov 1994 08:49:37 GMT is 784111777 seconds after the epoch
    let m = Some(Instant { secs: 784111777, nanos: 0 });
    assert!(is_not_modified(None, "\"x\"", m, Some("Sun, 06 Nov 1994 08:49:37 GMT")));
    assert!(is_not_modified(None, "\"x\"", m, Some("Sun, 06 Nov 1994 09:49:37 +0100")));
    assert!(!is_not_modified(None, "\"x\"", m, Some("Sun, 06 Nov 1994 08:49:36 GMT")));
    assert!(!is_not_modified(None, "\"x\"", m, Some("yesterday")));
    assert!(!is_not_modified(None, "\"x\"", None, Some("Sun, 06 Nov 1994 08:49:37 GMT")));
    // a modification time with a fraction of a second still matches its own
    // last-modified date
    let m = Some(Instant { secs: 784111777, nanos: 999_000_000 });
    assert!(is_not_modified(None, "\"x\"", m, Some("Sun, 06 Nov 1994 08:49:37 GMT")));
    assert!(!is_not_modified(None, "\"x\"", m, Some("Sun, 06 Nov 1994 08:49:36 GMT")));
}

fn header<'a>(h: &'a [(String, String)], name: &str) -> Option<&'a str> {
    h.iter().find(|(n, _)| n == name).map(|(_, v)| v.as_str())
}

#[test]
fn full_get_response() {
    let mimes = parse_mime_lines(&vec!["text/html html htm".to_string()]);
    let file = FileFacts { len: 12, modified: Some(Instant { secs: 784111777, nanos: 0 }), digest: 99 };
    let r = plan_response(Method::Get, &file, None, None, "/srv/index.html", Some(&mimes));
    assert_eq!(r.status, 200);
    assert_eq!(r.body_len, Some(12));
    let names: Vec<&str> = r.headers.iter().map(|(n, _)| n.as_str()).collect();
    assert_eq!(names, vec!["content-length", "etag", "last-modified", "content-type"]);
    assert_eq!(header(&r.headers, "content-length"), Some("12"));
    assert_eq!(header(&r.headers, "etag"), Some("\"99\""));
    assert_eq!(header(&r.headers, "last-modified"), Some("Sun, 06 Nov 1994 08:49:37 GMT"));
    assert_eq!(header(&r.headers, "content-type"), Some("text/html"));
}

#[test]
fn head_has_no_body() {
    let file = FileFacts { len: 12, modified: None, digest: 1 };
    let r = plan_response(Method::Head, &file, None, None, "/srv/a.bin", None);
    assert_eq!(r.status, 200);
    assert_eq!(r.body_len, None);
    let names: Vec<&str> = r.headers.iter().map(|(n, _)| n.as_str()).collect();
    assert_eq!(names, vec!["content-length", "etag"]);
}

#[test]
fn revalidated_get_is_304_without_body() {
    let file = FileFacts { len: 5, modified: Some(Instant { secs: 0, nanos: 0 }), digest: 7 };
    let r = plan_response(Method::Get, &file, Some("W/\"7\""), None, "/srv/a", None);
    assert_eq!(r.status, 304);
    assert_eq!(r.body_len, None);
    assert_eq!(header(&r.headers, "content-length"), Some("5"));
    assert_eq!(header(&r.headers, "last-modified"), Some("Thu, 01 Jan 1970 00:00:00 GMT"));

    let r = plan_response(Method::Get, &file, None, Some("Thu, 01 Jan 1970 00:00:00 GMT"), "/srv/a", None);
    assert_eq!(r.status, 304);

    // echoing the sent last-modified back gets a 304 even with a sub-second mtime
    let file = FileFacts { len: 5, modified: Some(Instant { secs: 784111777, nanos: 250_000_000 }), digest: 7 };
    let sent = plan_response(Method::Get, &file, None, None, "/srv/a", None);
    let lm = sent.headers.iter().find(|(n, _)| n == "last-modified").map(|(_, v)| v.clone()).unwrap();
    let r = plan_response(Method::Get, &file, None, Some(lm.as_str()), "/srv/a", None);
    assert_eq!(r.status, 304);
    assert_eq!(r.body_len, None);
}

#[test]
fn empty_file_gets_no_content_type() {
    let mimes = parse_mime_lines(&vec!["text/plain txt".to_string()]);
    let file = FileFacts { len: 0, modified: None, digest: 3 };
    let r = plan_response(Method::Get, &file, None, None, "/srv/empty.txt", Some(&mimes));
    assert_eq!(r.body_len, Some(0));
    assert_eq!(header(&r.headers, "content-type"), None);
    assert_eq!(header(&r.headers, "content-length"), Some("0"));

    let file = FileFacts { len: 1, modified: None, digest: 3 };
    let r = plan_response(Method::Get, &file, None, None, "/srv/x.txt", Some(&mimes));
    assert_eq!(header(&r.headers, "content-type"), Some("text/plain"));
    let r = plan_response(Method::Get, &file, None, None, "/srv/x.TXT", Some(&mimes));
    assert_eq!(header(&r.headers, "content-type"), None);
}

#[test]
fn last_modified_dates() {
    assert_eq!(
        last_modified_text(Instant { secs: 784111777, nanos: 123 }),
        Some("Sun, 06 Nov 1994 08:49:37 GMT".to_string())
    );
    assert_eq!(
        last_modified_text(Instant { secs: -1, nanos: 0 }),
        Some("Wed, 31 Dec 1969 23:59:59 GMT".to_string())
    );
    assert_eq!(last_modified_text(Instant { secs: i64::MAX, nanos: 0 }), None);
}

#[test]
fn headers_from_given_date_text() {
    let h = response_headers(3, 4, Some("then"), "/srv/noext", None);
    let pairs: Vec<(&str, &str)> = h.iter().map(|(n, v)| (n.as_str(), v.as_str())).collect();
    assert_eq!(pairs, vec![("content-length", "3"), ("etag", "\"4\""), ("last-modified", "then")]);
}
