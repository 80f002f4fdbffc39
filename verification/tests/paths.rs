use std::path::PathBuf;

use vmod_fileserver::url_path::{assemble_file_path, clamp_segments, file_extension, open_steps, strip_query};

fn tc(root_path: &str, url: &str, expected: &str) {
    assert_eq!(PathBuf::from(assemble_file_path(root_path, url)), PathBuf::from(expected));
}

#[test]
fn simple() {
    tc("/foo/bar", "/baz/qux", "/foo/bar/baz/qux");
}

#[test]
fn simple_slash() {
    tc("/foo/bar/", "/baz/qux", "/foo/bar/baz/qux");
}

#[test]
fn parent() {
    tc("/foo/bar", "/bar/../qux", "/foo/bar/qux");
}

#[test]
fn too_many_parents() {
    tc("/foo/bar", "/bar/../../qux", "/foo/bar/qux");
}

#[test]
fn current() {
    tc("/foo/bar", "/bar/././qux", "/foo/bar/bar/qux");
}

#[test]
fn strip_query_removes_suffix() {
    assert_eq!(strip_query("/app.js?v=123"), "/app.js");
}

#[test]
fn strip_query_no_query_string() {
    assert_eq!(strip_query("/app.js"), "/app.js");
}

#[test]
fn strip_query_empty_query_string() {
    assert_eq!(strip_query("/app.js?"), "/app.js");
}

#[test]
fn strip_query_only_query_string() {
    assert_eq!(strip_query("?v=123"), "");
}

#[test]
fn strip_query_multiple_question_marks() {
    assert_eq!(strip_query("/app.js?v=123?extra=456"), "/app.js");
}

#[test]
fn strip_query_twice_strips_nothing_more() {
    let once = strip_query("/a?b?c");
    assert_eq!(strip_query(once), once);
}

#[test]
fn assembled_text_is_root_then_segments() {
    assert_eq!(assemble_file_path("/foo/bar/", "/baz/qux"), "/foo/bar//baz/qux");
    assert_eq!(assemble_file_path("/srv", "/"), "/srv");
    assert_eq!(assemble_file_path("/srv", ""), "/srv");
}

#[test]
fn clamp_skips_empty_and_current_pieces() {
    assert_eq!(clamp_segments("//a//./b/."), vec!["a", "b"]);
    assert_eq!(clamp_segments("./a"), vec!["a"]);
}

#[test]
fn clamp_parent_never_climbs_above_root() {
    assert_eq!(clamp_segments("/../../etc/passwd"), vec!["etc", "passwd"]);
    assert_eq!(clamp_segments("/a/b/../../.."), Vec::<&str>::new());
    assert_eq!(clamp_segments("/../x"), clamp_segments("x"));
}

#[test]
fn clamp_keeps_dotted_names() {
    assert_eq!(clamp_segments("/...//..a/b.."), vec!["...", "..a", "b.."]);
}

#[test]
fn clamp_is_idempotent() {
    let segs = clamp_segments("/a/./b/../c/../../d/e");
    assert_eq!(segs, vec!["d", "e"]);
    let joined: String = segs.iter().map(|s| format!("/{s}")).collect();
    assert_eq!(clamp_segments(&joined), segs);
}

#[test]
fn query_string_plays_no_part_in_the_path() {
    assert_eq!(
        assemble_file_path("/srv", strip_query("/app.js?v=../../x")),
        assemble_file_path("/srv", "/app.js"),
    );
}

#[test]
fn extension_of_last_component() {
    assert_eq!(file_extension("/srv/www/index.html"), Some("html".to_string()));
    assert_eq!(file_extension("/srv/www/a.tar.gz"), Some("gz".to_string()));
    assert_eq!(file_extension("/srv/www/archive.tar.gz/"), Some("gz".to_string()));
    assert_eq!(file_extension("/srv/www/name."), Some("".to_string()));
    assert_eq!(file_extension("/srv/www/..a"), Some("a".to_string()));
}

#[test]
fn no_extension() {
    assert_eq!(file_extension("/srv/www/README"), None);
    assert_eq!(file_extension("/srv/www/.bashrc"), None);
    assert_eq!(file_extension("/srv/www/.."), None);
    assert_eq!(file_extension("/"), None);
    assert_eq!(file_extension("."), None);
    assert_eq!(file_extension(""), None);
}

#[test]
fn extension_agrees_with_std_path() {
    for p in ["/a/b.c", "/a/.b", "a/b.c/.", "x.y/..", "/a.b/c", "c.d/", ".", "..", "a..b", "/t/x.", "/./a.b/./"] {
        let ours = file_extension(p);
        let std = std::path::Path::new(p).extension().map(|e| e.to_string_lossy().into_owned());
        assert_eq!(ours, std, "path {p}");
    }
}

#[test]
fn open_steps_of_segments() {
    let segs = clamp_segments("/a/b/c.txt");
    let (dirs, file) = open_steps(&segs);
    assert_eq!(dirs, vec!["a", "b"]);
    assert_eq!(file, "c.txt");

    let segs = clamp_segments("/c.txt");
    let (dirs, file) = open_steps(&segs);
    assert!(dirs.is_empty());
    assert_eq!(file, "c.txt");

    let segs = clamp_segments("/");
    let (dirs, file) = open_steps(&segs);
    assert!(dirs.is_empty());
    assert_eq!(file, ".");
}

#[test]
fn clamp_of_joined_parts_concatenates() {
    for (a, b) in [("/x/../y", "z/./w"), ("a", ""), ("", "b/c"), ("/p/q", "/r//s/."), ("..", "t")] {
        let joined = format!("{a}/{b}");
        let expected = [clamp_segments(a), clamp_segments(b)].concat();
        assert_eq!(clamp_segments(&joined), expected, "{a} / {b}");
    }
}

#[test]
fn trailing_slash_on_root_makes_no_difference() {
    for root in ["/srv", "srv", "./srv", "/", "/a/../b"] {
        for url in ["", "/", "/x/y", "/../z", "a/./b"] {
            let with = assemble_file_path(&format!("{root}/"), url);
            let without = assemble_file_path(root, url);
            assert_eq!(PathBuf::from(&with), PathBuf::from(&without), "{root} {url}");
        }
    }
}
