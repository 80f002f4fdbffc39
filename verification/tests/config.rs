use vmod_fileserver::config::{plan_root, MimeSource};
use vmod_fileserver::mime::{parse_mime_lines, MimeDb};

#[test]
fn empty_root_is_refused() {
    match plan_root("www", "", None, false) {
        Err(e) => assert_eq!(e, "fileserver: can't create www with an empty path"),
        Ok(_) => panic!("an empty root must be refused"),
    }
}

#[test]
fn mime_sources() {
    let p = plan_root("www", "/var/www/html", None, false).ok().unwrap();
    assert_eq!(p.path, "/var/www/html");
    assert!(p.open_root_dir);
    assert!(matches!(p.mimes, MimeSource::Default));
    assert_eq!(p.mimes.path(), Some("/etc/mime.types".to_string()));

    let p = plan_root("www", "/var/www/html", Some(""), true).ok().unwrap();
    assert!(!p.open_root_dir);
    assert!(matches!(p.mimes, MimeSource::Disabled));
    assert_eq!(p.mimes.path(), None);

    let p = plan_root("www", "/var/www/html", Some("/etc/my.types"), false).ok().unwrap();
    assert_eq!(p.mimes.path(), Some("/etc/my.types".to_string()));
}

#[test]
fn default_database_failure_is_dropped() {
    let r = MimeSource::Default.settle(Err("no such file".to_string()));
    assert!(matches!(r, Ok(None)));
    let db = parse_mime_lines(&vec!["a/b c".to_string()]);
    match MimeSource::Default.settle(Ok(db)) {
        Ok(Some(d)) => assert_eq!(d.get("c"), Some("a/b")),
        _ => panic!("a readable default database is kept"),
    }
}

#[test]
fn named_database_failure_is_an_error() {
    let r = MimeSource::File("/x".to_string()).settle(Err("no such file".to_string()));
    match r {
        Err(e) => assert_eq!(e, "no such file"),
        Ok(_) => panic!("a named database must be readable"),
    }
    let r = MimeSource::Disabled.settle(Ok(MimeDb::new()));
    assert!(matches!(r, Ok(None)));
}
