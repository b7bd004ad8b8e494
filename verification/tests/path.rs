use alefsdb::path::{DbPath, PathError};

#[test]
fn accepts_root_and_nested() {
    assert_eq!(DbPath::parse("/").unwrap().as_str(), "/");
    assert!(DbPath::parse("/").unwrap().is_root());
    let p = DbPath::parse("/users/alice").unwrap();
    assert_eq!(p.as_str(), "/users/alice");
    assert_eq!(p.segments(), &["users".to_string(), "alice".to_string()]);
}

#[test]
fn trims_trailing_slash() {
    assert_eq!(DbPath::parse("/a/b/").unwrap().as_str(), "/a/b");
}

#[test]
fn rejects_relative_and_empty() {
    assert_eq!(DbPath::parse(""), Err(PathError::Empty));
    assert_eq!(DbPath::parse("a/b"), Err(PathError::NotAbsolute));
}

#[test]
fn rejects_empty_and_dot_segments() {
    assert_eq!(DbPath::parse("/a//b"), Err(PathError::EmptySegment));
    assert!(matches!(DbPath::parse("/./x"), Err(PathError::ForbiddenSegment(_))));
    assert!(matches!(DbPath::parse("/a/../b"), Err(PathError::ForbiddenSegment(_))));
}

#[test]
fn join_and_parent() {
    let p = DbPath::parse("/a").unwrap();
    let child = p.join("b").unwrap();
    assert_eq!(child.as_str(), "/a/b");
    assert_eq!(child.parent().unwrap().as_str(), "/a");
    assert_eq!(DbPath::root().parent(), None);
}

#[test]
fn join_rejects_slashes_and_dots() {
    let p = DbPath::root();
    assert!(p.join("a/b").is_err());
    assert!(p.join("..").is_err());
    assert!(p.join("").is_err());
}

#[test]
fn path_error_messages() {
    assert_eq!(PathError::Empty.message(), "empty path");
    assert_eq!(PathError::NotAbsolute.message(), "path must be absolute (start with /)");
    assert_eq!(
        PathError::ForbiddenSegment("..".to_string()).message(),
        "path segment '..' is forbidden (. and .. are not stored)"
    );
}

#[test]
fn many_trailing_slashes_and_root_forms() {
    assert_eq!(DbPath::parse("/a///").unwrap().as_str(), "/a");
    assert!(DbPath::parse("//").unwrap().is_root());
    assert_eq!(DbPath::parse("/a").unwrap().last_segment().unwrap(), "a");
}

#[test]
fn canonical_text_parses_back() {
    for t in ["/", "/a", "/users/alice/notes", "/x-1/_y/z.z"] {
        let p = DbPath::parse(t).unwrap();
        assert_eq!(DbPath::parse(&p.as_str()).unwrap(), p);
    }
    let j = DbPath::parse("/a").unwrap().join("b").unwrap();
    assert_eq!(DbPath::parse(&j.as_str()).unwrap(), j);
}
