use projector::path::DirPath;
use projector::text::str_eq;

#[test]
fn parse_splits_on_separators() {
    let p = DirPath::parse("/foo/bar");
    assert_eq!(p.seg_count(), 2);
    assert_eq!(p.segments()[0], "foo");
    assert_eq!(p.segments()[1], "bar");
}

#[test]
fn parse_drops_empty_runs() {
    let canonical = DirPath::parse("/foo/bar");
    assert!(DirPath::parse("/foo//bar").eq_path(&canonical));
    assert!(DirPath::parse("/foo/bar/").eq_path(&canonical));
    assert!(DirPath::parse("//foo/bar//").eq_path(&canonical));
    assert!(!DirPath::parse("/foo").eq_path(&canonical));
}

#[test]
fn root_has_no_segments() {
    assert_eq!(DirPath::parse("/").seg_count(), 0);
    assert_eq!(DirPath::parse("").seg_count(), 0);
    assert!(DirPath::parse("/").eq_path(&DirPath::root()));
}

#[test]
fn prefix_gives_ancestors() {
    let p = DirPath::parse("/foo/bar");
    assert!(p.prefix(2).eq_path(&p));
    assert!(p.prefix(1).eq_path(&DirPath::parse("/foo")));
    assert!(p.prefix(0).eq_path(&DirPath::root()));
}

#[test]
fn str_eq_compares_characters() {
    assert!(str_eq("abc", "abc"));
    assert!(str_eq("", ""));
    assert!(!str_eq("abc", "abd"));
    assert!(!str_eq("abc", "ab"));
}
