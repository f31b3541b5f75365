use projector::path::DirPath;
use projector::projector::Projector;
use projector::store::Data;

fn fixture() -> Data {
    let mut data = Data::default();
    data.set_key(DirPath::parse("/"), "foo".to_string(), "bar".to_string());
    data.set_key(DirPath::parse("/"), "fem".to_string(), "is_great".to_string());
    data.set_key(DirPath::parse("/foo"), "foo".to_string(), "bar2".to_string());
    data.set_key(DirPath::parse("/foo/bar"), "foo".to_string(), "bar3".to_string());
    data
}

fn get_projector(pwd: &str) -> Projector {
    Projector::new(fixture(), DirPath::parse(pwd))
}

#[test]
fn get_value() {
    let projector = get_projector("/foo/bar");

    assert_eq!(projector.get_value("foo"), Some(&"bar3".to_string()));
    assert_eq!(projector.get_value("fem"), Some(&"is_great".to_string()));
}

#[test]
fn set_value() {
    let mut projector = get_projector("/foo/bar");
    projector.set_value("foo".to_string(), "bar4".to_string());
    projector.set_value("fem".to_string(), "is_better".to_string());

    assert_eq!(projector.get_value("foo"), Some(&"bar4".to_string()));
    assert_eq!(projector.get_value("fem"), Some(&"is_better".to_string()));
}

#[test]
fn remove_value() {
    let mut projector = get_projector("/foo/bar");
    projector.remove_value("foo");
    projector.remove_value("fem");

    assert_eq!(projector.get_value("foo"), Some(&"bar2".to_string()));
    assert_eq!(projector.get_value("fem"), Some(&"is_great".to_string()));
}

#[test]
fn specificity_deepest_definer_wins() {
    let projector = get_projector("/foo/bar");
    assert_eq!(projector.get_value("foo"), Some(&"bar3".to_string()));

    let shallower = get_projector("/foo");
    assert_eq!(shallower.get_value("foo"), Some(&"bar2".to_string()));

    let merged = projector.get_value_all();
    assert_eq!(merged.get("foo"), Some(&"bar3".to_string()));
}

#[test]
fn merged_view_holds_union_of_chain() {
    let projector = get_projector("/foo/bar");
    let merged = projector.get_value_all();

    assert_eq!(merged.get("foo"), Some(&"bar3".to_string()));
    assert_eq!(merged.get("fem"), Some(&"is_great".to_string()));
    assert_eq!(merged.get("other"), None);
    assert_eq!(merged.entries().len(), 2);
}

#[test]
fn merged_view_of_empty_store_is_empty() {
    let projector = Projector::new(Data::default(), DirPath::parse("/foo/bar"));
    let merged = projector.get_value_all();
    assert!(merged.entries().is_empty());
    assert_eq!(projector.get_value("foo"), None);
}

#[test]
fn write_is_seen_from_same_directory() {
    let mut projector = get_projector("/foo/bar/baz");
    assert_eq!(projector.get_value("foo"), Some(&"bar3".to_string()));
    projector.set_value("foo".to_string(), "local".to_string());
    assert_eq!(projector.get_value("foo"), Some(&"local".to_string()));
}

#[test]
fn remove_leaves_ancestor_definition_visible() {
    let mut projector = get_projector("/foo/bar");
    projector.remove_value("fem");
    assert_eq!(projector.get_value("fem"), Some(&"is_great".to_string()));
    let merged = projector.get_value_all();
    assert_eq!(merged.get("fem"), Some(&"is_great".to_string()));
}

#[test]
fn remove_of_missing_key_changes_nothing() {
    let mut projector = get_projector("/foo/bar");
    projector.remove_value("missing");
    projector.remove_value("fem");

    assert_eq!(projector.get_value("foo"), Some(&"bar3".to_string()));
    assert_eq!(projector.get_value("fem"), Some(&"is_great".to_string()));

    let mut scopeless = Projector::new(fixture(), DirPath::parse("/elsewhere"));
    scopeless.remove_value("foo");
    assert_eq!(scopeless.get_value("foo"), Some(&"bar".to_string()));
    assert_eq!(scopeless.data().entries().len(), 3);
}

#[test]
fn root_only_chain_resolves() {
    let projector = get_projector("/");
    assert_eq!(projector.get_value("foo"), Some(&"bar".to_string()));
    assert_eq!(projector.get_value("fem"), Some(&"is_great".to_string()));

    let merged = projector.get_value_all();
    assert_eq!(merged.entries().len(), 2);
}

#[test]
fn distinct_spellings_hit_one_directory() {
    let mut projector = Projector::new(fixture(), DirPath::parse("/foo/bar/"));
    assert_eq!(projector.get_value("foo"), Some(&"bar3".to_string()));
    projector.set_value("foo".to_string(), "bar4".to_string());
    assert_eq!(projector.data().entries().len(), 3);
}
