use moq_path::{AsPath, Path, PathOwned, PathPrefixes};

#[test]
fn test_prefix_list_dedup() {
    // Exact duplicates are removed
    let list = PathPrefixes::new(vec!["demo", "demo"]);
    assert_eq!(list.len(), 1);
    assert_eq!(list[0], Path::new("demo"));
}

#[test]
fn test_prefix_list_overlap() {
    // "demo/foo" is redundant when "demo" exists
    let list = PathPrefixes::new(vec!["demo", "demo/foo", "anon"]);
    assert_eq!(list.len(), 2);
    assert!(list.iter().any(|p| p == &Path::new("demo")));
    assert!(list.iter().any(|p| p == &Path::new("anon")));
}

#[test]
fn test_prefix_list_overlap_reverse_order() {
    // Order shouldn't matter
    let list = PathPrefixes::new(vec!["demo/foo", "demo"]);
    assert_eq!(list.len(), 1);
    assert_eq!(list[0], Path::new("demo"));
}

#[test]
fn test_prefix_list_empty_covers_all() {
    // Empty prefix covers everything
    let list = PathPrefixes::new(vec!["", "demo", "anon"]);
    assert_eq!(list.len(), 1);
    assert_eq!(list[0], Path::new(""));
}

#[test]
fn test_prefix_list_no_overlap() {
    // Unrelated prefixes are all kept
    let list = PathPrefixes::new(vec!["demo", "anon", "secret"]);
    assert_eq!(list.len(), 3);
}

#[test]
fn test_prefix_list_single() {
    let list = PathPrefixes::new(vec!["demo"]);
    assert_eq!(list.len(), 1);
}

#[test]
fn test_prefix_list_empty() {
    let list = PathPrefixes::new(Vec::<&str>::new());
    assert!(list.is_empty());
    assert_eq!(list.len(), 0);
}

#[test]
fn test_prefix_list_deep_overlap() {
    // "a/b/c" is covered by "a/b" which is covered by "a"
    let list = PathPrefixes::new(vec!["a/b/c", "a/b", "a"]);
    assert_eq!(list.len(), 1);
    assert_eq!(list[0], Path::new("a"));
}

#[test]
fn test_prefix_list_partial_name_not_overlap() {
    // "demo" should NOT cover "demonstration" (different path component)
    let list = PathPrefixes::new(vec!["demo", "demonstration"]);
    assert_eq!(list.len(), 2);
}

#[test]
fn test_prefix_list_collect() {
    let paths: Vec<PathOwned> = vec!["demo".into(), "demo/foo".into()];
    let list = PathPrefixes::from_iter(paths.into_iter());
    assert_eq!(list.len(), 1);
    assert_eq!(list[0], Path::new("demo"));
}

#[test]
fn test_prefix_list_eq_vec() {
    let list = PathPrefixes::new(vec!["demo", "anon"]);
    // Canonical order: sorted by length, then lexicographically
    assert_eq!(list, vec!["anon".as_path(), "demo".as_path()]);
}

#[test]
fn test_prefix_list_canonical_order() {
    // Same inputs in different order produce identical results
    let a = PathPrefixes::new(vec!["foo", "bar"]);
    let b = PathPrefixes::new(vec!["bar", "foo"]);
    assert_eq!(a, b);
}
