use moq_path::{AsPath, DecodeError, EncodeError, Path};

#[test]
fn test_has_prefix() {
    let path = Path::new("foo/bar/baz");

    // Valid prefixes - test with both &str and &Path
    assert!(path.has_prefix(""));
    assert!(path.has_prefix("foo"));
    assert!(path.has_prefix(Path::new("foo")));
    assert!(path.has_prefix("foo/"));
    assert!(path.has_prefix("foo/bar"));
    assert!(path.has_prefix(Path::new("foo/bar/")));
    assert!(path.has_prefix("foo/bar/baz"));

    // Invalid prefixes - should not match partial components
    assert!(!path.has_prefix("f"));
    assert!(!path.has_prefix(Path::new("fo")));
    assert!(!path.has_prefix("foo/b"));
    assert!(!path.has_prefix("foo/ba"));
    assert!(!path.has_prefix(Path::new("foo/bar/ba")));

    // Edge case: "foobar" should not match "foo"
    let path = Path::new("foobar");
    assert!(!path.has_prefix("foo"));
    assert!(path.has_prefix(Path::new("foobar")));
}

#[test]
fn test_strip_prefix() {
    let path = Path::new("foo/bar/baz");

    // Test with both &str and &Path
    assert_eq!(path.strip_prefix("").unwrap(), "foo/bar/baz");
    assert_eq!(path.strip_prefix("foo").unwrap(), "bar/baz");
    assert_eq!(path.strip_prefix(Path::new("foo/")).unwrap(), "bar/baz");
    assert_eq!(path.strip_prefix("foo/bar").unwrap(), "baz");
    assert_eq!(path.strip_prefix(Path::new("foo/bar/")).unwrap(), "baz");
    assert_eq!(path.strip_prefix("foo/bar/baz").unwrap(), "");

    // Should fail for invalid prefixes
    assert!(path.strip_prefix("fo").is_none());
    assert!(path.strip_prefix(Path::new("bar")).is_none());
}

#[test]
fn test_join() {
    // Test with both &str and &Path
    assert_eq!(Path::new("foo").join("bar"), "foo/bar");
    assert_eq!(Path::new("foo/").join(Path::new("bar")), "foo/bar");
    assert_eq!(Path::new("").join("bar"), "bar");
    assert_eq!(Path::new("foo/bar").join(Path::new("baz")), "foo/bar/baz");
}

#[test]
fn test_empty() {
    let empty = Path::new("");
    assert!(empty.is_empty());
    assert_eq!(empty.len(), 0);

    let non_empty = Path::new("foo");
    assert!(!non_empty.is_empty());
    assert_eq!(non_empty.len(), 3);
}

#[test]
fn test_from_conversions() {
    let path1 = Path::from("foo/bar");
    let path2 = Path::from("foo/bar");
    let s = String::from("foo/bar");
    let path3 = Path::from(&s);

    assert_eq!(path1, "foo/bar");
    assert_eq!(path2, "foo/bar");
    assert_eq!(path3, "foo/bar");
}

#[test]
fn test_path_prefix_join() {
    let prefix = Path::new("foo");
    let suffix = Path::new("bar/baz");
    let path = prefix.join(&suffix);
    assert_eq!(path, "foo/bar/baz");

    let prefix = Path::new("foo/");
    let suffix = Path::new("bar/baz");
    let path = prefix.join(&suffix);
    assert_eq!(path, "foo/bar/baz");

    let prefix = Path::new("foo");
    let suffix = Path::new("/bar/baz");
    let path = prefix.join(&suffix);
    assert_eq!(path, "foo/bar/baz");

    let prefix = Path::new("");
    let suffix = Path::new("bar/baz");
    let path = prefix.join(&suffix);
    assert_eq!(path, "bar/baz");
}

#[test]
fn test_path_prefix_conversions() {
    let prefix1 = Path::from("foo/bar");
    let prefix2 = Path::from(String::from("foo/bar"));
    let s = String::from("foo/bar");
    let prefix3 = Path::from(&s);

    assert_eq!(prefix1, "foo/bar");
    assert_eq!(prefix2, "foo/bar");
    assert_eq!(prefix3, "foo/bar");
}

#[test]
fn test_path_suffix_conversions() {
    let suffix1 = Path::from("foo/bar");
    let suffix2 = Path::from(String::from("foo/bar"));
    let s = String::from("foo/bar");
    let suffix3 = Path::from(&s);

    assert_eq!(suffix1, "foo/bar");
    assert_eq!(suffix2, "foo/bar");
    assert_eq!(suffix3, "foo/bar");
}

#[test]
fn test_path_types_basic_operations() {
    let prefix = Path::new("foo/bar");
    assert_eq!(prefix, "foo/bar");
    assert!(!prefix.is_empty());
    assert_eq!(prefix.len(), 7);

    let suffix = Path::new("baz/qux");
    assert_eq!(suffix, "baz/qux");
    assert!(!suffix.is_empty());
    assert_eq!(suffix.len(), 7);

    let empty_prefix = Path::new("");
    assert!(empty_prefix.is_empty());
    assert_eq!(empty_prefix.len(), 0);

    let empty_suffix = Path::new("");
    assert!(empty_suffix.is_empty());
    assert_eq!(empty_suffix.len(), 0);
}

#[test]
fn test_prefix_has_prefix() {
    // Test empty prefix (should match everything)
    let prefix = Path::new("foo/bar");
    assert!(prefix.has_prefix(""));

    // Test exact matches
    let prefix = Path::new("foo/bar");
    assert!(prefix.has_prefix("foo/bar"));

    // Test valid prefixes
    assert!(prefix.has_prefix("foo"));
    assert!(prefix.has_prefix("foo/"));

    // Test invalid prefixes - partial matches should fail
    assert!(!prefix.has_prefix("f"));
    assert!(!prefix.has_prefix("fo"));
    assert!(!prefix.has_prefix("foo/b"));
    assert!(!prefix.has_prefix("foo/ba"));

    // Test edge cases
    let prefix = Path::new("foobar");
    assert!(!prefix.has_prefix("foo"));
    assert!(prefix.has_prefix("foobar"));

    // Test trailing slash handling
    let prefix = Path::new("foo/bar/");
    assert!(prefix.has_prefix("foo"));
    assert!(prefix.has_prefix("foo/"));
    assert!(prefix.has_prefix("foo/bar"));
    assert!(prefix.has_prefix("foo/bar/"));

    // Test single component
    let prefix = Path::new("foo");
    assert!(prefix.has_prefix(""));
    assert!(prefix.has_prefix("foo"));
    assert!(prefix.has_prefix("foo/")); // "foo/" becomes "foo" after trimming
    assert!(!prefix.has_prefix("f"));

    // Test empty prefix
    let prefix = Path::new("");
    assert!(prefix.has_prefix(""));
    assert!(!prefix.has_prefix("foo"));
}

#[test]
fn test_prefix_join() {
    // Basic joining
    let prefix = Path::new("foo");
    let suffix = Path::new("bar");
    assert_eq!(prefix.join(suffix), "foo/bar");

    // Trailing slash on prefix
    let prefix = Path::new("foo/");
    let suffix = Path::new("bar");
    assert_eq!(prefix.join(suffix), "foo/bar");

    // Leading slash on suffix
    let prefix = Path::new("foo");
    let suffix = Path::new("/bar");
    assert_eq!(prefix.join(suffix), "foo/bar");

    // Trailing slash on suffix
    let prefix = Path::new("foo");
    let suffix = Path::new("bar/");
    assert_eq!(prefix.join(suffix), "foo/bar"); // trailing slash is trimmed

    // Both have slashes
    let prefix = Path::new("foo/");
    let suffix = Path::new("/bar");
    assert_eq!(prefix.join(suffix), "foo/bar");

    // Empty suffix
    let prefix = Path::new("foo");
    let suffix = Path::new("");
    assert_eq!(prefix.join(suffix), "foo");

    // Empty prefix
    let prefix = Path::new("");
    let suffix = Path::new("bar");
    assert_eq!(prefix.join(suffix), "bar");

    // Both empty
    let prefix = Path::new("");
    let suffix = Path::new("");
    assert_eq!(prefix.join(suffix), "");

    // Complex paths
    let prefix = Path::new("foo/bar");
    let suffix = Path::new("baz/qux");
    assert_eq!(prefix.join(suffix), "foo/bar/baz/qux");

    // Complex paths with slashes
    let prefix = Path::new("foo/bar/");
    let suffix = Path::new("/baz/qux/");
    assert_eq!(prefix.join(suffix), "foo/bar/baz/qux"); // all slashes are trimmed
}

#[test]
fn test_path_ref() {
    // Creation normalizes
    let ref1 = Path::new("/foo/bar/");
    assert_eq!(ref1, "foo/bar");

    let ref2 = Path::from("///foo///");
    assert_eq!(ref2, "foo");

    // Multiple slashes are collapsed
    let ref3 = Path::new("foo//bar///baz");
    assert_eq!(ref3, "foo/bar/baz");

    // Moving a path keeps it
    let path = Path::new("foo/bar");
    let path_ref = path;
    assert_eq!(path_ref, "foo/bar");

    // Methods accept paths
    let path2 = Path::new("foo/bar/baz");
    assert!(path2.has_prefix(&path_ref));
    assert_eq!(path2.strip_prefix(path_ref).unwrap(), "baz");

    // The empty path
    let empty = Path::new("");
    assert!(empty.is_empty());
    assert_eq!(empty.len(), 0);
}

#[test]
fn test_multiple_consecutive_slashes() {
    let path = Path::new("foo//bar///baz");
    // Multiple consecutive slashes are collapsed to single slashes
    assert_eq!(path, "foo/bar/baz");

    // Test with leading and trailing slashes too
    let path2 = Path::new("//foo//bar///baz//");
    assert_eq!(path2, "foo/bar/baz");

    // Test empty segments are handled correctly
    let path3 = Path::new("foo///bar");
    assert_eq!(path3, "foo/bar");
}

#[test]
fn test_removes_multiple_slashes_comprehensively() {
    // Test various multiple slash scenarios
    assert_eq!(Path::new("foo//bar"), "foo/bar");
    assert_eq!(Path::new("foo///bar"), "foo/bar");
    assert_eq!(Path::new("foo////bar"), "foo/bar");

    // Multiple occurrences of double slashes
    assert_eq!(Path::new("foo//bar//baz"), "foo/bar/baz");
    assert_eq!(Path::new("a//b//c//d"), "a/b/c/d");

    // Mixed slash counts
    assert_eq!(Path::new("foo//bar///baz////qux"), "foo/bar/baz/qux");

    // With leading and trailing slashes
    assert_eq!(Path::new("//foo//bar//"), "foo/bar");
    assert_eq!(Path::new("///foo///bar///"), "foo/bar");

    // Edge case: only slashes
    assert_eq!(Path::new("//"), "");
    assert_eq!(Path::new("////"), "");

    // Test that operations work correctly with normalized paths
    let path_with_slashes = Path::new("foo//bar///baz");
    assert!(path_with_slashes.has_prefix("foo/bar"));
    assert_eq!(path_with_slashes.strip_prefix("foo").unwrap(), "bar/baz");
    assert_eq!(path_with_slashes.join("qux"), "foo/bar/baz/qux");

    // Owned and borrowed paths agree
    let path_ref = Path::new("foo//bar///baz");
    assert_eq!(path_ref, "foo/bar/baz");
    let path_from_ref = path_ref.to_owned();
    assert_eq!(path_from_ref, "foo/bar/baz");
}

#[test]
fn test_path_ref_multiple_slashes() {
    let path_ref = Path::new("//foo//bar///baz//");
    assert_eq!(path_ref, "foo/bar/baz");

    // Various multiple slash scenarios
    assert_eq!(Path::new("foo//bar"), "foo/bar");
    assert_eq!(Path::new("foo///bar"), "foo/bar");
    assert_eq!(Path::new("a//b//c//d"), "a/b/c/d");

    // Owned paths are normalized as well
    assert_eq!(Path::new("foo//bar").to_owned(), "foo/bar");
    assert_eq!(Path::new("foo///bar").to_owned(), "foo/bar");
    assert_eq!(Path::new("a//b//c//d").to_owned(), "a/b/c/d");

    // Edge cases
    assert_eq!(Path::new("//"), "");
    assert_eq!(Path::new("////"), "");
    assert_eq!(Path::new("//").to_owned(), "");
    assert_eq!(Path::new("////").to_owned(), "");

    let normal_path = Path::new("foo/bar/baz");
    assert_eq!(normal_path, "foo/bar/baz");

    let needs_norm = Path::new("foo//bar");
    assert_eq!(needs_norm, "foo/bar");
}

fn takes_path_ref<'a>(p: impl Into<Path<'a>>) -> String {
    p.into().to_string()
}

fn takes_path_ref_with_trait<'a>(p: impl Into<Path<'a>>) -> String {
    p.into().to_string()
}

#[test]
fn test_ergonomic_conversions() {
    // String literal
    assert_eq!(takes_path_ref("foo//bar"), "foo/bar");

    // String (owned)
    let owned_string = String::from("foo//bar///baz");
    assert_eq!(takes_path_ref(owned_string), "foo/bar/baz");

    // Another String
    let string_ref = String::from("foo//bar");
    assert_eq!(takes_path_ref(string_ref), "foo/bar");

    // Path
    let path_ref = Path::new("foo//bar");
    assert_eq!(takes_path_ref(path_ref), "foo/bar");

    // Path
    let path = Path::new("foo//bar");
    assert_eq!(takes_path_ref(path), "foo/bar");

    // Path::new can be called again and again
    let _path1 = Path::new("foo/bar");
    let _path2 = Path::new("foo/bar");
    let _path3 = Path::new("foo/bar");
    let _path4 = Path::new("foo/bar");

    assert_eq!(takes_path_ref_with_trait("foo//bar"), "foo/bar");
    assert_eq!(takes_path_ref_with_trait(String::from("foo//bar")), "foo/bar");
}

#[test]
fn test_prefix_strip_prefix() {
    // Test basic stripping
    let prefix = Path::new("foo/bar/baz");
    assert_eq!(prefix.strip_prefix("").unwrap(), "foo/bar/baz");
    assert_eq!(prefix.strip_prefix("foo").unwrap(), "bar/baz");
    assert_eq!(prefix.strip_prefix("foo/").unwrap(), "bar/baz");
    assert_eq!(prefix.strip_prefix("foo/bar").unwrap(), "baz");
    assert_eq!(prefix.strip_prefix("foo/bar/").unwrap(), "baz");
    assert_eq!(prefix.strip_prefix("foo/bar/baz").unwrap(), "");

    // Test invalid prefixes
    assert!(prefix.strip_prefix("fo").is_none());
    assert!(prefix.strip_prefix("bar").is_none());
    assert!(prefix.strip_prefix("foo/ba").is_none());

    // Test edge cases
    let prefix = Path::new("foobar");
    assert!(prefix.strip_prefix("foo").is_none());
    assert_eq!(prefix.strip_prefix("foobar").unwrap(), "");

    // Test empty prefix
    let prefix = Path::new("");
    assert_eq!(prefix.strip_prefix("").unwrap(), "");
    assert!(prefix.strip_prefix("foo").is_none());

    // Test single component
    let prefix = Path::new("foo");
    assert_eq!(prefix.strip_prefix("foo").unwrap(), "");
    assert_eq!(prefix.strip_prefix("foo/").unwrap(), ""); // "foo/" becomes "foo" after trimming

    // Test trailing slash handling
    let prefix = Path::new("foo/bar/");
    assert_eq!(prefix.strip_prefix("foo").unwrap(), "bar");
    assert_eq!(prefix.strip_prefix("foo/").unwrap(), "bar");
    assert_eq!(prefix.strip_prefix("foo/bar").unwrap(), "");
    assert_eq!(prefix.strip_prefix("foo/bar/").unwrap(), "");
}

/// Address of the nth part, for asserting that parts are shared rather than copied.
fn part_addr(path: &Path, n: usize) -> usize {
    path.part(n).expect("part in range").as_ptr() as usize
}

#[test]
fn test_owned_paths_share_allocation() {
    let path = Path::new("customer/room/broadcast").to_owned();

    // Cloning an owned path shares the parts.
    let cloned = path.clone();
    assert_eq!(part_addr(&path, 0), part_addr(&cloned, 0));

    // as_path + to_owned (how notify queues a path per consumer) shares too.
    let requeued = path.as_path().to_owned();
    assert_eq!(part_addr(&path, 0), part_addr(&requeued, 0));

    // Stripping a prefix from an owned path is offset arithmetic, not a copy.
    let stripped = path.strip_prefix("customer").unwrap().to_owned();
    assert_eq!(stripped, "room/broadcast");
    assert_eq!(part_addr(&stripped, 0), part_addr(&path, 1));

    // next_part shares the rest as well.
    let (dir, rest) = path.next_part().unwrap();
    assert_eq!(dir, "customer");
    let rest = rest.to_owned();
    assert_eq!(part_addr(&rest, 0), part_addr(&path, 1));

    // join shares the parts of both owned inputs; this is the filesystem-like
    // pattern where every path under a customer shares the prefix allocations.
    let joined = path.join(&stripped);
    assert_eq!(joined, "customer/room/broadcast/room/broadcast");
    assert_eq!(part_addr(&joined, 0), part_addr(&path, 0));
    assert_eq!(part_addr(&joined, 3), part_addr(&stripped, 0));
}

#[test]
fn test_parts() {
    assert_eq!(Path::empty().parts().count(), 0);
    assert_eq!(Path::new("foo").parts().collect::<Vec<_>>(), ["foo"]);
    assert_eq!(Path::new("/foo//bar/").parts().collect::<Vec<_>>(), ["foo", "bar"]);
}

#[test]
fn test_wire_max_parts() {
    let ok = (0..Path::MAX_PARTS)
        .map(|i| i.to_string())
        .collect::<Vec<_>>()
        .join("/");
    let too_deep = format!("{ok}/extra");

    // Encode enforces the limit.
    let sent = Path::new(&ok).encode().unwrap();
    assert!(matches!(
        Path::new(&too_deep).encode(),
        Err(EncodeError::BoundsExceeded)
    ));

    // Decode round-trips at the limit.
    let decoded = Path::decode(sent).unwrap();
    assert_eq!(decoded, ok.as_str());

    // Decode enforces the limit on a raw string that encode would have refused.
    assert!(matches!(
        Path::decode(too_deep),
        Err(DecodeError::BoundsExceeded)
    ));
}

#[test]
fn test_owned_empty_paths() {
    // Empty paths never allocate and stay well-behaved.
    let empty = Path::new("").to_owned();
    assert!(empty.is_empty());
    assert_eq!(empty, Path::empty());

    let path = Path::new("foo").to_owned();
    let rest = path.strip_prefix("foo").unwrap().to_owned();
    assert!(rest.is_empty());
}
