use moq_path::{AsPath, DecodeError, EncodeError, Parts, Path, PathOwned, PathPrefixes};
use std::cmp::Ordering;
use std::collections::hash_map::DefaultHasher;
use std::collections::HashMap;
use std::hash::{Hash, Hasher};

fn hash_of(path: &Path) -> u64 {
    let mut hasher = DefaultHasher::new();
    path.hash(&mut hasher);
    hasher.finish()
}

fn strings(list: &PathPrefixes) -> Vec<String> {
    list.iter().map(|p| p.to_string()).collect()
}

#[test]
fn creation_trims_slashes() {
    let path1 = Path::new("/foo/bar/");
    let path2 = Path::new("foo/bar");
    assert_eq!(path1, path2);

    let base = Path::new("api/v1");
    assert!(base.has_prefix("api"));
    assert!(base.has_prefix(&Path::new("api/v1")));

    let joined = base.join("users");
    assert_eq!(joined, "api/v1/users");
}

#[test]
fn parts_come_in_order() {
    let path = Path::new("foo/bar/baz");
    assert_eq!(path.parts().collect::<Vec<_>>(), ["foo", "bar", "baz"]);
    assert_eq!(Path::empty().parts().count(), 0);

    let owned = path.to_owned();
    assert_eq!(owned.parts().collect::<Vec<_>>(), ["foo", "bar", "baz"]);

    let mut parts: Parts = owned.parts();
    assert_eq!(parts.next(), Some("foo"));
    assert_eq!(parts.nth(1), Some("baz"));
    assert_eq!(parts.next(), None);
    assert_eq!(parts.next(), None);
}

#[test]
fn conversions_keep_what_is_shared() {
    let owned = Path::new("foo/bar").to_owned();
    assert_eq!(owned.as_path().parts().size_hint(), (2, Some(2)));
    assert_eq!((&owned).as_path().parts().size_hint(), (2, Some(2)));
    assert_eq!("foo/bar".as_path().parts().size_hint(), (0, None));
    assert_eq!(Path::new("foo/bar").as_path().parts().size_hint(), (0, None));
    assert_eq!(Path::from(String::from("foo/bar")).parts().size_hint(), (2, Some(2)));
    assert_eq!(Path::from(String::new()).parts().size_hint(), (0, None));
    assert_eq!(Path::default().parts().size_hint(), (0, None));
    let decoded = Path::decode(String::from("foo/bar")).unwrap();
    assert_eq!(decoded.parts().size_hint(), (2, Some(2)));
}

#[test]
fn size_hint_of_owned_and_borrowed() {
    let path = Path::new("foo/bar");
    assert_eq!(path.parts().size_hint(), (0, None));

    let owned = path.to_owned();
    let mut parts = owned.parts();
    assert_eq!(parts.size_hint(), (2, Some(2)));
    parts.next();
    assert_eq!(parts.size_hint(), (1, Some(1)));
}

#[test]
fn nth_part() {
    let path = Path::new("a/bc//d");
    assert_eq!(path.part(0), Some("a"));
    assert_eq!(path.part(1), Some("bc"));
    assert_eq!(path.part(2), Some("d"));
    assert_eq!(path.part(3), None);
    assert_eq!(path.to_owned().part(2), Some("d"));
    assert_eq!(path.to_owned().part(3), None);
    assert_eq!(path.part_count(), 3);
    assert_eq!(path.to_owned().part_count(), 3);
    assert_eq!(Path::new("///").part_count(), 0);
}

#[test]
fn characters_of_more_than_one_byte() {
    let path = Path::new("/caf\u{e9}//\u{65e5}\u{672c}/\u{1f600}/");
    assert_eq!(path.to_string(), "caf\u{e9}/\u{65e5}\u{672c}/\u{1f600}");
    assert_eq!(path.part_count(), 3);
    assert_eq!(path.len(), 5 + 1 + 6 + 1 + 4);
    assert_eq!(path.part(1), Some("\u{65e5}\u{672c}"));
    assert!(path.has_prefix("caf\u{e9}"));
    assert!(!path.has_prefix("caf"));
    assert_eq!(path.to_owned().strip_prefix("caf\u{e9}").unwrap(), "\u{65e5}\u{672c}/\u{1f600}");
}

#[test]
fn first_part_and_rest() {
    assert!(Path::empty().next_part().is_none());

    let path = Path::new("foo//bar/baz");
    let (dir, rest) = path.next_part().unwrap();
    assert_eq!(dir, "foo");
    assert_eq!(rest, "bar/baz");

    let owned = path.to_owned();
    let (dir, rest) = owned.next_part().unwrap();
    assert_eq!(dir, "foo");
    assert_eq!(rest, "bar/baz");

    let (dir, rest) = rest.next_part().unwrap();
    assert_eq!(dir, "bar");
    let (dir, rest) = rest.next_part().unwrap();
    assert_eq!(dir, "baz");
    assert!(rest.is_empty());
    assert!(rest.next_part().is_none());
}

#[test]
fn prefix_stops_at_part_boundary() {
    let path = Path::new("foo/bar");
    assert!(path.has_prefix("foo"));
    assert!(path.has_prefix(&Path::new("foo")));
    assert!(path.has_prefix("foo/"));
    assert!(!path.has_prefix("fo"));
    assert!(!path.has_prefix("foo/bar/baz"));
    assert!(!Path::new("foobar").has_prefix("foo"));

    let owned = path.to_owned();
    assert!(owned.has_prefix("foo"));
    assert!(!owned.has_prefix("fo"));
    assert!(owned.strip_prefix("fo").is_none());
    assert!(owned.strip_prefix("foo/bar/baz").is_none());
}

#[test]
fn strip_undoes_join() {
    let base = Path::new("a/b");
    let joined = base.join("/c/d/");
    assert_eq!(joined.strip_prefix(&base).unwrap(), "c/d");
    assert_eq!(base.join(joined.strip_prefix("a/b").unwrap()), joined);
    assert_eq!(joined.strip_prefix("a").unwrap().strip_prefix("b").unwrap(), "c/d");
}

#[test]
fn join_is_associative() {
    let (a, b, c) = (Path::new("a"), Path::new("b/x"), Path::new("c"));
    assert_eq!(a.join(&b).join(&c), a.join(b.join(&c)));
    assert_eq!(a.join(Path::empty()), a);
    assert_eq!(Path::empty().join(&a), a);
}

#[test]
fn display_round_trip() {
    let path = Path::new("//a/b//c/");
    let shown = path.to_string();
    assert_eq!(shown, "a/b/c");
    assert_eq!(Path::new(&shown), path);
    assert_eq!(Path::new(&shown).to_string(), shown);
    assert_eq!(Path::empty().to_string(), "");
    assert_eq!(path.len(), shown.len());
    assert_eq!(path.checked_len(), Some(5));
}

#[test]
fn empty_default() {
    let path = Path::default();
    assert!(path.is_empty());
    assert_eq!(path, Path::empty());
    assert_eq!(path.checked_len(), Some(0));
}

#[test]
fn equality_in_every_direction() {
    let path = Path::new("foo/bar");
    let owned: PathOwned = path.to_owned();
    assert!(path == owned);
    assert!(path == "foo/bar");
    assert!(path == *"/foo/bar");
    assert!("foo//bar" == path);
    assert!(path != "foo");
    assert!(path != "foo/bar/baz");
    assert!(path != "foo/baz");
    assert!("foo" != path);
}

#[test]
fn as_path_of_every_kind() {
    let text = String::from("/foo//bar");
    let path = Path::new("foo/bar");
    assert_eq!("/foo//bar".as_path(), path);
    assert_eq!(text.as_path(), path);
    assert_eq!((&text).as_path(), path);
    assert_eq!((&path).as_path(), path);
    assert_eq!(path.as_path(), path);
    assert_eq!(path.borrow(), path);
    assert_eq!(path.clone().into_owned(), path);
    assert!(path.has_prefix(text));
}

#[test]
fn order_goes_part_by_part() {
    let order = |a: &str, b: &str| Path::new(a).cmp(&Path::new(b));
    assert_eq!(order("a", "b"), Ordering::Less);
    assert_eq!(order("b", "a"), Ordering::Greater);
    assert_eq!(order("a//b", "/a/b"), Ordering::Equal);
    assert_eq!(order("a", "a/b"), Ordering::Less);
    assert_eq!(order("a/b", "a"), Ordering::Greater);
    assert_eq!(order("", "a"), Ordering::Less);

    // A longer part is not cut at a separator: "a" comes before "a!" although '!' < '/'.
    assert_eq!(order("a/z", "a!"), Ordering::Less);
    assert_eq!("a/z".cmp("a!"), Ordering::Greater);

    // Parts are ordered by their bytes.
    assert_eq!(order("Z", "a"), Ordering::Less);
    assert_eq!(order("z", "\u{e9}"), Ordering::Less);
    assert_eq!(order("\u{ffff}", "\u{10000}"), Ordering::Less);

    assert!(Path::new("a") < Path::new("a/b").to_owned());
    assert!(Path::new("b") > Path::new("a/b"));
    assert_eq!(
        Path::new("a").partial_cmp(&Path::new("b")),
        Some(Ordering::Less)
    );
}

#[test]
fn equal_paths_hash_alike() {
    let borrowed = Path::new("foo//bar");
    let owned = Path::new("foo/bar").to_owned();
    assert_eq!(hash_of(&borrowed), hash_of(&owned));
    assert_ne!(hash_of(&borrowed), hash_of(&Path::new("foobar")));
    assert_ne!(hash_of(&borrowed), hash_of(&Path::new("foo")));

    let mut map = HashMap::new();
    map.insert(owned, 1);
    assert_eq!(map.get(&borrowed), Some(&1));
    assert_eq!(map.get(&Path::new("foo")), None);
}

#[test]
fn hash_feeds_each_part() {
    let mut hasher = DefaultHasher::new();
    "foo".hash(&mut hasher);
    "bar".hash(&mut hasher);
    assert_eq!(hash_of(&Path::new("foo/bar")), hasher.finish());
}

#[test]
fn wire_limits() {
    assert_eq!(Path::MAX_PARTS, 32);
    let deep = vec!["x"; 33].join("/");
    assert_eq!(Path::new(&deep).encode(), Err(EncodeError::BoundsExceeded));
    assert!(Path::decode(deep.clone()) == Err(DecodeError::BoundsExceeded));

    let slashes = format!("///{}///", vec!["x"; 32].join("///"));
    let path = Path::decode(slashes).unwrap();
    assert_eq!(path.part_count(), 32);
    assert_eq!(path.encode().unwrap(), vec!["x"; 32].join("/"));
    assert_eq!(Path::decode(String::new()).unwrap(), "");
    assert_eq!(Path::empty().encode().unwrap(), "");
}

#[test]
fn list_is_sorted_by_length_then_order() {
    let list = PathPrefixes::new(vec!["bb/c", "zz", "aaa", "b", "\u{e9}", "aaa/x"]);
    // The last single character takes two bytes.
    assert_eq!(strings(&list), ["b", "zz", "\u{e9}", "aaa", "bb/c"]);
}

#[test]
fn list_does_not_depend_on_order_or_repetition() {
    let a = PathPrefixes::new(vec!["x/y", "x/y/z", "q", "q"]);
    let b = PathPrefixes::new(vec!["q", "x/y/z", "x/y", "x/y/z", "q/r"]);
    assert_eq!(a, b);
    assert_eq!(strings(&a), ["q", "x/y"]);
    assert_ne!(a, PathPrefixes::new(vec!["q"]));
}

#[test]
fn list_covers_what_its_input_covered() {
    let input = ["a/b", "a", "c/d", "c/d/e", "f"];
    let list = PathPrefixes::new(input.to_vec());
    for probe in ["a", "a/b", "a/x", "b", "c", "c/d", "c/d/e/f", "f", "ff", ""] {
        let path = Path::new(probe);
        assert_eq!(
            input.iter().any(|p| path.has_prefix(*p)),
            list.iter().any(|p| path.has_prefix(p)),
        );
    }
}

#[test]
fn list_of_a_list() {
    let list = PathPrefixes::new(vec!["demo", "demo/foo", "anon"]);
    let again = PathPrefixes::from(list.clone().into_iter().collect::<Vec<_>>());
    assert_eq!(again, list);
    assert_eq!(PathPrefixes::from_iter(list.clone().into_iter()), list);
}

#[test]
fn list_with_empty_path() {
    let list = PathPrefixes::new(vec!["a", "//", "b/c"]);
    assert_eq!(strings(&list), [""]);
    assert!(!list.is_empty());
}

#[test]
fn list_as_slice_and_vec() {
    let list = PathPrefixes::new(vec!["demo", "anon"]);
    assert_eq!(list[1], Path::new("demo"));
    assert_eq!(list.first().unwrap(), &Path::new("anon"));
    assert!(vec!["anon".as_path(), "demo".as_path()] == list);
    assert!(list != vec!["demo".as_path(), "anon".as_path()]);
    assert!(list != vec!["anon".as_path()]);
    assert!(PathPrefixes::default().is_empty());
    assert_eq!(PathPrefixes::default(), PathPrefixes::new(Vec::<String>::new()));
}

#[test]
fn list_of_paths_and_strings() {
    let paths = vec![Path::new("a/b"), Path::new("a").to_owned()];
    assert_eq!(strings(&PathPrefixes::new(paths)), ["a"]);
    let texts = vec![String::from("/a//b/"), String::from("a/b")];
    assert_eq!(strings(&PathPrefixes::new(texts)), ["a/b"]);
}

#[test]
fn prefixes_are_a_partial_order() {
    let (a, b, c) = (Path::new("x"), Path::new("x/y"), Path::new("x/y/z"));
    assert!(a.has_prefix(&a));
    assert!(b.has_prefix(&a) && c.has_prefix(&b) && c.has_prefix(&a));
    assert!(!a.has_prefix(&b));
    assert!(a.has_prefix(Path::empty()));
}

#[test]
fn equal_exactly_if_displayed_the_same() {
    let texts = ["", "/", "a", "/a/", "a/b", "a//b", "ab", "a/b/c"];
    for x in texts {
        for y in texts {
            let (p, q) = (Path::new(x), Path::new(y).to_owned());
            assert_eq!(p == q, p.to_string() == q.to_string());
        }
    }
}

#[test]
fn path_is_no_longer_than_its_string() {
    for text in ["", "//", "a", "/a//b/", "caf\u{e9}///x"] {
        let path = Path::new(text);
        assert!(path.len() <= text.len());
        assert!(path.part_count() <= text.chars().count());
    }
    assert_eq!(Path::new("/a//b/").len(), 3);
}

#[test]
fn list_of_the_same_cover() {
    let a = PathPrefixes::new(vec!["a", "b"]);
    let b = PathPrefixes::new(vec!["b", "b/c", "a/x/y", "a", "a/x"]);
    assert_eq!(a, b);
}

#[test]
fn shown_with_single_slashes() {
    let borrowed = Path::new("//a//b/c/");
    let owned = borrowed.to_owned();
    assert_eq!(format!("{}", borrowed), "a/b/c");
    assert_eq!(format!("{}", owned), "a/b/c");
    assert_eq!(format!("{}", Path::new("one")), "one");
    assert_eq!(format!("{}", Path::empty()), "");
    assert_eq!(format!("[{:>9}]", Path::new("a/b")), "[a/b]");
}

#[test]
fn shown_to_a_developer() {
    let borrowed = Path::new("/a//b/c");
    let owned = borrowed.to_owned();
    assert_eq!(format!("{:?}", borrowed), "Path(\"a/b/c\")");
    assert_eq!(format!("{:?}", owned), "Path(\"a/b/c\")");
    assert_eq!(format!("{:?}", Path::empty()), "Path(\"\")");
    assert_eq!(format!("{:?}", Path::new("say \"hi\"")), "Path(\"say \"hi\"\")");
    assert_eq!(format!("{:#?}", borrowed), "Path(\"a/b/c\")");
}

#[test]
fn list_shown_to_a_developer() {
    let list = PathPrefixes::new(vec!["demo", "anon", "demo/foo"]);
    assert_eq!(format!("{:?}", list), "PathPrefixes { paths: [Path(\"anon\"), Path(\"demo\")] }");
    assert_eq!(format!("{:?}", PathPrefixes::default()), "PathPrefixes { paths: [] }");
}

#[test]
fn list_items_hold_their_parts() {
    let text = String::from("demo/foo");
    let from_strings = PathPrefixes::new(vec![text.as_str(), "anon"]);
    assert_eq!(from_strings[0].parts().size_hint(), (1, Some(1)));
    assert_eq!(from_strings[1].parts().size_hint(), (2, Some(2)));
    let from_borrowed = PathPrefixes::from(vec![Path::new("x/y"), Path::new("z").to_owned()]);
    assert_eq!(from_borrowed[0].parts().size_hint(), (1, Some(1)));
    assert_eq!(from_borrowed[1].parts().size_hint(), (2, Some(2)));
    let collected = PathPrefixes::from_iter(vec![Path::new("x/y")].into_iter());
    assert_eq!(collected[0].parts().size_hint(), (2, Some(2)));
    let copy = collected.clone();
    assert_eq!(copy[0].parts().size_hint(), (2, Some(2)));
    let everything = PathPrefixes::new(vec![""]);
    assert_eq!(everything[0].parts().size_hint(), (0, None));
}
