use std::path::Path;
use tree_gen::compare::{compare_directories, join_path, order_by_name, DiffKind, DiffLine};
use tree_gen::entry::{Entry, EntryKind};
use tree_gen::name::{compare_names, NameOrder};

fn file(name: &str, size: Option<u64>) -> Entry {
    Entry {
        name: name.to_string(),
        kind: EntryKind::File,
        size,
        modified: None,
        mode: None,
        content: None,
        children: vec![],
    }
}

fn dir(name: &str, children: Vec<Entry>) -> Entry {
    Entry {
        name: name.to_string(),
        kind: EntryKind::Directory,
        size: None,
        modified: None,
        mode: None,
        content: None,
        children,
    }
}

fn texts(lines: &[DiffLine]) -> Vec<String> {
    lines.iter().map(|l| l.text()).collect()
}

#[test]
fn compares_two_directories() {
    let left = dir(
        "left",
        vec![
            file("same.txt", Some(5)),
            file("only-left.txt", Some(1)),
            file("changed.txt", Some(10)),
            dir("sub", vec![file("inner.txt", Some(3)), file("gone.txt", Some(3))]),
            file("mixed", Some(1)),
        ],
    );
    let right = dir(
        "right",
        vec![
            dir("sub", vec![file("new.txt", Some(1)), file("inner.txt", Some(4))]),
            dir("mixed", vec![]),
            file("changed.txt", Some(12)),
            file("same.txt", Some(5)),
            file("zz-only-right.txt", None),
        ],
    );
    let lines = compare_directories(&left, &right, "a/left", "b/right/").unwrap();
    assert_eq!(
        texts(&lines),
        vec![
            "~ changed.txt (10 bytes in a/left, 12 bytes in b/right/)",
            "mixed (one is a file, the other is a directory)",
            "- only-left.txt",
            "= same.txt",
            "sub",
            "  - gone.txt",
            "  ~ inner.txt (3 bytes in a/left/sub, 4 bytes in b/right/sub)",
            "  + new.txt",
            "+ zz-only-right.txt",
        ]
    );
    let kinds: Vec<DiffKind> = lines.iter().map(|l| l.kind).collect();
    assert_eq!(
        kinds,
        vec![
            DiffKind::Changed,
            DiffKind::KindMismatch,
            DiffKind::OnlyInFirst,
            DiffKind::Same,
            DiffKind::Nested,
            DiffKind::OnlyInFirst,
            DiffKind::Changed,
            DiffKind::OnlyInSecond,
            DiffKind::OnlyInSecond,
        ]
    );
    assert_eq!(lines[6].lead, "  ~ ");
    assert_eq!(lines[6].name, "inner.txt");
    assert_eq!(lines[6].decorated("<inner.txt>"), "  ~ <inner.txt> (3 bytes in a/left/sub, 4 bytes in b/right/sub)");
}

#[test]
fn a_directory_compared_with_itself_is_all_the_same() {
    let tree = dir("d", vec![file("b", Some(1)), dir("a", vec![file("x", Some(2))]), file("c", Some(0))]);
    let lines = compare_directories(&tree, &tree, "", "").unwrap();
    assert_eq!(texts(&lines), vec!["a", "  = x", "= b", "= c"]);
}

#[test]
fn empty_directories_have_no_differences() {
    let lines = compare_directories(&dir("a", vec![]), &dir("b", vec![]), "a", "b").unwrap();
    assert!(lines.is_empty());
    let lines = compare_directories(&dir("a", vec![]), &dir("b", vec![file("f", None)]), "a", "b").unwrap();
    assert_eq!(texts(&lines), vec!["+ f"]);
    let lines = compare_directories(&dir("a", vec![file("f", None)]), &dir("b", vec![]), "a", "b").unwrap();
    assert_eq!(texts(&lines), vec!["- f"]);
}

#[test]
fn no_answer_without_two_directories_or_without_lengths() {
    let d = dir("d", vec![file("f", Some(1))]);
    assert!(compare_directories(&file("f", Some(1)), &d, "f", "d").is_none());
    assert!(compare_directories(&d, &file("f", Some(1)), "d", "f").is_none());
    let unknown = dir("d", vec![file("f", None)]);
    assert!(compare_directories(&d, &unknown, "d", "d").is_none());
    assert!(compare_directories(&unknown, &d, "d", "d").is_none());
    let deep = dir("top", vec![file("a", Some(1)), dir("d", vec![file("f", None)])]);
    let other = dir("top", vec![dir("d", vec![file("f", Some(1))])]);
    assert!(compare_directories(&deep, &other, "x", "y").is_none());
    // A length that is never compared may be unknown.
    let apart = dir("top", vec![file("g", Some(1))]);
    assert!(compare_directories(&unknown, &apart, "x", "y").is_some());
    let mixed = dir("top", vec![dir("f", vec![])]);
    assert!(compare_directories(&unknown, &mixed, "x", "y").is_some());
}

#[test]
fn names_are_ordered_as_strings_are() {
    let names = ["b", "a", "", "ab", "a.b", "B", "é", "z", "ab", "a b", "~", "aé", "a\u{10000}", "a\u{ffff}", "10", "9"];
    for a in names {
        for b in names {
            let left: Vec<char> = a.chars().collect();
            let right: Vec<char> = b.chars().collect();
            let expected = if a < b {
                NameOrder::Before
            } else if a == b {
                NameOrder::Same
            } else {
                NameOrder::After
            };
            assert_eq!(compare_names(&left, &right), expected, "{a:?} / {b:?}");
        }
    }
}

#[test]
fn order_by_name_is_a_stable_sort() {
    let names = ["b", "a", "", "ab", "a.b", "B", "é", "z", "ab", "a b", "b"];
    let children: Vec<Entry> = names.iter().map(|n| file(n, None)).collect();
    let order = order_by_name(&children);
    let mut expected: Vec<usize> = (0..names.len()).collect();
    expected.sort_by_key(|&i| names[i]);
    assert_eq!(order, expected);
    assert_eq!(order_by_name(&Vec::new()), Vec::<usize>::new());
}

#[test]
fn paths_are_joined_as_paths_are() {
    for path in ["", "a", "a/", "a/b", "/", "/a", "a//", "."] {
        for name in ["x", "x.txt", "sub dir", "/abs", ""] {
            let expected = Path::new(path).join(name);
            assert_eq!(join_path(path, name), expected.to_string_lossy(), "{path:?} / {name:?}");
        }
    }
    assert_eq!(join_path("a/b", "c"), "a/b/c");
}
