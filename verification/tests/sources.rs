use std::path::{Component, Path, PathBuf, Prefix};

use archive_ui::order::{place_bytes, Placing};
use archive_ui::path::{is_hidden, name_of, place_parts, place_paths, PathPart};
use archive_ui::sources::{
    collect_sources, file_entry, folder_to_walk, sort_sources, DirWalk, EntryKind, SelectedFile,
    Source,
};

fn parts(path: &Path) -> Vec<PathPart> {
    path.components()
        .map(|c| match c {
            Component::Prefix(p) => match p.kind() {
                Prefix::Disk(d) => PathPart::Disk(d),
                _ => panic!("not used here"),
            },
            Component::RootDir => PathPart::Root,
            Component::CurDir => PathPart::Current,
            Component::ParentDir => PathPart::Parent,
            Component::Normal(n) => PathPart::Name(n.as_encoded_bytes().to_vec()),
        })
        .collect()
}

fn source(id: usize, path: &str) -> Source {
    Source { id, parts: parts(Path::new(path)), path: path.to_string() }
}

fn sources(paths: &[&str]) -> Vec<Source> {
    paths.iter().enumerate().map(|(i, p)| source(i, p)).collect()
}

fn shown(list: &[Source]) -> Vec<(usize, String)> {
    list.iter().map(|s| (s.id, s.path.clone())).collect()
}

const PATHS: [&str; 14] = [
    "/b/c",
    "/a-b",
    "/a/b",
    "/a//b",
    "/a/./b",
    "a",
    "./a",
    "../a",
    "/",
    "/a/b/",
    "é/x",
    "/a",
    "/a/b/c",
    "a",
];

#[test]
fn sorted_like_paths() {
    let mut expected: Vec<PathBuf> = PATHS.iter().map(PathBuf::from).collect();
    expected.sort();
    expected.dedup();
    let expected: Vec<String> =
        expected.into_iter().map(|p| p.to_string_lossy().to_string()).collect();
    let sorted = sort_sources(sources(&PATHS));
    let got: Vec<String> = sorted.iter().map(|s| s.path.clone()).collect();
    assert_eq!(got, expected);
    assert_eq!(
        shown(&sorted),
        vec![
            (8, "/".to_string()),
            (11, "/a".to_string()),
            (2, "/a/b".to_string()),
            (12, "/a/b/c".to_string()),
            (1, "/a-b".to_string()),
            (0, "/b/c".to_string()),
            (6, "./a".to_string()),
            (7, "../a".to_string()),
            (5, "a".to_string()),
            (10, "é/x".to_string()),
        ]
    );
}

#[test]
fn pairs_are_placed_like_paths() {
    for a in PATHS {
        for b in PATHS {
            let p = place_paths(&parts(Path::new(a)), &parts(Path::new(b)));
            let (x, y) = (Path::new(a), Path::new(b));
            assert_eq!(p == Placing::Before, x < y);
            assert_eq!(p == Placing::Same, x == y);
            assert_eq!(p == Placing::After, x > y);
        }
    }
}

#[test]
fn kinds_of_parts_are_ordered() {
    let name = |s: &str| s.as_bytes().to_vec();
    let all = [
        PathPart::Verbatim(name("a")),
        PathPart::Verbatim(name("b")),
        PathPart::VerbatimShare(name("s"), name("a")),
        PathPart::VerbatimShare(name("s"), name("b")),
        PathPart::VerbatimDisk(b'C'),
        PathPart::Device(name("d")),
        PathPart::Share(name("s"), name("a")),
        PathPart::Share(name("t"), name("")),
        PathPart::Disk(b'C'),
        PathPart::Disk(b'D'),
        PathPart::Root,
        PathPart::Current,
        PathPart::Parent,
        PathPart::Name(name("")),
        PathPart::Name(name("a")),
    ];
    for (i, a) in all.iter().enumerate() {
        for (j, b) in all.iter().enumerate() {
            let expected = if i < j {
                Placing::Before
            } else if i == j {
                Placing::Same
            } else {
                Placing::After
            };
            assert!(place_parts(a, b) == expected, "{} {}", i, j);
        }
    }
}

#[test]
fn bytes_are_ordered() {
    let b = |s: &[u8]| s.to_vec();
    assert!(place_bytes(&b(b"a"), &b(b"ab")) == Placing::Before);
    assert!(place_bytes(&b(b"\xff"), &b(b"ab")) == Placing::After);
    assert!(place_bytes(&b(b"ab"), &b(b"ab")) == Placing::Same);
    assert!(place_bytes(&b(b""), &b(b"")) == Placing::Same);
}

#[test]
fn sorting_twice_changes_nothing() {
    let once = sort_sources(sources(&PATHS));
    let before = shown(&once);
    assert_eq!(shown(&sort_sources(once)), before);
}

#[test]
fn order_and_repeats_make_no_difference() {
    let paths = |list: Vec<Source>| -> Vec<PathBuf> {
        sort_sources(list).iter().map(|s| PathBuf::from(&s.path)).collect()
    };
    let mut other = PATHS.to_vec();
    other.reverse();
    other.push("/a-b");
    other.push("é//x");
    assert_eq!(paths(sources(&other)), paths(sources(&PATHS)));
}

#[test]
fn large_lists() {
    let paths: Vec<String> =
        (0..5000_usize).map(|i| format!("/d{}/f{}", (i * 7919) % 13, (i * 104729) % 900)).collect();
    let list: Vec<Source> = paths.iter().enumerate().map(|(i, p)| source(i, p)).collect();
    let mut expected: Vec<PathBuf> = paths.iter().map(PathBuf::from).collect();
    expected.sort();
    expected.dedup();
    let got: Vec<PathBuf> = sort_sources(list).iter().map(|s| PathBuf::from(&s.path)).collect();
    assert_eq!(got, expected);
}

#[test]
fn names_and_hidden_names() {
    assert_eq!(name_of(&parts(Path::new("/a/b.txt"))), Some("b.txt"));
    assert_eq!(name_of(&parts(Path::new("/a/.."))), None);
    assert_eq!(name_of(&parts(Path::new("/"))), None);
    assert_eq!(name_of(&vec![PathPart::Name(b"a\xff".to_vec())]), None);
    assert_eq!(name_of(&vec![PathPart::Name("é".as_bytes().to_vec())]), Some("é"));
    assert!(is_hidden(&parts(Path::new("/a/.DS_Store"))));
    assert!(!is_hidden(&parts(Path::new("/.a/b"))));
    assert!(!is_hidden(&parts(Path::new("/a/.."))));
    assert!(is_hidden(&vec![PathPart::Name(b".\xff".to_vec())]));
    assert!(!is_hidden(&vec![PathPart::Name(b"\xff.".to_vec())]));
    assert!(!is_hidden(&vec![PathPart::Name(b"".to_vec())]));
    assert!(!is_hidden(&vec![]));
}

/// A small tree: the entries of each directory, and which paths are files.
fn walk(root: &str, tree: &[(&str, &[&str])], files: &[&str]) -> Vec<String> {
    let list = |dir: &str| -> Vec<Source> {
        match tree.iter().find(|(d, _)| *d == dir) {
            Some((_, names)) => {
                names.iter().map(|n| source(0, &format!("{}/{}", dir, n))).collect()
            }
            None => vec![],
        }
    };
    let mut w = DirWalk::new();
    w.enter(list(root));
    while let Some(entry) = w.next() {
        let kind = if tree.iter().any(|(d, _)| *d == entry.path) {
            EntryKind::Directory
        } else if files.contains(&entry.path.as_str()) {
            EntryKind::File
        } else {
            EntryKind::Other
        };
        if let Some(dir) = w.visit(entry, kind) {
            let below = list(&dir.path);
            w.enter(below);
        }
    }
    w.into_found().into_iter().map(|s| s.path).collect()
}

#[test]
fn walking_a_folder() {
    let tree: [(&str, &[&str]); 5] = [
        ("r", &["z", "sub", ".git", "a", "socket", ".DS_Store"]),
        ("r/sub", &["x", "deep", "y"]),
        ("r/sub/deep", &["f"]),
        ("r/.git", &["config"]),
        ("r/empty", &[]),
    ];
    let files = ["r/z", "r/a", "r/.DS_Store", "r/sub/x", "r/sub/y", "r/sub/deep/f", "r/.git/config"];
    assert_eq!(
        walk("r", &tree, &files),
        vec!["r/z", "r/sub/x", "r/sub/deep/f", "r/sub/y", "r/a"]
    );
    assert_eq!(walk("r/empty", &tree, &files), Vec::<String>::new());
    assert_eq!(walk("r/gone", &tree, &files), Vec::<String>::new());
}

#[test]
fn hidden_names_need_not_be_utf8() {
    let named = |id: usize, name: &[u8]| Source {
        id,
        parts: vec![PathPart::Name(name.to_vec())],
        path: String::new(),
    };
    let mut w = DirWalk::new();
    w.enter(vec![named(0, b".\xff"), named(1, b"a\xff"), named(2, b".x")]);
    let entry = w.next().unwrap();
    assert_eq!(entry.id, 1);
    assert!(w.visit(entry, EntryKind::File).is_none());
    assert!(w.next().is_none());
    assert_eq!(shown(&w.into_found()), vec![(1, String::new())]);
}

fn file(id: usize, path: &str, is_file: bool) -> SelectedFile {
    SelectedFile { source: source(id, path), is_file }
}

#[test]
fn folders_to_walk() {
    assert_eq!(folder_to_walk(Some("/a")), Some("/a"));
    assert_eq!(folder_to_walk(Some(" a ")), Some(" a "));
    assert_eq!(folder_to_walk(Some(" \n")), None);
    assert_eq!(folder_to_walk(None), None);
}

#[test]
fn collecting() {
    let walked = || vec![source(0, "/f/b"), source(1, "/f/a")];
    let files = || vec![file(2, "/f//a", true), file(3, "/gone", false), file(4, "/e", true)];
    let list = collect_sources(Some("/f"), true, walked(), files()).ok().unwrap();
    assert_eq!(
        shown(&list),
        vec![(4, "/e".to_string()), (1, "/f/a".to_string()), (0, "/f/b".to_string())]
    );
    let list = collect_sources(Some("  "), false, walked(), files()).ok().unwrap();
    assert_eq!(shown(&list), vec![(4, "/e".to_string()), (2, "/f//a".to_string())]);
    let list = collect_sources(None, true, vec![], vec![]).ok().unwrap();
    assert_eq!(shown(&list), vec![]);
    let e = collect_sources(Some(" /x "), false, vec![], files()).err();
    assert_eq!(e, Some("Not a folder:  /x ".to_string()));
}

#[test]
fn entries_of_files() {
    let e = file_entry(&source(7, "/a/b.txt"), Some(12));
    assert_eq!((e.path.as_str(), e.name.as_str(), e.size), ("/a/b.txt", "b.txt", 12));
    let odd = Source {
        id: 0,
        parts: vec![PathPart::Name(b"\xff".to_vec())],
        path: "\u{fffd}".to_string(),
    };
    let e = file_entry(&odd, None);
    assert_eq!((e.path.as_str(), e.name.as_str(), e.size), ("\u{fffd}", "", 0));
}
