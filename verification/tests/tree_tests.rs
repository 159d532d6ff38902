use iso_maker::state::FileEntry;
use iso_maker::text::{chars_before, decimal_string, directory_part, replace_backslashes, split_components};
use iso_maker::tree::{build_tree, find_directory, insert_nested, to_iso_files, IsoNode};

fn entry(name: &str, iso_path: &str) -> FileEntry {
    FileEntry { name: name.to_string(), path: format!("/src/{}", name), iso_path: iso_path.to_string(), size: 1 }
}

fn file(name: &str, source: usize) -> IsoNode {
    IsoNode::File { name: name.to_string(), source }
}

fn describe(nodes: &[IsoNode]) -> String {
    let mut out = String::new();
    for n in nodes {
        match n {
            IsoNode::File { name, source } => out.push_str(&format!("{}#{} ", name, source)),
            IsoNode::Directory { name, children } => out.push_str(&format!("{}[{}] ", name, describe(children).trim_end())),
        }
    }
    out
}

#[test]
fn directory_part_strips_leading_slashes_and_the_file_name() {
    assert_eq!(directory_part("/A.TXT"), None);
    assert_eq!(directory_part("A.TXT"), None);
    assert_eq!(directory_part("/docs/b.txt"), Some("docs".chars().collect()));
    assert_eq!(directory_part("///a/b/c.txt"), Some("a/b".chars().collect()));
    assert_eq!(directory_part("/a//c.txt"), Some("a/".chars().collect()));
    assert_eq!(directory_part("/"), None);
    assert_eq!(directory_part(""), None);
}

#[test]
fn components_split_like_str_split() {
    let s: Vec<char> = "a/b".chars().collect();
    assert_eq!(split_components(&s), vec!["a".to_string(), "b".to_string()]);
    let e: Vec<char> = "".chars().collect();
    assert_eq!(split_components(&e), vec!["".to_string()]);
    let t: Vec<char> = "a/".chars().collect();
    assert_eq!(split_components(&t), vec!["a".to_string(), "".to_string()]);
    let u: Vec<char> = "x//y".chars().collect();
    assert_eq!(split_components(&u), "x//y".split('/').map(|p| p.to_string()).collect::<Vec<_>>());
}

#[test]
fn char_order_is_string_order() {
    let pairs = [("a", "b"), ("a", "ab"), ("", "a"), ("b", "a"), ("abc", "abc"), ("Z", "a"), ("é", "z")];
    for (a, b) in pairs {
        let av: Vec<char> = a.chars().collect();
        let bv: Vec<char> = b.chars().collect();
        assert_eq!(chars_before(&av, &bv), a.to_string() < b.to_string(), "{} < {}", a, b);
    }
}

#[test]
fn backslashes_become_slashes() {
    assert_eq!(replace_backslashes("a\\b\\c.txt"), "a/b/c.txt");
    assert_eq!(replace_backslashes("plain"), "plain");
}

#[test]
fn decimal_strings() {
    assert_eq!(decimal_string(0), "0");
    assert_eq!(decimal_string(7), "7");
    assert_eq!(decimal_string(42), "42");
    assert_eq!(decimal_string(1000), "1000");
    assert_eq!(decimal_string(usize::MAX), usize::MAX.to_string());
}

#[test]
fn insert_nested_creates_and_reuses_directories() {
    let mut root = vec![file("top", 0)];
    let parts = vec!["a".to_string(), "b".to_string()];
    insert_nested(&mut root, &parts, &[file("x", 1)]);
    assert_eq!(describe(&root), "top#0 a[b[x#1]] ");
    insert_nested(&mut root, &parts, &[file("y", 2)]);
    assert_eq!(describe(&root), "top#0 a[b[x#1 y#2]] ");
    insert_nested(&mut root, &["a".to_string()], &[file("z", 3)]);
    assert_eq!(describe(&root), "top#0 a[b[x#1 y#2] z#3] ");
    insert_nested(&mut root, &[], &[file("w", 4)]);
    assert_eq!(describe(&root), "top#0 a[b[x#1 y#2] z#3] w#4 ");
}

#[test]
fn insert_nested_does_not_enter_a_file_of_the_same_name() {
    let mut root = vec![file("a", 0)];
    insert_nested(&mut root, &["a".to_string()], &[file("x", 1)]);
    assert_eq!(describe(&root), "a#0 a[x#1] ");
}

#[test]
fn find_directory_finds_the_first() {
    let root = vec![
        file("d", 0),
        IsoNode::Directory { name: "d".to_string(), children: vec![] },
        IsoNode::Directory { name: "d".to_string(), children: vec![file("q", 1)] },
    ];
    assert_eq!(find_directory(&root, &"d".to_string()), Some(1));
    assert_eq!(find_directory(&root, &"e".to_string()), None);
}

#[test]
fn tree_groups_files_by_directory_in_ascending_order() {
    let files = vec![
        entry("z.txt", "/z/z.txt"),
        entry("top.txt", "/TOP.TXT"),
        entry("c.txt", "/docs/sub/c.txt"),
        entry("b.txt", "/docs/b.txt"),
        entry("a.txt", "/a/a.txt"),
    ];
    let tree = build_tree(&files);
    assert_eq!(describe(&tree), "top.txt#1 a[a.txt#4] docs[b.txt#3 sub[c.txt#2]] z[z.txt#0] ");
}

#[test]
fn tree_uses_entry_names_not_path_names() {
    let files = vec![entry("readme.md", "/README.MD"), entry("Other", "/dir/ANYTHING")];
    assert_eq!(describe(&build_tree(&files)), "readme.md#0 dir[Other#1] ");
}

#[test]
fn every_entry_is_placed_once() {
    let files = vec![
        entry("1", "/x/y/1"),
        entry("2", "/x/2"),
        entry("3", "/3"),
        entry("4", "/x/y/4"),
        entry("5", "//x//5"),
    ];
    let tree = build_tree(&files);
    let mut found: Vec<(String, String, usize)> = Vec::new();
    fn walk(nodes: &[IsoNode], dir: &str, found: &mut Vec<(String, String, usize)>) {
        for n in nodes {
            match n {
                IsoNode::File { name, source } => found.push((dir.to_string(), name.clone(), *source)),
                IsoNode::Directory { name, children } => walk(children, &format!("{}{}/", dir, name), found),
            }
        }
    }
    walk(&tree, "", &mut found);
    found.sort_by_key(|f| f.2);
    assert_eq!(found, vec![
        ("x/y/".to_string(), "1".to_string(), 0),
        ("x/".to_string(), "2".to_string(), 1),
        ("".to_string(), "3".to_string(), 2),
        ("x/y/".to_string(), "4".to_string(), 3),
        ("x//".to_string(), "5".to_string(), 4),
    ]);
}

#[test]
fn iso_files_carry_the_contents() {
    let files = vec![entry("a", "/a"), entry("b", "/d/b")];
    let tree = build_tree(&files);
    let contents = vec![b"AAA".to_vec(), b"BB".to_vec()];
    let converted = to_iso_files(&tree, &contents);
    assert_eq!(converted.len(), 2);
    match &converted[0] {
        hadris_iso::write::File::File { name, contents } => {
            assert_eq!(name.as_str(), "a");
            assert_eq!(contents, &b"AAA".to_vec());
        },
        _ => panic!("expected a file"),
    }
    match &converted[1] {
        hadris_iso::write::File::Directory { name, children } => {
            assert_eq!(name.as_str(), "d");
            match &children[0] {
                hadris_iso::write::File::File { name, contents } => {
                    assert_eq!(name.as_str(), "b");
                    assert_eq!(contents, &b"BB".to_vec());
                },
                _ => panic!("expected a file"),
            }
        },
        _ => panic!("expected a directory"),
    }
}

#[test]
fn duplicate_copies_deeply() {
    let node = IsoNode::Directory { name: "d".to_string(), children: vec![file("f", 3)] };
    assert_eq!(describe(&[node.duplicate()]), describe(&[node]));
}

#[test]
fn shared_directories_are_made_once() {
    let files = vec![entry("x", "/a/b/x"), entry("y", "/a/c/y"), entry("z", "/a/b/z")];
    let tree = build_tree(&files);
    assert_eq!(tree.len(), 1);
    match &tree[0] {
        IsoNode::Directory { name, children } => {
            assert_eq!(name, "a");
            let names: Vec<&str> = children
                .iter()
                .map(|c| match c {
                    IsoNode::Directory { name, .. } => name.as_str(),
                    IsoNode::File { name, .. } => name.as_str(),
                })
                .collect();
            assert_eq!(names, vec!["b", "c"]);
        },
        IsoNode::File { .. } => panic!("expected a directory"),
    }
}
