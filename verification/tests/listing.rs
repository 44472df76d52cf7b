use forma_dock::listing::{list_entries, zone_dirs, DirItem};
use std::path::PathBuf;

fn item(name: &str, is_dir: bool) -> DirItem {
    DirItem {
        path: PathBuf::from(format!("/root/{}", name)),
        file_name: name.as_bytes().to_vec(),
        name: name.to_string(),
        name_is_unicode: true,
        is_dir,
    }
}

#[test]
fn folders_first_then_byte_order_hidden_left_out() {
    let items = vec![
        item("b.txt", false),
        item("Zeta", true),
        item(".hidden", false),
        item("a.txt", false),
        item("B.txt", false),
        item("alpha", true),
        item(".git", true),
    ];
    let entries = list_entries(items);
    let names: Vec<&str> = entries.iter().map(|e| e.name.as_str()).collect();
    assert_eq!(names, vec!["Zeta", "alpha", "B.txt", "a.txt", "b.txt"]);
    assert!(entries[0].is_dir && entries[1].is_dir && !entries[2].is_dir);
    assert_eq!(entries[3].path, PathBuf::from("/root/a.txt"));
}

#[test]
fn equal_ranks_keep_their_order() {
    let mut first = item("same", false);
    first.path = PathBuf::from("/one/same");
    let mut second = item("same", false);
    second.path = PathBuf::from("/two/same");
    let entries = list_entries(vec![first, item("other", true), second]);
    assert_eq!(entries[0].name, "other");
    assert_eq!(entries[1].path, PathBuf::from("/one/same"));
    assert_eq!(entries[2].path, PathBuf::from("/two/same"));
}

#[test]
fn prefix_names_come_first() {
    let entries = list_entries(vec![item("abc", false), item("ab", false), item("", false)]);
    let names: Vec<&str> = entries.iter().map(|e| e.name.as_str()).collect();
    assert_eq!(names, vec!["", "ab", "abc"]);
}

#[test]
fn empty_folder_lists_nothing() {
    assert!(list_entries(Vec::new()).is_empty());
}

#[test]
fn zones_are_visible_folders_by_name() {
    let mut odd = item(".odd", true);
    odd.name_is_unicode = false;
    let zones = zone_dirs(vec![
        item("work", true),
        item("notes.txt", false),
        item(".cache", true),
        item("Games", true),
        odd,
        item("apps", true),
    ]);
    assert_eq!(
        zones,
        vec![
            PathBuf::from("/root/.odd"),
            PathBuf::from("/root/Games"),
            PathBuf::from("/root/apps"),
            PathBuf::from("/root/work"),
        ]
    );
}

#[test]
fn listing_ignores_read_order() {
    let names = [("b.txt", false), ("A", true), ("a.txt", false), (".hid", false), ("Z", true)];
    let forward: Vec<DirItem> = names.iter().map(|(n, d)| item(n, *d)).collect();
    let backward: Vec<DirItem> = names.iter().rev().map(|(n, d)| item(n, *d)).collect();
    let shuffled: Vec<DirItem> =
        [2usize, 0, 4, 1, 3].iter().map(|&i| item(names[i].0, names[i].1)).collect();
    let a: Vec<String> = list_entries(forward).into_iter().map(|e| e.name).collect();
    let b: Vec<String> = list_entries(backward).into_iter().map(|e| e.name).collect();
    let c: Vec<String> = list_entries(shuffled).into_iter().map(|e| e.name).collect();
    assert_eq!(a, vec!["A", "Z", "a.txt", "b.txt"]);
    assert_eq!(a, b);
    assert_eq!(a, c);
}

#[test]
fn zones_ignore_read_order() {
    let names = [("b", true), ("a", true), (".git", true), ("f.txt", false)];
    let forward: Vec<DirItem> = names.iter().map(|(n, d)| item(n, *d)).collect();
    let backward: Vec<DirItem> = names.iter().rev().map(|(n, d)| item(n, *d)).collect();
    let a = zone_dirs(forward);
    assert_eq!(a, vec![PathBuf::from("/root/a"), PathBuf::from("/root/b")]);
    assert_eq!(a, zone_dirs(backward));
}
