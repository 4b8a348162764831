use bigfile_gui::path::PathParts;
use bigfile_gui::text::name_less;
use bigfile_gui::tree::{Dir, File};

fn p(parts: &[&str]) -> PathParts {
    PathParts::from_parts(parts.iter().map(|s| s.to_string()).collect())
}

fn names(files: &[File]) -> Vec<String> {
    files.iter().map(|f| f.name.clone()).collect()
}

fn dir_names(d: &Dir) -> Vec<String> {
    d.dirs.iter().map(|s| s.name.clone()).collect()
}

#[test]
fn from_paths_builds_nested_tree() {
    let paths = vec![p(&["a", "b", "c.png"]), p(&["a", "d.txt"]), p(&["e.bin"])];
    let root = Dir::from_paths(&paths);
    assert_eq!(names(&root.files), vec!["e.bin"]);
    assert_eq!(root.files[0].id, 2);
    assert_eq!(root.files[0].path.parts, vec!["e.bin"]);
    assert_eq!(dir_names(&root), vec!["a"]);
    let a = &root.dirs[0].dir;
    assert_eq!(names(&a.files), vec!["d.txt"]);
    assert_eq!(a.files[0].id, 1);
    assert_eq!(a.files[0].path.parts, vec!["a", "d.txt"]);
    assert_eq!(dir_names(a), vec!["b"]);
    let b = &a.dirs[0].dir;
    assert_eq!(names(&b.files), vec!["c.png"]);
    assert_eq!(b.files[0].id, 0);
    assert_eq!(b.files[0].path.parts, vec!["a", "b", "c.png"]);
    assert!(b.dirs.is_empty());
}

#[test]
fn from_paths_of_nothing_is_empty() {
    let root = Dir::from_paths(&vec![]);
    assert!(root.files.is_empty());
    assert!(root.dirs.is_empty());
}

#[test]
fn empty_path_adds_nothing_and_keeps_the_number() {
    let mut d = Dir::new();
    let mut id = 7u64;
    d.insert(&p(&[]), &mut id, &p(&[]));
    assert_eq!(id, 7);
    assert!(d.files.is_empty() && d.dirs.is_empty());
    let root = Dir::from_paths(&vec![p(&[]), p(&["x"]), p(&[])]);
    assert_eq!(root.files.len(), 1);
    assert_eq!(root.files[0].id, 0);
}

#[test]
fn insert_counts_the_number_up_and_uses_the_prefix() {
    let mut d = Dir::new();
    let mut id = 41u64;
    d.insert(&p(&["sub", "f"]), &mut id, &p(&["top"]));
    assert_eq!(id, 42);
    let sub = &d.dirs[0];
    assert_eq!(sub.name, "sub");
    assert_eq!(sub.dir.files[0].id, 41);
    assert_eq!(sub.dir.files[0].name, "f");
    assert_eq!(sub.dir.files[0].path.parts, vec!["top", "sub", "f"]);
}

#[test]
fn subdirectories_are_kept_in_name_order_each_once() {
    let paths = vec![
        p(&["z", "1"]),
        p(&["b", "2"]),
        p(&["m", "3"]),
        p(&["b", "4"]),
        p(&["B", "5"]),
    ];
    let root = Dir::from_paths(&paths);
    assert_eq!(dir_names(&root), vec!["B", "b", "m", "z"]);
    let b = &root.dirs[1].dir;
    assert_eq!(names(&b.files), vec!["2", "4"]);
    assert_eq!(b.files[0].id, 1);
    assert_eq!(b.files[1].id, 3);
}

#[test]
fn same_path_twice_gives_two_files_with_their_own_numbers() {
    let root = Dir::from_paths(&vec![p(&["x"]), p(&["x"])]);
    assert_eq!(root.files.len(), 2);
    assert_eq!(root.files[0].id, 0);
    assert_eq!(root.files[1].id, 1);
}

fn collect_ids(d: &Dir, out: &mut Vec<u64>) {
    for f in &d.files {
        out.push(f.id);
    }
    for s in &d.dirs {
        collect_ids(&s.dir, out);
    }
}

#[test]
fn built_tree_numbers_files_from_zero_without_repeats() {
    let paths = vec![
        p(&["a", "x"]),
        p(&[]),
        p(&["a", "y"]),
        p(&["b", "c", "d"]),
        p(&["e"]),
    ];
    let root = Dir::from_paths(&paths);
    let mut ids = vec![];
    collect_ids(&root, &mut ids);
    ids.sort();
    assert_eq!(ids, vec![0, 1, 2, 3]);
}

#[test]
fn every_file_sits_where_its_path_says() {
    let paths = vec![p(&["a", "b", "c"]), p(&["a", "d"]), p(&["e"])];
    let root = Dir::from_paths(&paths);
    fn check(d: &Dir, loc: &mut Vec<String>) {
        for f in &d.files {
            let mut expect = loc.clone();
            expect.push(f.name.clone());
            assert_eq!(f.path.parts, expect);
        }
        for s in &d.dirs {
            loc.push(s.name.clone());
            assert!(!s.dir.files.is_empty() || !s.dir.dirs.is_empty());
            check(&s.dir, loc);
            loc.pop();
        }
    }
    check(&root, &mut vec![]);
}

#[test]
fn sort_files_orders_by_name_and_keeps_equal_names_in_order() {
    let mut d = Dir::new();
    d.files.push(File::new("b".to_string(), 0, p(&["b"])));
    d.files.push(File::new("a".to_string(), 1, p(&["a"])));
    d.files.push(File::new("b".to_string(), 2, p(&["b"])));
    d.files.push(File::new("c".to_string(), 3, p(&["c"])));
    d.files.push(File::new("B".to_string(), 4, p(&["B"])));
    d.sort_files();
    assert_eq!(names(&d.files), vec!["B", "a", "b", "b", "c"]);
    let ids: Vec<u64> = d.files.iter().map(|f| f.id).collect();
    assert_eq!(ids, vec![4, 1, 0, 2, 3]);
}

#[test]
fn sorting_again_changes_nothing() {
    let mut d = Dir::new();
    for (i, n) in ["q", "e", "w", "e", "r"].iter().enumerate() {
        d.files.push(File::new(n.to_string(), i as u64, p(&[n])));
    }
    d.sort_files();
    let once: Vec<u64> = d.files.iter().map(|f| f.id).collect();
    d.sort_files();
    let twice: Vec<u64> = d.files.iter().map(|f| f.id).collect();
    assert_eq!(once, twice);
    assert_eq!(once, vec![1, 3, 0, 4, 2]);
}

#[test]
fn sort_files_agrees_with_std_sort_by() {
    let words = ["zeta", "Alpha", "éclair", "alpha", "", "a", "ab", "Zeta", "ä", "alpha"];
    let mut d = Dir::new();
    let mut expected: Vec<(String, u64)> = vec![];
    for (i, w) in words.iter().enumerate() {
        d.files.push(File::new(w.to_string(), i as u64, p(&[w])));
        expected.push((w.to_string(), i as u64));
    }
    expected.sort_by(|a, b| a.0.cmp(&b.0));
    d.sort_files();
    let got: Vec<(String, u64)> = d.files.iter().map(|f| (f.name.clone(), f.id)).collect();
    assert_eq!(got, expected);
}

#[test]
fn name_less_agrees_with_string_order() {
    let words = ["", "a", "ab", "b", "B", "é", "z", "zz", "日本", "日", "a\u{0}", "~"];
    for x in words.iter() {
        for y in words.iter() {
            let a = x.to_string();
            let b = y.to_string();
            assert_eq!(name_less(&a, &b), a < b, "{:?} {:?}", a, b);
        }
    }
}

#[test]
fn files_are_equal_when_their_numbers_are() {
    let f = File::new("x".to_string(), 3, p(&["x"]));
    let g = File::new("y".to_string(), 3, p(&["d", "y"]));
    let h = File::new("x".to_string(), 4, p(&["x"]));
    assert!(f == g);
    assert!(f != h);
}

#[test]
fn duplicate_copies_every_field() {
    let f = File::new("x".to_string(), 9, p(&["d", "x"]));
    let g = f.duplicate();
    assert_eq!(g.name, "x");
    assert_eq!(g.id, 9);
    assert_eq!(g.path.parts, vec!["d", "x"]);
}

#[test]
fn insert_puts_the_file_last_in_its_directory_and_leaves_others() {
    let mut root = Dir::from_paths(&vec![p(&["d", "a"]), p(&["d", "b"]), p(&["e", "c"]), p(&["top"])]);
    let mut id = 10u64;
    root.insert(&p(&["d", "0"]), &mut id, &PathParts::new());
    assert_eq!(id, 11);
    assert_eq!(dir_names(&root), vec!["d", "e"]);
    assert_eq!(names(&root.dirs[0].dir.files), vec!["a", "b", "0"]);
    assert_eq!(root.dirs[0].dir.files[2].id, 10);
    assert_eq!(root.dirs[0].dir.files[2].path.parts, vec!["d", "0"]);
    assert_eq!(names(&root.dirs[1].dir.files), vec!["c"]);
    assert_eq!(names(&root.files), vec!["top"]);
}

#[test]
fn insert_makes_a_missing_directory_in_name_order() {
    let mut root = Dir::from_paths(&vec![p(&["a", "x"]), p(&["c", "y"])]);
    let mut id = 2u64;
    root.insert(&p(&["b", "q", "z"]), &mut id, &PathParts::new());
    assert_eq!(dir_names(&root), vec!["a", "b", "c"]);
    let b = &root.dirs[1].dir;
    assert!(b.files.is_empty());
    assert_eq!(dir_names(b), vec!["q"]);
    assert_eq!(b.dirs[0].dir.files[0].path.parts, vec!["b", "q", "z"]);
    assert_eq!(b.dirs[0].dir.files[0].id, 2);
}
