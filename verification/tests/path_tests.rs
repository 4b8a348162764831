use bigfile_gui::path::{longest_common_prefix, PathParts};

fn p(parts: &[&str]) -> PathParts {
    PathParts::from_parts(parts.iter().map(|s| s.to_string()).collect())
}

#[test]
fn new_path_is_empty() {
    assert_eq!(PathParts::new().len(), 0);
}

#[test]
fn join_appends_one_component() {
    let j = p(&["a", "b"]).join(&"c".to_string());
    assert_eq!(j.parts, vec!["a", "b", "c"]);
    assert_eq!(PathParts::new().join(&"x".to_string()).parts, vec!["x"]);
}

#[test]
fn parent_drops_the_last_component() {
    assert_eq!(p(&["a", "b", "c"]).parent().parts, vec!["a", "b"]);
    assert!(p(&["a"]).parent().parts.is_empty());
    assert!(p(&[]).parent().parts.is_empty());
}

#[test]
fn same_as_compares_components() {
    assert!(p(&["a", "b"]).same_as(&p(&["a", "b"])));
    assert!(!p(&["a", "b"]).same_as(&p(&["a"])));
    assert!(!p(&["a", "b"]).same_as(&p(&["a", "c"])));
    assert!(p(&[]).same_as(&p(&[])));
}

#[test]
fn starts_with_and_strip_prefix() {
    let x = p(&["a", "b", "c"]);
    assert!(x.starts_with(&p(&[])));
    assert!(x.starts_with(&p(&["a", "b"])));
    assert!(x.starts_with(&x));
    assert!(!x.starts_with(&p(&["b"])));
    assert!(!x.starts_with(&p(&["a", "b", "c", "d"])));
    assert_eq!(x.strip_prefix(&p(&["a"])).unwrap().parts, vec!["b", "c"]);
    assert_eq!(x.strip_prefix(&p(&[])).unwrap().parts, vec!["a", "b", "c"]);
    assert!(x.strip_prefix(&x).unwrap().parts.is_empty());
    assert!(x.strip_prefix(&p(&["a", "c"])).is_none());
}

#[test]
fn strip_prefix_then_join_gives_the_path_back() {
    let x = p(&["a", "b", "c"]);
    let base = p(&["a"]);
    let rest = x.strip_prefix(&base).unwrap();
    let mut back = base.parts.clone();
    back.extend(rest.parts);
    assert_eq!(back, x.parts);
}

#[test]
fn common_prefix_of_one_path_is_itself() {
    let r = longest_common_prefix(&vec![p(&["a", "b"])]);
    assert_eq!(r.parts, vec!["a", "b"]);
}

#[test]
fn common_prefix_stops_at_first_difference() {
    let r = longest_common_prefix(&vec![p(&["a", "b", "c"]), p(&["a", "b", "d"]), p(&["a", "b"])]);
    assert_eq!(r.parts, vec!["a", "b"]);
    let r = longest_common_prefix(&vec![p(&["a", "x"]), p(&["b", "x"])]);
    assert!(r.parts.is_empty());
    let r = longest_common_prefix(&vec![p(&["a", "b", "c"]), p(&["a", "b", "c", "d"])]);
    assert_eq!(r.parts, vec!["a", "b", "c"]);
    let r = longest_common_prefix(&vec![p(&["a", "b"]), p(&[])]);
    assert!(r.parts.is_empty());
}
