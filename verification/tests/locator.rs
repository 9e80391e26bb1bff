use airs::locator::{find_project_root, marker_names};

fn comps(names: &[&[u8]]) -> Vec<Vec<u8>> {
    names.iter().map(|n| n.to_vec()).collect()
}

#[test]
fn locate_no_marker_returns_start() {
    let start = comps(&[b"home", b"user", b"proj"]);
    let marker_at = vec![false, false, false, false];
    let root = find_project_root(start.clone(), &marker_at);
    assert_eq!(root, start);
}

#[test]
fn locate_nearest_marked_ancestor() {
    let start = comps(&[b"home", b"user", b"proj"]);
    let marker_at = vec![false, true, false, false];
    let root = find_project_root(start, &marker_at);
    assert_eq!(root, comps(&[b"home"]));
}

#[test]
fn locate_prefers_closest_level() {
    let start = comps(&[b"home", b"user", b"proj"]);
    let marker_at = vec![false, true, false, true];
    let root = find_project_root(start.clone(), &marker_at);
    assert_eq!(root, start);
}

#[test]
fn locate_marker_at_filesystem_root() {
    let start = comps(&[b"srv", b"code"]);
    let marker_at = vec![true, false, false];
    let root = find_project_root(start, &marker_at);
    assert_eq!(root, comps(&[]));
}

#[test]
fn locate_empty_start_without_marker() {
    let start = comps(&[]);
    let marker_at = vec![false];
    let root = find_project_root(start, &marker_at);
    assert_eq!(root, comps(&[]));
}

#[test]
fn marker_names_fixed_priority_order() {
    let names = marker_names();
    assert_eq!(names, comps(&[b".git", b".github"]));
}
