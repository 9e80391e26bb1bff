use std::collections::HashMap;

use airs::installer::{candidate_names, install, sort_names, target_path};
use airs::installer::{InstallError, InstallPlan, StoreEntry, StoreLookup};

fn file(name: &[u8], content: &[u8]) -> StoreEntry {
    StoreEntry { name: name.to_vec(), is_file: true, content: content.to_vec() }
}

fn subdir(name: &[u8]) -> StoreEntry {
    StoreEntry { name: name.to_vec(), is_file: false, content: Vec::new() }
}

fn names(list: &[&[u8]]) -> Vec<Vec<u8>> {
    list.iter().map(|n| n.to_vec()).collect()
}

#[test]
fn store_not_given_fails_unimplemented() {
    let r = candidate_names(&StoreLookup::NotGiven);
    assert_eq!(r, Err(InstallError::UnimplementedDefault));
}

#[test]
fn install_without_store_plans_no_write() {
    let root = names(&[b"proj"]);
    let r = install(&root, &StoreLookup::NotGiven, 0);
    match r {
        Err(e) => assert_eq!(e, InstallError::UnimplementedDefault),
        Ok(_) => panic!("a run without a store directory must not produce a plan"),
    }
}

#[test]
fn store_missing_fails_store_not_found() {
    let r = candidate_names(&StoreLookup::Missing);
    assert_eq!(r, Err(InstallError::StoreNotFound));
}

#[test]
fn store_unreadable_fails_store_read() {
    let r = candidate_names(&StoreLookup::Unreadable);
    assert_eq!(r, Err(InstallError::StoreReadFailure));
}

#[test]
fn empty_store_fails_no_candidates() {
    let r = candidate_names(&StoreLookup::Found(Vec::new()));
    assert_eq!(r, Err(InstallError::NoCandidates));
}

#[test]
fn store_without_md_files_fails_no_candidates() {
    let store = StoreLookup::Found(vec![file(b"notes.txt", b"n"), subdir(b"rule.md")]);
    let r = candidate_names(&store);
    assert_eq!(r, Err(InstallError::NoCandidates));
}

#[test]
fn candidates_are_sorted_and_filtered() {
    let store = StoreLookup::Found(vec![
        file(b"b.md", b"bee"),
        file(b"a.md", b"aye"),
        file(b"c.txt", b"sea"),
    ]);
    let r = candidate_names(&store);
    assert_eq!(r, Ok(names(&[b"a.md", b"b.md"])));
}

#[test]
fn extension_match_is_exact() {
    let store = StoreLookup::Found(vec![
        file(b".md", b"hidden"),
        file(b"a.MD", b"upper"),
        file(b"md", b"bare"),
        file(b"a.mdx", b"longer"),
        file(b"a.b.md", b"dotted"),
        file(b"..md", b"dots"),
    ]);
    let r = candidate_names(&store);
    assert_eq!(r, Ok(names(&[b"..md", b"a.b.md"])));
}

#[test]
fn sort_names_orders_lexicographically() {
    let sorted = sort_names(names(&[b"b.md", b"ab.md", b"a.md", b"ab.md"]));
    assert_eq!(sorted, names(&[b"a.md", b"ab.md", b"ab.md", b"b.md"]));
}

#[test]
fn target_path_is_fixed_below_root() {
    let t = target_path(&names(&[b"srv", b"proj"]));
    assert_eq!(t, names(&[b"srv", b"proj", b".github", b"copilot-instructions.md"]));
}

#[test]
fn single_file_install_writes_content_at_target() {
    let root = names(&[b"proj"]);
    let store = StoreLookup::Found(vec![file(b"rule.md", b"hello")]);
    let plan = install(&root, &store, 0).expect("one candidate must install");
    assert_eq!(plan.target, names(&[b"proj", b".github", b"copilot-instructions.md"]));
    assert_eq!(plan.content, b"hello".to_vec());
}

#[test]
fn selection_resolves_against_sorted_order() {
    let root = names(&[b"proj"]);
    let store = StoreLookup::Found(vec![file(b"b.md", b"bee"), file(b"a.md", b"aye")]);
    let first = install(&root, &store, 0).expect("two candidates must install");
    let second = install(&root, &store, 1).expect("two candidates must install");
    assert_eq!(first.content, b"aye".to_vec());
    assert_eq!(second.content, b"bee".to_vec());
}

fn apply(files: &mut HashMap<Vec<Vec<u8>>, Vec<u8>>, plan: InstallPlan) {
    files.insert(plan.target, plan.content);
}

#[test]
fn reinstall_overwrites_target_entirely() {
    let root = names(&[b"proj"]);
    let store = StoreLookup::Found(vec![file(b"a.md", b"first"), file(b"b.md", b"second longer")]);
    let mut files: HashMap<Vec<Vec<u8>>, Vec<u8>> = HashMap::new();
    let target = target_path(&root);

    let plan = install(&root, &store, 0).expect("two candidates must install");
    apply(&mut files, plan);
    assert_eq!(files.get(&target), Some(&b"first".to_vec()));

    let plan = install(&root, &store, 1).expect("two candidates must install");
    apply(&mut files, plan);
    assert_eq!(files.len(), 1);
    assert_eq!(files.get(&target), Some(&b"second longer".to_vec()));
}

#[test]
fn failed_install_plans_no_write() {
    let root = names(&[b"proj"]);
    let mut files: HashMap<Vec<Vec<u8>>, Vec<u8>> = HashMap::new();
    for store in [StoreLookup::NotGiven, StoreLookup::Missing, StoreLookup::Found(Vec::new())] {
        if let Ok(plan) = install(&root, &store, 0) {
            apply(&mut files, plan);
        }
    }
    assert!(files.is_empty());
}

#[test]
fn describe_names_failing_step() {
    assert_eq!(
        InstallError::StoreNotFound.describe(),
        "the given store directory does not exist"
    );
    assert_eq!(
        InstallError::UnimplementedDefault.describe(),
        "no store directory was given and no default behavior is implemented"
    );
    assert_eq!(InstallError::NoCandidates.describe(), "the store directory contains no md files");
}
