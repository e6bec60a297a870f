use batch_file_rename::protocol::{Error, Item, ItemType};
use batch_file_rename::renamer::FsModel;
use batch_file_rename::resolver::plan_rename_items;

fn req(source: &str, target: &str) -> Item {
    Item {
        source_path: source.to_string(),
        target_path: target.to_string(),
        item_type: ItemType::File,
    }
}

fn model(files: &[(&str, &str)]) -> FsModel {
    let mut m = FsModel::new();
    for (path, id) in files {
        m.create(&path.to_string(), &id.to_string());
    }
    m
}

fn lookup(m: &FsModel, path: &str) -> Option<String> {
    m.lookup(&path.to_string())
}

#[test]
fn cycle_swaps_both_files_and_leaves_no_detour() {
    let mut m = model(&[("/d/a", "file-a"), ("/d/b", "file-b")]);
    let items = vec![req("/d/a", "/d/b"), req("/d/b", "/d/a")];
    let existing = vec!["/d/a".to_string(), "/d/b".to_string()];
    let plan = plan_rename_items(&items, &existing, false).unwrap();
    let count = m.apply_plan(&plan).unwrap();
    assert_eq!(count, 4);
    assert_eq!(lookup(&m, "/d/a"), Some("file-b".to_string()));
    assert_eq!(lookup(&m, "/d/b"), Some("file-a".to_string()));
    assert_eq!(m.files.len(), 2);
}

#[test]
fn chain_moves_every_file_to_its_declared_target() {
    let mut m = model(&[("/d/a", "fa"), ("/d/b", "fb"), ("/d/c", "fc")]);
    let items = vec![req("/d/a", "/d/b"), req("/d/b", "/d/c"), req("/d/c", "/d/d")];
    let existing = vec!["/d/a".to_string(), "/d/b".to_string(), "/d/c".to_string()];
    let plan = plan_rename_items(&items, &existing, false).unwrap();
    let count = m.apply_plan(&plan).unwrap();
    assert_eq!(count, 5);
    assert_eq!(lookup(&m, "/d/b"), Some("fa".to_string()));
    assert_eq!(lookup(&m, "/d/c"), Some("fb".to_string()));
    assert_eq!(lookup(&m, "/d/d"), Some("fc".to_string()));
    assert_eq!(lookup(&m, "/d/a"), None);
    assert_eq!(m.files.len(), 3);
}

#[test]
fn three_cycle_rotates_the_files() {
    let mut m = model(&[("/d/x", "1"), ("/d/y", "2"), ("/d/z", "3")]);
    let items = vec![req("/d/x", "/d/y"), req("/d/y", "/d/z"), req("/d/z", "/d/x")];
    let existing = vec!["/d/x".to_string(), "/d/y".to_string(), "/d/z".to_string()];
    let plan = plan_rename_items(&items, &existing, false).unwrap();
    let count = m.apply_plan(&plan).unwrap();
    assert_eq!(count, 6);
    assert_eq!(lookup(&m, "/d/y"), Some("1".to_string()));
    assert_eq!(lookup(&m, "/d/z"), Some("2".to_string()));
    assert_eq!(lookup(&m, "/d/x"), Some("3".to_string()));
    assert_eq!(m.files.len(), 3);
}

#[test]
fn stuck_execution_reports_the_applied_count() {
    let mut m = model(&[("/d/a", "fa")]);
    let plan = batch_file_rename::resolver::RenamePlan {
        pass_1_items: vec![req("/d/a", "/d/b"), req("/d/gone", "/d/c")],
        pass_2_items: vec![],
    };
    match m.apply_plan(&plan) {
        Err(Error::PartiallyApplied { count, .. }) => assert_eq!(count, 1),
        _ => panic!("expected PartiallyApplied"),
    }
    assert_eq!(lookup(&m, "/d/b"), Some("fa".to_string()));
}

#[test]
fn untouched_files_keep_their_place() {
    let mut m = model(&[("/d/a", "fa"), ("/d/keep", "fk")]);
    let items = vec![req("/d/a", "/d/b")];
    let existing = vec!["/d/a".to_string()];
    let plan = plan_rename_items(&items, &existing, false).unwrap();
    assert_eq!(m.apply_plan(&plan).unwrap(), 1);
    assert_eq!(lookup(&m, "/d/keep"), Some("fk".to_string()));
    assert_eq!(lookup(&m, "/d/b"), Some("fa".to_string()));
}
