use batch_file_rename::protocol::{convert_error, Error, Item, ItemType};
use batch_file_rename::resolver::plan_rename_items;

fn req(source: &str, target: &str) -> Item {
    Item {
        source_path: source.to_string(),
        target_path: target.to_string(),
        item_type: ItemType::File,
    }
}

fn paths(names: &[&str]) -> Vec<String> {
    names.iter().map(|s| s.to_string()).collect()
}

#[test]
fn straight_rename_plans_one_pass() {
    let items = vec![req("/d/a", "/d/b")];
    let plan = plan_rename_items(&items, &paths(&["/d/a"]), false).unwrap();
    assert_eq!(plan.pass_1_items.len(), 1);
    assert_eq!(plan.pass_1_items[0].source_path, "/d/a");
    assert_eq!(plan.pass_1_items[0].target_path, "/d/b");
    assert!(plan.pass_2_items.is_empty());
}

#[test]
fn noop_items_are_dropped_from_the_plan() {
    let items = vec![req("/d/same", "/d/same"), req("/d/a", "/d/b")];
    let plan = plan_rename_items(&items, &paths(&["/d/same", "/d/a"]), false).unwrap();
    assert_eq!(plan.pass_1_items.len(), 1);
    assert_eq!(plan.pass_1_items[0].source_path, "/d/a");
    for op in plan.pass_1_items.iter().chain(plan.pass_2_items.iter()) {
        assert_ne!(op.source_path, op.target_path);
    }
}

#[test]
fn duplicate_source_is_rejected() {
    let items = vec![req("/d/a", "/d/b"), req("/d/a", "/d/c")];
    match plan_rename_items(&items, &paths(&["/d/a"]), false) {
        Err(Error::DuplicateSource { path }) => {
            assert_eq!(path, "/d/a");
            assert_eq!(
                convert_error(Error::DuplicateSource { path }),
                "Source path /d/a is duplicated."
            );
        }
        _ => panic!("expected DuplicateSource"),
    }
}

#[test]
fn duplicate_target_is_rejected() {
    let items = vec![req("/d/a", "/d/c"), req("/d/b", "/d/c")];
    match plan_rename_items(&items, &paths(&["/d/a", "/d/b"]), false) {
        Err(Error::DuplicateTarget { path }) => {
            assert_eq!(path, "/d/c");
            assert_eq!(
                convert_error(Error::DuplicateTarget { path }),
                "Target path /d/c is duplicated."
            );
        }
        _ => panic!("expected DuplicateTarget"),
    }
}

#[test]
fn missing_source_is_rejected() {
    let items = vec![req("/d/gone", "/d/b")];
    match plan_rename_items(&items, &paths(&[]), false) {
        Err(Error::SourceMissing { path }) => {
            assert_eq!(path, "/d/gone");
            assert_eq!(
                convert_error(Error::SourceMissing { path }),
                "Source path /d/gone does not exist."
            );
        }
        _ => panic!("expected SourceMissing"),
    }
}

#[test]
fn occupied_target_outside_the_batch_is_rejected() {
    let items = vec![req("/d/a", "/d/b")];
    match plan_rename_items(&items, &paths(&["/d/a", "/d/b"]), false) {
        Err(Error::TargetExists { path }) => {
            assert_eq!(path, "/d/b");
            assert_eq!(
                convert_error(Error::TargetExists { path }),
                "Target path /d/b exists."
            );
        }
        _ => panic!("expected TargetExists"),
    }
}

#[test]
fn case_change_is_no_collision_on_case_insensitive_systems() {
    let items = vec![req("/d/Song.MP3", "/d/song.mp3")];
    let existing = paths(&["/d/Song.MP3", "/d/song.mp3"]);
    let plan = plan_rename_items(&items, &existing, true).unwrap();
    assert_eq!(plan.pass_1_items.len(), 1);
    assert!(plan.pass_2_items.is_empty());
    match plan_rename_items(&items, &existing, false) {
        Err(Error::TargetExists { path }) => assert_eq!(path, "/d/song.mp3"),
        _ => panic!("expected TargetExists without the carve-out"),
    }
}

#[test]
fn swap_takes_a_detour_through_fresh_names() {
    let items = vec![req("/d/a", "/d/b"), req("/d/b", "/d/a")];
    let plan = plan_rename_items(&items, &paths(&["/d/a", "/d/b"]), false).unwrap();
    assert_eq!(plan.pass_1_items.len(), 2);
    assert_eq!(plan.pass_2_items.len(), 2);
    let t0 = plan.pass_1_items[0].target_path.clone();
    let t1 = plan.pass_1_items[1].target_path.clone();
    assert!(t0.starts_with("/d/"));
    assert!(t1.starts_with("/d/"));
    assert_eq!(t0.len(), "/d/".len() + 36);
    assert_ne!(t0, t1);
    assert_ne!(t0, "/d/a");
    assert_ne!(t0, "/d/b");
    assert_eq!(plan.pass_2_items[0].source_path, t0);
    assert_eq!(plan.pass_2_items[0].target_path, "/d/b");
    assert_eq!(plan.pass_2_items[1].source_path, t1);
    assert_eq!(plan.pass_2_items[1].target_path, "/d/a");
}

#[test]
fn colliding_target_without_parent_is_unresolvable() {
    let items = vec![req("a", "b"), req("b", "a")];
    match plan_rename_items(&items, &paths(&["a", "b"]), false) {
        Err(Error::UnresolvableTarget { path }) => {
            assert_eq!(path, "b");
            assert_eq!(
                convert_error(Error::UnresolvableTarget { path }),
                "Target path b cannot be resolved."
            );
        }
        _ => panic!("expected UnresolvableTarget"),
    }
}

#[test]
fn empty_batch_plans_nothing() {
    let plan = plan_rename_items(&Vec::new(), &Vec::new(), false).unwrap();
    assert!(plan.pass_1_items.is_empty());
    assert!(plan.pass_2_items.is_empty());
}

#[test]
fn execution_errors_render_their_messages() {
    assert_eq!(
        convert_error(Error::IoError { message: "disk gone".to_string() }),
        "disk gone"
    );
    assert_eq!(
        convert_error(Error::PartiallyApplied { count: 2, message: "boom".to_string() }),
        "The batch was partially applied: boom"
    );
}
