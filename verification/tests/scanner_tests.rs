use batch_file_rename::protocol::{convert_error, Error, Item, ItemType};
use batch_file_rename::scanner::{scan_items, FsEntry};

fn item(path: &str) -> Item {
    Item {
        source_path: path.to_string(),
        target_path: path.to_string(),
        item_type: ItemType::File,
    }
}

fn file(path: &str) -> FsEntry {
    FsEntry::File { path: path.to_string() }
}

fn dir(path: &str, children: Vec<FsEntry>) -> FsEntry {
    FsEntry::Directory { path: path.to_string(), children }
}

fn exts(names: &[&str]) -> Vec<String> {
    names.iter().map(|s| s.to_string()).collect()
}

fn sources(items: &[Item]) -> Vec<String> {
    items.iter().map(|i| i.source_path.clone()).collect()
}

#[test]
fn filter_keeps_matching_extensions_only() {
    let tree = dir(
        "/d",
        vec![file("/d/a.txt"), file("/d/a.mp3"), dir("/d/mp3", vec![])],
    );
    let out = scan_items(
        vec![item("/d")],
        -1,
        false,
        exts(&["mp3", "mp4"]),
        vec![Some(tree)],
    )
    .unwrap();
    assert_eq!(sources(&out), vec!["/d/a.mp3".to_string()]);
    assert_eq!(out[0].item_type, ItemType::File);
}

#[test]
fn directory_named_like_extension_is_a_directory() {
    let tree = dir(
        "/d",
        vec![file("/d/a.txt"), file("/d/a.mp3"), dir("/d/mp3", vec![])],
    );
    let out = scan_items(
        vec![item("/d")],
        -1,
        true,
        exts(&["mp3", "mp4"]),
        vec![Some(tree)],
    )
    .unwrap();
    assert_eq!(
        sources(&out),
        vec!["/d".to_string(), "/d/a.mp3".to_string(), "/d/mp3".to_string()]
    );
    assert_eq!(out[2].item_type, ItemType::Directory);
}

#[test]
fn empty_filter_passes_every_file() {
    let tree = dir("/d", vec![file("/d/a.txt"), file("/d/b")]);
    let out = scan_items(vec![item("/d")], -1, false, exts(&[]), vec![Some(tree)]).unwrap();
    assert_eq!(sources(&out), vec!["/d/a.txt".to_string(), "/d/b".to_string()]);
}

#[test]
fn extensionless_and_hidden_files_always_pass() {
    let tree = dir("/d", vec![file("/d/README"), file("/d/.gitignore"), file("/d/x.txt")]);
    let out = scan_items(vec![item("/d")], -1, false, exts(&["mp3"]), vec![Some(tree)]).unwrap();
    assert_eq!(
        sources(&out),
        vec!["/d/.gitignore".to_string(), "/d/README".to_string()]
    );
}

fn deep_tree() -> FsEntry {
    dir(
        "/r",
        vec![
            file("/r/top.mp3"),
            dir(
                "/r/sub1",
                vec![file("/r/sub1/mid.mp3"), dir("/r/sub1/sub2", vec![file("/r/sub1/sub2/deep.mp3")])],
            ),
        ],
    )
}

#[test]
fn depth_zero_does_not_descend() {
    let out = scan_items(vec![item("/r")], 0, true, exts(&[]), vec![Some(deep_tree())]).unwrap();
    assert_eq!(sources(&out), vec!["/r".to_string()]);
}

#[test]
fn depth_unlimited_reaches_every_descendant() {
    let out = scan_items(vec![item("/r")], -1, true, exts(&[]), vec![Some(deep_tree())]).unwrap();
    assert_eq!(
        sources(&out),
        vec![
            "/r".to_string(),
            "/r/sub1".to_string(),
            "/r/sub1/mid.mp3".to_string(),
            "/r/sub1/sub2".to_string(),
            "/r/sub1/sub2/deep.mp3".to_string(),
            "/r/top.mp3".to_string(),
        ]
    );
}

#[test]
fn depth_one_descends_exactly_one_level() {
    let out = scan_items(vec![item("/r")], 1, true, exts(&[]), vec![Some(deep_tree())]).unwrap();
    assert_eq!(
        sources(&out),
        vec!["/r".to_string(), "/r/sub1".to_string(), "/r/top.mp3".to_string()]
    );
}

#[test]
fn scan_is_sorted_and_deterministic() {
    let tree = dir("/d", vec![file("/d/c"), file("/d/a"), file("/d/b")]);
    let tree2 = dir("/d", vec![file("/d/c"), file("/d/a"), file("/d/b")]);
    let out1 = scan_items(vec![item("/d")], -1, false, exts(&[]), vec![Some(tree)]).unwrap();
    let out2 = scan_items(vec![item("/d")], -1, false, exts(&[]), vec![Some(tree2)]).unwrap();
    assert_eq!(sources(&out1), sources(&out2));
    let s = sources(&out1);
    let mut sorted = s.clone();
    sorted.sort();
    assert_eq!(s, sorted);
    assert_eq!(s, vec!["/d/a".to_string(), "/d/b".to_string(), "/d/c".to_string()]);
}

#[test]
fn overlapping_roots_are_deduplicated() {
    let out = scan_items(
        vec![item("/d/a"), item("/d/a")],
        -1,
        false,
        exts(&[]),
        vec![Some(file("/d/a")), Some(file("/d/a"))],
    )
    .unwrap();
    assert_eq!(sources(&out), vec!["/d/a".to_string()]);
}

#[test]
fn missing_root_aborts_with_not_found() {
    let r = scan_items(
        vec![item("/d/a"), item("/d/gone")],
        -1,
        false,
        exts(&[]),
        vec![Some(file("/d/a")), None],
    );
    match r {
        Err(Error::NotFound { path }) => {
            assert_eq!(path, "/d/gone");
            assert_eq!(
                convert_error(Error::NotFound { path }),
                "Path /d/gone does not exist."
            );
        }
        _ => panic!("expected NotFound"),
    }
}

#[test]
fn unknown_entries_are_skipped() {
    let tree = dir(
        "/d",
        vec![
            file("/d/a"),
            FsEntry::Other { path: "/d/broken-link".to_string() },
        ],
    );
    let out = scan_items(vec![item("/d")], -1, false, exts(&[]), vec![Some(tree)]).unwrap();
    assert_eq!(sources(&out), vec!["/d/a".to_string()]);
}

#[test]
fn refreshing_kinds_reads_them_from_the_live_entries() {
    let items = vec![item("/d/a"), item("/d")];
    let kinds = vec![Some(ItemType::File), Some(ItemType::Directory)];
    let out = batch_file_rename::scanner::refresh_item_kinds(&items, &kinds).unwrap();
    assert_eq!(out.len(), 2);
    assert_eq!(out[0].item_type, ItemType::File);
    assert_eq!(out[1].item_type, ItemType::Directory);
    assert_eq!(out[1].source_path, "/d");
}

#[test]
fn refreshing_a_missing_path_is_a_hard_error() {
    let items = vec![item("/d/a"), item("/d/gone")];
    let kinds = vec![Some(ItemType::File), None];
    match batch_file_rename::scanner::refresh_item_kinds(&items, &kinds) {
        Err(Error::NotFound { path }) => assert_eq!(path, "/d/gone"),
        _ => panic!("expected NotFound"),
    }
}
