//! The scanner: expands a list of root entries of a directory snapshot into
//! a flat, de-duplicated, filtered and deterministically ordered list of
//! items.
//!
//! The scanner never touches the file system itself: a caller hands it a
//! snapshot of each root as an [`FsEntry`] tree, and the scan is a pure,
//! fully specified function of those trees and the filter.

use vstd::prelude::*;

use crate::protocol::{Error, Item, ItemType, ItemV, item_views};
use crate::text::{
    find_last_char, last_index_of, lemma_last_index_of, lemma_seq_char_le_reflexive,
    lemma_seq_char_le_total, lemma_seq_char_le_transitive, seq_char_le, seq_char_lt, str_lt,
    str_views, vec_contains_string,
};

verus! {

/// A snapshot of one filesystem entry: a file, a directory with the
/// snapshots of its children, or something that is neither (for example a
/// broken link), which a scan skips.
pub enum FsEntry {
    File { path: String },
    Directory { path: String, children: Vec<FsEntry> },
    Other { path: String },
}

/// The file name of a path: everything after the last separator.
pub open spec fn file_name_of(p: Seq<char>) -> Seq<char> {
    match last_index_of(p, '/') {
        Some(i) => p.skip(i + 1),
        None => p,
    }
}

/// The extension of a path: everything after the last `'.'` of its file
/// name, except that a file name whose only `'.'` is its first character
/// (a hidden file) has no extension.
pub open spec fn extension_of(p: Seq<char>) -> Option<Seq<char>> {
    let name = file_name_of(p);
    if name.len() <= 1 {
        None
    } else {
        match last_index_of(name.skip(1), '.') {
            Some(i) => Some(name.skip(i + 2)),
            None => None,
        }
    }
}

/// Whether a file passes the extension filter: an empty filter passes every
/// file, and a file without an extension always passes.
pub open spec fn file_included(p: Seq<char>, exts: Seq<Seq<char>>) -> bool {
    ||| exts.len() == 0
    ||| match extension_of(p) {
        Some(e) => exts.contains(e),
        None => true,
    }
}

/// The depth left for the children of a directory scanned at `depth`: a
/// positive depth is spent level by level, zero stops the descent, and a
/// negative depth never runs out.
pub open spec fn next_depth(depth: int) -> int {
    if depth > 0 {
        depth - 1
    } else {
        depth
    }
}

/// The item a scan emits for a discovered path: source and target equal.
pub open spec fn path_item(p: Seq<char>, t: ItemType) -> ItemV {
    ItemV { source_path: p, target_path: p, item_type: t }
}

/// What scanning one snapshot entry emits, and the seen-set afterwards.
/// `seen` lists the paths already emitted, which are not emitted again.
pub open spec fn scan_entry(
    e: FsEntry,
    seen: Seq<Seq<char>>,
    depth: int,
    include_dirs: bool,
    exts: Seq<Seq<char>>,
) -> (Seq<ItemV>, Seq<Seq<char>>)
    decreases e, 1int,
{
    match e {
        FsEntry::File { path } => {
            if file_included(path@, exts) && !seen.contains(path@) {
                (seq![path_item(path@, ItemType::File)], seen.push(path@))
            } else {
                (Seq::empty(), seen)
            }
        },
        FsEntry::Directory { path, children } => {
            let head = if include_dirs && !seen.contains(path@) {
                (seq![path_item(path@, ItemType::Directory)], seen.push(path@))
            } else {
                (Seq::<ItemV>::empty(), seen)
            };
            if depth != 0 {
                let rest = scan_children(children@, head.1, next_depth(depth), include_dirs, exts);
                (head.0 + rest.0, rest.1)
            } else {
                head
            }
        },
        FsEntry::Other { .. } => (Seq::empty(), seen),
    }
}

/// What scanning a list of sibling snapshots, in order, emits.
pub open spec fn scan_children(
    cs: Seq<FsEntry>,
    seen: Seq<Seq<char>>,
    depth: int,
    include_dirs: bool,
    exts: Seq<Seq<char>>,
) -> (Seq<ItemV>, Seq<Seq<char>>)
    decreases cs, 0int,
{
    if cs.len() == 0 {
        (Seq::empty(), seen)
    } else {
        let front = scan_children(cs.drop_last(), seen, depth, include_dirs, exts);
        let last = scan_entry(cs.last(), front.1, depth, include_dirs, exts);
        (front.0 + last.0, last.1)
    }
}

/// Whether a file's extension is in the filter list, as `file_included`.
pub fn extension_included(path: &String, extensions: &Vec<String>) -> (r: bool)
    ensures
        r == file_included(path@, str_views(extensions@)),
{
    if extensions.len() == 0 {
        return true;
    }
    let s = path.as_str();
    let len = s.unicode_len();
    let start: usize = match find_last_char(s, '/') {
        Some(i) => {
            proof {
                lemma_last_index_of(path@, '/');
            }
            i + 1
        },
        None => 0,
    };
    let name = s.substring_char(start, len);
    proof {
        assert(name@ =~= path@.skip(start as int));
        if start == 0 {
            assert(path@.skip(0) =~= path@);
        }
        assert(name@ == file_name_of(path@));
    }
    let name_len = name.unicode_len();
    if name_len <= 1 {
        return true;
    }
    let tail = name.substring_char(1, name_len);
    proof {
        assert(tail@ =~= name@.skip(1));
    }
    match find_last_char(tail, '.') {
        None => true,
        Some(d) => {
            proof {
                lemma_last_index_of(tail@, '.');
            }
            let tail_len = tail.unicode_len();
            let e = tail.substring_char(d + 1, tail_len);
            proof {
                assert(e@ =~= tail@.skip(d + 1));
                assert(e@ == extension_of(path@).unwrap());
            }
            let es = e.to_owned();
            vec_contains_string(extensions, &es)
        },
    }
}

/// Scans one snapshot entry: emits the entry
/// itself (for directories only when asked, for files only when they pass
/// the extension filter), de-duplicates against `item_set`, and descends
/// into directory children while depth is left.
#[verifier::loop_isolation(false)]
pub fn recursive_scan_items(
    items: &mut Vec<Item>,
    entry: &FsEntry,
    item_set: &mut Vec<String>,
    depth: i32,
    include_directory: bool,
    extensions: &Vec<String>,
)
    ensures
        ({
            let r = scan_entry(
                *entry,
                str_views(old(item_set)@),
                depth as int,
                include_directory,
                str_views(extensions@),
            );
            &&& item_views(final(items)@) == item_views(old(items)@) + r.0
            &&& str_views(final(item_set)@) == r.1
        }),
    decreases *entry,
{
    match entry {
        FsEntry::File { path } => {
            if extension_included(path, extensions) && !vec_contains_string(item_set, path) {
                items.push(
                    Item {
                        source_path: path.clone(),
                        target_path: path.clone(),
                        item_type: ItemType::File,
                    },
                );
                item_set.push(path.clone());
                proof {
                    assert(item_views(items@) =~= item_views(old(items)@) + seq![
                        path_item(path@, ItemType::File),
                    ]);
                    assert(str_views(item_set@) =~= str_views(old(item_set)@).push(path@));
                }
            } else {
                proof {
                    assert(item_views(items@) =~= item_views(old(items)@) + Seq::<ItemV>::empty());
                }
            }
        },
        FsEntry::Directory { path, children } => {
            if include_directory && !vec_contains_string(item_set, path) {
                items.push(
                    Item {
                        source_path: path.clone(),
                        target_path: path.clone(),
                        item_type: ItemType::Directory,
                    },
                );
                item_set.push(path.clone());
                proof {
                    assert(item_views(items@) =~= item_views(old(items)@) + seq![
                        path_item(path@, ItemType::Directory),
                    ]);
                    assert(str_views(item_set@) =~= str_views(old(item_set)@).push(path@));
                }
            } else {
                proof {
                    assert(item_views(items@) =~= item_views(old(items)@) + Seq::<ItemV>::empty());
                }
            }
            if depth != 0 {
                let next: i32 = if depth > 0 {
                    depth - 1
                } else {
                    depth
                };
                let ghost items_here = item_views(items@);
                let ghost seen_here = str_views(item_set@);
                let mut i: usize = 0;
                while i < children.len()
                    invariant
                        i <= children@.len(),
                        ({
                            let r = scan_children(
                                children@.take(i as int),
                                seen_here,
                                next as int,
                                include_directory,
                                str_views(extensions@),
                            );
                            &&& item_views(items@) == items_here + r.0
                            &&& str_views(item_set@) == r.1
                        }),
                    decreases children@.len() - i,
                {
                    proof {
                        assert(children@.take(0) =~= Seq::<FsEntry>::empty());
                    }
                    let ghost pre = scan_children(
                        children@.take(i as int),
                        seen_here,
                        next as int,
                        include_directory,
                        str_views(extensions@),
                    );
                    recursive_scan_items(
                        items,
                        &children[i],
                        item_set,
                        next,
                        include_directory,
                        extensions,
                    );
                    proof {
                        assert(children@.take(i + 1).drop_last() =~= children@.take(i as int));
                        assert(children@.take(i + 1).last() == children@[i as int]);
                        let r1 = scan_children(
                            children@.take(i + 1),
                            seen_here,
                            next as int,
                            include_directory,
                            str_views(extensions@),
                        );
                        let step = scan_entry(
                            children@[i as int],
                            pre.1,
                            next as int,
                            include_directory,
                            str_views(extensions@),
                        );
                        assert(r1.0 =~= pre.0 + step.0);
                        assert(item_views(items@) =~= items_here + r1.0);
                    }
                    i = i + 1;
                }
                proof {
                    assert(children@.take(children@.len() as int) =~= children@);
                }
            }
        },
        FsEntry::Other { .. } => {
            proof {
                assert(item_views(items@) =~= item_views(old(items)@) + Seq::<ItemV>::empty());
            }
        },
    }
}

/// Inserts `x` into `s` before the first element whose source path sorts
/// strictly after `x`'s, keeping earlier equal keys in front.
pub open spec fn insert_sorted(s: Seq<ItemV>, x: ItemV) -> Seq<ItemV>
    decreases s.len(),
{
    if s.len() == 0 {
        seq![x]
    } else if seq_char_lt(x.source_path, s.first().source_path) {
        seq![x] + s
    } else {
        seq![s.first()] + insert_sorted(s.drop_first(), x)
    }
}

/// The items of `s` sorted ascending by source path, by insertion.
pub open spec fn sort_items(s: Seq<ItemV>) -> Seq<ItemV>
    decreases s.len(),
{
    if s.len() == 0 {
        s
    } else {
        insert_sorted(sort_items(s.drop_last()), s.last())
    }
}

/// Whether `s` is sorted ascending by source path.
pub open spec fn sorted_by_source(s: Seq<ItemV>) -> bool {
    forall|i: int, j: int|
        0 <= i < j < s.len() ==> seq_char_le(s[i].source_path, s[j].source_path)
}

/// `insert_sorted` places `x` exactly at the first index whose element
/// sorts strictly after `x`.
proof fn lemma_insert_sorted_at(s: Seq<ItemV>, x: ItemV, k: int)
    requires
        0 <= k <= s.len(),
        forall|j: int| 0 <= j < k ==> !seq_char_lt(x.source_path, #[trigger] s[j].source_path),
        k < s.len() ==> seq_char_lt(x.source_path, s[k].source_path),
    ensures
        insert_sorted(s, x) == s.take(k) + seq![x] + s.skip(k),
    decreases k,
{
    if k == 0 {
        if s.len() == 0 {
            assert(insert_sorted(s, x) =~= s.take(0) + seq![x] + s.skip(0));
        } else {
            assert(insert_sorted(s, x) =~= s.take(0) + seq![x] + s.skip(0));
        }
    } else {
        lemma_insert_sorted_at(s.drop_first(), x, k - 1);
        assert(forall|j: int|
            0 <= j < s.drop_first().len() ==> #[trigger] s.drop_first()[j] == s[j + 1]);
        assert(insert_sorted(s, x) == seq![s.first()] + insert_sorted(s.drop_first(), x));
        assert(seq![s.first()] + (s.drop_first().take(k - 1) + seq![x] + s.drop_first().skip(k - 1))
            =~= s.take(k) + seq![x] + s.skip(k));
    }
}

/// Every element of `insert_sorted(s, x)` is `x` or an element of `s`.
proof fn lemma_insert_sorted_elems(s: Seq<ItemV>, x: ItemV)
    ensures
        insert_sorted(s, x).len() == s.len() + 1,
        forall|k: int|
            0 <= k < insert_sorted(s, x).len() ==> #[trigger] insert_sorted(s, x)[k] == x
                || s.contains(insert_sorted(s, x)[k]),
    decreases s.len(),
{
    let out = insert_sorted(s, x);
    if s.len() == 0 {
    } else if seq_char_lt(x.source_path, s.first().source_path) {
        assert forall|k: int| 0 <= k < out.len() implies #[trigger] out[k] == x || s.contains(
            out[k],
        ) by {
            if k >= 1 {
                assert(out[k] == s[k - 1]);
            }
        }
    } else {
        lemma_insert_sorted_elems(s.drop_first(), x);
        let rest = insert_sorted(s.drop_first(), x);
        assert forall|k: int| 0 <= k < out.len() implies #[trigger] out[k] == x || s.contains(
            out[k],
        ) by {
            if k == 0 {
                assert(s.contains(s[0]));
            } else {
                assert(out[k] == rest[k - 1]);
                if rest[k - 1] != x {
                    let w = choose|w: int|
                        0 <= w < s.drop_first().len() && s.drop_first()[w] == rest[k - 1];
                    assert(s[w + 1] == rest[k - 1]);
                }
            }
        }
    }
}

/// Inserting into a sorted run keeps it sorted and adds exactly `x` to the
/// contents.
proof fn lemma_insert_sorted_props(s: Seq<ItemV>, x: ItemV)
    requires
        sorted_by_source(s),
    ensures
        sorted_by_source(insert_sorted(s, x)),
        insert_sorted(s, x).to_multiset() == s.to_multiset().insert(x),
    decreases s.len(),
{
    let out = insert_sorted(s, x);
    if s.len() == 0 {
        assert(s =~= Seq::<ItemV>::empty());
        assert(out =~= s.insert(0, x));
        vstd::seq_lib::to_multiset_insert(s, 0, x);
    } else if seq_char_lt(x.source_path, s.first().source_path) {
        assert forall|i: int, j: int| 0 <= i < j < out.len() implies seq_char_le(
            out[i].source_path,
            out[j].source_path,
        ) by {
            if i == 0 {
                assert(out[j] == s[j - 1]);
                if j == 1 {
                    assert(seq_char_le(x.source_path, s[0].source_path));
                } else {
                    lemma_seq_char_le_transitive(
                        x.source_path,
                        s.first().source_path,
                        s[j - 1].source_path,
                    );
                }
            } else {
                assert(out[i] == s[i - 1] && out[j] == s[j - 1]);
            }
        }
        assert(out =~= s.insert(0, x));
        vstd::seq_lib::to_multiset_insert(s, 0, x);
    } else {
        let s1 = s.drop_first();
        let rest = insert_sorted(s1, x);
        assert(forall|i: int, j: int|
            0 <= i < j < s1.len() ==> seq_char_le(
                #[trigger] s1[i].source_path,
                #[trigger] s1[j].source_path,
            )) by {
            assert(forall|i: int| 0 <= i < s1.len() ==> #[trigger] s1[i] == s[i + 1]);
        }
        lemma_insert_sorted_props(s1, x);
        lemma_insert_sorted_elems(s1, x);
        // the head sorts at or before x ...
        if !seq_char_le(s.first().source_path, x.source_path) {
            lemma_seq_char_le_total(x.source_path, s.first().source_path);
            assert(x.source_path == s.first().source_path);
            lemma_seq_char_le_reflexive(x.source_path);
        }
        // ... and at or before every element that can appear after it
        assert forall|i: int, j: int| 0 <= i < j < out.len() implies seq_char_le(
            out[i].source_path,
            out[j].source_path,
        ) by {
            if i == 0 {
                assert(out[j] == rest[j - 1]);
                if rest[j - 1] == x {
                } else {
                    assert(s1.contains(rest[j - 1]));
                    let w = choose|w: int| 0 <= w < s1.len() && s1[w] == rest[j - 1];
                    assert(s1[w] == s[w + 1]);
                    assert(seq_char_le(s[0].source_path, s[w + 1].source_path));
                }
            } else {
                assert(out[i] == rest[i - 1] && out[j] == rest[j - 1]);
            }
        }
        assert(s =~= s1.insert(0, s.first()));
        vstd::seq_lib::to_multiset_insert(s1, 0, s.first());
        assert(out =~= rest.insert(0, s.first()));
        vstd::seq_lib::to_multiset_insert(rest, 0, s.first());
        assert(out.to_multiset() =~= s.to_multiset().insert(x)) by {
            assert(out.to_multiset() == rest.to_multiset().insert(s.first()));
            assert(rest.to_multiset() == s1.to_multiset().insert(x));
            assert(s.to_multiset() == s1.to_multiset().insert(s.first()));
        }
    }
}

/// `sort_items` returns a sorted permutation of its input.
pub proof fn lemma_sort_items_props(s: Seq<ItemV>)
    ensures
        sorted_by_source(sort_items(s)),
        sort_items(s).to_multiset() == s.to_multiset(),
    decreases s.len(),
{
    broadcast use vstd::seq_lib::group_to_multiset_ensures;

    if s.len() != 0 {
        lemma_sort_items_props(s.drop_last());
        lemma_insert_sorted_props(sort_items(s.drop_last()), s.last());
        assert(s =~= s.drop_last().push(s.last()));
    }
}

/// Sorts items ascending by source path, as `sort_items`.
#[verifier::loop_isolation(false)]
pub fn sort_by_source_path(v: Vec<Item>) -> (r: Vec<Item>)
    ensures
        item_views(r@) == sort_items(item_views(v@)),
{
    let mut out: Vec<Item> = Vec::new();
    proof {
        assert(item_views(v@).take(0) =~= Seq::<ItemV>::empty());
        assert(item_views(out@) =~= Seq::<ItemV>::empty());
    }
    let mut i: usize = 0;
    while i < v.len()
        invariant
            i <= v@.len(),
            item_views(out@) == sort_items(item_views(v@).take(i as int)),
        decreases v@.len() - i,
    {
        let x = v[i].clone();
        let mut k: usize = 0;
        while k < out.len() && !str_lt(&x.source_path, &out[k].source_path)
            invariant
                k <= out@.len(),
                forall|j: int|
                    0 <= j < k ==> !seq_char_lt(
                        x@.source_path,
                        #[trigger] item_views(out@)[j].source_path,
                    ),
            decreases out@.len() - k,
        {
            k = k + 1;
        }
        let ghost pre = item_views(out@);
        out.insert(k, x);
        proof {
            lemma_insert_sorted_at(pre, x@, k as int);
            assert(item_views(out@) =~= pre.take(k as int) + seq![x@] + pre.skip(k as int));
            assert(item_views(v@).take(i + 1).drop_last() =~= item_views(v@).take(i as int));
            assert(item_views(v@).take(i + 1).last() == v@[i as int]@);
        }
        i = i + 1;
    }
    proof {
        assert(item_views(v@).take(v@.len() as int) =~= item_views(v@));
    }
    out
}

/// The first index at or after `i` whose root snapshot is missing.
pub open spec fn first_missing_root(roots: Seq<Option<FsEntry>>, i: int) -> Option<int>
    decreases roots.len() - i,
{
    if i < 0 || i >= roots.len() {
        None
    } else if roots[i] is None {
        Some(i)
    } else {
        first_missing_root(roots, i + 1)
    }
}

/// What scanning a list of root snapshots, in order, emits; missing roots
/// contribute nothing (they abort the scan instead, see `scan_items`).
pub open spec fn scan_roots(
    roots: Seq<Option<FsEntry>>,
    seen: Seq<Seq<char>>,
    depth: int,
    include_dirs: bool,
    exts: Seq<Seq<char>>,
) -> (Seq<ItemV>, Seq<Seq<char>>)
    decreases roots.len(),
{
    if roots.len() == 0 {
        (Seq::empty(), seen)
    } else {
        let front = scan_roots(roots.drop_last(), seen, depth, include_dirs, exts);
        match roots.last() {
            Some(e) => {
                let last = scan_entry(e, front.1, depth, include_dirs, exts);
                (front.0 + last.0, last.1)
            },
            None => front,
        }
    }
}

/// Scans the given root items against their snapshots: every root must
/// exist (have a snapshot), the roots are expanded in order under the
/// filter, and the result is sorted ascending by source path.
///
/// `roots[i]` is the snapshot of the tree at `items[i].source_path`, or
/// nothing when that path does not exist.
#[verifier::loop_isolation(false)]
pub fn scan_items(
    items: Vec<Item>,
    depth: i32,
    include_directory: bool,
    extensions: Vec<String>,
    roots: Vec<Option<FsEntry>>,
) -> (r: Result<Vec<Item>, Error>)
    requires
        items@.len() == roots@.len(),
    ensures
        match first_missing_root(roots@, 0) {
            Some(i) => r matches Err(Error::NotFound { path }) && path@ == items@[i]@.source_path,
            None => r matches Ok(out) && item_views(out@) == sort_items(
                scan_roots(
                    roots@,
                    Seq::empty(),
                    depth as int,
                    include_directory,
                    str_views(extensions@),
                ).0,
            ),
        },
{
    let mut collected: Vec<Item> = Vec::new();
    let mut item_set: Vec<String> = Vec::new();
    proof {
        assert(roots@.take(0) =~= Seq::<Option<FsEntry>>::empty());
        assert(item_views(collected@) =~= Seq::<ItemV>::empty());
        assert(str_views(item_set@) =~= Seq::<Seq<char>>::empty());
    }
    let mut i: usize = 0;
    while i < roots.len()
        invariant
            i <= roots@.len(),
            first_missing_root(roots@, 0) == first_missing_root(roots@, i as int),
            ({
                let r = scan_roots(
                    roots@.take(i as int),
                    Seq::empty(),
                    depth as int,
                    include_directory,
                    str_views(extensions@),
                );
                &&& item_views(collected@) == r.0
                &&& str_views(item_set@) == r.1
            }),
        decreases roots@.len() - i,
    {
        let ghost pre = scan_roots(
            roots@.take(i as int),
            Seq::empty(),
            depth as int,
            include_directory,
            str_views(extensions@),
        );
        match &roots[i] {
            None => {
                return Err(Error::NotFound { path: items[i].source_path.clone() });
            },
            Some(entry) => {
                recursive_scan_items(
                    &mut collected,
                    entry,
                    &mut item_set,
                    depth,
                    include_directory,
                    &extensions,
                );
            },
        }
        proof {
            assert(roots@.take(i + 1).drop_last() =~= roots@.take(i as int));
            assert(roots@.take(i + 1).last() == roots@[i as int]);
            let r1 = scan_roots(
                roots@.take(i + 1),
                Seq::empty(),
                depth as int,
                include_directory,
                str_views(extensions@),
            );
            let step = scan_entry(
                roots@[i as int]->Some_0,
                pre.1,
                depth as int,
                include_directory,
                str_views(extensions@),
            );
            assert(r1.0 =~= pre.0 + step.0);
            assert(item_views(collected@) =~= pre.0 + step.0);
        }
        i = i + 1;
    }
    proof {
        assert(roots@.take(roots@.len() as int) =~= roots@);
    }
    let sorted = sort_by_source_path(collected);
    Ok(sorted)
}

/// The scan is deterministic and its order is not cosmetic: any two outputs
/// admitted by the contract of `scan_items` for the same snapshots and the
/// same filter are equal, and they are sorted ascending by source path.
pub proof fn lemma_scan_deterministic(
    out1: Seq<ItemV>,
    out2: Seq<ItemV>,
    roots: Seq<Option<FsEntry>>,
    seen: Seq<Seq<char>>,
    depth: int,
    include_dirs: bool,
    exts: Seq<Seq<char>>,
)
    requires
        out1 == sort_items(scan_roots(roots, seen, depth, include_dirs, exts).0),
        out2 == sort_items(scan_roots(roots, seen, depth, include_dirs, exts).0),
    ensures
        out1 == out2,
        sorted_by_source(out1),
        out1.to_multiset() == scan_roots(roots, seen, depth, include_dirs, exts).0.to_multiset(),
{
    lemma_sort_items_props(scan_roots(roots, seen, depth, include_dirs, exts).0);
}

/// The first index at or after `i` whose kind is unknown: its path was not
/// found on disk.
pub open spec fn first_unknown_kind(ks: Seq<Option<ItemType>>, i: int) -> Option<int>
    decreases ks.len() - i,
{
    if i < 0 || i >= ks.len() {
        None
    } else if ks[i] is None {
        Some(i)
    } else {
        first_unknown_kind(ks, i + 1)
    }
}

/// Re-derives each item's kind from the live file system, for a plain
/// rescan without a filter: `kinds[i]` is what the file system reports at
/// `items[i].source_path`, or nothing when that path does not exist, which
/// is a hard error. Both paths are kept as they are.
#[verifier::loop_isolation(false)]
pub fn refresh_item_kinds(items: &Vec<Item>, kinds: &Vec<Option<ItemType>>) -> (r: Result<
    Vec<Item>,
    Error,
>)
    requires
        items@.len() == kinds@.len(),
    ensures
        match first_unknown_kind(kinds@, 0) {
            Some(i) => r matches Err(Error::NotFound { path }) && path@ == items@[i]@.source_path,
            None => r matches Ok(out) && out@.len() == items@.len() && forall|i: int|
                0 <= i < out@.len() ==> (#[trigger] out@[i])@.source_path == items@[
                    i
                ]@.source_path && out@[i]@.target_path == items@[i]@.target_path && out@[
                    i
                ]@.item_type == kinds@[i]->Some_0,
        },
{
    let mut out: Vec<Item> = Vec::new();
    let mut i: usize = 0;
    while i < items.len()
        invariant
            i <= items@.len(),
            out@.len() == i,
            first_unknown_kind(kinds@, 0) == first_unknown_kind(kinds@, i as int),
            forall|j: int|
                0 <= j < i ==> (#[trigger] out@[j])@.source_path == items@[j]@.source_path
                    && out@[j]@.target_path == items@[j]@.target_path && out@[j]@.item_type
                    == kinds@[j]->Some_0,
        decreases items@.len() - i,
    {
        match kinds[i] {
            None => {
                return Err(Error::NotFound { path: items[i].source_path.clone() });
            },
            Some(kind) => {
                out.push(
                    Item {
                        source_path: items[i].source_path.clone(),
                        target_path: items[i].target_path.clone(),
                        item_type: kind,
                    },
                );
            },
        }
        i = i + 1;
    }
    Ok(out)
}

} // verus!
