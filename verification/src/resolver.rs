//! The conflict resolver: validates a rename batch and produces an
//! execution plan of two passes that is collision-free at every step.
//!
//! A batch first drops no-op items, then must have pairwise distinct source
//! paths and pairwise distinct target paths, every source must exist, and
//! every occupied target must be about to move away (or, on a
//! case-insensitive file system, differ from its own source only by letter
//! case). An item whose target is another item's source cannot be renamed
//! directly: it takes a detour through a freshly named sibling of its
//! target, vacating every contested destination in the first pass and
//! claiming it in the second.

use vstd::prelude::*;

use crate::protocol::{Error, Item, ItemV, item_views};
use crate::text::{dir_prefix, dir_prefix_of, lower_of, str_views, to_lowercase, vec_contains_string};

verus! {

/// The batch after dropping the items that already are where they should
/// be: those with equal source and target take no part in a rename.
pub open spec fn norm(s: Seq<ItemV>) -> Seq<ItemV>
    decreases s.len(),
{
    if s.len() == 0 {
        s
    } else {
        let front = norm(s.drop_last());
        if s.last().source_path != s.last().target_path {
            front.push(s.last())
        } else {
            front
        }
    }
}

/// The source paths of a batch, in order.
pub open spec fn source_paths(s: Seq<ItemV>) -> Seq<Seq<char>> {
    s.map_values(|iv: ItemV| iv.source_path)
}

/// The target paths of a batch, in order.
pub open spec fn target_paths(s: Seq<ItemV>) -> Seq<Seq<char>> {
    s.map_values(|iv: ItemV| iv.target_path)
}

/// The first index at or after `i` whose path already occurred before it.
pub open spec fn first_dup(ps: Seq<Seq<char>>, i: int) -> Option<int>
    decreases ps.len() - i,
{
    if i < 0 || i >= ps.len() {
        None
    } else if ps.take(i).contains(ps[i]) {
        Some(i)
    } else {
        first_dup(ps, i + 1)
    }
}

/// Whether item `i`'s target is occupied by something that is not about to
/// move away: the target exists, is no source of the batch, and (under
/// case-insensitive comparison, when asked for) is not just a change of
/// letter case of its own source.
pub open spec fn target_occupied(
    n: Seq<ItemV>,
    existing: Seq<Seq<char>>,
    case_insensitive: bool,
    i: int,
) -> bool {
    &&& existing.contains(n[i].target_path)
    &&& !source_paths(n).contains(n[i].target_path)
    &&& (!case_insensitive || lower_of(n[i].source_path) != lower_of(n[i].target_path))
}

/// The first item at or after `i` that cannot be renamed: its source is
/// missing (`true`) or its target is occupied (`false`).
pub open spec fn first_infeasible(
    n: Seq<ItemV>,
    existing: Seq<Seq<char>>,
    case_insensitive: bool,
    i: int,
) -> Option<(int, bool)>
    decreases n.len() - i,
{
    if i < 0 || i >= n.len() {
        None
    } else if !existing.contains(n[i].source_path) {
        Some((i, true))
    } else if target_occupied(n, existing, case_insensitive, i) {
        Some((i, false))
    } else {
        first_infeasible(n, existing, case_insensitive, i + 1)
    }
}

/// Whether item `i`'s target coincides with a source of the batch, so that
/// the destination is occupied until that other item moves away.
pub open spec fn colliding(n: Seq<ItemV>, i: int) -> bool {
    source_paths(n).contains(n[i].target_path)
}

/// The first colliding item at or after `i` whose target has no parent to
/// place a detour in.
pub open spec fn first_unresolvable(n: Seq<ItemV>, i: int) -> Option<int>
    decreases n.len() - i,
{
    if i < 0 || i >= n.len() {
        None
    } else if colliding(n, i) && dir_prefix_of(n[i].target_path) is None {
        Some(i)
    } else {
        first_unresolvable(n, i + 1)
    }
}

/// The colliding indices below `i`, in order.
pub open spec fn colliding_indices(n: Seq<ItemV>, i: int) -> Seq<int>
    decreases i,
{
    if i <= 0 {
        Seq::empty()
    } else if colliding(n, i - 1) {
        colliding_indices(n, i - 1).push(i - 1)
    } else {
        colliding_indices(n, i - 1)
    }
}

/// The characters a fresh detour name is made of.
pub open spec fn uuid_char(c: char) -> bool {
    ||| ('0' as u32) <= (c as u32) <= ('9' as u32)
    ||| ('a' as u32) <= (c as u32) <= ('f' as u32)
    ||| c == '-'
}

/// The shape of a fresh detour name: a hyphenated identifier of 36
/// hexadecimal digits and hyphens, so in particular free of separators.
pub open spec fn uuid_like(name: Seq<char>) -> bool {
    &&& name.len() == 36
    &&& forall|i: int| 0 <= i < name.len() ==> uuid_char(#[trigger] name[i])
}

/// Whether `temp` is a detour path for `target`: a freshly named sibling
/// placed in `target`'s parent directory.
pub open spec fn is_detour(temp: Seq<char>, target: Seq<char>) -> bool {
    &&& dir_prefix_of(target) is Some
    &&& exists|name: Seq<char>|
        uuid_like(name) && temp == dir_prefix_of(target)->Some_0 + name
}

/// What a produced plan looks like, relative to the normalized batch `n`:
/// the first pass renames every item in order, colliding items to a detour
/// in their target's parent and the rest straight to their target; the
/// second pass completes the colliding items, in order, from their detour
/// to their true target.
pub open spec fn plan_shape(n: Seq<ItemV>, p1: Seq<ItemV>, p2: Seq<ItemV>) -> bool {
    let cs = colliding_indices(n, n.len() as int);
    &&& p1.len() == n.len()
    &&& forall|i: int|
        0 <= i < n.len() ==> (#[trigger] p1[i]).source_path == n[i].source_path && p1[
            i
        ].item_type == n[i].item_type
    &&& forall|i: int|
        0 <= i < n.len() && !colliding(n, i) ==> (#[trigger] p1[i]).target_path == n[
            i
        ].target_path
    &&& forall|i: int|
        0 <= i < n.len() && colliding(n, i) ==> is_detour(
            (#[trigger] p1[i]).target_path,
            n[i].target_path,
        )
    &&& p2.len() == cs.len()
    &&& forall|k: int|
        0 <= k < p2.len() ==> {
            let i = cs[k];
            &&& (#[trigger] p2[k]).source_path == p1[i].target_path
            &&& p2[k].target_path == n[i].target_path
            &&& p2[k].item_type == n[i].item_type
        }
}

/// How one validated batch falls out: the first violation found, in the
/// order the checks run, or a well-formed batch.
pub ghost enum Verdict {
    DupSource(int),
    DupTarget(int),
    MissingSource(int),
    OccupiedTarget(int),
    Unresolvable(int),
    Good,
}

/// The verdict on a normalized batch: duplicate sources are reported
/// first, then duplicate targets, then missing sources and occupied
/// targets in item order, then colliding targets without a parent.
pub open spec fn validate(
    n: Seq<ItemV>,
    existing: Seq<Seq<char>>,
    case_insensitive: bool,
) -> Verdict {
    match first_dup(source_paths(n), 0) {
        Some(i) => Verdict::DupSource(i),
        None => match first_dup(target_paths(n), 0) {
            Some(i) => Verdict::DupTarget(i),
            None => match first_infeasible(n, existing, case_insensitive, 0) {
                Some((i, true)) => Verdict::MissingSource(i),
                Some((i, false)) => Verdict::OccupiedTarget(i),
                None => match first_unresolvable(n, 0) {
                    Some(i) => Verdict::Unresolvable(i),
                    None => Verdict::Good,
                },
            },
        },
    }
}

/// An executable rename plan: the operations of the first pass, then the
/// operations of the second pass, each in list order.
pub struct RenamePlan {
    pub pass_1_items: Vec<Item>,
    pub pass_2_items: Vec<Item>,
}

/// Relies on `uuid::Uuid::new_v4` and its display form: a fresh version-4
/// identifier formatted as 36 lowercase hexadecimal digits and hyphens.
#[verifier::external_body]
fn new_uuid_string() -> (r: String)
    ensures
        uuid_like(r@),
{
    uuid::Uuid::new_v4().to_string()
}

/// The colliding indices below `i` are in range, strictly increasing, and
/// exactly the colliding ones.
pub proof fn lemma_colliding_indices_props(n: Seq<ItemV>, i: int)
    ensures
        forall|k: int|
            0 <= k < colliding_indices(n, i).len() ==> 0 <= #[trigger] colliding_indices(n, i)[k]
                < i && colliding(n, colliding_indices(n, i)[k]),
        forall|k1: int, k2: int|
            0 <= k1 < k2 < colliding_indices(n, i).len() ==> colliding_indices(n, i)[k1]
                < colliding_indices(n, i)[k2],
    decreases i,
{
    if i > 0 {
        lemma_colliding_indices_props(n, i - 1);
        let pre = colliding_indices(n, i - 1);
        let cur = colliding_indices(n, i);
        if colliding(n, i - 1) {
            assert(cur == pre.push(i - 1));
            assert(forall|k: int| 0 <= k < pre.len() ==> #[trigger] cur[k] == pre[k]);
            assert(cur[cur.len() - 1] == i - 1);
        }
    }
}

/// Validates a batch and resolves its conflicts into a two-pass plan:
/// drop no-ops, refuse duplicate
/// sources and duplicate targets, refuse missing sources and occupied
/// targets, then send every colliding item through a detour in its
/// target's parent directory.
///
/// `existing` lists the paths that exist on disk among the batch's sources
/// and targets; `case_insensitive` says whether the file system reports a
/// path as existing when only the letter case differs.
#[verifier::loop_isolation(false)]
pub fn plan_rename_items(
    items: &Vec<Item>,
    existing: &Vec<String>,
    case_insensitive: bool,
) -> (r: Result<RenamePlan, Error>)
    ensures
        ({
            let n = norm(item_views(items@));
            let ex = str_views(existing@);
            match validate(n, ex, case_insensitive) {
                Verdict::DupSource(i) => r matches Err(Error::DuplicateSource { path })
                    && path@ == n[i].source_path,
                Verdict::DupTarget(i) => r matches Err(Error::DuplicateTarget { path })
                    && path@ == n[i].target_path,
                Verdict::MissingSource(i) => r matches Err(Error::SourceMissing { path })
                    && path@ == n[i].source_path,
                Verdict::OccupiedTarget(i) => r matches Err(Error::TargetExists { path })
                    && path@ == n[i].target_path,
                Verdict::Unresolvable(i) => r matches Err(Error::UnresolvableTarget { path })
                    && path@ == n[i].target_path,
                Verdict::Good => r matches Ok(plan) && plan_shape(
                    n,
                    item_views(plan.pass_1_items@),
                    item_views(plan.pass_2_items@),
                ),
            }
        }),
{
    let ghost n = norm(item_views(items@));
    let ghost ex = str_views(existing@);
    // Step 1: drop the items that are already in place.
    let mut normalized: Vec<Item> = Vec::new();
    proof {
        assert(item_views(items@).take(0) =~= Seq::<ItemV>::empty());
        assert(item_views(normalized@) =~= Seq::<ItemV>::empty());
    }
    let mut idx: usize = 0;
    while idx < items.len()
        invariant
            idx <= items@.len(),
            item_views(normalized@) == norm(item_views(items@).take(idx as int)),
        decreases items@.len() - idx,
    {
        let it = &items[idx];
        let ghost pre = item_views(normalized@);
        if !(it.source_path.eq(&it.target_path)) {
            normalized.push(it.clone());
        }
        proof {
            assert(item_views(items@).take(idx + 1).drop_last() =~= item_views(items@).take(
                idx as int,
            ));
            assert(item_views(items@).take(idx + 1).last() == items@[idx as int]@);
            if items@[idx as int]@.source_path != items@[idx as int]@.target_path {
                assert(item_views(normalized@) =~= pre.push(items@[idx as int]@));
            }
        }
        idx = idx + 1;
    }
    proof {
        assert(item_views(items@).take(items@.len() as int) =~= item_views(items@));
        assert(item_views(normalized@) == n);
    }
    // Step 2: refuse duplicated source paths, and keep the full source
    // list for the collision checks below.
    let mut source_list: Vec<String> = Vec::new();
    proof {
        assert(str_views(source_list@) =~= Seq::<Seq<char>>::empty());
        assert(source_paths(n).take(0) =~= Seq::<Seq<char>>::empty());
    }
    let mut i: usize = 0;
    while i < normalized.len()
        invariant
            i <= normalized@.len(),
            str_views(source_list@) == source_paths(n).take(i as int),
            first_dup(source_paths(n), 0) == first_dup(source_paths(n), i as int),
        decreases normalized@.len() - i,
    {
        proof {
            assert(source_paths(n)[i as int] == normalized@[i as int]@.source_path);
        }
        if vec_contains_string(&source_list, &normalized[i].source_path) {
            return Err(Error::DuplicateSource { path: normalized[i].source_path.clone() });
        }
        source_list.push(normalized[i].source_path.clone());
        proof {
            assert(str_views(source_list@) =~= source_paths(n).take(i + 1));
        }
        i = i + 1;
    }
    proof {
        assert(source_paths(n).take(n.len() as int) =~= source_paths(n));
        assert(str_views(source_list@) == source_paths(n));
    }
    // Step 3: refuse duplicated target paths.
    let mut target_list: Vec<String> = Vec::new();
    proof {
        assert(str_views(target_list@) =~= Seq::<Seq<char>>::empty());
        assert(target_paths(n).take(0) =~= Seq::<Seq<char>>::empty());
    }
    let mut i: usize = 0;
    while i < normalized.len()
        invariant
            i <= normalized@.len(),
            str_views(target_list@) == target_paths(n).take(i as int),
            first_dup(target_paths(n), 0) == first_dup(target_paths(n), i as int),
        decreases normalized@.len() - i,
    {
        proof {
            assert(target_paths(n)[i as int] == normalized@[i as int]@.target_path);
        }
        if vec_contains_string(&target_list, &normalized[i].target_path) {
            return Err(Error::DuplicateTarget { path: normalized[i].target_path.clone() });
        }
        target_list.push(normalized[i].target_path.clone());
        proof {
            assert(str_views(target_list@) =~= target_paths(n).take(i + 1));
        }
        i = i + 1;
    }
    // Step 4: every source must exist, and every occupied target must be
    // about to move away or differ from its source only by letter case.
    let mut i: usize = 0;
    while i < normalized.len()
        invariant
            i <= normalized@.len(),
            first_infeasible(n, ex, case_insensitive, 0) == first_infeasible(
                n,
                ex,
                case_insensitive,
                i as int,
            ),
        decreases normalized@.len() - i,
    {
        let it = &normalized[i];
        proof {
            assert(it@ == n[i as int]);
        }
        if !vec_contains_string(existing, &it.source_path) {
            return Err(Error::SourceMissing { path: it.source_path.clone() });
        }
        if vec_contains_string(existing, &it.target_path) && !vec_contains_string(
            &source_list,
            &it.target_path,
        ) {
            let occupied = if case_insensitive {
                let lower_source = to_lowercase(&it.source_path);
                let lower_target = to_lowercase(&it.target_path);
                !lower_source.eq(&lower_target)
            } else {
                true
            };
            if occupied {
                return Err(Error::TargetExists { path: it.target_path.clone() });
            }
        }
        i = i + 1;
    }
    // Step 5: resolve the renaming sequence. A colliding item goes to a
    // detour first and reaches its true target in the second pass.
    let mut pass_1: Vec<Item> = Vec::new();
    let mut pass_2: Vec<Item> = Vec::new();
    proof {
        assert(item_views(pass_1@) =~= Seq::<ItemV>::empty());
        assert(item_views(pass_2@) =~= Seq::<ItemV>::empty());
        assert(colliding_indices(n, 0) =~= Seq::<int>::empty());
    }
    let mut i: usize = 0;
    while i < normalized.len()
        invariant
            i <= normalized@.len(),
            first_unresolvable(n, 0) == first_unresolvable(n, i as int),
            item_views(pass_1@).len() == i,
            forall|j: int|
                0 <= j < i ==> (#[trigger] item_views(pass_1@)[j]).source_path == n[
                    j
                ].source_path && item_views(pass_1@)[j].item_type == n[j].item_type,
            forall|j: int|
                0 <= j < i && !colliding(n, j) ==> (#[trigger] item_views(
                    pass_1@,
                )[j]).target_path == n[j].target_path,
            forall|j: int|
                0 <= j < i && colliding(n, j) ==> is_detour(
                    (#[trigger] item_views(pass_1@)[j]).target_path,
                    n[j].target_path,
                ),
            item_views(pass_2@).len() == colliding_indices(n, i as int).len(),
            forall|k: int|
                0 <= k < item_views(pass_2@).len() ==> {
                    let c = colliding_indices(n, i as int)[k];
                    &&& (#[trigger] item_views(pass_2@)[k]).source_path == item_views(
                        pass_1@,
                    )[c].target_path
                    &&& item_views(pass_2@)[k].target_path == n[c].target_path
                    &&& item_views(pass_2@)[k].item_type == n[c].item_type
                },
        decreases normalized@.len() - i,
    {
        let it = &normalized[i];
        proof {
            assert(it@ == n[i as int]);
            lemma_colliding_indices_props(n, i as int);
        }
        let ghost p1_pre = item_views(pass_1@);
        let ghost p2_pre = item_views(pass_2@);
        if vec_contains_string(&source_list, &it.target_path) {
            match dir_prefix(&it.target_path) {
                None => {
                    return Err(Error::UnresolvableTarget { path: it.target_path.clone() });
                },
                Some(prefix) => {
                    let name = new_uuid_string();
                    let temp = prefix.concat(name.as_str());
                    pass_1.push(
                        Item {
                            source_path: it.source_path.clone(),
                            target_path: temp.clone(),
                            item_type: it.item_type,
                        },
                    );
                    pass_2.push(
                        Item {
                            source_path: temp,
                            target_path: it.target_path.clone(),
                            item_type: it.item_type,
                        },
                    );
                    proof {
                        assert(temp@ == dir_prefix_of(n[i as int].target_path)->Some_0 + name@);
                        assert(is_detour(temp@, n[i as int].target_path));
                        assert(item_views(pass_1@) =~= p1_pre.push(
                            ItemV {
                                source_path: n[i as int].source_path,
                                target_path: temp@,
                                item_type: n[i as int].item_type,
                            },
                        ));
                        assert(item_views(pass_2@) =~= p2_pre.push(
                            ItemV {
                                source_path: temp@,
                                target_path: n[i as int].target_path,
                                item_type: n[i as int].item_type,
                            },
                        ));
                        assert(colliding_indices(n, i + 1) == colliding_indices(n, i as int).push(
                            i as int,
                        ));
                    }
                },
            }
        } else {
            pass_1.push(it.clone());
            proof {
                assert(item_views(pass_1@) =~= p1_pre.push(n[i as int]));
                assert(colliding_indices(n, i + 1) == colliding_indices(n, i as int));
            }
        }
        i = i + 1;
    }
    proof {
        assert(plan_shape(n, item_views(pass_1@), item_views(pass_2@)));
    }
    Ok(RenamePlan { pass_1_items: pass_1, pass_2_items: pass_2 })
}

} // verus!
