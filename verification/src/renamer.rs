//! The renamer: the meaning of executing a rename plan, and the proof that
//! a plan produced by the resolver moves every file of a valid batch to its
//! declared target — cyclic swaps and chains included — and leaves no
//! detour behind.
//!
//! A file system is modelled as a map from paths to file identities; one
//! rename moves the file at a source path to a free target path. The model
//! abstracts directories away: the shell that mirrors a plan against the
//! real file system creates missing parent directories before each rename.

use vstd::prelude::*;

use crate::protocol::{Error, Item, ItemV, item_views};
use crate::resolver::{
    colliding, colliding_indices, first_dup, first_infeasible, is_detour,
    lemma_colliding_indices_props, plan_shape, source_paths, target_paths, RenamePlan,
};

verus! {

/// One rename: the file at the operation's source path moves to its target
/// path.
pub open spec fn rename_step(
    fs: Map<Seq<char>, Seq<char>>,
    op: ItemV,
) -> Map<Seq<char>, Seq<char>> {
    fs.remove(op.source_path).insert(op.target_path, fs[op.source_path])
}

/// Whether a list of renames can run in order: at every step the source
/// exists and the target is free.
pub open spec fn ops_applicable(fs: Map<Seq<char>, Seq<char>>, ops: Seq<ItemV>) -> bool
    decreases ops.len(),
{
    ops.len() == 0 || {
        &&& fs.dom().contains(ops[0].source_path)
        &&& !fs.dom().contains(ops[0].target_path)
        &&& ops_applicable(rename_step(fs, ops[0]), ops.drop_first())
    }
}

/// The file system after running a list of renames in order.
pub open spec fn apply_ops(fs: Map<Seq<char>, Seq<char>>, ops: Seq<ItemV>) -> Map<
    Seq<char>,
    Seq<char>,
>
    decreases ops.len(),
{
    if ops.len() == 0 {
        fs
    } else {
        apply_ops(rename_step(fs, ops[0]), ops.drop_first())
    }
}

/// The number of leading renames that can run before one gets stuck.
pub open spec fn applicable_prefix(fs: Map<Seq<char>, Seq<char>>, ops: Seq<ItemV>) -> int
    decreases ops.len(),
{
    if ops.len() == 0 {
        0
    } else if fs.dom().contains(ops[0].source_path) && !fs.dom().contains(ops[0].target_path) {
        1 + applicable_prefix(rename_step(fs, ops[0]), ops.drop_first())
    } else {
        0
    }
}

/// Appending one rename to a run applies it to the run's result.
pub proof fn lemma_apply_ops_snoc(fs: Map<Seq<char>, Seq<char>>, ops: Seq<ItemV>, op: ItemV)
    ensures
        apply_ops(fs, ops.push(op)) == rename_step(apply_ops(fs, ops), op),
        ops_applicable(fs, ops.push(op)) <==> (ops_applicable(fs, ops) && apply_ops(
            fs,
            ops,
        ).dom().contains(op.source_path) && !apply_ops(fs, ops).dom().contains(op.target_path)),
    decreases ops.len(),
{
    reveal_with_fuel(apply_ops, 3);
    reveal_with_fuel(ops_applicable, 3);
    if ops.len() == 0 {
        assert(ops.push(op)[0] == op);
        assert(ops.push(op).drop_first() =~= Seq::<ItemV>::empty());
    } else {
        lemma_apply_ops_snoc(rename_step(fs, ops[0]), ops.drop_first(), op);
        assert(ops.push(op)[0] == ops[0]);
        assert(ops.push(op).drop_first() =~= ops.drop_first().push(op));
    }
}

/// Running a concatenation is running the two runs one after the other.
pub proof fn lemma_apply_ops_concat(fs: Map<Seq<char>, Seq<char>>, a: Seq<ItemV>, b: Seq<ItemV>)
    ensures
        apply_ops(fs, a + b) == apply_ops(apply_ops(fs, a), b),
        (ops_applicable(fs, a) && ops_applicable(apply_ops(fs, a), b)) ==> ops_applicable(
            fs,
            a + b,
        ),
    decreases a.len(),
{
    if a.len() == 0 {
        assert(a + b =~= b);
    } else {
        lemma_apply_ops_concat(rename_step(fs, a[0]), a.drop_first(), b);
        assert((a + b).drop_first() =~= a.drop_first() + b);
        assert((a + b)[0] == a[0]);
    }
}

/// A path list's prefix one longer holds one path more.
proof fn lemma_take_succ_contains(ps: Seq<Seq<char>>, i: int, x: Seq<char>)
    requires
        0 <= i < ps.len(),
    ensures
        ps.take(i + 1).contains(x) <==> (ps.take(i).contains(x) || ps[i] == x),
{
    assert(ps.take(i + 1) =~= ps.take(i).push(ps[i]));
    if ps.take(i).contains(x) {
        let w = choose|w: int| 0 <= w < ps.take(i).len() && #[trigger] ps.take(i)[w] == x;
        assert(ps.take(i + 1)[w] == x);
    }
    if ps[i] == x {
        assert(ps.take(i + 1)[i] == x);
    }
    if ps.take(i + 1).contains(x) {
        let w = choose|w: int| 0 <= w < ps.take(i + 1).len() && #[trigger] ps.take(i + 1)[w] == x;
        if w < i {
            assert(ps.take(i)[w] == x);
        }
    }
}

/// Membership in the target paths of a batch, by index.
pub proof fn lemma_target_paths_contains(n: Seq<ItemV>, p: Seq<char>)
    ensures
        target_paths(n).contains(p) <==> exists|i: int|
            0 <= i < n.len() && (#[trigger] n[i]).target_path == p,
{
    if target_paths(n).contains(p) {
        let w = choose|w: int| 0 <= w < target_paths(n).len() && #[trigger] target_paths(n)[w] == p;
        assert(n[w].target_path == p);
    }
    if exists|i: int| 0 <= i < n.len() && (#[trigger] n[i]).target_path == p {
        let w = choose|w: int| 0 <= w < n.len() && (#[trigger] n[w]).target_path == p;
        assert(target_paths(n)[w] == p);
    }
}

/// A batch the resolver's checks admit, against a file system `fs`: no
/// no-ops, pairwise distinct sources, pairwise distinct targets, every
/// source present, and every present target about to move away.
pub open spec fn valid_batch(n: Seq<ItemV>, fs: Map<Seq<char>, Seq<char>>) -> bool {
    &&& forall|i: int, j: int|
        0 <= i < j < n.len() ==> (#[trigger] n[i]).source_path != (#[trigger] n[j]).source_path
    &&& forall|i: int, j: int|
        0 <= i < j < n.len() ==> (#[trigger] n[i]).target_path != (#[trigger] n[j]).target_path
    &&& forall|i: int| 0 <= i < n.len() ==> (#[trigger] n[i]).source_path != n[i].target_path
    &&& forall|i: int| 0 <= i < n.len() ==> fs.dom().contains((#[trigger] n[i]).source_path)
    &&& forall|i: int|
        0 <= i < n.len() && fs.dom().contains((#[trigger] n[i]).target_path)
            ==> source_paths(n).contains(n[i].target_path)
}

/// The detour names of a plan are fresh: no detour path exists on disk, is
/// a source or a target of the batch, or repeats another detour.
pub open spec fn temps_fresh(
    n: Seq<ItemV>,
    p1: Seq<ItemV>,
    fs: Map<Seq<char>, Seq<char>>,
) -> bool {
    forall|i: int|
        0 <= i < n.len() && colliding(n, i) ==> {
            let t = (#[trigger] p1[i]).target_path;
            &&& !fs.dom().contains(t)
            &&& !source_paths(n).contains(t)
            &&& !target_paths(n).contains(t)
            &&& forall|j: int|
                0 <= j < n.len() && colliding(n, j) && j != i ==> (#[trigger] p1[j]).target_path
                    != t
        }
}

/// What plan shape, validity and freshness give about the first pass's
/// target paths: none is a source, none exists beforehand, none repeats.
proof fn lemma_p1_target_facts(
    n: Seq<ItemV>,
    p1: Seq<ItemV>,
    p2: Seq<ItemV>,
    fs: Map<Seq<char>, Seq<char>>,
)
    requires
        plan_shape(n, p1, p2),
        valid_batch(n, fs),
        temps_fresh(n, p1, fs),
    ensures
        forall|j: int|
            0 <= j < n.len() ==> !source_paths(n).contains((#[trigger] p1[j]).target_path),
        forall|j: int| 0 <= j < n.len() ==> !fs.dom().contains((#[trigger] p1[j]).target_path),
        forall|j1: int, j2: int|
            0 <= j1 < j2 < n.len() ==> (#[trigger] p1[j1]).target_path != (
            #[trigger] p1[j2]).target_path,
{
    assert forall|j: int| 0 <= j < n.len() implies !source_paths(n).contains(
        (#[trigger] p1[j]).target_path,
    ) && !fs.dom().contains(p1[j].target_path) by {
        if colliding(n, j) {
        } else {
            assert(p1[j].target_path == n[j].target_path);
            if fs.dom().contains(n[j].target_path) {
                assert(source_paths(n).contains(n[j].target_path));
            }
        }
    }
    assert forall|j1: int, j2: int| 0 <= j1 < j2 < n.len() implies (#[trigger] p1[
        j1
    ]).target_path != (#[trigger] p1[j2]).target_path by {
        if colliding(n, j1) && colliding(n, j2) {
        } else if colliding(n, j1) {
            assert(p1[j2].target_path == n[j2].target_path);
            lemma_target_paths_contains(n, n[j2].target_path);
            assert(target_paths(n).contains(n[j2].target_path));
        } else if colliding(n, j2) {
            assert(p1[j1].target_path == n[j1].target_path);
            lemma_target_paths_contains(n, n[j1].target_path);
            assert(target_paths(n).contains(n[j1].target_path));
        } else {
            assert(p1[j1].target_path == n[j1].target_path);
            assert(p1[j2].target_path == n[j2].target_path);
        }
    }
}

/// The state after running the first `i` operations of the first pass:
/// the first `i` sources are gone, their files sit at the first `i` first-
/// pass targets, and everything else is as before.
pub open spec fn pass1_dom_ok(
    fs0: Map<Seq<char>, Seq<char>>,
    n: Seq<ItemV>,
    p1: Seq<ItemV>,
    i: int,
    m: Map<Seq<char>, Seq<char>>,
) -> bool {
    forall|p: Seq<char>|
        #[trigger] m.dom().contains(p) <==> ((fs0.dom().contains(p) && !source_paths(n).take(
            i,
        ).contains(p)) || target_paths(p1).take(i).contains(p))
}

/// See `pass1_mid_ok`: the moved files sit at their first-pass targets.
pub open spec fn pass1_moved_ok(
    fs0: Map<Seq<char>, Seq<char>>,
    n: Seq<ItemV>,
    p1: Seq<ItemV>,
    i: int,
    m: Map<Seq<char>, Seq<char>>,
) -> bool {
    forall|j: int|
        0 <= j < i ==> m.dom().contains((#[trigger] p1[j]).target_path) && m[p1[j].target_path]
            == fs0[n[j].source_path]
}

/// See `pass1_mid_ok`: every untouched path keeps its file.
pub open spec fn pass1_rest_ok(
    fs0: Map<Seq<char>, Seq<char>>,
    n: Seq<ItemV>,
    p1: Seq<ItemV>,
    i: int,
    m: Map<Seq<char>, Seq<char>>,
) -> bool {
    forall|p: Seq<char>|
        #![trigger m.dom().contains(p)]
        #![trigger fs0.dom().contains(p)]
        fs0.dom().contains(p) && !source_paths(n).take(i).contains(p) && !target_paths(p1).take(
            i,
        ).contains(p) ==> m.dom().contains(p) && m[p] == fs0[p]
}

/// See `pass1_mid_ok`: all three parts together.
pub open spec fn pass1_mid_ok(
    fs0: Map<Seq<char>, Seq<char>>,
    n: Seq<ItemV>,
    p1: Seq<ItemV>,
    i: int,
) -> bool {
    &&& pass1_dom_ok(fs0, n, p1, i, apply_ops(fs0, p1.take(i)))
    &&& pass1_moved_ok(fs0, n, p1, i, apply_ops(fs0, p1.take(i)))
    &&& pass1_rest_ok(fs0, n, p1, i, apply_ops(fs0, p1.take(i)))
}

/// Running the first pass up to `i` is possible and reaches the mid state.
proof fn lemma_pass1(
    fs0: Map<Seq<char>, Seq<char>>,
    n: Seq<ItemV>,
    p1: Seq<ItemV>,
    p2: Seq<ItemV>,
    i: int,
)
    requires
        plan_shape(n, p1, p2),
        valid_batch(n, fs0),
        temps_fresh(n, p1, fs0),
        0 <= i <= n.len(),
    ensures
        ops_applicable(fs0, p1.take(i)),
        pass1_mid_ok(fs0, n, p1, i),
    decreases i,
{
    lemma_p1_target_facts(n, p1, p2, fs0);
    if i == 0 {
        assert(p1.take(0) =~= Seq::<ItemV>::empty());
        assert(source_paths(n).take(0) =~= Seq::<Seq<char>>::empty());
        assert(target_paths(p1).take(0) =~= Seq::<Seq<char>>::empty());
        assert(apply_ops(fs0, p1.take(0)) == fs0);
        let m0 = apply_ops(fs0, p1.take(0));
        assert forall|p: Seq<char>| #[trigger] m0.dom().contains(p) <==> ((fs0.dom().contains(p)
            && !source_paths(n).take(0).contains(p)) || target_paths(p1).take(0).contains(
            p,
        )) by {
            assert(!source_paths(n).take(0).contains(p));
            assert(!target_paths(p1).take(0).contains(p));
        }
        assert forall|p: Seq<char>|
            fs0.dom().contains(p) && !source_paths(n).take(0).contains(p) && !target_paths(
                p1,
            ).take(0).contains(p) implies #[trigger] m0.dom().contains(p) && m0[p] == fs0[p] by {
        }
    } else {
        lemma_pass1(fs0, n, p1, p2, i - 1);
        let m = apply_ops(fs0, p1.take(i - 1));
        let op = p1[i - 1];
        let s_i = n[i - 1].source_path;
        let pt_i = op.target_path;
        assert(op.source_path == s_i);
        assert(source_paths(n)[i - 1] == s_i);
        assert(target_paths(p1)[i - 1] == pt_i);
        // nothing the first pass writes is ever a source, or present at start
        assert forall|p: Seq<char>| target_paths(p1).take(i).contains(p) implies !source_paths(
            n,
        ).contains(p) && !fs0.dom().contains(p) by {
            let w = choose|w: int|
                0 <= w < target_paths(p1).take(i).len() && #[trigger] target_paths(p1).take(i)[w]
                    == p;
            assert(p1[w].target_path == p);
        }
        // the sources taken so far are pairwise distinct, so `s_i` is untouched
        assert(source_paths(n).contains(s_i)) by {
            assert(source_paths(n)[i - 1] == s_i);
        }
        assert(!source_paths(n).take(i - 1).contains(s_i)) by {
            if source_paths(n).take(i - 1).contains(s_i) {
                let w = choose|w: int|
                    0 <= w < source_paths(n).take(i - 1).len() && #[trigger] source_paths(n).take(
                        i - 1,
                    )[w] == s_i;
                assert(n[w].source_path == s_i);
            }
        }
        assert(!target_paths(p1).take(i - 1).contains(s_i)) by {
            if target_paths(p1).take(i - 1).contains(s_i) {
                let w = choose|w: int|
                    0 <= w < target_paths(p1).take(i - 1).len() && #[trigger] target_paths(
                        p1,
                    ).take(i - 1)[w] == s_i;
                assert(p1[w].target_path == s_i);
                assert(!source_paths(n).contains(s_i));
            }
        }
        assert(pass1_mid_ok(fs0, n, p1, i - 1));
        assert(fs0.dom().contains(s_i));
        assert(m.dom().contains(s_i));
        assert(m[s_i] == fs0[s_i]);
        // the target of this operation is still free
        assert(!target_paths(p1).take(i - 1).contains(pt_i)) by {
            if target_paths(p1).take(i - 1).contains(pt_i) {
                let w = choose|w: int|
                    0 <= w < target_paths(p1).take(i - 1).len() && #[trigger] target_paths(
                        p1,
                    ).take(i - 1)[w] == pt_i;
                assert(p1[w].target_path == pt_i);
            }
        }
        assert(!m.dom().contains(pt_i));
        // so the operation runs, and the state advances by one rename
        assert(p1.take(i) =~= p1.take(i - 1).push(op));
        lemma_apply_ops_snoc(fs0, p1.take(i - 1), op);
        let m2 = apply_ops(fs0, p1.take(i));
        assert(m2 == rename_step(m, op));
        assert(ops_applicable(fs0, p1.take(i)));
        // the domain trades `s_i` for `pt_i`
        assert forall|p: Seq<char>| #[trigger] m2.dom().contains(p) <==> ((fs0.dom().contains(p)
            && !source_paths(n).take(i).contains(p)) || target_paths(p1).take(i).contains(
            p,
        )) by {
            lemma_take_succ_contains(source_paths(n), i - 1, p);
            lemma_take_succ_contains(target_paths(p1), i - 1, p);
            if p == pt_i {
                assert(target_paths(p1).take(i).contains(p));
                assert(m2.dom().contains(p));
            } else if p == s_i {
                assert(source_paths(n).take(i).contains(p));
                assert(!m2.dom().contains(p));
                assert(!target_paths(p1).take(i).contains(p));
            } else {
                assert(m2.dom().contains(p) <==> m.dom().contains(p));
            }
        }
        // the first `i` files sit at their first-pass targets
        assert forall|j: int| 0 <= j < i implies m2.dom().contains((#[trigger] p1[j]).target_path)
            && m2[p1[j].target_path] == fs0[n[j].source_path] by {
            if j < i - 1 {
                assert(p1[j].target_path != s_i);
                assert(p1[j].target_path != pt_i);
                assert(m2[p1[j].target_path] == m[p1[j].target_path]);
            } else {
                assert(m2[pt_i] == m[s_i]);
            }
        }
        // everything else is as before
        assert forall|p: Seq<char>|
            fs0.dom().contains(p) && !source_paths(n).take(i).contains(p) && !target_paths(
                p1,
            ).take(i).contains(p) implies #[trigger] m2.dom().contains(p) && m2[p] == fs0[p] by {
            lemma_take_succ_contains(source_paths(n), i - 1, p);
            lemma_take_succ_contains(target_paths(p1), i - 1, p);
            assert(p != s_i);
            assert(p != pt_i);
            assert(!source_paths(n).take(i - 1).contains(p));
            assert(!target_paths(p1).take(i - 1).contains(p));
            assert(pass1_rest_ok(fs0, n, p1, i - 1, apply_ops(fs0, p1.take(i - 1))));
            assert(apply_ops(fs0, p1.take(i - 1)).dom().contains(p) && apply_ops(
                fs0,
                p1.take(i - 1),
            )[p] == fs0[p]);
            assert(m2[p] == m[p]);
        }
    }
}

/// Every colliding index below `i` appears among the colliding indices.
proof fn lemma_colliding_indices_complete(n: Seq<ItemV>, i: int)
    ensures
        forall|j: int|
            0 <= j < i && colliding(n, j) ==> colliding_indices(n, i).contains(j),
    decreases i,
{
    if i > 0 {
        lemma_colliding_indices_complete(n, i - 1);
        let pre = colliding_indices(n, i - 1);
        let cur = colliding_indices(n, i);
        assert forall|j: int| 0 <= j < i && colliding(n, j) implies cur.contains(j) by {
            if j < i - 1 || (j == i - 1 && !colliding(n, i - 1)) {
                assert(pre.contains(j));
                let w = choose|w: int| 0 <= w < pre.len() && #[trigger] pre[w] == j;
                if colliding(n, i - 1) {
                    assert(cur[w] == j);
                } else {
                    assert(cur[w] == j);
                }
            } else {
                assert(cur == pre.push(i - 1));
                assert(cur[cur.len() - 1] == i - 1);
            }
        }
    }
}

/// The completions done so far sit at their true targets.
pub open spec fn pass2_done_ok(
    fs0: Map<Seq<char>, Seq<char>>,
    n: Seq<ItemV>,
    cs: Seq<int>,
    k: int,
    m: Map<Seq<char>, Seq<char>>,
) -> bool {
    forall|q: int|
        0 <= q < k ==> m.dom().contains(n[#[trigger] cs[q]].target_path) && m[n[
            cs[q]
        ].target_path] == fs0[n[cs[q]].source_path]
}

/// The completions still pending sit at their detours.
pub open spec fn pass2_pending_ok(
    fs0: Map<Seq<char>, Seq<char>>,
    n: Seq<ItemV>,
    p1: Seq<ItemV>,
    cs: Seq<int>,
    k: int,
    m: Map<Seq<char>, Seq<char>>,
) -> bool {
    forall|q: int|
        k <= q < cs.len() ==> m.dom().contains(p1[#[trigger] cs[q]].target_path) && m[p1[
            cs[q]
        ].target_path] == fs0[n[cs[q]].source_path]
}

/// The non-colliding items sit at their true targets throughout.
pub open spec fn pass2_direct_ok(
    fs0: Map<Seq<char>, Seq<char>>,
    n: Seq<ItemV>,
    m: Map<Seq<char>, Seq<char>>,
) -> bool {
    forall|j: int|
        0 <= j < n.len() && !colliding(n, j) ==> m.dom().contains(
            (#[trigger] n[j]).target_path,
        ) && m[n[j].target_path] == fs0[n[j].source_path]
}

/// The domain during the second pass: the starting paths less the sources,
/// plus the direct targets, the completed targets, and the pending detours.
pub open spec fn pass2_dom_ok(
    fs0: Map<Seq<char>, Seq<char>>,
    n: Seq<ItemV>,
    p1: Seq<ItemV>,
    cs: Seq<int>,
    k: int,
    m: Map<Seq<char>, Seq<char>>,
) -> bool {
    forall|p: Seq<char>|
        #![trigger m.dom().contains(p)]
        #![trigger fs0.dom().contains(p)]
        m.dom().contains(p) <==> {
            ||| (fs0.dom().contains(p) && !source_paths(n).contains(p))
            ||| (exists|j: int|
                0 <= j < n.len() && !colliding(n, j) && (#[trigger] n[j]).target_path == p)
            ||| (exists|q: int| 0 <= q < k && n[#[trigger] cs[q]].target_path == p)
            ||| (exists|q: int| k <= q < cs.len() && p1[#[trigger] cs[q]].target_path == p)
        }
}

/// Paths outside the batch keep their files.
pub open spec fn pass2_rest_ok(
    fs0: Map<Seq<char>, Seq<char>>,
    n: Seq<ItemV>,
    m: Map<Seq<char>, Seq<char>>,
) -> bool {
    forall|p: Seq<char>|
        #![trigger m.dom().contains(p)]
        #![trigger fs0.dom().contains(p)]
        fs0.dom().contains(p) && !source_paths(n).contains(p) && !target_paths(n).contains(p)
            ==> m.dom().contains(p) && m[p] == fs0[p]
}

/// Running the second pass up to `k` is possible and reaches the state the
/// five predicates above describe.
#[verifier::rlimit(100)]
proof fn lemma_pass2(
    fs0: Map<Seq<char>, Seq<char>>,
    n: Seq<ItemV>,
    p1: Seq<ItemV>,
    p2: Seq<ItemV>,
    k: int,
)
    requires
        plan_shape(n, p1, p2),
        valid_batch(n, fs0),
        temps_fresh(n, p1, fs0),
        0 <= k <= p2.len(),
    ensures
        ({
            let mstart = apply_ops(fs0, p1);
            let m = apply_ops(mstart, p2.take(k));
            let cs = colliding_indices(n, n.len() as int);
            &&& ops_applicable(mstart, p2.take(k))
            &&& pass2_done_ok(fs0, n, cs, k, m)
            &&& pass2_pending_ok(fs0, n, p1, cs, k, m)
            &&& pass2_direct_ok(fs0, n, m)
            &&& pass2_dom_ok(fs0, n, p1, cs, k, m)
            &&& pass2_rest_ok(fs0, n, m)
        }),
    decreases k,
{
    let mstart = apply_ops(fs0, p1);
    let cs = colliding_indices(n, n.len() as int);
    lemma_colliding_indices_props(n, n.len() as int);
    lemma_colliding_indices_complete(n, n.len() as int);
    lemma_p1_target_facts(n, p1, p2, fs0);
    if k == 0 {
        lemma_pass1(fs0, n, p1, p2, n.len() as int);
        assert(p1.take(n.len() as int) =~= p1);
        assert(source_paths(n).take(n.len() as int) =~= source_paths(n));
        assert(target_paths(p1).take(n.len() as int) =~= target_paths(p1));
        assert(p2.take(0) =~= Seq::<ItemV>::empty());
        let m = apply_ops(mstart, p2.take(0));
        assert(m == mstart);
        // each file sits where the first pass left it
        assert forall|j: int| 0 <= j < n.len() && !colliding(n, j) implies m.dom().contains(
            (#[trigger] n[j]).target_path,
        ) && m[n[j].target_path] == fs0[n[j].source_path] by {
            assert(p1[j].target_path == n[j].target_path);
            assert(pass1_moved_ok(fs0, n, p1, n.len() as int, mstart));
        }
        assert(pass2_pending_ok(fs0, n, p1, cs, 0, m)) by {
            assert(pass1_moved_ok(fs0, n, p1, n.len() as int, mstart));
        }
        // the domain after the first pass, sorted into the four groups
        assert forall|p: Seq<char>|
            #![trigger m.dom().contains(p)]
            #![trigger fs0.dom().contains(p)]
            m.dom().contains(p) <==> {
                ||| (fs0.dom().contains(p) && !source_paths(n).contains(p))
                ||| (exists|j: int|
                    0 <= j < n.len() && !colliding(n, j) && (#[trigger] n[j]).target_path == p)
                ||| (exists|q: int| 0 <= q < 0 && n[#[trigger] cs[q]].target_path == p)
                ||| (exists|q: int| 0 <= q < cs.len() && p1[#[trigger] cs[q]].target_path == p)
            } by {
            assert(pass1_dom_ok(fs0, n, p1, n.len() as int, mstart));
            if m.dom().contains(p) {
                if target_paths(p1).contains(p) {
                    let w = choose|w: int|
                        0 <= w < target_paths(p1).len() && #[trigger] target_paths(p1)[w] == p;
                    assert(p1[w].target_path == p);
                    if colliding(n, w) {
                        assert(cs.contains(w));
                        let q = choose|q: int| 0 <= q < cs.len() && #[trigger] cs[q] == w;
                        assert(p1[cs[q]].target_path == p);
                    } else {
                        assert(n[w].target_path == p);
                    }
                }
            } else {
                if exists|j: int|
                    0 <= j < n.len() && !colliding(n, j) && (#[trigger] n[j]).target_path == p {
                    let j = choose|j: int|
                        0 <= j < n.len() && !colliding(n, j) && (#[trigger] n[j]).target_path
                            == p;
                    assert(target_paths(p1)[j] == p);
                }
                if exists|q: int| 0 <= q < cs.len() && p1[#[trigger] cs[q]].target_path == p {
                    let q = choose|q: int|
                        0 <= q < cs.len() && p1[#[trigger] cs[q]].target_path == p;
                    assert(target_paths(p1)[cs[q]] == p);
                }
            }
        }
        // untouched paths kept their files
        assert forall|p: Seq<char>|
            #![trigger m.dom().contains(p)]
            #![trigger fs0.dom().contains(p)]
            fs0.dom().contains(p) && !source_paths(n).contains(p) && !target_paths(n).contains(
                p,
            ) implies m.dom().contains(p) && m[p] == fs0[p] by {
            assert(pass1_rest_ok(fs0, n, p1, n.len() as int, mstart));
            assert(!target_paths(p1).contains(p)) by {
                if target_paths(p1).contains(p) {
                    let w = choose|w: int|
                        0 <= w < target_paths(p1).len() && #[trigger] target_paths(p1)[w] == p;
                    assert(p1[w].target_path == p);
                    if !colliding(n, w) {
                        lemma_target_paths_contains(n, p);
                        assert(n[w].target_path == p);
                    }
                }
            }
            assert(!source_paths(n).take(n.len() as int).contains(p));
            assert(!target_paths(p1).take(n.len() as int).contains(p));
        }
    } else {
        lemma_pass2(fs0, n, p1, p2, k - 1);
        let m = apply_ops(mstart, p2.take(k - 1));
        let op = p2[k - 1];
        let c = cs[k - 1];
        assert(op.source_path == p1[c].target_path);
        assert(op.target_path == n[c].target_path);
        assert(colliding(n, c));
        let temp = p1[c].target_path;
        let tgt = n[c].target_path;
        // the pending detour is present
        assert(m.dom().contains(temp) && m[temp] == fs0[n[c].source_path]) by {
            assert(pass2_pending_ok(fs0, n, p1, cs, k - 1, m));
        }
        // the true target was vacated and nobody else claimed it
        assert(!m.dom().contains(tgt)) by {
            assert(pass2_dom_ok(fs0, n, p1, cs, k - 1, m));
            assert(source_paths(n).contains(tgt));
            if exists|j: int|
                0 <= j < n.len() && !colliding(n, j) && (#[trigger] n[j]).target_path == tgt {
                let j = choose|j: int|
                    0 <= j < n.len() && !colliding(n, j) && (#[trigger] n[j]).target_path == tgt;
                assert(j != c);
            }
            if exists|q: int| 0 <= q < k - 1 && n[#[trigger] cs[q]].target_path == tgt {
                let q = choose|q: int| 0 <= q < k - 1 && n[#[trigger] cs[q]].target_path == tgt;
                assert(cs[q] != c);
            }
            if exists|q: int| k - 1 <= q < cs.len() && p1[#[trigger] cs[q]].target_path == tgt {
                let q = choose|q: int|
                    k - 1 <= q < cs.len() && p1[#[trigger] cs[q]].target_path == tgt;
                lemma_target_paths_contains(n, tgt);
                assert(n[c].target_path == tgt);
            }
        }
        // so the completion runs
        assert(p2.take(k) =~= p2.take(k - 1).push(op));
        lemma_apply_ops_snoc(mstart, p2.take(k - 1), op);
        let m2 = apply_ops(mstart, p2.take(k));
        assert(m2 == rename_step(m, op));
        assert(ops_applicable(mstart, p2.take(k)));
        // detours are never targets, so every other group is untouched
        assert(!target_paths(n).contains(temp));
        assert(temp != tgt) by {
            lemma_target_paths_contains(n, temp);
        }
        assert forall|q: int| 0 <= q < k implies m2.dom().contains(
            n[#[trigger] cs[q]].target_path,
        ) && m2[n[cs[q]].target_path] == fs0[n[cs[q]].source_path] by {
            assert(pass2_done_ok(fs0, n, cs, k - 1, m));
            if q < k - 1 {
                assert(n[cs[q]].target_path != temp) by {
                    lemma_target_paths_contains(n, temp);
                }
                assert(n[cs[q]].target_path != tgt);
                assert(m2[n[cs[q]].target_path] == m[n[cs[q]].target_path]);
            } else {
                assert(m2[tgt] == m[temp]);
            }
        }
        assert forall|q: int| k <= q < cs.len() implies m2.dom().contains(
            p1[#[trigger] cs[q]].target_path,
        ) && m2[p1[cs[q]].target_path] == fs0[n[cs[q]].source_path] by {
            assert(pass2_pending_ok(fs0, n, p1, cs, k - 1, m));
            assert(cs[q] != c);
            assert(p1[cs[q]].target_path != temp);
            assert(p1[cs[q]].target_path != tgt) by {
                lemma_target_paths_contains(n, p1[cs[q]].target_path);
            }
            assert(m2[p1[cs[q]].target_path] == m[p1[cs[q]].target_path]);
        }
        assert forall|j: int| 0 <= j < n.len() && !colliding(n, j) implies m2.dom().contains(
            (#[trigger] n[j]).target_path,
        ) && m2[n[j].target_path] == fs0[n[j].source_path] by {
            assert(pass2_direct_ok(fs0, n, m));
            assert(j != c);
            assert(n[j].target_path != temp) by {
                lemma_target_paths_contains(n, temp);
            }
            assert(n[j].target_path != tgt);
            assert(m2[n[j].target_path] == m[n[j].target_path]);
        }
        // the domain trades the detour for the true target
        assert forall|p: Seq<char>|
            #![trigger m2.dom().contains(p)]
            #![trigger fs0.dom().contains(p)]
            m2.dom().contains(p) <==> {
                ||| (fs0.dom().contains(p) && !source_paths(n).contains(p))
                ||| (exists|j: int|
                    0 <= j < n.len() && !colliding(n, j) && (#[trigger] n[j]).target_path == p)
                ||| (exists|q: int| 0 <= q < k && n[#[trigger] cs[q]].target_path == p)
                ||| (exists|q: int| k <= q < cs.len() && p1[#[trigger] cs[q]].target_path == p)
            } by {
            assert(pass2_dom_ok(fs0, n, p1, cs, k - 1, m));
            if p == temp {
                assert(!m2.dom().contains(p));
                assert(!(fs0.dom().contains(p) && !source_paths(n).contains(p)));
                if exists|j: int|
                    0 <= j < n.len() && !colliding(n, j) && (#[trigger] n[j]).target_path == p {
                    let j = choose|j: int|
                        0 <= j < n.len() && !colliding(n, j) && (#[trigger] n[j]).target_path
                            == p;
                    lemma_target_paths_contains(n, p);
                    assert(n[j].target_path == p);
                }
                if exists|q: int| 0 <= q < k && n[#[trigger] cs[q]].target_path == p {
                    let q = choose|q: int| 0 <= q < k && n[#[trigger] cs[q]].target_path == p;
                    lemma_target_paths_contains(n, p);
                    assert(n[cs[q]].target_path == p);
                }
                if exists|q: int| k <= q < cs.len() && p1[#[trigger] cs[q]].target_path == p {
                    let q = choose|q: int|
                        k <= q < cs.len() && p1[#[trigger] cs[q]].target_path == p;
                    assert(cs[q] != c);
                }
            } else if p == tgt {
                assert(m2.dom().contains(p));
                assert(n[#[trigger] cs[k - 1]].target_path == p);
            } else {
                assert(m2.dom().contains(p) <==> m.dom().contains(p));
                if m.dom().contains(p) {
                    if exists|q: int| 0 <= q < k - 1 && n[#[trigger] cs[q]].target_path == p {
                        let q = choose|q: int|
                            0 <= q < k - 1 && n[#[trigger] cs[q]].target_path == p;
                        assert(0 <= q < k && n[cs[q]].target_path == p);
                    }
                    if exists|q: int| k - 1 <= q < cs.len() && p1[#[trigger] cs[q]].target_path
                        == p {
                        let q = choose|q: int|
                            k - 1 <= q < cs.len() && p1[#[trigger] cs[q]].target_path == p;
                        assert(q != k - 1);
                        assert(k <= q < cs.len() && p1[cs[q]].target_path == p);
                    }
                }
                if m2.dom().contains(p) {
                    if exists|q: int| 0 <= q < k && n[#[trigger] cs[q]].target_path == p {
                        let q = choose|q: int| 0 <= q < k && n[#[trigger] cs[q]].target_path == p;
                        assert(q != k - 1);
                        assert(0 <= q < k - 1 && n[cs[q]].target_path == p);
                    }
                    if exists|q: int| k <= q < cs.len() && p1[#[trigger] cs[q]].target_path == p {
                        let q = choose|q: int|
                            k <= q < cs.len() && p1[#[trigger] cs[q]].target_path == p;
                        assert(k - 1 <= q < cs.len() && p1[cs[q]].target_path == p);
                    }
                }
            }
        }
        // untouched paths still keep their files
        assert forall|p: Seq<char>|
            #![trigger m2.dom().contains(p)]
            #![trigger fs0.dom().contains(p)]
            fs0.dom().contains(p) && !source_paths(n).contains(p) && !target_paths(n).contains(
                p,
            ) implies m2.dom().contains(p) && m2[p] == fs0[p] by {
            assert(pass2_rest_ok(fs0, n, m));
            assert(p != temp);
            assert(p != tgt) by {
                lemma_target_paths_contains(n, tgt);
            }
            assert(m2[p] == m[p]);
        }
    }
}

/// THE TWO-PASS RENAME IS CORRECT. For a batch the resolver admits — no
/// no-ops, distinct sources, distinct targets, every source on disk, every
/// occupied target about to move away — and a plan of the produced shape
/// whose detour names are fresh, the whole plan runs without ever renaming
/// onto an occupied path, and afterwards the file that was at each item's
/// source sits at that item's target: swaps and chains land every file at
/// its declared destination exactly once. No detour path remains, and
/// every path outside the batch keeps its file.
///
/// Freshness of the detour names is an assumption: the resolver draws them
/// at random, and nothing short of probability can say they collide with
/// no existing path.
#[verifier::rlimit(100)]
pub proof fn lemma_two_pass_rename_correct(
    fs: Map<Seq<char>, Seq<char>>,
    n: Seq<ItemV>,
    p1: Seq<ItemV>,
    p2: Seq<ItemV>,
)
    requires
        plan_shape(n, p1, p2),
        valid_batch(n, fs),
        temps_fresh(n, p1, fs),
    ensures
        ops_applicable(fs, p1 + p2),
        forall|j: int|
            0 <= j < n.len() ==> apply_ops(fs, p1 + p2).dom().contains(
                (#[trigger] n[j]).target_path,
            ) && apply_ops(fs, p1 + p2)[n[j].target_path] == fs[n[j].source_path],
        forall|p: Seq<char>|
            #[trigger] apply_ops(fs, p1 + p2).dom().contains(p) <==> ((fs.dom().contains(p)
                && !source_paths(n).contains(p)) || target_paths(n).contains(p)),
        forall|p: Seq<char>|
            fs.dom().contains(p) && !source_paths(n).contains(p) && !target_paths(n).contains(p)
                ==> apply_ops(fs, p1 + p2)[p] == fs[p],
        forall|j: int|
            0 <= j < n.len() && colliding(n, j) ==> !apply_ops(fs, p1 + p2).dom().contains(
                (#[trigger] p1[j]).target_path,
            ),
{
    let cs = colliding_indices(n, n.len() as int);
    lemma_colliding_indices_props(n, n.len() as int);
    lemma_colliding_indices_complete(n, n.len() as int);
    lemma_p1_target_facts(n, p1, p2, fs);
    lemma_pass1(fs, n, p1, p2, n.len() as int);
    lemma_pass2(fs, n, p1, p2, p2.len() as int);
    let mstart = apply_ops(fs, p1);
    let out = apply_ops(mstart, p2);
    assert(p1.take(n.len() as int) =~= p1);
    assert(p2.take(p2.len() as int) =~= p2);
    lemma_apply_ops_concat(fs, p1, p2);
    assert(apply_ops(fs, p1 + p2) == out);
    assert(ops_applicable(fs, p1 + p2));
    // every file reaches its declared target
    assert forall|j: int| 0 <= j < n.len() implies out.dom().contains(
        (#[trigger] n[j]).target_path,
    ) && out[n[j].target_path] == fs[n[j].source_path] by {
        if colliding(n, j) {
            assert(cs.contains(j));
            let q = choose|q: int| 0 <= q < cs.len() && #[trigger] cs[q] == j;
            assert(pass2_done_ok(fs, n, cs, p2.len() as int, out));
            assert(out.dom().contains(n[cs[q]].target_path));
        } else {
            assert(pass2_direct_ok(fs, n, out));
        }
    }
    // the final domain: old paths less the sources, plus the targets
    assert forall|p: Seq<char>| #[trigger] out.dom().contains(p) <==> ((fs.dom().contains(p)
        && !source_paths(n).contains(p)) || target_paths(n).contains(p)) by {
        assert(pass2_dom_ok(fs, n, p1, cs, p2.len() as int, out));
        lemma_target_paths_contains(n, p);
        if out.dom().contains(p) {
            if exists|j: int|
                0 <= j < n.len() && !colliding(n, j) && (#[trigger] n[j]).target_path == p {
                let j = choose|j: int|
                    0 <= j < n.len() && !colliding(n, j) && (#[trigger] n[j]).target_path == p;
                assert(n[j].target_path == p);
            }
            if exists|q: int| 0 <= q < p2.len() && n[#[trigger] cs[q]].target_path == p {
                let q = choose|q: int|
                    0 <= q < p2.len() && n[#[trigger] cs[q]].target_path == p;
                assert(n[cs[q]].target_path == p);
            }
        } else {
            if target_paths(n).contains(p) {
                let j = choose|j: int| 0 <= j < n.len() && (#[trigger] n[j]).target_path == p;
                if colliding(n, j) {
                    assert(cs.contains(j));
                    let q = choose|q: int| 0 <= q < cs.len() && #[trigger] cs[q] == j;
                    assert(0 <= q < p2.len() && n[cs[q]].target_path == p);
                }
            }
        }
    }
    // paths outside the batch are untouched
    assert forall|p: Seq<char>|
        fs.dom().contains(p) && !source_paths(n).contains(p) && !target_paths(n).contains(
            p,
        ) implies out[p] == fs[p] by {
        assert(pass2_rest_ok(fs, n, out));
    }
    // and no detour is left behind
    assert forall|j: int| 0 <= j < n.len() && colliding(n, j) implies !out.dom().contains(
        (#[trigger] p1[j]).target_path,
    ) by {
        let t = p1[j].target_path;
        assert(!(fs.dom().contains(t) && !source_paths(n).contains(t)));
        assert(!target_paths(n).contains(t));
    }
}

/// The run is fully applicable exactly when nothing gets stuck.
pub proof fn lemma_applicable_prefix_full(fs: Map<Seq<char>, Seq<char>>, ops: Seq<ItemV>)
    ensures
        applicable_prefix(fs, ops) == ops.len() <==> ops_applicable(fs, ops),
        0 <= applicable_prefix(fs, ops) <= ops.len(),
    decreases ops.len(),
{
    if ops.len() != 0 {
        lemma_applicable_prefix_full(rename_step(fs, ops[0]), ops.drop_first());
    }
}

/// One file of the modelled file system: where it is and what it is.
pub struct FsFile {
    pub path: String,
    pub id: String,
}

/// An in-memory model of a file system: a list of files at pairwise
/// distinct paths. It stands in for the real file system when a plan's
/// execution is stated, proved and tested.
pub struct FsModel {
    pub files: Vec<FsFile>,
}

/// The map a list of files denotes, later entries inserted last.
pub open spec fn files_map(fs: Seq<FsFile>) -> Map<Seq<char>, Seq<char>>
    decreases fs.len(),
{
    if fs.len() == 0 {
        Map::empty()
    } else {
        files_map(fs.drop_last()).insert(fs.last().path@, fs.last().id@)
    }
}

/// Pairwise distinct paths.
pub open spec fn files_wf(fs: Seq<FsFile>) -> bool {
    forall|i: int, j: int|
        0 <= i < j < fs.len() ==> (#[trigger] fs[i]).path@ != (#[trigger] fs[j]).path@
}

/// What the denoted map holds: exactly the listed paths, and (for distinct
/// paths) each file's own identity.
proof fn lemma_files_map_props(fs: Seq<FsFile>)
    ensures
        forall|p: Seq<char>|
            #[trigger] files_map(fs).dom().contains(p) <==> exists|i: int|
                0 <= i < fs.len() && (#[trigger] fs[i]).path@ == p,
        files_wf(fs) ==> forall|i: int|
            0 <= i < fs.len() ==> files_map(fs)[(#[trigger] fs[i]).path@] == fs[i].id@,
    decreases fs.len(),
{
    if fs.len() != 0 {
        lemma_files_map_props(fs.drop_last());
        assert(forall|i: int| 0 <= i < fs.len() - 1 ==> #[trigger] fs.drop_last()[i] == fs[i]);
        assert forall|p: Seq<char>| #[trigger] files_map(fs).dom().contains(p) implies exists|
            i: int,
        | 0 <= i < fs.len() && (#[trigger] fs[i]).path@ == p by {
            if p == fs.last().path@ {
                assert(fs[fs.len() - 1].path@ == p);
            } else {
                assert(files_map(fs.drop_last()).dom().contains(p));
                let i = choose|i: int|
                    0 <= i < fs.drop_last().len() && (#[trigger] fs.drop_last()[i]).path@ == p;
                assert(fs[i].path@ == p);
            }
        }
        assert forall|p: Seq<char>| (exists|i: int|
            0 <= i < fs.len() && (#[trigger] fs[i]).path@ == p) implies #[trigger] files_map(
            fs,
        ).dom().contains(p) by {
            let i = choose|i: int| 0 <= i < fs.len() && (#[trigger] fs[i]).path@ == p;
            if i < fs.len() - 1 {
                assert(fs.drop_last()[i].path@ == p);
                assert(files_map(fs.drop_last()).dom().contains(p));
            }
        }
        if files_wf(fs) {
            assert(files_wf(fs.drop_last()));
            assert forall|i: int| 0 <= i < fs.len() implies files_map(fs)[(
            #[trigger] fs[i]).path@] == fs[i].id@ by {
                if i < fs.len() - 1 {
                    assert(fs[i].path@ != fs.last().path@);
                    assert(files_map(fs.drop_last())[fs.drop_last()[i].path@]
                        == fs.drop_last()[i].id@);
                }
            }
        }
    }
}

impl FsModel {
    /// Whether the model is well formed: no two files share a path.
    pub open spec fn wf(&self) -> bool {
        files_wf(self.files@)
    }

    /// The map from paths to file identities this model denotes.
    pub open spec fn as_map(&self) -> Map<Seq<char>, Seq<char>> {
        files_map(self.files@)
    }

    /// An empty file system.
    pub fn new() -> (r: FsModel)
        ensures
            r.wf(),
            r.as_map() == Map::<Seq<char>, Seq<char>>::empty(),
    {
        FsModel { files: Vec::new() }
    }

    /// Puts a file at a path that is not yet taken.
    pub fn create(&mut self, path: &String, id: &String)
        requires
            old(self).wf(),
            !old(self).as_map().dom().contains(path@),
        ensures
            final(self).wf(),
            final(self).as_map() == old(self).as_map().insert(path@, id@),
    {
        proof {
            lemma_files_map_props(self.files@);
        }
        self.files.push(FsFile { path: path.clone(), id: id.clone() });
        proof {
            assert(self.files@.drop_last() =~= old(self).files@);
            assert forall|i: int, j: int| 0 <= i < j < self.files@.len() implies (
            #[trigger] self.files@[i]).path@ != (#[trigger] self.files@[j]).path@ by {
                if j == self.files@.len() - 1 {
                    assert(old(self).files@[i].path@ == self.files@[i].path@);
                    assert(old(self).as_map().dom().contains(old(self).files@[i].path@));
                }
            }
        }
    }

    /// The identity of the file at a path, if one is there.
    #[verifier::loop_isolation(false)]
    pub fn lookup(&self, path: &String) -> (r: Option<String>)
        requires
            self.wf(),
        ensures
            match r {
                Some(id) => self.as_map().dom().contains(path@) && self.as_map()[path@] == id@,
                None => !self.as_map().dom().contains(path@),
            },
    {
        proof {
            lemma_files_map_props(self.files@);
        }
        let mut i: usize = 0;
        while i < self.files.len()
            invariant
                i <= self.files@.len(),
                forall|j: int| 0 <= j < i ==> (#[trigger] self.files@[j]).path@ != path@,
            decreases self.files@.len() - i,
        {
            if self.files[i].path.eq(path) {
                return Some(self.files[i].id.clone());
            }
            i = i + 1;
        }
        None
    }

    /// The index of the file at a path, if one is there.
    fn find_path(&self, path: &String) -> (r: Option<usize>)
        ensures
            match r {
                Some(i) => i < self.files@.len() && self.files@[i as int].path@ == path@,
                None => forall|j: int|
                    0 <= j < self.files@.len() ==> (#[trigger] self.files@[j]).path@ != path@,
            },
    {
        let mut i: usize = 0;
        while i < self.files.len()
            invariant
                i <= self.files@.len(),
                forall|j: int| 0 <= j < i ==> (#[trigger] self.files@[j]).path@ != path@,
            decreases self.files@.len() - i,
        {
            if self.files[i].path.eq(path) {
                return Some(i);
            }
            i = i + 1;
        }
        None
    }

    /// Performs one rename when the source is present and the target free;
    /// reports whether it ran, changing nothing otherwise.
    fn apply_op(&mut self, op: &Item) -> (r: bool)
        requires
            old(self).wf(),
        ensures
            final(self).wf(),
            r == (old(self).as_map().dom().contains(op@.source_path) && !old(
                self,
            ).as_map().dom().contains(op@.target_path)),
            r ==> final(self).as_map() == rename_step(old(self).as_map(), op@),
            !r ==> *final(self) == *old(self),
    {
        proof {
            lemma_files_map_props(self.files@);
        }
        let src = self.find_path(&op.source_path);
        let tgt = self.find_path(&op.target_path);
        match (src, tgt) {
            (Some(i), None) => {
                let moved = self.files.remove(i);
                self.files.push(FsFile { path: op.target_path.clone(), id: moved.id });
                proof {
                    let ns = self.files@;
                    let os = old(self).files@;
                    assert(forall|j: int|
                        0 <= j < i ==> #[trigger] os.remove(i as int)[j] == os[j]);
                    assert(forall|j: int|
                        i <= j < os.len() - 1 ==> #[trigger] os.remove(i as int)[j] == os[j + 1]);
                    assert(forall|j: int| 0 <= j < ns.len() - 1 ==> #[trigger] ns[j] == os.remove(
                        i as int,
                    )[j]);
                    assert forall|a: int, b: int| 0 <= a < b < ns.len() implies (
                    #[trigger] ns[a]).path@ != (#[trigger] ns[b]).path@ by {
                        if b == ns.len() - 1 {
                            if a < i {
                                assert(ns[a].path@ == os[a].path@);
                            } else {
                                assert(ns[a].path@ == os[a + 1].path@);
                            }
                        }
                    }
                    lemma_files_map_props(ns);
                    let m0 = old(self).as_map();
                    let m1 = rename_step(m0, op@);
                    assert forall|p: Seq<char>| #[trigger] files_map(ns).dom().contains(p)
                        <==> m1.dom().contains(p) by {
                        if p == op@.target_path {
                            assert(ns[ns.len() - 1].path@ == p);
                        } else if p == op@.source_path {
                            if files_map(ns).dom().contains(p) {
                                let w = choose|w: int|
                                    0 <= w < ns.len() && (#[trigger] ns[w]).path@ == p;
                                if w < ns.len() - 1 {
                                    if w < i {
                                        assert(os[w].path@ == p && os[i as int].path@ == p);
                                    } else {
                                        assert(os[w + 1].path@ == p && os[i as int].path@ == p);
                                    }
                                }
                            }
                        } else {
                            if files_map(ns).dom().contains(p) {
                                let w = choose|w: int|
                                    0 <= w < ns.len() && (#[trigger] ns[w]).path@ == p;
                                if w < i {
                                    assert(os[w].path@ == p);
                                } else if w < ns.len() - 1 {
                                    assert(os[w + 1].path@ == p);
                                }
                            }
                            if m1.dom().contains(p) {
                                let w = choose|w: int|
                                    0 <= w < os.len() && (#[trigger] os[w]).path@ == p;
                                if w < i {
                                    assert(ns[w].path@ == p);
                                } else {
                                    assert(w != i);
                                    assert(ns[w - 1].path@ == p);
                                }
                            }
                        }
                    }
                    assert forall|p: Seq<char>| #[trigger] files_map(ns).dom().contains(p)
                        implies files_map(ns)[p] == m1[p] by {
                        let w = choose|w: int| 0 <= w < ns.len() && (#[trigger] ns[w]).path@ == p;
                        assert(files_map(ns)[ns[w].path@] == ns[w].id@);
                        if w == ns.len() - 1 {
                            assert(files_map(os)[os[i as int].path@] == os[i as int].id@);
                        } else if w < i {
                            assert(ns[w] == os[w]);
                            assert(files_map(os)[os[w].path@] == os[w].id@);
                        } else {
                            assert(ns[w] == os[w + 1]);
                            assert(files_map(os)[os[w + 1].path@] == os[w + 1].id@);
                        }
                    }
                    assert(files_map(ns) =~= m1);
                }
                true
            },
            _ => {
                proof {
                    if src is None {
                        if old(self).as_map().dom().contains(op@.source_path) {
                            let w = choose|w: int|
                                0 <= w < old(self).files@.len() && (#[trigger] old(
                                    self,
                                ).files@[w]).path@ == op@.source_path;
                        }
                    } else {
                        assert(old(self).files@[src->Some_0 as int].path@ == op@.source_path);
                        if tgt is Some {
                            assert(old(self).files@[tgt->Some_0 as int].path@ == op@.target_path);
                        }
                    }
                }
                false
            },
        }
    }
}

impl FsModel {
    /// Executes a plan against the model: the first pass, then the second,
    /// in list order. Stops at the first rename that cannot run, reporting
    /// how many were already applied; renames already done stay done.
    #[verifier::loop_isolation(false)]
    pub fn apply_plan(&mut self, plan: &RenamePlan) -> (r: Result<usize, Error>)
        requires
            old(self).wf(),
            plan.pass_1_items@.len() + plan.pass_2_items@.len() <= usize::MAX,
        ensures
            final(self).wf(),
            ({
                let ops = item_views(plan.pass_1_items@) + item_views(plan.pass_2_items@);
                let fs0 = old(self).as_map();
                &&& final(self).as_map() == apply_ops(
                    fs0,
                    ops.take(applicable_prefix(fs0, ops)),
                )
                &&& match r {
                    Ok(count) => count == ops.len() && ops_applicable(fs0, ops),
                    Err(e) => {
                        &&& e matches Error::PartiallyApplied { count, .. }
                        &&& e->PartiallyApplied_count == applicable_prefix(fs0, ops)
                        &&& !ops_applicable(fs0, ops)
                    },
                }
            }),
    {
        let ghost ops = item_views(plan.pass_1_items@) + item_views(plan.pass_2_items@);
        let ghost fs0 = old(self).as_map();
        proof {
            lemma_applicable_prefix_full(fs0, ops);
            assert(ops.take(0) =~= Seq::<ItemV>::empty());
            assert(ops.skip(0) =~= ops);
        }
        let mut count: usize = 0;
        let p1_len = plan.pass_1_items.len();
        let p2_len = plan.pass_2_items.len();
        let mut i: usize = 0;
        while i < p1_len
            invariant
                count == i,
                i <= p1_len,
                self.wf(),
                self.as_map() == apply_ops(fs0, ops.take(count as int)),
                applicable_prefix(fs0, ops) == count + applicable_prefix(
                    self.as_map(),
                    ops.skip(count as int),
                ),
            decreases p1_len - i,
        {
            let ghost m = self.as_map();
            let op = &plan.pass_1_items[i];
            proof {
                assert(ops[count as int] == op@);
                assert(ops.skip(count as int)[0] == ops[count as int]);
                assert(ops.skip(count as int).drop_first() =~= ops.skip(count + 1));
                assert(ops.take(count + 1) =~= ops.take(count as int).push(op@));
                lemma_apply_ops_snoc(fs0, ops.take(count as int), op@);
            }
            if !self.apply_op(op) {
                return Err(
                    Error::PartiallyApplied {
                        count,
                        message: String::from_str("a rename found its source gone or its target occupied"),
                    },
                );
            }
            count = count + 1;
            i = i + 1;
        }
        let mut k: usize = 0;
        while k < p2_len
            invariant
                count == p1_len + k,
                k <= p2_len,
                self.wf(),
                self.as_map() == apply_ops(fs0, ops.take(count as int)),
                applicable_prefix(fs0, ops) == count + applicable_prefix(
                    self.as_map(),
                    ops.skip(count as int),
                ),
            decreases p2_len - k,
        {
            let ghost m = self.as_map();
            let op = &plan.pass_2_items[k];
            proof {
                assert(ops[count as int] == op@);
                assert(ops.skip(count as int)[0] == ops[count as int]);
                assert(ops.skip(count as int).drop_first() =~= ops.skip(count + 1));
                assert(ops.take(count + 1) =~= ops.take(count as int).push(op@));
                lemma_apply_ops_snoc(fs0, ops.take(count as int), op@);
            }
            if !self.apply_op(op) {
                return Err(
                    Error::PartiallyApplied {
                        count,
                        message: String::from_str("a rename found its source gone or its target occupied"),
                    },
                );
            }
            count = count + 1;
            k = k + 1;
        }
        proof {
            assert(ops.skip(count as int) =~= Seq::<ItemV>::empty());
            assert(applicable_prefix(fs0, ops) == count);
            assert(ops.take(count as int) =~= ops);
        }
        Ok(count)
    }
}

/// No path list admitted by the duplicate check repeats a path.
pub proof fn lemma_first_dup_none(ps: Seq<Seq<char>>, i: int)
    requires
        first_dup(ps, i) is None,
        0 <= i <= ps.len(),
    ensures
        forall|j1: int, j2: int| 0 <= j1 < j2 < ps.len() && i <= j2 ==> ps[j1] != ps[j2],
    decreases ps.len() - i,
{
    if i < ps.len() {
        lemma_first_dup_none(ps, i + 1);
        assert forall|j1: int, j2: int|
            0 <= j1 < j2 < ps.len() && i <= j2 implies ps[j1] != ps[j2] by {
            if j2 == i && ps[j1] == ps[j2] {
                assert(ps.take(i)[j1] == ps[i]);
            }
        }
    }
}

/// Every item a feasible batch renames has its source on disk and its
/// occupied target about to move away (exact-path comparison).
pub proof fn lemma_first_infeasible_none(n: Seq<ItemV>, existing: Seq<Seq<char>>, i: int)
    requires
        first_infeasible(n, existing, false, i) is None,
        0 <= i <= n.len(),
    ensures
        forall|j: int| i <= j < n.len() ==> existing.contains((#[trigger] n[j]).source_path),
        forall|j: int|
            i <= j < n.len() && existing.contains((#[trigger] n[j]).target_path)
                ==> source_paths(n).contains(n[j].target_path),
    decreases n.len() - i,
{
    if i < n.len() {
        lemma_first_infeasible_none(n, existing, i + 1);
    }
}

/// The normalized batch holds no no-op: every kept item moves.
pub proof fn lemma_norm_no_noops(s: Seq<ItemV>)
    ensures
        forall|i: int|
            0 <= i < crate::resolver::norm(s).len() ==> (#[trigger] crate::resolver::norm(
                s,
            )[i]).source_path != crate::resolver::norm(s)[i].target_path,
    decreases s.len(),
{
    if s.len() != 0 {
        lemma_norm_no_noops(s.drop_last());
    }
}

/// A batch that the resolver's verdict admits is valid against any file
/// system whose contents are exactly the paths reported as existing.
/// (The verdict with the case-insensitive carve-out switched off: the
/// carve-out concerns file systems this exact-path model does not cover.)
pub proof fn lemma_good_verdict_gives_valid_batch(
    s: Seq<ItemV>,
    existing: Seq<Seq<char>>,
    fs: Map<Seq<char>, Seq<char>>,
)
    requires
        crate::resolver::validate(crate::resolver::norm(s), existing, false)
            == crate::resolver::Verdict::Good,
        forall|p: Seq<char>| #[trigger] fs.dom().contains(p) <==> existing.contains(p),
    ensures
        valid_batch(crate::resolver::norm(s), fs),
{
    let n = crate::resolver::norm(s);
    lemma_norm_no_noops(s);
    lemma_first_dup_none(source_paths(n), 0);
    lemma_first_dup_none(target_paths(n), 0);
    lemma_first_infeasible_none(n, existing, 0);
    assert forall|i: int, j: int| 0 <= i < j < n.len() implies (#[trigger] n[i]).source_path != (
    #[trigger] n[j]).source_path by {
        assert(source_paths(n)[i] == n[i].source_path);
        assert(source_paths(n)[j] == n[j].source_path);
    }
    assert forall|i: int, j: int| 0 <= i < j < n.len() implies (#[trigger] n[i]).target_path != (
    #[trigger] n[j]).target_path by {
        assert(target_paths(n)[i] == n[i].target_path);
        assert(target_paths(n)[j] == n[j].target_path);
    }
}

/// NO-OPS TAKE NO PART. An item that is already where it should be is
/// dropped before validation, so no operation of either pass renames it,
/// and the count of renames — the length of the two passes together —
/// counts only items that move. Moreover no operation of a plan is itself
/// a no-op.
pub proof fn lemma_noop_items_take_no_part(
    n: Seq<ItemV>,
    p1: Seq<ItemV>,
    p2: Seq<ItemV>,
    fs: Map<Seq<char>, Seq<char>>,
)
    requires
        plan_shape(n, p1, p2),
        valid_batch(n, fs),
        temps_fresh(n, p1, fs),
    ensures
        forall|i: int|
            0 <= i < p1.len() ==> (#[trigger] p1[i]).source_path != p1[i].target_path,
        forall|k: int|
            0 <= k < p2.len() ==> (#[trigger] p2[k]).source_path != p2[k].target_path,
{
    lemma_colliding_indices_props(n, n.len() as int);
    assert forall|i: int| 0 <= i < p1.len() implies (#[trigger] p1[i]).source_path != p1[
        i
    ].target_path by {
        if colliding(n, i) {
            assert(source_paths(n)[i] == n[i].source_path);
        }
    }
    let cs = colliding_indices(n, n.len() as int);
    assert forall|k: int| 0 <= k < p2.len() implies (#[trigger] p2[k]).source_path != p2[
        k
    ].target_path by {
        let c = cs[k];
        lemma_target_paths_contains(n, p1[c].target_path);
        assert(n[c].target_path == p2[k].target_path);
    }
}

/// THE RESOLVER'S PLAN IS SOUND. A batch that the resolver's validation
/// admits outright (the exact-path verdict, with the case carve-out off),
/// planned into the two-pass shape with fresh detour names, executes fully
/// on any file system that agrees with the validated existence facts, and
/// lands the file from each item's source at that item's target.
pub proof fn lemma_resolved_plan_executes(
    s: Seq<ItemV>,
    existing: Seq<Seq<char>>,
    fs: Map<Seq<char>, Seq<char>>,
    p1: Seq<ItemV>,
    p2: Seq<ItemV>,
)
    requires
        crate::resolver::validate(crate::resolver::norm(s), existing, false)
            == crate::resolver::Verdict::Good,
        forall|p: Seq<char>| #[trigger] fs.dom().contains(p) <==> existing.contains(p),
        plan_shape(crate::resolver::norm(s), p1, p2),
        temps_fresh(crate::resolver::norm(s), p1, fs),
    ensures
        ops_applicable(fs, p1 + p2),
        forall|j: int|
            0 <= j < crate::resolver::norm(s).len() ==> apply_ops(fs, p1 + p2)[(
            #[trigger] crate::resolver::norm(s)[j]).target_path] == fs[crate::resolver::norm(
                s,
            )[j].source_path],
{
    lemma_good_verdict_gives_valid_batch(s, existing, fs);
    lemma_two_pass_rename_correct(fs, crate::resolver::norm(s), p1, p2);
}

} // verus!
