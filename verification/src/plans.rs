use vstd::prelude::*;

use crate::nesting::{lemma_rooted_mono, walk_ends};
use crate::listing::{acyclic, group_ids, same_group, sibling_ids, siblings, Listing};
use crate::outline::{
    all_rooted, depth_in, depth_of, rooted_from,
    ancestor_indices, ancestors_of, as_ints, bounded_below, children_of, child_indices,
    depth_of_id, depth_spec, descendant_indices, descendants_of, find, find_index,
    lemma_find_index, rooted, rooted_id, subtree_height, subtree_height_of, MAX_DEPTH,
    parent_index, rooted_within,
};
use crate::reorder::{
    lemma_rotate_shape, find_position, lemma_position, lemma_without_len, occurrences, position, rotate, rotate_defined,
    rotated, target_index, without,
};
use crate::todo::Todo;

verus! {

/// What indenting the highlighted item comes to.
pub enum IndentPlan {
    /// Nothing is highlighted.
    NoSelection,
    /// The item is first among its siblings: there is nothing above to nest under.
    NoSiblingAbove,
    /// Nesting it would push some item of its subtree below the deepest level.
    TooDeep,
    /// Make `id` the last child of `parent`; reopen the parent when `id` is still open.
    Indent { id: i64, parent: i64, reopen_parent: bool },
}

/// What outdenting the highlighted item comes to.
pub enum OutdentPlan {
    NoSelection,
    /// The item already sits at the top level.
    AlreadyTop,
    /// Move `id` under `parent` (`None`: top level) and give that level the order `order`.
    Outdent { id: i64, parent: Option<i64>, order: Vec<i64> },
}

/// The completion changes of toggling the item at `i`: the item and all its descendants
/// take the new state, and unchecking reopens every ancestor.
pub open spec fn toggle_updates(s: Seq<Todo>, i: int) -> Seq<(i64, bool)> {
    let t = s[i];
    let new = !t.done;
    let below = descendants_of(s, t.id).map_values(|k: int| (s[k].id, new));
    let above = if new {
        Seq::<(i64, bool)>::empty()
    } else {
        match find_index(s, t.id) {
            Some(f) => ancestors_of(s, f).map_values(|k: int| (s[k].id, false)),
            None => Seq::<(i64, bool)>::empty(),
        }
    };
    seq![(t.id, new)] + below + above
}

/// The completion state of `t` once the updates `ups` are applied in order: the value of
/// the last update naming its id, or its current state when none does.
pub open spec fn done_after(ups: Seq<(i64, bool)>, t: Todo) -> bool
    decreases ups.len(),
{
    if ups.len() == 0 {
        t.done
    } else if ups.last().0 == t.id {
        ups.last().1
    } else {
        done_after(ups.drop_last(), t)
    }
}

proof fn lemma_done_after_uniform(ups: Seq<(i64, bool)>, t: Todo, v: bool)
    requires
        forall|k: int| 0 <= k < ups.len() ==> (#[trigger] ups[k]).1 == v,
    ensures
        (exists|k: int| 0 <= k < ups.len() && (#[trigger] ups[k]).0 == t.id) ==> done_after(ups, t) == v,
        (forall|k: int| 0 <= k < ups.len() ==> (#[trigger] ups[k]).0 != t.id) ==> done_after(ups, t) == t.done,
    decreases ups.len(),
{
    if ups.len() > 0 {
        let rest = ups.drop_last();
        assert forall|k: int| 0 <= k < rest.len() implies (#[trigger] rest[k]).1 == v by {
            assert(rest[k] == ups[k]);
        }
        lemma_done_after_uniform(rest, t, v);
        if ups.last().0 != t.id {
            if exists|k: int| 0 <= k < ups.len() && (#[trigger] ups[k]).0 == t.id {
                let k = choose|k: int| 0 <= k < ups.len() && (#[trigger] ups[k]).0 == t.id;
                assert(rest[k] == ups[k]);
            }
            if forall|k: int| 0 <= k < ups.len() ==> (#[trigger] ups[k]).0 != t.id {
                assert forall|k: int| 0 <= k < rest.len() implies (#[trigger] rest[k]).0 != t.id by {
                    assert(rest[k] == ups[k]);
                }
            }
        }
    }
}

/// Toggling an item gives it and every one of its descendants the opposite of its state;
/// unchecking also reopens every ancestor; any other item keeps its state.
pub proof fn lemma_toggle_effect(s: Seq<Todo>, i: int)
    requires
        0 <= i < s.len(),
    ensures
        done_after(toggle_updates(s, i), s[i]) == !s[i].done,
        forall|m: int|
            0 <= m < descendants_of(s, s[i].id).len() ==> done_after(
                toggle_updates(s, i),
                s[#[trigger] descendants_of(s, s[i].id)[m]],
            ) == !s[i].done,
        s[i].done ==> (find_index(s, s[i].id) matches Some(f) ==> forall|m: int|
            0 <= m < ancestors_of(s, f).len() ==> !done_after(
                toggle_updates(s, i),
                s[#[trigger] ancestors_of(s, f)[m]],
            )),
        forall|t: Todo|
            t.id != s[i].id && !(exists|m: int|
                0 <= m < descendants_of(s, s[i].id).len() && s[#[trigger] descendants_of(
                    s,
                    s[i].id,
                )[m]].id == t.id) && (!s[i].done || find_index(s, s[i].id) is None || !(exists|m: int|
                0 <= m < ancestors_of(s, find_index(s, s[i].id)->0).len() && s[#[trigger] ancestors_of(
                    s,
                    find_index(s, s[i].id)->0,
                )[m]].id == t.id)) ==> #[trigger] done_after(toggle_updates(s, i), t) == t.done,
{
    let t = s[i];
    let new = !t.done;
    let ups = toggle_updates(s, i);
    let d = descendants_of(s, t.id);
    let below = d.map_values(|k: int| (s[k].id, new));
    let above = if new {
        Seq::<(i64, bool)>::empty()
    } else {
        match find_index(s, t.id) {
            Some(f) => ancestors_of(s, f).map_values(|k: int| (s[k].id, false)),
            None => Seq::<(i64, bool)>::empty(),
        }
    };
    assert(ups == seq![(t.id, new)] + below + above);
    assert forall|k: int| 0 <= k < ups.len() implies (#[trigger] ups[k]).1 == new by {
        if k == 0 {
        } else if k < 1 + below.len() {
            assert(ups[k] == below[k - 1]);
        } else {
            assert(ups[k] == above[k - 1 - below.len()]);
        }
    }
    assert(ups[0].0 == t.id);
    lemma_done_after_uniform(ups, t, new);
    assert forall|m: int| 0 <= m < d.len() implies done_after(ups, s[#[trigger] d[m]]) == new by {
        assert(ups[1 + m] == below[m]);
        lemma_done_after_uniform(ups, s[d[m]], new);
    }
    if !new {
        if let Some(f) = find_index(s, t.id) {
            let a = ancestors_of(s, f);
            assert forall|m: int| 0 <= m < a.len() implies !done_after(ups, s[#[trigger] a[m]]) by {
                assert(ups[1 + below.len() + m] == above[m]);
                lemma_done_after_uniform(ups, s[a[m]], new);
            }
        }
    }
    assert forall|u: Todo|
        u.id != t.id && !(exists|m: int| 0 <= m < d.len() && s[#[trigger] d[m]].id == u.id) && (
        new || find_index(s, t.id) is None || !(exists|m: int|
            0 <= m < ancestors_of(s, find_index(s, t.id)->0).len() && s[#[trigger] ancestors_of(
                s,
                find_index(s, t.id)->0,
            )[m]].id == u.id)) implies #[trigger] done_after(ups, u) == u.done by {
        assert forall|k: int| 0 <= k < ups.len() implies (#[trigger] ups[k]).0 != u.id by {
            if k == 0 {
            } else if k < 1 + below.len() {
                assert(ups[k] == below[k - 1]);
                assert(below[k - 1].0 == s[d[k - 1]].id);
            } else {
                assert(ups[k] == above[k - 1 - below.len()]);
                if !new {
                    if let Some(f) = find_index(s, t.id) {
                        let a = ancestors_of(s, f);
                        assert(above[k - 1 - below.len()].0 == s[a[k - 1 - below.len()]].id);
                    }
                }
            }
        }
        lemma_done_after_uniform(ups, u, new);
    }
}

/// The order the highlighted item's group takes after moving it `delta` places.
pub open spec fn reorder_spec(s: Seq<Todo>, i: int, delta: int) -> Option<Seq<i64>> {
    rotated(group_ids(s, s[i].parent_id, s[i].done, s.len() as int), s[i].id, delta)
}

/// Nesting `id` keeps its deepest descendant above the depth limit.
pub open spec fn fits_depth(s: Seq<Todo>, id: i64) -> bool {
    depth_spec(s, id) + subtree_height_of(s, id) <= MAX_DEPTH - 1
}

/// The indent decision for the item at `i`.
pub open spec fn indent_spec(s: Seq<Todo>, i: int) -> IndentPlan {
    let t = s[i];
    let sib = sibling_ids(s, t.parent_id, s.len() as int);
    let idx = position(sib, t.id)->0;
    if idx == 0 {
        IndentPlan::NoSiblingAbove
    } else if !fits_depth(s, t.id) {
        IndentPlan::TooDeep
    } else {
        IndentPlan::Indent { id: t.id, parent: sib[idx - 1], reopen_parent: !t.done }
    }
}

/// Where a new subtask of the item at `i` goes: under it while it sits above the deepest
/// level, otherwise under its parent.
pub open spec fn subtask_parent_spec(s: Seq<Todo>, i: int) -> i64 {
    if depth_spec(s, s[i].id) < MAX_DEPTH - 1 {
        s[i].id
    } else {
        match s[i].parent_id {
            Some(p) => p,
            None => s[i].id,
        }
    }
}

/// Parent of the item with id `pid`, looked up by id.
pub open spec fn grandparent(s: Seq<Todo>, pid: i64) -> Option<i64> {
    match find_index(s, pid) {
        Some(j) => s[j].parent_id,
        None => None,
    }
}

/// The order of the level above after moving the item at `i` (child of `pid`) up:
/// it lands right after its former parent.
pub open spec fn outdent_order(s: Seq<Todo>, i: int, pid: i64) -> Seq<i64> {
    let order = sibling_ids(s, grandparent(s, pid), s.len() as int);
    order.insert(position(order, pid)->0 + 1, s[i].id)
}

/// The former parent of the item at `i` is found among the items one level up, which
/// is where the item lands.
pub open spec fn outdent_defined(s: Seq<Todo>, i: int) -> bool {
    s[i].parent_id matches Some(pid) ==> position(
        sibling_ids(s, grandparent(s, pid), s.len() as int),
        pid,
    ) is Some
}

pub proof fn lemma_sibling_ids(s: Seq<Todo>, parent: Option<i64>, k: int)
    requires
        0 <= k <= s.len(),
    ensures
        forall|i: int|
            0 <= i < k && s[i].parent_id == parent ==> sibling_ids(s, parent, k).contains(s[i].id),
    decreases k,
{
    if k > 0 {
        lemma_sibling_ids(s, parent, k - 1);
        let prev = sibling_ids(s, parent, k - 1);
        if s[k - 1].parent_id == parent {
            assert forall|i: int|
                0 <= i < k && s[i].parent_id == parent implies sibling_ids(s, parent, k).contains(
                s[i].id,
            ) by {
                if i == k - 1 {
                    assert(prev.push(s[i].id)[prev.len() as int] == s[i].id);
                } else {
                    assert(prev.contains(s[i].id));
                    let m = choose|m: int| 0 <= m < prev.len() && prev[m] == s[i].id;
                    assert(prev.push(s[k - 1].id)[m] == s[i].id);
                }
            }
        }
    }
}

/// The ids among the first `k` items with this parent and completion state are exactly
/// the ids of such items.
proof fn lemma_group_members(s: Seq<Todo>, parent: Option<i64>, done: bool, k: int)
    requires
        0 <= k <= s.len(),
    ensures
        forall|x: i64|
            group_ids(s, parent, done, k).contains(x) <==> exists|j: int|
                0 <= j < k && #[trigger] s[j].id == x && s[j].parent_id == parent && s[j].done == done,
    decreases k,
{
    if k > 0 {
        lemma_group_members(s, parent, done, k - 1);
        let prev = group_ids(s, parent, done, k - 1);
        let cur = group_ids(s, parent, done, k);
        assert forall|x: i64|
            cur.contains(x) <==> exists|j: int|
                0 <= j < k && #[trigger] s[j].id == x && s[j].parent_id == parent && s[j].done == done by {
            if s[k - 1].parent_id == parent && s[k - 1].done == done {
                assert(cur == prev.push(s[k - 1].id));
                if cur.contains(x) {
                    let m = choose|m: int| 0 <= m < cur.len() && cur[m] == x;
                    if m < prev.len() {
                        assert(prev[m] == x);
                        assert(prev.contains(x));
                    } else {
                        assert(s[k - 1].id == x);
                    }
                }
                if exists|j: int|
                    0 <= j < k && #[trigger] s[j].id == x && s[j].parent_id == parent && s[j].done == done {
                    let j = choose|j: int|
                        0 <= j < k && #[trigger] s[j].id == x && s[j].parent_id == parent && s[j].done == done;
                    if j == k - 1 {
                        assert(cur[prev.len() as int] == x);
                    } else {
                        assert(prev.contains(x));
                        let m = choose|m: int| 0 <= m < prev.len() && prev[m] == x;
                        assert(cur[m] == x);
                    }
                }
            } else {
                assert(cur == prev);
                if exists|j: int|
                    0 <= j < k && #[trigger] s[j].id == x && s[j].parent_id == parent && s[j].done == done {
                    let j = choose|j: int|
                        0 <= j < k && #[trigger] s[j].id == x && s[j].parent_id == parent && s[j].done == done;
                    assert(j != k - 1);
                }
            }
        }
    }
}

/// The ids among the first `k` items with this parent are exactly the ids of such items.
proof fn lemma_sibling_members(s: Seq<Todo>, parent: Option<i64>, k: int)
    requires
        0 <= k <= s.len(),
    ensures
        forall|x: i64|
            sibling_ids(s, parent, k).contains(x) <==> exists|j: int|
                0 <= j < k && #[trigger] s[j].id == x && s[j].parent_id == parent,
    decreases k,
{
    if k > 0 {
        lemma_sibling_members(s, parent, k - 1);
        let prev = sibling_ids(s, parent, k - 1);
        let cur = sibling_ids(s, parent, k);
        assert forall|x: i64|
            cur.contains(x) <==> exists|j: int| 0 <= j < k && #[trigger] s[j].id == x && s[j].parent_id == parent by {
            if s[k - 1].parent_id == parent {
                assert(cur == prev.push(s[k - 1].id));
                if cur.contains(x) {
                    let m = choose|m: int| 0 <= m < cur.len() && cur[m] == x;
                    if m < prev.len() {
                        assert(prev[m] == x);
                        assert(prev.contains(x));
                    } else {
                        assert(s[k - 1].id == x);
                    }
                }
                if exists|j: int| 0 <= j < k && #[trigger] s[j].id == x && s[j].parent_id == parent {
                    let j = choose|j: int| 0 <= j < k && #[trigger] s[j].id == x && s[j].parent_id == parent;
                    if j == k - 1 {
                        assert(cur[prev.len() as int] == x);
                    } else {
                        assert(prev.contains(x));
                        let m = choose|m: int| 0 <= m < prev.len() && prev[m] == x;
                        assert(cur[m] == x);
                    }
                }
            } else {
                assert(cur == prev);
                if exists|j: int| 0 <= j < k && #[trigger] s[j].id == x && s[j].parent_id == parent {
                    let j = choose|j: int| 0 <= j < k && #[trigger] s[j].id == x && s[j].parent_id == parent;
                    assert(j != k - 1);
                }
            }
        }
    }
}

/// `without(o, id)` holds exactly the entries of `o` other than `id`.
proof fn lemma_without_members(o: Seq<i64>, id: i64)
    ensures
        forall|x: i64| without(o, id).contains(x) <==> (o.contains(x) && x != id),
    decreases o.len(),
{
    if o.len() > 0 {
        let pre = o.drop_last();
        lemma_without_members(pre, id);
        let w = without(o, id);
        let wp = without(pre, id);
        assert forall|x: i64| w.contains(x) <==> (o.contains(x) && x != id) by {
            if w.contains(x) {
                let m = choose|m: int| 0 <= m < w.len() && w[m] == x;
                if o.last() == id {
                    assert(wp.contains(x));
                    assert(pre.contains(x));
                    let q = choose|q: int| 0 <= q < pre.len() && pre[q] == x;
                    assert(pre[q] == o[q]);
                    assert(o[q] == x);
                } else if m < wp.len() {
                    assert(w[m] == wp[m]);
                    assert(wp.contains(x));
                    assert(pre.contains(x));
                    let q = choose|q: int| 0 <= q < pre.len() && pre[q] == x;
                    assert(pre[q] == o[q]);
                    assert(o[q] == x);
                } else {
                    assert(x == o.last());
                    assert(o[o.len() - 1] == x);
                }
            }
            if o.contains(x) && x != id {
                let q = choose|q: int| 0 <= q < o.len() && o[q] == x;
                if q < o.len() - 1 {
                    assert(pre[q] == x);
                    assert(pre.contains(x));
                    assert(wp.contains(x));
                    let m = choose|m: int| 0 <= m < wp.len() && wp[m] == x;
                    if o.last() == id {
                        assert(w[m] == x);
                    } else {
                        assert(w[m] == x);
                    }
                } else {
                    assert(o.last() == x);
                    assert(w[wp.len() as int] == x);
                }
            }
        }
    }
}

/// Moving the highlighted item reorders exactly its group: the ids of the items with the
/// same parent and the same completion state. No item of the other completion state, and
/// none with another parent, appears in the new order, and none of the group is left out.
pub proof fn lemma_reorder_keeps_to_group(s: Seq<Todo>, i: int, delta: int)
    requires
        0 <= i < s.len(),
        rotate_defined(group_ids(s, s[i].parent_id, s[i].done, s.len() as int), s[i].id, delta),
    ensures
        reorder_spec(s, i, delta) matches Some(o) ==> forall|x: i64|
            o.contains(x) <==> exists|j: int|
                0 <= j < s.len() && #[trigger] s[j].id == x && s[j].parent_id == s[i].parent_id
                    && s[j].done == s[i].done,
{
    let g = group_ids(s, s[i].parent_id, s[i].done, s.len() as int);
    lemma_group_members(s, s[i].parent_id, s[i].done, s.len() as int);
    if let Some(o) = reorder_spec(s, i, delta) {
        let id = s[i].id;
        assert(g.contains(id));
        lemma_position(g, id);
        lemma_without_members(g, id);
        lemma_without_len(g, id);
        let w = without(g, id);
        let t = target_index(g, id, delta);
        assert(0 <= t <= w.len());
        assert(o == w.insert(t, id));
        assert forall|x: i64| o.contains(x) <==> g.contains(x) by {
            if o.contains(x) {
                let m = choose|m: int| 0 <= m < o.len() && o[m] == x;
                if m < t {
                    assert(w[m] == x);
                    assert(w.contains(x));
                } else if m > t {
                    assert(w[m - 1] == x);
                    assert(w.contains(x));
                }
            }
            if g.contains(x) {
                if x == id {
                    assert(o[t] == x);
                } else {
                    assert(w.contains(x));
                    let m = choose|m: int| 0 <= m < w.len() && w[m] == x;
                    if m < t {
                        assert(o[m] == x);
                    } else {
                        assert(o[m + 1] == x);
                    }
                }
            }
        }
    }
}

/// Moving the highlighted item `delta` places within a group of two or more in which its
/// id occurs once puts it `delta` places further along, wrapping past either end, and keeps
/// every other member of the group in its order.
pub proof fn lemma_reorder_moves_by_delta(s: Seq<Todo>, i: int, delta: int)
    requires
        0 <= i < s.len(),
        occurrences(group_ids(s, s[i].parent_id, s[i].done, s.len() as int), s[i].id) == 1,
        group_ids(s, s[i].parent_id, s[i].done, s.len() as int).len() >= 2,
    ensures
        ({
            let g = group_ids(s, s[i].parent_id, s[i].done, s.len() as int);
            let n = g.len() as int;
            reorder_spec(s, i, delta) matches Some(o) && forall|p: int|
                0 <= p < n && #[trigger] g[p] == s[i].id ==> o[(p + delta) % n] == s[i].id && o.remove(
                    (p + delta) % n,
                ) == g.remove(p)
        }),
{
    let g = group_ids(s, s[i].parent_id, s[i].done, s.len() as int);
    let (p0, moved) = lemma_rotate_shape(g, s[i].id, delta);
    let t = target_index(g, s[i].id, delta);
    assert(moved.remove(t) =~= g.remove(p0));
}

/// Indenting puts the highlighted item under the sibling listed just above it (same parent),
/// and reopens that new parent exactly when the item moved under it is still open.
pub proof fn lemma_indent_reopens_only_for_open(s: Seq<Todo>, i: int)
    requires
        0 <= i < s.len(),
    ensures
        indent_spec(s, i) matches IndentPlan::Indent { id, parent, reopen_parent } ==> id == s[i].id
            && reopen_parent == !s[i].done && (exists|j: int|
            0 <= j < s.len() && #[trigger] s[j].id == parent && s[j].parent_id == s[i].parent_id) && (
        exists|q: int|
            0 <= q && q + 1 < sibling_ids(s, s[i].parent_id, s.len() as int).len() && #[trigger] sibling_ids(
                s,
                s[i].parent_id,
                s.len() as int,
            )[q] == parent && sibling_ids(s, s[i].parent_id, s.len() as int)[q + 1] == s[i].id),
{
    let sib = sibling_ids(s, s[i].parent_id, s.len() as int);
    lemma_sibling_members(s, s[i].parent_id, s.len() as int);
    if let IndentPlan::Indent { id, parent, reopen_parent } = indent_spec(s, i) {
        let idx = position(sib, s[i].id)->0;
        lemma_position(sib, s[i].id);
        assert(sib.contains(s[i].id)) by {
            assert(s[i].id == s[i].id);
        }
        assert(0 < idx < sib.len());
        assert(sib.contains(sib[idx - 1]));
        assert(sib[idx - 1] == parent && sib[idx] == s[i].id);
    }
}

/// Outdenting lands the item right after its former parent among every item one level up
/// (open or done alike), in list order: the new order is the full list of that level with
/// the item inserted just behind its former parent, and it names nothing else.
pub proof fn lemma_outdent_lands_after_parent(s: Seq<Todo>, i: int, pid: i64)
    requires
        0 <= i < s.len(),
        s[i].parent_id == Some(pid),
        outdent_defined(s, i),
    ensures
        ({
            let o = outdent_order(s, i, pid);
            let gp = grandparent(s, pid);
            &&& forall|j: int| 0 <= j < s.len() && s[j].parent_id == gp ==> o.contains(#[trigger] s[j].id)
            &&& forall|x: i64| #[trigger] o.contains(x) ==> x == s[i].id || exists|j: int|
                0 <= j < s.len() && #[trigger] s[j].id == x && s[j].parent_id == gp
            &&& exists|p: int| 0 <= p && p + 1 < o.len() && #[trigger] o[p] == pid && o[p + 1] == s[i].id
                && o.remove(p + 1) == sibling_ids(s, gp, s.len() as int)
        }),
{
    let gp = grandparent(s, pid);
    let sib = sibling_ids(s, gp, s.len() as int);
    lemma_sibling_members(s, gp, s.len() as int);
    lemma_position(sib, pid);
    let p = position(sib, pid)->0;
    let o = outdent_order(s, i, pid);
    assert(o == sib.insert(p + 1, s[i].id));
    assert(o[p] == pid);
    assert(o[p + 1] == s[i].id);
    assert(o.remove(p + 1) =~= sib);
    assert forall|j: int| 0 <= j < s.len() && s[j].parent_id == gp implies o.contains(#[trigger] s[j].id) by {
        assert(sib.contains(s[j].id));
        let m = choose|m: int| 0 <= m < sib.len() && sib[m] == s[j].id;
        if m <= p {
            assert(o[m] == s[j].id);
        } else {
            assert(o[m + 1] == s[j].id);
        }
    }
    assert forall|x: i64| #[trigger] o.contains(x) implies x == s[i].id || exists|j: int|
        0 <= j < s.len() && #[trigger] s[j].id == x && s[j].parent_id == gp by {
        let m = choose|m: int| 0 <= m < o.len() && o[m] == x;
        if m <= p {
            assert(sib[m] == x);
            assert(sib.contains(x));
        } else if m > p + 1 {
            assert(sib[m - 1] == x);
            assert(sib.contains(x));
        }
    }
}

impl Listing {
    /// The order the highlighted item's group (same parent, same completion state) takes
    /// after moving the item `delta` places, wrapping at the ends. `None` when nothing is
    /// highlighted or the group has a single member.
    pub fn plan_reorder(&self, delta: isize) -> (r: Option<Vec<i64>>)
        requires
            self.wf(),
            self.selected_spec() matches Some(i) ==> rotate_defined(
                group_ids(self.todos@, self.todos@[i].parent_id, self.todos@[i].done, self.todos@.len() as int),
                self.todos@[i].id,
                delta as int,
            ),
        ensures
            self.selected_spec() is None ==> r is None,
            self.selected_spec() matches Some(i) ==> (match r {
                Some(v) => reorder_spec(self.todos@, i, delta as int) == Some(v@),
                None => reorder_spec(self.todos@, i, delta as int) is None,
            }),
    {
        let i = match self.selected_index() {
            None => return None,
            Some(i) => i,
        };
        let t = &self.todos[i];
        let group = same_group(&self.todos, t.parent_id, t.done);
        rotate(group.as_slice(), t.id, delta)
    }

    /// The completion updates of toggling the highlighted item: it and every descendant
    /// take the opposite of its current state; unchecking also reopens every ancestor.
    pub fn plan_toggle(&self) -> (r: Option<Vec<(i64, bool)>>)
        requires
            self.wf(),
        ensures
            self.selected_spec() is None ==> r is None,
            self.selected_spec() matches Some(i) ==> r matches Some(v) && v@ == toggle_updates(
                self.todos@,
                i,
            ),
    {
        let i = match self.selected_index() {
            None => return None,
            Some(i) => i,
        };
        let ghost s = self.todos@;
        let id = self.todos[i].id;
        let new = !self.todos[i].done;
        assert(bounded_below(s, s[i as int].id));
        let below = descendant_indices(&self.todos, id);
        let mut out: Vec<(i64, bool)> = Vec::new();
        out.push((id, new));
        let mut k: usize = 0;
        while k < below.len()
            invariant
                k <= below.len(),
                s == self.todos@,
                as_ints(below@) == descendants_of(s, id),
                forall|m: int| 0 <= m < below@.len() ==> below@[m] < s.len(),
                out@ == seq![(id, new)] + descendants_of(s, id).take(k as int).map_values(
                    |j: int| (s[j].id, new),
                ),
            decreases below.len() - k,
        {
            let ghost before = out@;
            assert(descendants_of(s, id)[k as int] == below@[k as int] as int);
            out.push((self.todos[below[k]].id, new));
            assert(descendants_of(s, id).take(k + 1) == descendants_of(s, id).take(k as int).push(
                below@[k as int] as int,
            ));
            assert(out@ == seq![(id, new)] + descendants_of(s, id).take(k + 1).map_values(
                |j: int| (s[j].id, new),
            ));
            k = k + 1;
        }
        assert(descendants_of(s, id).take(k as int) == descendants_of(s, id));
        let ghost mid = out@;
        if !new {
            match find(&self.todos, id) {
                None => {
                    assert(out@ == mid + Seq::<(i64, bool)>::empty());
                },
                Some(f) => {
                    proof {
                        lemma_find_index(s, id);
                        assert(rooted(s, f as int));
                    }
                    let above = ancestor_indices(&self.todos, f);
                    let mut k: usize = 0;
                    while k < above.len()
                        invariant
                            k <= above.len(),
                            s == self.todos@,
                            as_ints(above@) == ancestors_of(s, f as int),
                            forall|m: int| 0 <= m < above@.len() ==> above@[m] < s.len(),
                            out@ == mid + ancestors_of(s, f as int).take(k as int).map_values(
                                |j: int| (s[j].id, false),
                            ),
                        decreases above.len() - k,
                    {
                        assert(ancestors_of(s, f as int)[k as int] == above@[k as int] as int);
                        out.push((self.todos[above[k]].id, false));
                        assert(ancestors_of(s, f as int).take(k + 1) == ancestors_of(
                            s,
                            f as int,
                        ).take(k as int).push(above@[k as int] as int));
                        k = k + 1;
                    }
                    assert(ancestors_of(s, f as int).take(k as int) == ancestors_of(s, f as int));
                },
            }
        } else {
            assert(out@ == mid + Seq::<(i64, bool)>::empty());
        }
        Some(out)
    }

    /// The id to fold or unfold: the highlighted item, when it has children and is not
    /// already in the requested state.
    pub fn plan_collapse(&self, collapsed: bool) -> (r: Option<i64>)
        requires
            self.wf(),
        ensures
            self.selected_spec() is None ==> r is None,
            self.selected_spec() matches Some(i) ==> r == (if children_of(
                self.todos@,
                self.todos@[i].id,
            ).len() == 0 || self.todos@[i].collapsed == collapsed {
                None
            } else {
                Some(self.todos@[i].id)
            }),
    {
        let i = match self.selected_index() {
            None => return None,
            Some(i) => i,
        };
        let id = self.todos[i].id;
        let kids = child_indices(&self.todos, id);
        if kids.len() == 0 || self.todos[i].collapsed == collapsed {
            None
        } else {
            Some(id)
        }
    }

    /// Nesting the highlighted item under the sibling just above it, when depth allows.
    pub fn plan_indent(&self) -> (r: IndentPlan)
        requires
            self.wf(),
        ensures
            self.selected_spec() is None ==> r is NoSelection,
            self.selected_spec() matches Some(i) ==> r == indent_spec(self.todos@, i),
    {
        let i = match self.selected_index() {
            None => return IndentPlan::NoSelection,
            Some(i) => i,
        };
        let ghost s = self.todos@;
        let id = self.todos[i].id;
        let done = self.todos[i].done;
        let sib = siblings(&self.todos, self.todos[i].parent_id);
        proof {
            lemma_sibling_ids(s, s[i as int].parent_id, s.len() as int);
            assert(sib@.contains(id));
            lemma_position(sib@, id);
        }
        let idx = match find_position(sib.as_slice(), id) {
            Some(x) => x,
            None => {
                proof {
                    let m = choose|m: int| 0 <= m < sib@.len() && sib@[m] == id;
                    assert(sib@[m] == id);
                }
                return IndentPlan::NoSiblingAbove;
            },
        };
        if idx == 0 {
            return IndentPlan::NoSiblingAbove;
        }
        proof {
            lemma_find_index(s, id);
            assert(rooted_id(s, id));
            assert(bounded_below(s, s[i as int].id));
        }
        let depth = depth_of_id(&self.todos, id);
        let h = subtree_height(&self.todos, id);
        if depth > MAX_DEPTH - 1 || h > MAX_DEPTH - 1 - depth {
            return IndentPlan::TooDeep;
        }
        IndentPlan::Indent { id, parent: sib[idx - 1], reopen_parent: !done }
    }

    /// Moving the highlighted item one level up, right after its former parent.
    pub fn plan_outdent(&self) -> (r: OutdentPlan)
        requires
            self.wf(),
            self.selected_spec() matches Some(i) ==> outdent_defined(self.todos@, i),
        ensures
            self.selected_spec() is None ==> r is NoSelection,
            self.selected_spec() matches Some(i) ==> (match self.todos@[i].parent_id {
                None => r is AlreadyTop,
                Some(pid) => r matches OutdentPlan::Outdent { id, parent, order } && id
                    == self.todos@[i].id && parent == grandparent(self.todos@, pid) && order@
                    == outdent_order(self.todos@, i, pid),
            }),
    {
        let i = match self.selected_index() {
            None => return OutdentPlan::NoSelection,
            Some(i) => i,
        };
        let pid = match self.todos[i].parent_id {
            None => return OutdentPlan::AlreadyTop,
            Some(p) => p,
        };
        let id = self.todos[i].id;
        proof {
            lemma_find_index(self.todos@, pid);
        }
        let gp = match find(&self.todos, pid) {
            Some(j) => self.todos[j].parent_id,
            None => None,
        };
        let mut order = siblings(&self.todos, gp);
        proof {
            lemma_position(order@, pid);
        }
        let at = match find_position(order.as_slice(), pid) {
            Some(a) => a,
            None => return OutdentPlan::AlreadyTop,
        };
        proof {
            lemma_position(order@, pid);
        }
        let n = order.len();
        assert(at < n);
        order.insert(at + 1, id);
        OutdentPlan::Outdent { id, parent: gp, order }
    }

    /// Where a new subtask of the highlighted item goes: under it while that stays within
    /// the depth limit, otherwise next to it (under its parent).
    pub fn subtask_parent(&self) -> (r: Option<i64>)
        requires
            self.wf(),
        ensures
            self.selected_spec() is None ==> r is None,
            self.selected_spec() matches Some(i) ==> r == Some(subtask_parent_spec(self.todos@, i)),
    {
        let i = match self.selected_index() {
            None => return None,
            Some(i) => i,
        };
        let id = self.todos[i].id;
        proof {
            lemma_find_index(self.todos@, id);
        }
        if depth_of_id(&self.todos, id) < MAX_DEPTH - 1 {
            Some(id)
        } else {
            match self.todos[i].parent_id {
                Some(p) => Some(p),
                None => Some(id),
            }
        }
    }
}


/// Why a subtask cannot go under the requested parent.
#[derive(Clone, Copy, PartialEq, Eq, Structural, Debug)]
pub enum DepthError {
    /// No item has the parent's id.
    ParentMissing,
    /// A child of that parent would sit below the deepest level.
    TooDeep,
    /// The parent links going up from the parent go round in a circle: its depth cannot be
    /// counted.
    Tangled,
}

/// Checks that one more level fits under `parent_id`: the parent (the first item with that
/// id) must exist and sit above the deepest level.
pub fn ensure_depth(todos: &Vec<Todo>, parent_id: i64) -> (r: Result<(), DepthError>)
    requires
        todos@.len() < usize::MAX,
    ensures
        find_index(todos@, parent_id) is None ==> r == Err::<(), DepthError>(DepthError::ParentMissing),
        find_index(todos@, parent_id) matches Some(j) && !rooted(todos@, j) ==> r == Err::<(), DepthError>(DepthError::Tangled),
        find_index(todos@, parent_id) matches Some(j) ==> (rooted(todos@, j) ==> r == (if depth_in(todos@, todos@[j]) + 1 >= MAX_DEPTH {
            Err::<(), DepthError>(DepthError::TooDeep)
        } else {
            Ok::<(), DepthError>(())
        })),
{
    let j = match find(todos, parent_id) {
        None => return Err(DepthError::ParentMissing),
        Some(j) => j,
    };
    proof {
        lemma_find_index(todos@, parent_id);
    }
    if !walk_ends(todos, j) {
        return Err(DepthError::Tangled);
    }
    proof {
        let t = todos@[j as int];
        if let Some(p) = t.parent_id {
            lemma_find_index(todos@, p);
            if let Some(k) = find_index(todos@, p) {
                assert(parent_index(todos@, j as int) == Some(k));
                assert(rooted_within(todos@, k, (todos@.len() - 1) as nat));
                lemma_rooted_mono(todos@, k, (todos@.len() - 1) as nat, todos@.len());
                assert(rooted(todos@, k));
            }
        }
    }
    let d = depth_of(todos, &todos[j]);
    if d >= MAX_DEPTH - 1 {
        Err(DepthError::TooDeep)
    } else {
        Ok(())
    }
}

} // verus!
