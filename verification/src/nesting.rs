//! The shape of the item tree: when the parent links form a proper tree (checked by
//! `well_linked`) or at least go round in no circle (`untangled`), what the tree layout lists, and why nesting or lifting an item the way
//! the plans decide keeps every item within the depth limit.

use vstd::prelude::*;

use crate::listing::{acyclic, sibling_ids};
use crate::outline::{
    all_rooted, ancestors_of, below_within, bounded_below, chain, children_from, children_of,
    depth_spec, desc, desc_list, descendants_of, find, find_from, find_index, forest_within,
    height, height_list, hidden, tree_order, tree_order_of, tree_order_upto,
    lemma_chain_len, lemma_children_from, lemma_find_index, parent_index, rooted, rooted_within,
    subtree_height_of, up, MAX_DEPTH, below_check, tops_bounded,
};
use crate::plans::{
    fits_depth, grandparent, indent_spec, lemma_sibling_ids, subtask_parent_spec, IndentPlan,
};
use crate::reorder::{lemma_position, position};
use crate::todo::Todo;

verus! {

/// No two items share an id.
pub open spec fn unique_ids(s: Seq<Todo>) -> bool {
    forall|a: int, b: int| 0 <= a < b < s.len() ==> s[a].id != s[b].id
}

/// Every item sits below the top level by fewer than `MAX_DEPTH` parent links.
pub open spec fn within_depth(s: Seq<Todo>) -> bool {
    forall|y: i64| depth_spec(s, y) < MAX_DEPTH
}

/// The list after the item at `i` is moved under the item with id `parent` (to the top
/// level for `None`).
pub open spec fn reparented(s: Seq<Todo>, i: int, parent: Option<i64>) -> Seq<Todo> {
    s.update(
        i,
        Todo {
            id: s[i].id,
            text: s[i].text,
            created_at: s[i].created_at,
            due_at: s[i].due_at,
            done: s[i].done,
            parent_id: parent,
            collapsed: s[i].collapsed,
        },
    )
}

/// The item at `x` has at most two parent links above it.
spec fn two_links(s: Seq<Todo>, x: int) -> bool {
    match parent_index(s, x) {
        None => true,
        Some(a) => match parent_index(s, a) {
            None => true,
            Some(b) => parent_index(s, b) is None,
        },
    }
}

proof fn lemma_find_same_ids(s: Seq<Todo>, t: Seq<Todo>, id: i64, k: int)
    requires
        s.len() == t.len(),
        forall|m: int| 0 <= m < s.len() ==> s[m].id == t[m].id,
    ensures
        find_from(s, id, k) == find_from(t, id, k),
    decreases s.len() - k,
{
    if 0 <= k < s.len() {
        lemma_find_same_ids(s, t, id, k + 1);
    }
}

proof fn lemma_find_unique(s: Seq<Todo>, i: int)
    requires
        unique_ids(s),
        0 <= i < s.len(),
    ensures
        find_index(s, s[i].id) == Some(i),
{
    lemma_find_index(s, s[i].id);
    if let Some(j) = find_index(s, s[i].id) {
        if j != i {
            if j < i {
                assert(s[j].id != s[i].id);
            } else {
                assert(s[i].id != s[j].id);
            }
        }
    }
}

proof fn lemma_parent_in_range(s: Seq<Todo>, x: int)
    requires
        0 <= x < s.len(),
    ensures
        parent_index(s, x) matches Some(a) ==> 0 <= a < s.len() && Some(s[a].id)
            == s[x].parent_id,
{
    if let Some(p) = s[x].parent_id {
        lemma_find_index(s, p);
    }
}

proof fn lemma_no_self_parent(s: Seq<Todo>, x: int, m: nat)
    requires
        rooted_within(s, x, m),
    ensures
        parent_index(s, x) != Some(x),
    decreases m,
{
    if parent_index(s, x) == Some(x) && m > 0 {
        lemma_no_self_parent(s, x, (m - 1) as nat);
    }
}

proof fn lemma_no_two_cycle(s: Seq<Todo>, x: int, a: int, m: nat)
    requires
        rooted_within(s, x, m),
        parent_index(s, x) == Some(a),
    ensures
        parent_index(s, a) != Some(x),
    decreases m,
{
    if parent_index(s, a) == Some(x) {
        assert(m > 0 && rooted_within(s, a, (m - 1) as nat));
        assert(m > 1 && rooted_within(s, x, (m - 2) as nat));
        lemma_no_two_cycle(s, x, a, (m - 2) as nat);
    }
}

/// The child `m` of a list of children bounds the height of the whole list from below.
proof fn lemma_height_list_ge(s: Seq<Todo>, cs: Seq<int>, n: nat, m: int)
    requires
        n > 0,
        0 <= m < cs.len(),
    ensures
        height_list(s, cs, n) >= height(s, s[cs[m]].id, (n - 1) as nat),
    decreases cs.len(),
{
    if m > 0 {
        lemma_height_list_ge(s, cs.drop_first(), n, m - 1);
        assert(cs.drop_first()[m - 1] == cs[m]);
    }
}

/// An item with a child is at least two levels tall; with a grandchild, three.
proof fn lemma_height_from_children(s: Seq<Todo>, i: int, n: nat)
    requires
        0 <= i < s.len(),
        n > 0,
    ensures
        height(s, s[i].id, n) >= 1,
        (exists|c: int| 0 <= c < s.len() && s[c].parent_id == Some(s[i].id)) ==> height(
            s,
            s[i].id,
            n,
        ) >= 2,
        forall|c: int, g: int|
            0 <= c < s.len() && 0 <= g < s.len() && n >= 2 && s[c].parent_id == Some(s[i].id)
                && #[trigger] s[g].parent_id == Some(#[trigger] s[c].id) ==> height(
                s,
                s[i].id,
                n,
            ) >= 3,
{
    let cs = children_of(s, s[i].id);
    lemma_children_from(s, s[i].id, 0);
    if exists|c: int| 0 <= c < s.len() && s[c].parent_id == Some(s[i].id) {
        let c = choose|c: int| 0 <= c < s.len() && s[c].parent_id == Some(s[i].id);
        assert(cs.contains(c));
        lemma_height_list_ge(s, cs, n, 0);
    }
    assert forall|c: int, g: int|
        0 <= c < s.len() && 0 <= g < s.len() && n >= 2 && s[c].parent_id == Some(s[i].id)
            && #[trigger] s[g].parent_id == Some(#[trigger] s[c].id) implies height(
        s,
        s[i].id,
        n,
    ) >= 3 by {
        assert(cs.contains(c));
        let m = choose|m: int| 0 <= m < cs.len() && cs[m] == c;
        lemma_height_list_ge(s, cs, n, m);
        let gs = children_of(s, s[c].id);
        lemma_children_from(s, s[c].id, 0);
        assert(gs.contains(g));
        lemma_height_list_ge(s, gs, (n - 1) as nat, 0);
    }
}

proof fn lemma_chain_two(s: Seq<Todo>, x: int, fuel: nat)
    requires
        two_links(s, x),
    ensures
        chain(s, x, fuel).len() <= 2,
{
    if fuel > 0 {
        if let Some(a) = parent_index(s, x) {
            assert(chain(s, x, fuel) == seq![a] + chain(s, a, (fuel - 1) as nat));
            if fuel > 1 {
                if let Some(b) = parent_index(s, a) {
                    assert(chain(s, a, (fuel - 1) as nat) == seq![b] + chain(s, b, (fuel - 2) as nat));
                    assert(chain(s, b, (fuel - 2) as nat).len() == 0);
                } else {
                    assert(chain(s, a, (fuel - 1) as nat).len() == 0);
                }
            } else {
                assert(chain(s, a, (fuel - 1) as nat).len() == 0);
            }
        }
    }
}

proof fn lemma_rooted_two(s: Seq<Todo>, x: int)
    requires
        0 <= x < s.len(),
        two_links(s, x),
    ensures
        rooted(s, x),
{
    let n = s.len();
    if let Some(a) = parent_index(s, x) {
        lemma_parent_in_range(s, x);
        if let Some(b) = parent_index(s, a) {
            lemma_parent_in_range(s, a);
            // x, a and b are three different items, so the list holds at least three.
            assert(a != x);
            assert(b != a);
            assert(b != x);
            assert(rooted_within(s, b, (n - 2) as nat));
            assert(rooted_within(s, a, (n - 1) as nat));
        } else {
            assert(rooted_within(s, a, (n - 1) as nat));
        }
    }
}

/// A list whose items have fewer than `MAX_DEPTH` ancestors each has no item three
/// parent links below another.
proof fn lemma_two_links_from_depth(s: Seq<Todo>, x: int)
    requires
        0 <= x < s.len(),
        unique_ids(s),
        all_rooted(s),
        within_depth(s),
    ensures
        two_links(s, x),
{
    let n = s.len();
    lemma_find_unique(s, x);
    assert(depth_spec(s, s[x].id) < MAX_DEPTH);
    assert(rooted(s, x));
    if let Some(a) = parent_index(s, x) {
        lemma_parent_in_range(s, x);
        if let Some(b) = parent_index(s, a) {
            lemma_parent_in_range(s, a);
            if let Some(c) = parent_index(s, b) {
                lemma_parent_in_range(s, b);
                assert(rooted(s, a));
                assert(rooted(s, b));
                lemma_no_self_parent(s, x, n);
                lemma_no_self_parent(s, a, n);
                lemma_no_two_cycle(s, x, a, n);
                assert(x != a && a != b && x != b);
                assert(n >= 3) by {
                    if n < 3 {
                        assert(false);
                    }
                }
                assert(chain(s, x, n) == seq![a] + chain(s, a, (n - 1) as nat));
                assert(chain(s, a, (n - 1) as nat) == seq![b] + chain(s, b, (n - 2) as nat));
                assert(chain(s, b, (n - 2) as nat) == seq![c] + chain(s, c, (n - 3) as nat));
                assert(false);
            }
        }
    }
}

/// Nesting an item the way the indent plan decides keeps the tree within the depth
/// limit: when every item had fewer than `MAX_DEPTH` ancestors before, every item still
/// does afterwards, and every upward walk still ends.
pub proof fn lemma_indent_keeps_depth(s: Seq<Todo>, i: int)
    requires
        0 <= i < s.len(),
        unique_ids(s),
        acyclic(s),
        within_depth(s),
        indent_spec(s, i) is Indent,
    ensures
        indent_spec(s, i) matches IndentPlan::Indent { id, parent, .. } && id == s[i].id
            && within_depth(reparented(s, i, Some(parent))) && all_rooted(reparented(s, i, Some(parent))),
{
    let n = s.len();
    let t = s[i];
    let id = t.id;
    let sib = sibling_ids(s, t.parent_id, n as int);
    let idx = position(sib, id)->0;
    lemma_sibling_ids(s, t.parent_id, n as int);
    assert(sib.contains(id));
    lemma_position(sib, id);
    assert(position(sib, id) is Some) by {
        if position(sib, id) is None {
            let m = choose|m: int| 0 <= m < sib.len() && sib[m] == id;
            assert(sib[m] == id);
        }
    }
    assert(idx != 0);
    let p = sib[idx - 1];
    let j = lemma_sibling_source(s, t.parent_id, n as int, idx - 1);
    assert(s[j].id == p && s[j].parent_id == t.parent_id);
    assert(j != i);
    let s2 = reparented(s, i, Some(p));
    assert(fits_depth(s, id));
    lemma_find_unique(s, i);
    lemma_find_unique(s, j);
    assert forall|m: int| 0 <= m < s.len() implies s[m].id == s2[m].id by {}
    assert forall|k: i64| #[trigger] find_index(s2, k) == find_index(s, k) by {
        lemma_find_same_ids(s, s2, k, 0);
    }
    assert(rooted(s, i));
    lemma_no_self_parent(s, i, n);
    lemma_height_from_children(s, i, n);
    assert(depth_spec(s, id) == chain(s, i, n).len());
    assert(subtree_height_of(s, id) == height(s, id, n));
    // The item's own parent has no parent: it sits at depth 0 or 1.
    if let Some(a) = parent_index(s, i) {
        lemma_parent_in_range(s, i);
        if let Some(b) = parent_index(s, a) {
            assert(n >= 2);
            assert(chain(s, a, (n - 1) as nat) == seq![b] + chain(s, b, (n - 2) as nat));
            assert(false);
        }
    }
    // With children the item is at the top level, and it has no grandchildren.
    assert(parent_index(s, j) == parent_index(s, i));
    assert forall|x: int| 0 <= x < s2.len() implies two_links(s2, x) by {
        lemma_two_links_from_depth(s, x);
        lemma_parent_in_range(s, x);
        if x != i {
            assert(parent_index(s2, x) == parent_index(s, x));
            if let Some(a) = parent_index(s, x) {
                lemma_parent_in_range(s, a);
                if a == i {
                    assert(s[x].parent_id == Some(id));
                    assert(height(s, id, n) >= 2);
                    assert(parent_index(s, i) is None) by {
                        if let Some(q) = parent_index(s, i) {
                            assert(chain(s, i, n) == seq![q] + chain(s, q, (n - 1) as nat));
                        }
                    }
                    assert(parent_index(s2, i) == Some(j));
                    assert(parent_index(s2, j) == parent_index(s, j));
                } else {
                    assert(parent_index(s2, a) == parent_index(s, a));
                    if let Some(b) = parent_index(s, a) {
                        lemma_parent_in_range(s, b);
                        if b == i {
                            assert(rooted(s, x));
                            lemma_no_self_parent(s, x, n);
                            assert(n >= 2);
                            assert(s[a].parent_id == Some(s[i].id));
                            assert(s[x].parent_id == Some(s[a].id));
                            assert(height(s, id, n) >= 3);
                            assert(false);
                        }
                        assert(parent_index(s2, b) == parent_index(s, b));
                    }
                }
            }
        } else {
            assert(parent_index(s2, i) == Some(j));
            assert(parent_index(s2, j) == parent_index(s, j));
            if let Some(a) = parent_index(s, i) {
                assert(a != i) by {
                    lemma_no_self_parent(s, i, n);
                }
                assert(parent_index(s2, a) == parent_index(s, a));
            }
        }
    }
    assert forall|x: int| 0 <= x < s2.len() implies #[trigger] rooted(s2, x) by {
        lemma_rooted_two(s2, x);
    }
    assert forall|y: i64| depth_spec(s2, y) < MAX_DEPTH by {
        if let Some(x) = find_index(s2, y) {
            lemma_find_index(s2, y);
            lemma_chain_two(s2, x, n);
        }
    }
}

/// Moving an item up one level, under its former grandparent, keeps the tree within the
/// depth limit and lifts the item exactly one level when its parent is in the list.
pub proof fn lemma_outdent_keeps_depth(s: Seq<Todo>, i: int)
    requires
        0 <= i < s.len(),
        unique_ids(s),
        all_rooted(s),
        within_depth(s),
        s[i].parent_id is Some,
    ensures
        ({
            let s2 = reparented(s, i, grandparent(s, s[i].parent_id->0));
            &&& within_depth(s2)
            &&& all_rooted(s2)
            &&& find_index(s, s[i].parent_id->0) is Some ==> depth_spec(s2, s[i].id) + 1
                == depth_spec(s, s[i].id)
        }),
{
    let n = s.len();
    let pid = s[i].parent_id->0;
    let gp = grandparent(s, pid);
    let s2 = reparented(s, i, gp);
    lemma_find_unique(s, i);
    assert forall|m: int| 0 <= m < s.len() implies s[m].id == s2[m].id by {}
    assert forall|k: i64| #[trigger] find_index(s2, k) == find_index(s, k) by {
        lemma_find_same_ids(s, s2, k, 0);
    }
    lemma_two_links_from_depth(s, i);
    lemma_parent_in_range(s, i);
    assert(rooted(s, i));
    lemma_no_self_parent(s, i, n);
    // The item's new parent is its former grandparent.
    assert(parent_index(s2, i) == (match parent_index(s, i) {
        Some(a) => parent_index(s, a),
        None => None,
    }));
    if let Some(a) = parent_index(s, i) {
        lemma_parent_in_range(s, a);
        assert(rooted(s, a));
        lemma_no_two_cycle(s, i, a, n);
        if let Some(b) = parent_index(s, a) {
            lemma_parent_in_range(s, b);
            assert(b != i);
        }
    }
    assert forall|x: int| 0 <= x < s2.len() implies two_links(s2, x) by {
        lemma_two_links_from_depth(s, x);
        lemma_parent_in_range(s, x);
        if x != i {
            assert(parent_index(s2, x) == parent_index(s, x));
            if let Some(a) = parent_index(s, x) {
                lemma_parent_in_range(s, a);
                if a != i {
                    assert(parent_index(s2, a) == parent_index(s, a));
                    if let Some(b) = parent_index(s, a) {
                        lemma_parent_in_range(s, b);
                        if b != i {
                            assert(parent_index(s2, b) == parent_index(s, b));
                        }
                    }
                }
            }
        }
    }
    assert forall|x: int| 0 <= x < s2.len() implies #[trigger] rooted(s2, x) by {
        lemma_rooted_two(s2, x);
    }
    assert forall|y: i64| depth_spec(s2, y) < MAX_DEPTH by {
        if let Some(x) = find_index(s2, y) {
            lemma_find_index(s2, y);
            lemma_chain_two(s2, x, n);
        }
    }
    if let Some(a) = parent_index(s, i) {
        assert(chain(s, i, n) == seq![a] + chain(s, a, (n - 1) as nat));
        if let Some(b) = parent_index(s, a) {
            assert(n >= 2);
            assert(chain(s, a, (n - 1) as nat) == seq![b] + chain(s, b, (n - 2) as nat));
            assert(chain(s, b, (n - 2) as nat).len() == 0);
            assert(chain(s2, i, n) == seq![b] + chain(s2, b, (n - 1) as nat));
            assert(parent_index(s2, b) == parent_index(s, b));
            assert(chain(s2, b, (n - 1) as nat).len() == 0);
        } else {
            assert(chain(s, a, (n - 1) as nat).len() == 0);
            assert(chain(s2, i, n).len() == 0);
        }
    }
}

/// A subtask goes under an item that sits above the deepest level, so the new item
/// itself stays within the depth limit.
pub proof fn lemma_subtask_parent_fits(s: Seq<Todo>, i: int)
    requires
        0 <= i < s.len(),
        unique_ids(s),
        all_rooted(s),
        within_depth(s),
    ensures
        find_index(s, subtask_parent_spec(s, i)) is Some,
        depth_spec(s, subtask_parent_spec(s, i)) + 1 < MAX_DEPTH,
{
    let n = s.len();
    lemma_find_unique(s, i);
    if depth_spec(s, s[i].id) >= MAX_DEPTH - 1 {
        assert(rooted(s, i));
        lemma_no_self_parent(s, i, n);
        lemma_parent_in_range(s, i);
        let a = parent_index(s, i)->0;
        assert(parent_index(s, i) is Some) by {
            if parent_index(s, i) is None {
                assert(chain(s, i, n).len() == 0);
            }
        }
        lemma_parent_in_range(s, a);
        lemma_find_unique(s, a);
        assert(chain(s, i, n) == seq![a] + chain(s, a, (n - 1) as nat));
        lemma_two_links_from_depth(s, i);
        if let Some(b) = parent_index(s, a) {
            lemma_parent_in_range(s, b);
            assert(rooted(s, a));
            lemma_no_self_parent(s, a, n);
            assert(n >= 2);
            assert(chain(s, a, (n - 1) as nat) == seq![b] + chain(s, b, (n - 2) as nat));
            assert(chain(s, b, (n - 2) as nat).len() == 0);
            assert(chain(s, a, n) == seq![b] + chain(s, b, (n - 1) as nat));
            assert(chain(s, b, (n - 1) as nat).len() == 0);
        } else {
            assert(chain(s, a, (n - 1) as nat).len() == 0);
            assert(chain(s, a, n).len() == 0);
        }
    }
}

pub(crate) proof fn lemma_rooted_mono(s: Seq<Todo>, x: int, k: nat, f: nat)
    requires
        rooted_within(s, x, k),
        k <= f,
    ensures
        rooted_within(s, x, f),
        chain(s, x, f) == chain(s, x, k),
    decreases k,
{
    if let Some(p) = parent_index(s, x) {
        lemma_rooted_mono(s, p, (k - 1) as nat, (f - 1) as nat);
    }
}

/// A child sits one level below its parent, and no deeper than the list is long.
proof fn lemma_child_depth(s: Seq<Todo>, c: int, x: int)
    requires
        rooted(s, c),
        parent_index(s, c) == Some(x),
    ensures
        chain(s, c, s.len()).len() == chain(s, x, s.len()).len() + 1,
        chain(s, c, s.len()).len() <= s.len(),
{
    let n = s.len();
    assert(n > 0 && rooted_within(s, x, (n - 1) as nat));
    lemma_rooted_mono(s, x, (n - 1) as nat, n);
    assert(chain(s, c, n) == seq![x] + chain(s, x, (n - 1) as nat));
    lemma_chain_len(s, c, n);
}

proof fn lemma_forest_from_each(s: Seq<Todo>, cs: Seq<int>, m: nat)
    requires
        forall|k: int|
            0 <= k < cs.len() ==> m > 0 && 0 <= #[trigger] cs[k] < s.len() && below_within(
                s,
                s[cs[k]].id,
                (m - 1) as nat,
            ),
    ensures
        forest_within(s, cs, m),
    decreases cs.len(),
{
    if cs.len() > 0 {
        let rest = cs.drop_first();
        assert forall|k: int| 0 <= k < rest.len() implies m > 0 && 0 <= #[trigger] rest[k] < s.len()
            && below_within(s, s[rest[k]].id, (m - 1) as nat) by {
            assert(rest[k] == cs[k + 1]);
        }
        lemma_forest_from_each(s, rest, m);
        assert(cs[0] == cs[0]);
    }
}

proof fn lemma_below_mono(s: Seq<Todo>, id: i64, m: nat, f: nat)
    requires
        below_within(s, id, m),
        m <= f,
    ensures
        below_within(s, id, f),
    decreases m, 1int, 0int,
{
    lemma_forest_mono(s, children_of(s, id), m, f);
}

proof fn lemma_forest_mono(s: Seq<Todo>, cs: Seq<int>, m: nat, f: nat)
    requires
        forest_within(s, cs, m),
        m <= f,
    ensures
        forest_within(s, cs, f),
    decreases m, 0int, cs.len(),
{
    if cs.len() > 0 {
        lemma_below_mono(s, s[cs[0]].id, (m - 1) as nat, (f - 1) as nat);
        lemma_forest_mono(s, cs.drop_first(), m, f);
    }
}

/// Below an item at depth `d`, no downward path is longer than the list length minus `d`.
proof fn lemma_below_from_depth(s: Seq<Todo>, x: int)
    requires
        unique_ids(s),
        all_rooted(s),
        0 <= x < s.len(),
    ensures
        chain(s, x, s.len()).len() <= s.len(),
        below_within(s, s[x].id, (s.len() - chain(s, x, s.len()).len()) as nat),
    decreases s.len() - chain(s, x, s.len()).len(),
{
    let n = s.len();
    lemma_chain_len(s, x, n);
    let d = chain(s, x, n).len();
    let m = (n - d) as nat;
    let cs = children_of(s, s[x].id);
    lemma_children_from(s, s[x].id, 0);
    lemma_find_unique(s, x);
    assert forall|k: int| 0 <= k < cs.len() implies m > 0 && 0 <= #[trigger] cs[k] < s.len()
        && below_within(s, s[cs[k]].id, (m - 1) as nat) by {
        let c = cs[k];
        assert(parent_index(s, c) == Some(x));
        assert(rooted(s, c));
        lemma_child_depth(s, c, x);
        lemma_below_from_depth(s, c);
    }
    lemma_forest_from_each(s, cs, m);
}

/// With distinct ids, a list in which every item's walk up ends has a finite subtree under
/// every item too: it is acyclic.
pub proof fn lemma_rooted_is_acyclic(s: Seq<Todo>)
    requires
        unique_ids(s),
        all_rooted(s),
    ensures
        acyclic(s),
{
    assert forall|i: int| 0 <= i < s.len() implies #[trigger] bounded_below(s, s[i].id) by {
        lemma_below_from_depth(s, i);
        lemma_below_mono(s, s[i].id, (s.len() - chain(s, i, s.len()).len()) as nat, s.len());
    }
}

/// Whether the walk up from the item at `i` ends (following parent ids).
pub fn walk_ends(todos: &Vec<Todo>, i: usize) -> (r: bool)
    requires
        i < todos.len(),
    ensures
        r == rooted(todos@, i as int),
{
    let ghost s = todos@;
    let mut cur = i;
    let mut fuel: usize = todos.len();
    loop
        invariant
            cur < todos.len(),
            s == todos@,
            fuel <= todos.len(),
            rooted(s, i as int) == rooted_within(s, cur as int, fuel as nat),
        decreases fuel,
    {
        let next = match todos[cur].parent_id {
            None => None,
            Some(p) => find(todos, p),
        };
        proof {
            if let Some(p) = s[cur as int].parent_id {
                lemma_find_index(s, p);
            }
        }
        match next {
            None => {
                return true;
            },
            Some(j) => {
                if fuel == 0 {
                    return false;
                }
                cur = j;
                fuel = fuel - 1;
            },
        }
    }
}

/// Whether no two items share an id and every item's walk up ends; such a list is acyclic.
pub fn well_linked(todos: &Vec<Todo>) -> (r: bool)
    ensures
        r == (unique_ids(todos@) && all_rooted(todos@)),
        r ==> acyclic(todos@),
{
    let ghost s = todos@;
    let n = todos.len();
    let mut a: usize = 0;
    while a < n
        invariant
            a <= n,
            n == todos.len(),
            s == todos@,
            forall|x: int, y: int| 0 <= x < a && x < y < n ==> s[x].id != s[y].id,
        decreases n - a,
    {
        let mut b: usize = a + 1;
        while b < n
            invariant
                a < n,
                a + 1 <= b <= n,
                n == todos.len(),
                s == todos@,
                forall|x: int, y: int| 0 <= x < a && x < y < n ==> s[x].id != s[y].id,
                forall|y: int| a < y < b ==> s[a as int].id != s[y].id,
            decreases n - b,
        {
            if todos[a].id == todos[b].id {
                proof {
                    assert(!unique_ids(s)) by {
                        assert(s[a as int].id == s[b as int].id);
                    }
                }
                return false;
            }
            b = b + 1;
        }
        a = a + 1;
    }
    assert(unique_ids(s));
    let mut i: usize = 0;
    while i < n
        invariant
            i <= n,
            n == todos.len(),
            s == todos@,
            forall|k: int| 0 <= k < i ==> #[trigger] rooted(s, k),
        decreases n - i,
    {
        if !walk_ends(todos, i) {
            return false;
        }
        i = i + 1;
    }
    proof {
        lemma_rooted_is_acyclic(s);
    }
    true
}

proof fn lemma_up_compose(s: Seq<Todo>, x: int, i: nat, j: nat)
    ensures
        up(s, x, i + j) == (match up(s, x, i) {
            Some(z) => up(s, z, j),
            None => None,
        }),
    decreases i,
{
    if i > 0 {
        if let Some(p) = parent_index(s, x) {
            lemma_up_compose(s, p, (i - 1) as nat, j);
            assert((i + j - 1) as nat == ((i - 1) as nat + j) as nat);
        }
    }
}

proof fn lemma_up_one(s: Seq<Todo>, x: int)
    ensures
        up(s, x, 1) == parent_index(s, x),
{
    if let Some(p) = parent_index(s, x) {
        assert(up(s, p, 0) == Some(p));
    }
}

proof fn lemma_up_bounded(s: Seq<Todo>, x: int, f: nat, d: nat)
    requires
        rooted_within(s, x, f),
        up(s, x, d) is Some,
    ensures
        d <= f,
    decreases d,
{
    if d > 0 {
        let p = parent_index(s, x)->0;
        lemma_up_bounded(s, p, (f - 1) as nat, (d - 1) as nat);
    }
}

proof fn lemma_up_repeat(s: Seq<Todo>, a: int, d: nat, k: nat)
    requires
        up(s, a, d) == Some(a),
    ensures
        up(s, a, k * d) == Some(a),
    decreases k,
{
    if k == 0 {
        assert(k * d == 0) by (nonlinear_arith)
            requires
                k == 0,
        ;
    } else {
        lemma_up_repeat(s, a, d, (k - 1) as nat);
        lemma_up_compose(s, a, ((k - 1) * d) as nat, d);
        assert(((k - 1) * d) as nat + d == k * d) by (nonlinear_arith)
            requires
                k >= 1,
        ;
    }
}

/// No walk up from an item whose walk ends comes back to it.
proof fn lemma_no_cycle(s: Seq<Todo>, a: int, d: nat)
    requires
        rooted(s, a),
        d >= 1,
    ensures
        up(s, a, d) != Some(a),
{
    if up(s, a, d) == Some(a) {
        let n = s.len();
        lemma_up_repeat(s, a, d, n + 1);
        lemma_up_bounded(s, a, n, ((n + 1) * d) as nat);
        assert((n + 1) * d >= n + 1) by (nonlinear_arith)
            requires
                d >= 1,
        ;
    }
}

/// A walk up that reaches a top-level item goes no further.
proof fn lemma_up_stops_at_top(s: Seq<Todo>, y: int, r1: nat, t: int, r2: nat)
    requires
        up(s, y, r1) == Some(t),
        parent_index(s, t) is None,
        up(s, y, r2) is Some,
    ensures
        r2 <= r1,
{
    if r2 > r1 {
        lemma_up_compose(s, y, r1, (r2 - r1) as nat);
        assert(up(s, t, (r2 - r1) as nat) is None);
    }
}

/// Two children of the same item cannot both lie on one walk up.
proof fn lemma_one_branch(s: Seq<Todo>, y: int, r1: nat, c1: int, r2: nat, c2: int, a: int)
    requires
        rooted(s, a),
        up(s, y, r1) == Some(c1),
        up(s, y, r2) == Some(c2),
        parent_index(s, c1) == Some(a),
        parent_index(s, c2) == Some(a),
    ensures
        c1 == c2,
{
    if r1 <= r2 {
        lemma_branch_order(s, y, r1, c1, r2, c2, a);
    } else {
        lemma_branch_order(s, y, r2, c2, r1, c1, a);
    }
}

proof fn lemma_branch_order(s: Seq<Todo>, y: int, r1: nat, c1: int, r2: nat, c2: int, a: int)
    requires
        rooted(s, a),
        r1 <= r2,
        up(s, y, r1) == Some(c1),
        up(s, y, r2) == Some(c2),
        parent_index(s, c1) == Some(a),
        parent_index(s, c2) == Some(a),
    ensures
        r1 == r2,
{
    if r1 < r2 {
        let d = (r2 - r1) as nat;
        lemma_up_compose(s, y, r1, d);
        assert(up(s, c1, d) == Some(c2));
        lemma_up_compose(s, c1, d, 1);
        lemma_up_one(s, c2);
        assert(up(s, c1, d + 1) == Some(a));
        lemma_up_compose(s, c1, 1, d);
        lemma_up_one(s, c1);
        assert(up(s, a, d) == Some(a));
        lemma_no_cycle(s, a, d);
    }
}

/// Walking up from `y` reaches `c` (after zero or more links).
pub open spec fn hangs_under(s: Seq<Todo>, y: int, c: int) -> bool {
    exists|r: nat| up(s, y, r) == Some(c)
}

/// Walking up from `y` reaches `c` after at least one link.
pub open spec fn strictly_under(s: Seq<Todo>, y: int, c: int) -> bool {
    exists|r: nat| r >= 1 && up(s, y, r) == Some(c)
}

proof fn lemma_children_of_unique(s: Seq<Todo>, x: int)
    requires
        unique_ids(s),
        0 <= x < s.len(),
    ensures
        forall|k: int|
            0 <= k < children_of(s, s[x].id).len() ==> 0 <= #[trigger] children_of(s, s[x].id)[k]
                < s.len() && parent_index(s, children_of(s, s[x].id)[k]) == Some(x),
        forall|k1: int, k2: int|
            0 <= k1 < k2 < children_of(s, s[x].id).len() ==> children_of(s, s[x].id)[k1]
                < children_of(s, s[x].id)[k2],
{
    lemma_children_from(s, s[x].id, 0);
    lemma_find_unique(s, x);
}

proof fn lemma_desc_list_sound(s: Seq<Todo>, cs: Seq<int>, m: nat)
    requires
        unique_ids(s),
        forall|k: int| 0 <= k < cs.len() ==> 0 <= #[trigger] cs[k] < s.len(),
    ensures
        forall|p: int|
            0 <= p < desc_list(s, cs, m).len() ==> 0 <= #[trigger] desc_list(s, cs, m)[p] < s.len()
                && exists|k: int| 0 <= k < cs.len() && hangs_under(s, desc_list(s, cs, m)[p], #[trigger] cs[k]),
    decreases m, cs.len(),
{
    if cs.len() > 0 && m > 0 {
        let c0 = cs[0];
        let kids = children_of(s, s[c0].id);
        lemma_children_of_unique(s, c0);
        lemma_desc_list_sound(s, kids, (m - 1) as nat);
        let rest = cs.drop_first();
        assert forall|k: int| 0 <= k < rest.len() implies 0 <= #[trigger] rest[k] < s.len() by {
            assert(rest[k] == cs[k + 1]);
        }
        lemma_desc_list_sound(s, rest, m);
        let a = desc(s, s[c0].id, (m - 1) as nat);
        let b = desc_list(s, rest, m);
        let d = desc_list(s, cs, m);
        assert(a == desc_list(s, kids, (m - 1) as nat));
        assert(d == seq![c0] + a + b);
        assert forall|p: int| 0 <= p < d.len() implies 0 <= #[trigger] d[p] < s.len() && exists|k: int|
            0 <= k < cs.len() && hangs_under(s, d[p], #[trigger] cs[k]) by {
            if p == 0 {
                assert(up(s, d[0], 0) == Some(cs[0]));
                assert(hangs_under(s, d[0], cs[0]));
            } else if p < 1 + a.len() {
                let y = a[p - 1];
                assert(d[p] == y);
                let k2 = choose|k: int| 0 <= k < kids.len() && hangs_under(s, y, #[trigger] kids[k]);
                let r = choose|r: nat| up(s, y, r) == Some(kids[k2]);
                lemma_up_compose(s, y, r, 1);
                lemma_up_one(s, kids[k2]);
                assert(up(s, y, r + 1) == Some(c0));
                assert(hangs_under(s, y, cs[0]));
            } else {
                let y = b[p - 1 - a.len()];
                assert(d[p] == y);
                let k2 = choose|k: int| 0 <= k < rest.len() && hangs_under(s, y, #[trigger] rest[k]);
                assert(rest[k2] == cs[k2 + 1]);
                assert(hangs_under(s, y, cs[k2 + 1]));
            }
        }
    }
}

proof fn lemma_desc_sound(s: Seq<Todo>, c: int, m: nat)
    requires
        unique_ids(s),
        0 <= c < s.len(),
    ensures
        forall|p: int|
            0 <= p < desc(s, s[c].id, m).len() ==> 0 <= #[trigger] desc(s, s[c].id, m)[p] < s.len()
                && strictly_under(s, desc(s, s[c].id, m)[p], c),
{
    let kids = children_of(s, s[c].id);
    lemma_children_of_unique(s, c);
    lemma_desc_list_sound(s, kids, m);
    let a = desc(s, s[c].id, m);
    assert(a == desc_list(s, kids, m));
    assert forall|p: int| 0 <= p < a.len() implies 0 <= #[trigger] a[p] < s.len() && strictly_under(s, a[p], c) by {
        let y = a[p];
        let k2 = choose|k: int| 0 <= k < kids.len() && hangs_under(s, y, #[trigger] kids[k]);
        let r = choose|r: nat| up(s, y, r) == Some(kids[k2]);
        lemma_up_compose(s, y, r, 1);
        lemma_up_one(s, kids[k2]);
        assert(up(s, y, r + 1) == Some(c));
    }
}

proof fn lemma_concat_distinct(x: Seq<int>, y: Seq<int>)
    requires
        x.no_duplicates(),
        y.no_duplicates(),
        forall|i: int, j: int| 0 <= i < x.len() && 0 <= j < y.len() ==> x[i] != y[j],
    ensures
        (x + y).no_duplicates(),
{
    let z = x + y;
    assert forall|i: int, j: int| 0 <= i < z.len() && 0 <= j < z.len() && i != j implies z[i] != z[j] by {
        if i < x.len() && j < x.len() {
            assert(z[i] == x[i] && z[j] == x[j]);
        } else if i >= x.len() && j >= x.len() {
            assert(z[i] == y[i - x.len()] && z[j] == y[j - x.len()]);
        } else if i < x.len() {
            assert(z[i] == x[i] && z[j] == y[j - x.len()]);
        } else {
            assert(z[j] == x[j] && z[i] == y[i - x.len()]);
        }
    }
}

proof fn lemma_desc_list_distinct(s: Seq<Todo>, a: int, cs: Seq<int>, m: nat)
    requires
        unique_ids(s),
        all_rooted(s),
        0 <= a < s.len(),
        forall|k: int| 0 <= k < cs.len() ==> 0 <= #[trigger] cs[k] < s.len() && parent_index(s, cs[k]) == Some(a),
        forall|k1: int, k2: int| 0 <= k1 < k2 < cs.len() ==> cs[k1] < cs[k2],
    ensures
        desc_list(s, cs, m).no_duplicates(),
    decreases m, cs.len(),
{
    if cs.len() > 0 && m > 0 {
        let c0 = cs[0];
        let kids = children_of(s, s[c0].id);
        lemma_children_of_unique(s, c0);
        lemma_desc_list_distinct(s, c0, kids, (m - 1) as nat);
        let rest = cs.drop_first();
        assert forall|k: int| 0 <= k < rest.len() implies 0 <= #[trigger] rest[k] < s.len()
            && parent_index(s, rest[k]) == Some(a) by {
            assert(rest[k] == cs[k + 1]);
        }
        assert forall|k1: int, k2: int| 0 <= k1 < k2 < rest.len() implies rest[k1] < rest[k2] by {
            assert(rest[k1] == cs[k1 + 1] && rest[k2] == cs[k2 + 1]);
        }
        lemma_desc_list_distinct(s, a, rest, m);
        lemma_desc_sound(s, c0, (m - 1) as nat);
        lemma_desc_list_sound(s, rest, m);
        let da = desc(s, s[c0].id, (m - 1) as nat);
        let db = desc_list(s, rest, m);
        let d = desc_list(s, cs, m);
        assert(da == desc_list(s, kids, (m - 1) as nat));
        assert(d == seq![c0] + da + db);
        assert(rooted(s, a));
        assert(rooted(s, c0));
        // The first child is not found again below itself.
        assert forall|i: int, j: int| 0 <= i < 1 && 0 <= j < da.len() implies seq![c0][i] != da[j] by {
            if da[j] == c0 {
                let r = choose|r: nat| r >= 1 && up(s, da[j], r) == Some(c0);
                lemma_no_cycle(s, c0, r);
            }
        }
        lemma_concat_distinct(seq![c0], da);
        // Nothing below the first child is below a later one.
        assert forall|i: int, j: int| 0 <= i < (seq![c0] + da).len() && 0 <= j < db.len() implies (seq![c0] + da)[i] != db[j] by {
            let y = db[j];
            let k2 = choose|k: int| 0 <= k < rest.len() && hangs_under(s, y, #[trigger] rest[k]);
            let r2 = choose|r: nat| up(s, y, r) == Some(rest[k2]);
            assert(rest[k2] == cs[k2 + 1]);
            if (seq![c0] + da)[i] == y {
                if i == 0 {
                    assert(up(s, y, 0) == Some(c0));
                    lemma_one_branch(s, y, 0, c0, r2, rest[k2], a);
                } else {
                    let z = da[i - 1];
                    assert((seq![c0] + da)[i] == z);
                    assert(strictly_under(s, z, c0));
                    let r1 = choose|r: nat| r >= 1 && up(s, z, r) == Some(c0);
                    lemma_one_branch(s, y, r1, c0, r2, rest[k2], a);
                }
            }
        }
        lemma_concat_distinct(seq![c0] + da, db);
    }
}

/// Walking up from `y` reaches a top-level item among the first `k`.
spec fn under_top(s: Seq<Todo>, y: int, k: int) -> bool {
    exists|t: int| 0 <= t < k && s[t].parent_id is None && #[trigger] hangs_under(s, y, t)
}

proof fn lemma_under_top_grows(s: Seq<Todo>, y: int, k: int)
    requires
        under_top(s, y, k - 1),
    ensures
        under_top(s, y, k),
{
    let t = choose|t: int| 0 <= t < k - 1 && s[t].parent_id is None && #[trigger] hangs_under(s, y, t);
    assert(0 <= t < k && s[t].parent_id is None && hangs_under(s, y, t));
}

/// Indices in the tree layout up to `k` all lie below a top-level item before `k`, and
/// appear once.
proof fn lemma_tree_order_upto_distinct(s: Seq<Todo>, k: int)
    requires
        unique_ids(s),
        all_rooted(s),
        0 <= k <= s.len(),
    ensures
        tree_order_upto(s, k).no_duplicates(),
        forall|p: int| 0 <= p < tree_order_upto(s, k).len() ==> under_top(s, #[trigger] tree_order_upto(s, k)[p], k),
    decreases k,
{
    if k > 0 {
        lemma_tree_order_upto_distinct(s, k - 1);
        let pre = tree_order_upto(s, k - 1);
        let t = k - 1;
        assert forall|p: int| 0 <= p < pre.len() implies under_top(s, #[trigger] pre[p], k) by {
            lemma_under_top_grows(s, pre[p], k);
        }
        if s[t].parent_id is None {
            let kids = children_of(s, s[t].id);
            lemma_children_of_unique(s, t);
            lemma_desc_list_distinct(s, t, kids, s.len());
            lemma_desc_sound(s, t, s.len());
            let dt = descendants_of(s, s[t].id);
            assert(dt == desc_list(s, kids, s.len()));
            let block = seq![t] + dt;
            assert(rooted(s, t));
            assert forall|i: int, j: int| 0 <= i < 1 && 0 <= j < dt.len() implies seq![t][i] != dt[j] by {
                if dt[j] == t {
                    let r = choose|r: nat| r >= 1 && up(s, dt[j], r) == Some(t);
                    lemma_no_cycle(s, t, r);
                }
            }
            lemma_concat_distinct(seq![t], dt);
            assert(parent_index(s, t) is None);
            assert forall|i: int, j: int| 0 <= i < pre.len() && 0 <= j < block.len() implies pre[i] != block[j] by {
                let y = pre[i];
                assert(under_top(s, y, k - 1));
                let t1 = choose|t1: int| 0 <= t1 < k - 1 && s[t1].parent_id is None && #[trigger] hangs_under(s, y, t1);
                let r1 = choose|r: nat| up(s, y, r) == Some(t1);
                assert(parent_index(s, t1) is None);
                if block[j] == y {
                    let r2: nat = if j == 0 {
                        assert(up(s, y, 0) == Some(t));
                        0
                    } else {
                        let z = dt[j - 1];
                        assert(block[j] == z);
                        assert(strictly_under(s, z, t));
                        choose|r: nat| r >= 1 && up(s, z, r) == Some(t)
                    };
                    assert(up(s, y, r2) == Some(t));
                    lemma_up_stops_at_top(s, y, r1, t1, r2);
                    lemma_up_stops_at_top(s, y, r2, t, r1);
                }
            }
            lemma_concat_distinct(pre, block);
            let all = tree_order_upto(s, k);
            assert(all == pre + block);
            assert forall|p: int| 0 <= p < all.len() implies under_top(s, #[trigger] all[p], k) by {
                if p < pre.len() {
                    assert(all[p] == pre[p]);
                } else if p == pre.len() {
                    assert(all[p] == t);
                    assert(up(s, t, 0) == Some(t));
                    assert(hangs_under(s, all[p], t));
                } else {
                    let z = dt[p - pre.len() - 1];
                    assert(all[p] == z);
                    assert(strictly_under(s, z, t));
                    let r = choose|r: nat| r >= 1 && up(s, z, r) == Some(t);
                    assert(hangs_under(s, all[p], t));
                }
            }
        } else {
            assert(tree_order_upto(s, k) == pre);
        }
    }
}

/// With distinct ids and walks up that all end, the tree layout lists no item twice.
pub proof fn lemma_tree_order_distinct(s: Seq<Todo>)
    requires
        unique_ids(s),
        all_rooted(s),
    ensures
        tree_order_of(s).no_duplicates(),
{
    lemma_tree_order_upto_distinct(s, s.len() as int);
}

/// The list after the item at `i` is folded.
pub open spec fn folded(s: Seq<Todo>, i: int) -> Seq<Todo> {
    s.update(
        i,
        Todo {
            id: s[i].id,
            text: s[i].text,
            created_at: s[i].created_at,
            due_at: s[i].due_at,
            done: s[i].done,
            parent_id: s[i].parent_id,
            collapsed: true,
        },
    )
}

proof fn lemma_chain_up(s: Seq<Todo>, y: int, r: nat, c: int, f: nat)
    requires
        r >= 1,
        r <= f,
        up(s, y, r) == Some(c),
    ensures
        r - 1 < chain(s, y, f).len(),
        chain(s, y, f)[r - 1] == c,
    decreases r,
{
    let p = parent_index(s, y)->0;
    assert(chain(s, y, f) == seq![p] + chain(s, p, (f - 1) as nat));
    if r > 1 {
        lemma_chain_up(s, p, (r - 1) as nat, c, (f - 1) as nat);
    } else {
        assert(up(s, p, 0) == Some(p));
    }
}

proof fn lemma_chain_same(s: Seq<Todo>, t: Seq<Todo>, x: int, f: nat)
    requires
        0 <= x < s.len(),
        forall|z: int| 0 <= z < s.len() ==> #[trigger] parent_index(s, z) == parent_index(t, z),
    ensures
        chain(s, x, f) == chain(t, x, f),
    decreases f,
{
    if f > 0 {
        if let Some(p) = parent_index(s, x) {
            lemma_parent_in_range(s, x);
            lemma_chain_same(s, t, p, (f - 1) as nat);
        }
    }
}

/// Folding an item hides every item below it.
pub proof fn lemma_fold_hides_subtree(s: Seq<Todo>, i: int)
    requires
        unique_ids(s),
        all_rooted(s),
        0 <= i < s.len(),
    ensures
        forall|m: int|
            0 <= m < descendants_of(s, s[i].id).len() ==> hidden(
                folded(s, i),
                #[trigger] descendants_of(s, s[i].id)[m],
            ),
{
    let n = s.len();
    let t = folded(s, i);
    assert forall|m: int| 0 <= m < s.len() implies s[m].id == t[m].id by {}
    assert forall|k: i64| #[trigger] find_index(t, k) == find_index(s, k) by {
        lemma_find_same_ids(s, t, k, 0);
    }
    assert forall|z: int| 0 <= z < s.len() implies #[trigger] parent_index(s, z) == parent_index(t, z) by {
        assert(t[z].parent_id == s[z].parent_id);
    }
    lemma_desc_sound(s, i, n);
    let d = descendants_of(s, s[i].id);
    assert forall|m: int| 0 <= m < d.len() implies hidden(t, #[trigger] d[m]) by {
        let y = d[m];
        assert(strictly_under(s, y, i));
        let r = choose|r: nat| r >= 1 && up(s, y, r) == Some(i);
        assert(rooted(s, y));
        lemma_up_bounded(s, y, n, r);
        lemma_chain_up(s, y, r, i, n);
        lemma_chain_same(s, t, y, n);
        assert(ancestors_of(t, y)[r - 1] == i);
        assert(t[i].collapsed);
    }
}

/// Whether every walk up and every walk down the links ends: no item's links go round in
/// a circle in either direction.
pub fn untangled(todos: &Vec<Todo>) -> (r: bool)
    ensures
        r == acyclic(todos@),
{
    if well_linked(todos) {
        return true;
    }
    let ghost s = todos@;
    let n = todos.len();
    let mut i: usize = 0;
    while i < n
        invariant
            i <= n,
            n == todos.len(),
            s == todos@,
            forall|k: int| 0 <= k < i ==> #[trigger] rooted(s, k),
            forall|k: int| 0 <= k < i ==> #[trigger] bounded_below(s, s[k].id),
        decreases n - i,
    {
        if !walk_ends(todos, i) {
            assert(!all_rooted(s)) by {
                assert(!rooted(s, i as int));
            }
            return false;
        }
        let ok = below_check(todos, todos[i].id, n);
        assert(ok == bounded_below(s, s[i as int].id));
        if !ok {
            assert(!acyclic(s)) by {
                assert(!bounded_below(s, s[i as int].id));
            }
            return false;
        }
        assert(rooted(s, i as int) && bounded_below(s, s[i as int].id));
        i = i + 1;
    }
    assert(all_rooted(s)) by {
        assert forall|k: int| 0 <= k < s.len() implies #[trigger] rooted(s, k) by {}
    }
    true
}

/// Whether the subtree under every top-level item is finite.
fn tops_check(all: &Vec<Todo>) -> (r: bool)
    ensures
        r == tops_bounded(all@),
{
    let n = all.len();
    let mut i: usize = 0;
    while i < n
        invariant
            i <= n,
            n == all.len(),
            forall|k: int| 0 <= k < i && all@[k].parent_id is None ==> #[trigger] bounded_below(all@, all@[k].id),
        decreases n - i,
    {
        if all[i].parent_id.is_none() {
            let ok = below_check(all, all[i].id, n);
            assert(ok == bounded_below(all@, all@[i as int].id));
            if !ok {
                return false;
            }
        }
        i = i + 1;
    }
    true
}

/// The items laid out as a tree (see `tree_order`), or `None` when the links below some
/// top-level item go round in a circle, so that its subtree never ends.
pub fn nested(all: &Vec<Todo>) -> (r: Option<Vec<Todo>>)
    ensures
        !tops_bounded(all@) ==> r is None,
        tops_bounded(all@) ==> (r matches Some(v) && v@ == tree_order_of(all@).map_values(|k: int| all@[k])),
{
    if tops_check(all) {
        Some(tree_order(all))
    } else {
        None
    }
}

/// Each entry of `sibling_ids` is the id of an item with that parent.
proof fn lemma_sibling_source(s: Seq<Todo>, parent: Option<i64>, k: int, m: int) -> (j: int)
    requires
        0 <= k <= s.len(),
        0 <= m < sibling_ids(s, parent, k).len(),
    ensures
        0 <= j < k,
        s[j].id == sibling_ids(s, parent, k)[m],
        s[j].parent_id == parent,
    decreases k,
{
    let prev = sibling_ids(s, parent, k - 1);
    if s[k - 1].parent_id == parent && m == prev.len() {
        k - 1
    } else {
        lemma_sibling_source(s, parent, k - 1, m)
    }
}

} // verus!
