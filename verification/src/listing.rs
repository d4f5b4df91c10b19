use vstd::prelude::*;

use crate::outline::{all_rooted, as_ints, bounded_below, lemma_rooted_walks, lemma_visible_from, visible_indices, visible_of};
use crate::nesting::untangled;
use crate::todo::Todo;

verus! {

/// The items of the current project as listed, the rows shown on screen and the
/// highlighted row.
pub struct Listing {
    pub todos: Vec<Todo>,
    /// Indices into `todos` of the rows shown, in order.
    pub visible: Vec<usize>,
    /// Highlighted row (an index into `visible`), as the list widget keeps it.
    pub selected: Option<usize>,
}

/// Every item's parent chain ends and every item's subtree is finite.
pub open spec fn acyclic(s: Seq<Todo>) -> bool {
    &&& all_rooted(s)
    &&& forall|i: int| 0 <= i < s.len() ==> #[trigger] bounded_below(s, s[i].id)
}

/// First row of `vis` whose item has id `id`.
pub open spec fn row_from(s: Seq<Todo>, vis: Seq<int>, id: i64, k: int) -> Option<int>
    decreases vis.len() - k,
{
    if k < 0 || k >= vis.len() {
        None
    } else if s[vis[k]].id == id {
        Some(k)
    } else {
        row_from(s, vis, id, k + 1)
    }
}

/// The row kept when the selected item is gone: the old row, clamped to the list.
pub open spec fn kept_row(len: nat, sel: Option<usize>) -> Option<int> {
    if len == 0 {
        None
    } else {
        let cur: int = match sel {
            Some(c) => c as int,
            None => 0,
        };
        Some(if cur < len - 1 {
            cur
        } else {
            len - 1
        })
    }
}

/// Row selected for `id`: its row when it is shown, else the kept row.
pub open spec fn reselected(s: Seq<Todo>, vis: Seq<int>, id: Option<i64>, sel: Option<usize>) -> Option<int> {
    match id {
        Some(id) => match row_from(s, vis, id, 0) {
            Some(k) => Some(k),
            None => kept_row(vis.len(), sel),
        },
        None => kept_row(vis.len(), sel),
    }
}

pub open spec fn opt_int(o: Option<usize>) -> Option<int> {
    match o {
        Some(x) => Some(x as int),
        None => None,
    }
}

/// Ids of the items, in list order among the first `k`, whose parent is `parent`.
pub open spec fn sibling_ids(s: Seq<Todo>, parent: Option<i64>, k: int) -> Seq<i64>
    decreases k,
{
    if k <= 0 || k > s.len() {
        seq![]
    } else if s[k - 1].parent_id == parent {
        sibling_ids(s, parent, k - 1).push(s[k - 1].id)
    } else {
        sibling_ids(s, parent, k - 1)
    }
}

/// Ids of the items, in list order among the first `k`, with this parent and this state.
pub open spec fn group_ids(s: Seq<Todo>, parent: Option<i64>, done: bool, k: int) -> Seq<i64>
    decreases k,
{
    if k <= 0 || k > s.len() {
        seq![]
    } else if s[k - 1].parent_id == parent && s[k - 1].done == done {
        group_ids(s, parent, done, k - 1).push(s[k - 1].id)
    } else {
        group_ids(s, parent, done, k - 1)
    }
}

/// Moving the highlight `delta` rows lands on a row of the list, and moving it back
/// `delta` rows returns to the row it started from.
pub proof fn lemma_selection_roundtrip(len: int, cur: int, delta: int)
    requires
        0 <= cur < len,
    ensures
        0 <= (cur + delta) % len < len,
        ((cur + delta) % len + -delta) % len == cur,
{
    vstd::arithmetic::div_mod::lemma_add_mod_noop_right(-delta, cur + delta, len);
    vstd::arithmetic::div_mod::lemma_small_mod(cur as nat, len as nat);
}

pub fn siblings(todos: &Vec<Todo>, parent: Option<i64>) -> (r: Vec<i64>)
    ensures
        r@ == sibling_ids(todos@, parent, todos@.len() as int),
{
    let mut out: Vec<i64> = Vec::new();
    let mut k: usize = 0;
    while k < todos.len()
        invariant
            k <= todos.len(),
            out@ == sibling_ids(todos@, parent, k as int),
        decreases todos.len() - k,
    {
        if todos[k].parent_id == parent {
            out.push(todos[k].id);
        }
        k = k + 1;
    }
    out
}

pub fn same_group(todos: &Vec<Todo>, parent: Option<i64>, done: bool) -> (r: Vec<i64>)
    ensures
        r@ == group_ids(todos@, parent, done, todos@.len() as int),
{
    let mut out: Vec<i64> = Vec::new();
    let mut k: usize = 0;
    while k < todos.len()
        invariant
            k <= todos.len(),
            out@ == group_ids(todos@, parent, done, k as int),
        decreases todos.len() - k,
    {
        if todos[k].parent_id == parent && todos[k].done == done {
            out.push(todos[k].id);
        }
        k = k + 1;
    }
    out
}

impl Listing {
    /// The rows are exactly the shown items, the item links are acyclic and the highlight,
    /// when there is one, is on a shown row.
    pub open spec fn wf(&self) -> bool {
        &&& self.rows_wf()
        &&& self.selected matches Some(v) ==> v < self.visible@.len()
    }

    /// The rows are exactly the shown items and the item links are acyclic (the highlight
    /// aside).
    pub open spec fn rows_wf(&self) -> bool {
        &&& acyclic(self.todos@)
        &&& self.todos@.len() < usize::MAX
        &&& as_ints(self.visible@) == visible_of(self.todos@)
    }

    /// Index into `todos` of the highlighted item, when the row exists.
    pub open spec fn selected_spec(&self) -> Option<int> {
        match self.selected {
            None => None,
            Some(v) => if v < self.visible@.len() && self.visible@[v as int] < self.todos@.len() {
                Some(self.visible@[v as int] as int)
            } else {
                None
            },
        }
    }

    pub fn new() -> (r: Listing)
        ensures
            r.wf(),
            r.todos@.len() == 0,
            r.visible@.len() == 0,
            r.selected is None,
    {
        let r = Listing { todos: Vec::new(), visible: Vec::new(), selected: None };
        assert(visible_of(r.todos@) == Seq::<int>::empty());
        assert(as_ints(r.visible@) =~= Seq::<int>::empty());
        r
    }

    /// Index into `todos` of the highlighted item.
    pub fn selected_index(&self) -> (r: Option<usize>)
        ensures
            opt_int(r) == self.selected_spec(),
    {
        match self.selected {
            None => None,
            Some(v) => if v < self.visible.len() && self.visible[v] < self.todos.len() {
                Some(self.visible[v])
            } else {
                None
            },
        }
    }

    /// Id of the highlighted item.
    pub fn selected_id(&self) -> (r: Option<i64>)
        ensures
            r == (match self.selected_spec() {
                Some(i) => Some(self.todos@[i].id),
                None => None,
            }),
    {
        match self.selected_index() {
            Some(i) => Some(self.todos[i].id),
            None => None,
        }
    }

    /// Highlights the row of `id` when it is shown; otherwise keeps the current row,
    /// clamped to the list (no row when nothing is shown).
    pub fn select_id_or_keep(&mut self, id: Option<i64>)
        requires
            old(self).rows_wf(),
        ensures
            final(self).wf(),
            final(self).todos == old(self).todos,
            final(self).visible == old(self).visible,
            final(self).selected is None <==> final(self).visible@.len() == 0,
            opt_int(final(self).selected) == reselected(
                old(self).todos@,
                as_ints(old(self).visible@),
                id,
                old(self).selected,
            ),
    {
        let ghost vis = as_ints(self.visible@);
        proof {
            lemma_visible_from(self.todos@, 0);
        }
        assert forall|m: int| 0 <= m < self.visible@.len() implies self.visible@[m]
            < self.todos@.len() by {
            assert(vis[m] == self.visible@[m] as int);
        }
        let mut found: Option<usize> = None;
        if let Some(target) = id {
            let mut k: usize = 0;
            while k < self.visible.len() && found.is_none()
                invariant
                    k <= self.visible.len(),
                    vis == as_ints(self.visible@),
                    forall|m: int|
                        0 <= m < self.visible@.len() ==> self.visible@[m] < self.todos@.len(),
                    found is None ==> row_from(self.todos@, vis, target, 0) == row_from(
                        self.todos@,
                        vis,
                        target,
                        k as int,
                    ),
                    found matches Some(f) ==> row_from(self.todos@, vis, target, 0) == Some(
                        f as int,
                    ) && f < self.visible.len(),
                decreases self.visible.len() - k,
            {
                if self.todos[self.visible[k]].id == target {
                    found = Some(k);
                }
                k = k + 1;
            }
        }
        if found.is_none() && self.visible.len() > 0 {
            let cur = match self.selected {
                Some(c) => c,
                None => 0,
            };
            let last = self.visible.len() - 1;
            found = Some(if cur < last { cur } else { last });
        }
        self.selected = found;
    }

    /// Moves the highlight by `delta` rows, wrapping at the ends; nothing happens when
    /// no row is shown.
    pub fn move_selection(&mut self, delta: isize)
        requires
            old(self).visible@.len() <= isize::MAX,
            (match old(self).selected {
                Some(c) => c as int,
                None => 0,
            }) + delta <= isize::MAX,
        ensures
            final(self).todos == old(self).todos,
            final(self).visible == old(self).visible,
            old(self).visible@.len() == 0 ==> final(self).selected == old(self).selected,
            old(self).wf() ==> final(self).wf(),
            old(self).visible@.len() > 0 ==> opt_int(final(self).selected) == Some(
                ((match old(self).selected {
                    Some(c) => c as int,
                    None => 0,
                }) + delta) % (old(self).visible@.len() as int),
            ),
    {
        if self.visible.len() == 0 {
            return ;
        }
        let cur = match self.selected {
            Some(c) => c,
            None => 0,
        };
        let r = crate::reorder::wrap_index(cur as i128 + delta as i128, self.visible.len());
        self.selected = Some(r);
    }

    /// Takes fresh items unless their links go round in a circle (a walk up or down that
    /// never ends); then keeps everything as it is and answers `false`.
    pub fn reload_checked(&mut self, todos: Vec<Todo>) -> (r: bool)
        ensures
            r == (acyclic(todos@) && todos@.len() < usize::MAX),
            !r ==> *final(self) == *old(self),
            r ==> final(self).wf() && final(self).todos@ == todos@ && (final(self).selected is None
                <==> final(self).visible@.len() == 0) && opt_int(final(self).selected)
                == reselected(
                todos@,
                visible_of(todos@),
                (match old(self).selected_spec() {
                    Some(i) => Some(old(self).todos@[i].id),
                    None => None,
                }),
                old(self).selected,
            ),
    {
        if todos.len() < usize::MAX && untangled(&todos) {
            self.reload(todos);
            true
        } else {
            false
        }
    }

    /// Replaces the items (fresh from storage), recomputes the shown rows and keeps the
    /// highlight on the previously highlighted item when it is still shown.
    pub fn reload(&mut self, todos: Vec<Todo>)
        requires
            acyclic(todos@),
            todos@.len() < usize::MAX,
        ensures
            final(self).wf(),
            final(self).todos@ == todos@,
            final(self).selected is None <==> final(self).visible@.len() == 0,
            opt_int(final(self).selected) == reselected(
                todos@,
                visible_of(todos@),
                (match old(self).selected_spec() {
                    Some(i) => Some(old(self).todos@[i].id),
                    None => None,
                }),
                old(self).selected,
            ),
    {
        let prev = self.selected_id();
        proof {
            lemma_rooted_walks(todos@);
        }
        let visible = visible_indices(&todos);
        self.todos = todos;
        self.visible = visible;
        self.select_id_or_keep(prev);
    }
}

} // verus!
