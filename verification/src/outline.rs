use vstd::prelude::*;

use crate::todo::Todo;

verus! {

/// Deepest allowed nesting: items live at depth 0, 1 or 2.
pub const MAX_DEPTH: usize = 3;

/// Index of the first item at or after `k` whose id is `id`.
pub open spec fn find_from(s: Seq<Todo>, id: i64, k: int) -> Option<int>
    decreases s.len() - k,
{
    if k < 0 || k >= s.len() {
        None
    } else if s[k].id == id {
        Some(k)
    } else {
        find_from(s, id, k + 1)
    }
}

/// Index of the first item whose id is `id`, the way a linear search finds it.
pub open spec fn find_index(s: Seq<Todo>, id: i64) -> Option<int> {
    find_from(s, id, 0)
}

pub proof fn lemma_find_from(s: Seq<Todo>, id: i64, k: int)
    requires
        0 <= k,
    ensures
        find_from(s, id, k) matches Some(i) ==> k <= i < s.len() && s[i].id == id && forall|j: int|
            k <= j < i ==> s[j].id != id,
        find_from(s, id, k) is None ==> forall|j: int| k <= j < s.len() ==> s[j].id != id,
    decreases s.len() - k,
{
    if k < s.len() && s[k].id != id {
        lemma_find_from(s, id, k + 1);
    }
}

pub proof fn lemma_find_index(s: Seq<Todo>, id: i64)
    ensures
        find_index(s, id) matches Some(i) ==> 0 <= i < s.len() && s[i].id == id && forall|j: int|
            0 <= j < i ==> s[j].id != id,
        find_index(s, id) is None ==> forall|j: int| 0 <= j < s.len() ==> s[j].id != id,
{
    lemma_find_from(s, id, 0);
}

/// Linear search for the first item with the given id.
pub fn find(todos: &[Todo], id: i64) -> (r: Option<usize>)
    ensures
        r matches Some(i) ==> find_index(todos@, id) == Some(i as int),
        r is None ==> find_index(todos@, id) is None,
{
    let mut k: usize = 0;
    while k < todos.len()
        invariant
            k <= todos.len(),
            find_from(todos@, id, 0) == find_from(todos@, id, k as int),
        decreases todos.len() - k,
    {
        if todos[k].id == id {
            return Some(k);
        }
        k = k + 1;
    }
    None
}

/// Index of the parent of the item at `i`, as found by looking its parent id up.
pub open spec fn parent_index(s: Seq<Todo>, i: int) -> Option<int> {
    match s[i].parent_id {
        None => None,
        Some(p) => find_index(s, p),
    }
}

/// Ancestors of the item at `i`, nearest first, following at most `fuel` parent links.
pub open spec fn chain(s: Seq<Todo>, i: int, fuel: nat) -> Seq<int>
    decreases fuel,
{
    if fuel == 0 {
        seq![]
    } else {
        match parent_index(s, i) {
            None => seq![],
            Some(j) => seq![j] + chain(s, j, (fuel - 1) as nat),
        }
    }
}

/// Following parent links from `i` reaches an item without a (present) parent within `n` steps.
pub open spec fn rooted_within(s: Seq<Todo>, i: int, n: nat) -> bool
    decreases n,
{
    match parent_index(s, i) {
        None => true,
        Some(j) => n > 0 && rooted_within(s, j, (n - 1) as nat),
    }
}

/// The walk up from `i` ends: the parent links from there contain no cycle.
pub open spec fn rooted(s: Seq<Todo>, i: int) -> bool {
    rooted_within(s, i, s.len())
}

/// Ancestors of the item at `i`, nearest first.
pub open spec fn ancestors_of(s: Seq<Todo>, i: int) -> Seq<int> {
    chain(s, i, s.len())
}

/// Every item's walk up ends.
pub open spec fn all_rooted(s: Seq<Todo>) -> bool {
    forall|i: int| 0 <= i < s.len() ==> #[trigger] rooted(s, i)
}

pub open spec fn as_ints(v: Seq<usize>) -> Seq<int> {
    v.map_values(|x: usize| x as int)
}

proof fn lemma_chain_unfold(s: Seq<Todo>, i: int, j: int, fuel: nat)
    requires
        fuel > 0,
        parent_index(s, i) == Some(j),
    ensures
        chain(s, i, fuel) == seq![j] + chain(s, j, (fuel - 1) as nat),
{
}

proof fn lemma_rooted_chain_stable(s: Seq<Todo>, i: int, n: nat, m: nat)
    requires
        rooted_within(s, i, n),
        n <= m,
    ensures
        chain(s, i, m) == chain(s, i, n + 1),
        rooted_within(s, i, m),
    decreases n,
{
    match parent_index(s, i) {
        None => {},
        Some(j) => {
            lemma_rooted_chain_stable(s, j, (n - 1) as nat, (m - 1) as nat);
            assert(chain(s, i, m) == seq![j] + chain(s, j, (m - 1) as nat));
            assert(chain(s, i, n + 1) == seq![j] + chain(s, j, n));
        },
    }
}

/// Indices of the ancestors of the item at `i`, nearest first.
pub fn ancestor_indices(todos: &[Todo], i: usize) -> (r: Vec<usize>)
    requires
        i < todos.len(),
        rooted(todos@, i as int),
    ensures
        as_ints(r@) == ancestors_of(todos@, i as int),
        forall|k: int| 0 <= k < r@.len() ==> r@[k] < todos.len(),
{
    let ghost s = todos@;
    let mut out: Vec<usize> = Vec::new();
    let mut cur = i;
    let ghost mut fuel: nat = s.len();
    loop
        invariant_except_break
            cur < todos.len(),
            s == todos@,
            out@.len() + fuel == s.len(),
            rooted_within(s, cur as int, fuel),
            as_ints(out@) + chain(s, cur as int, fuel) == ancestors_of(s, i as int),
            forall|k: int| 0 <= k < out@.len() ==> out@[k] < todos.len(),
        ensures
            as_ints(out@) == ancestors_of(s, i as int),
            forall|k: int| 0 <= k < out@.len() ==> out@[k] < todos.len(),
        decreases fuel,
    {
        let next = match todos[cur].parent_id {
            None => None,
            Some(p) => find(todos, p),
        };
        match next {
            None => {
                assert(chain(s, cur as int, fuel) == Seq::<int>::empty()) by {
                    reveal_with_fuel(chain, 1);
                }
                assert(as_ints(out@) + Seq::<int>::empty() == as_ints(out@));
                break ;
            },
            Some(j) => {
                proof {
                    lemma_find_index(s, todos[cur as int].parent_id->0);
                    lemma_chain_unfold(s, cur as int, j as int, fuel);
                }
                let ghost old_out = out@;
                out.push(j);
                assert(as_ints(out@) == as_ints(old_out) + seq![j as int]);
                assert(as_ints(out@) + chain(s, j as int, (fuel - 1) as nat) == as_ints(old_out) + (
                seq![j as int] + chain(s, j as int, (fuel - 1) as nat)));
                cur = j;
                proof {
                    fuel = (fuel - 1) as nat;
                }
            },
        }
    }
    out
}


/// Indices, from `k` on and in list order, of the items whose parent id is `id`.
pub open spec fn children_from(s: Seq<Todo>, id: i64, k: int) -> Seq<int>
    decreases s.len() - k,
{
    if k < 0 || k >= s.len() {
        seq![]
    } else if s[k].parent_id == Some(id) {
        seq![k] + children_from(s, id, k + 1)
    } else {
        children_from(s, id, k + 1)
    }
}

/// Indices of the direct children of `id`, in list order.
pub open spec fn children_of(s: Seq<Todo>, id: i64) -> Seq<int> {
    children_from(s, id, 0)
}

pub proof fn lemma_children_from(s: Seq<Todo>, id: i64, k: int)
    requires
        0 <= k,
    ensures
        forall|m: int|
            0 <= m < children_from(s, id, k).len() ==> k <= #[trigger] children_from(s, id, k)[m]
                < s.len() && s[children_from(s, id, k)[m]].parent_id == Some(id),
        forall|c: int|
            k <= c < s.len() && s[c].parent_id == Some(id) ==> children_from(s, id, k).contains(c),
        forall|m1: int, m2: int|
            0 <= m1 < m2 < children_from(s, id, k).len() ==> children_from(s, id, k)[m1]
                < children_from(s, id, k)[m2],
    decreases s.len() - k,
{
    if k < s.len() {
        lemma_children_from(s, id, k + 1);
        let rest = children_from(s, id, k + 1);
        if s[k].parent_id == Some(id) {
            let cur = children_from(s, id, k);
            assert(cur == seq![k] + rest);
            assert forall|c: int| k <= c < s.len() && s[c].parent_id == Some(id) implies cur.contains(
                c,
            ) by {
                if c == k {
                    assert(cur[0] == k);
                } else {
                    assert(rest.contains(c));
                    let m = choose|m: int| 0 <= m < rest.len() && rest[m] == c;
                    assert(cur[m + 1] == c);
                }
            }
            assert forall|m1: int, m2: int| 0 <= m1 < m2 < cur.len() implies cur[m1] < cur[m2] by {
                if m1 > 0 {
                    assert(cur[m1] == rest[m1 - 1]);
                    assert(cur[m2] == rest[m2 - 1]);
                } else {
                    assert(cur[m2] == rest[m2 - 1]);
                }
            }
        } else {
            assert forall|c: int| k <= c < s.len() && s[c].parent_id == Some(id) implies children_from(
                s,
                id,
                k,
            ).contains(c) by {
                assert(c != k);
            }
        }
    }
}

/// Indices of the direct children of `id`, in list order.
pub fn child_indices(todos: &Vec<Todo>, id: i64) -> (r: Vec<usize>)
    ensures
        as_ints(r@) == children_of(todos@, id),
        forall|m: int| 0 <= m < r@.len() ==> r@[m] < todos.len(),
{
    let mut out: Vec<usize> = Vec::new();
    let mut k: usize = 0;
    while k < todos.len()
        invariant
            k <= todos.len(),
            as_ints(out@) + children_from(todos@, id, k as int) == children_of(todos@, id),
            forall|m: int| 0 <= m < out@.len() ==> out@[m] < k,
        decreases todos.len() - k,
    {
        if todos[k].parent_id == Some(id) {
            let ghost old_out = out@;
            out.push(k);
            assert(as_ints(out@) == as_ints(old_out) + seq![k as int]);
            assert(children_from(todos@, id, k as int) == seq![k as int] + children_from(
                todos@,
                id,
                k + 1,
            ));
            assert(as_ints(out@) + children_from(todos@, id, k + 1) == as_ints(old_out) + (seq![
                k as int,
            ] + children_from(todos@, id, k + 1)));
        }
        k = k + 1;
    }
    assert(children_from(todos@, id, k as int) == Seq::<int>::empty());
    assert(as_ints(out@) + Seq::<int>::empty() == as_ints(out@));
    out
}

/// Number of completed items among `children_from(s, id, k)`.
pub open spec fn done_children_from(s: Seq<Todo>, id: i64, k: int) -> nat
    decreases s.len() - k,
{
    if k < 0 || k >= s.len() {
        0
    } else if s[k].parent_id == Some(id) && s[k].done {
        1 + done_children_from(s, id, k + 1)
    } else {
        done_children_from(s, id, k + 1)
    }
}

/// (completed direct children, all direct children) of `parent_id`.
pub fn children_done(todos: &Vec<Todo>, parent_id: i64) -> (r: (usize, usize))
    ensures
        r.0 == done_children_from(todos@, parent_id, 0),
        r.1 == children_of(todos@, parent_id).len(),
{
    let mut done: usize = 0;
    let mut total: usize = 0;
    let mut k: usize = 0;
    while k < todos.len()
        invariant
            k <= todos.len(),
            done <= total <= k,
            done + done_children_from(todos@, parent_id, k as int) == done_children_from(
                todos@,
                parent_id,
                0,
            ),
            total + children_from(todos@, parent_id, k as int).len() == children_of(
                todos@,
                parent_id,
            ).len(),
        decreases todos.len() - k,
    {
        if todos[k].parent_id == Some(parent_id) {
            total = total + 1;
            if todos[k].done {
                done = done + 1;
            }
        }
        k = k + 1;
    }
    (done, total)
}

/// The subtree under `id` has no downward path longer than `n` links (mutually recursive
/// with `forest_within`).
pub open spec fn below_within(s: Seq<Todo>, id: i64, n: nat) -> bool
    decreases n, 1int, 0int,
{
    forest_within(s, children_of(s, id), n)
}

/// Each of the items `cs` sits on top of a subtree with no downward path longer than `n - 1`.
pub open spec fn forest_within(s: Seq<Todo>, cs: Seq<int>, n: nat) -> bool
    decreases n, 0int, cs.len(),
{
    if cs.len() == 0 {
        true
    } else {
        n > 0 && 0 <= cs[0] < s.len() && below_within(s, s[cs[0]].id, (n - 1) as nat)
            && forest_within(s, cs.drop_first(), n)
    }
}

/// The recursion that collects descendants of `id` ends.
pub open spec fn bounded_below(s: Seq<Todo>, id: i64) -> bool {
    below_within(s, id, s.len())
}

/// Descendants of `id` in depth-first pre-order, each child before its own children.
pub open spec fn desc(s: Seq<Todo>, id: i64, n: nat) -> Seq<int>
    decreases n, 1int, 0int,
{
    desc_list(s, children_of(s, id), n)
}

pub open spec fn desc_list(s: Seq<Todo>, cs: Seq<int>, n: nat) -> Seq<int>
    decreases n, 0int, cs.len(),
{
    if cs.len() == 0 || n == 0 {
        seq![]
    } else {
        seq![cs[0]] + desc(s, s[cs[0]].id, (n - 1) as nat) + desc_list(s, cs.drop_first(), n)
    }
}

/// Descendants of `id` (depth-first, pre-order).
pub open spec fn descendants_of(s: Seq<Todo>, id: i64) -> Seq<int> {
    desc(s, id, s.len())
}

/// Height of the subtree rooted at `id`: 1 for an item without children.
pub open spec fn height(s: Seq<Todo>, id: i64, n: nat) -> nat
    decreases n, 1int, 0int,
{
    1 + height_list(s, children_of(s, id), n)
}

pub open spec fn height_list(s: Seq<Todo>, cs: Seq<int>, n: nat) -> nat
    decreases n, 0int, cs.len(),
{
    if cs.len() == 0 || n == 0 {
        0
    } else {
        let h = height(s, s[cs[0]].id, (n - 1) as nat);
        let rest = height_list(s, cs.drop_first(), n);
        if h >= rest {
            h
        } else {
            rest
        }
    }
}

pub open spec fn subtree_height_of(s: Seq<Todo>, id: i64) -> nat {
    height(s, id, s.len())
}

/// Whether the subtree under `id` has no downward path longer than `fuel` links.
pub fn below_check(todos: &Vec<Todo>, id: i64, fuel: usize) -> (r: bool)
    ensures
        r == below_within(todos@, id, fuel as nat),
    decreases fuel,
{
    let ghost s = todos@;
    let ghost n = fuel as nat;
    let cs = child_indices(todos, id);
    let ghost csi = as_ints(cs@);
    let mut k: usize = 0;
    assert(csi.skip(0) == csi);
    while k < cs.len()
        invariant
            k <= cs.len(),
            s == todos@,
            n == fuel as nat,
            csi == as_ints(cs@),
            csi == children_of(s, id),
            forall|m: int| 0 <= m < cs@.len() ==> cs@[m] < todos.len(),
            below_within(s, id, n) == forest_within(s, csi.skip(k as int), n),
        decreases cs.len() - k,
    {
        let c = cs[k];
        let ghost rest = csi.skip(k as int);
        assert(rest[0] == c as int);
        assert(rest.drop_first() == csi.skip(k + 1));
        if fuel == 0 {
            return false;
        }
        if !below_check(todos, todos[c].id, fuel - 1) {
            return false;
        }
        k = k + 1;
    }
    assert(csi.skip(k as int).len() == 0);
    true
}

fn descendants_rec(todos: &Vec<Todo>, id: i64, Ghost(n): Ghost<nat>) -> (r: Vec<usize>)
    requires
        below_within(todos@, id, n),
    ensures
        as_ints(r@) == desc(todos@, id, n),
        forall|m: int| 0 <= m < r@.len() ==> r@[m] < todos.len(),
    decreases n,
{
    let ghost s = todos@;
    let cs = child_indices(todos, id);
    let ghost csi = as_ints(cs@);
    let mut out: Vec<usize> = Vec::new();
    let mut k: usize = 0;
    assert(csi.skip(0) == csi);
    while k < cs.len()
        invariant
            k <= cs.len(),
            s == todos@,
            csi == as_ints(cs@),
            csi == children_of(s, id),
            forall|m: int| 0 <= m < cs@.len() ==> cs@[m] < todos.len(),
            forest_within(s, csi.skip(k as int), n),
            as_ints(out@) + desc_list(s, csi.skip(k as int), n) == desc(s, id, n),
            forall|m: int| 0 <= m < out@.len() ==> out@[m] < todos.len(),
        decreases cs.len() - k,
    {
        let c = cs[k];
        let ghost rest = csi.skip(k as int);
        assert(rest[0] == c as int);
        assert(rest.drop_first() == csi.skip(k + 1));
        let sub = descendants_rec(todos, todos[c].id, Ghost((n - 1) as nat));
        let ghost old_out = out@;
        out.push(c);
        let mut j: usize = 0;
        while j < sub.len()
            invariant
                j <= sub.len(),
                as_ints(out@) == as_ints(old_out) + seq![c as int] + as_ints(sub@).take(j as int),
                forall|m: int| 0 <= m < out@.len() ==> out@[m] < todos.len(),
                forall|m: int| 0 <= m < sub@.len() ==> sub@[m] < todos.len(),
            decreases sub.len() - j,
        {
            let ghost before = out@;
            out.push(sub[j]);
            assert(as_ints(sub@).take(j + 1) == as_ints(sub@).take(j as int) + seq![sub@[j as int] as int]);
            assert(as_ints(out@) == as_ints(before) + seq![sub@[j as int] as int]);
            j = j + 1;
        }
        assert(as_ints(sub@).take(j as int) == as_ints(sub@));
        k = k + 1;
    }
    assert(csi.skip(k as int).len() == 0);
    assert(as_ints(out@) + Seq::<int>::empty() == as_ints(out@));
    out
}

/// Indices of all descendants of `id` in depth-first pre-order.
pub fn descendant_indices(todos: &Vec<Todo>, id: i64) -> (r: Vec<usize>)
    requires
        bounded_below(todos@, id),
    ensures
        as_ints(r@) == descendants_of(todos@, id),
        forall|m: int| 0 <= m < r@.len() ==> r@[m] < todos.len(),
{
    descendants_rec(todos, id, Ghost(todos@.len()))
}


proof fn lemma_height_bound(s: Seq<Todo>, id: i64, n: nat)
    ensures
        height(s, id, n) <= n + 1,
    decreases n, 1int, 0int,
{
    lemma_height_list_bound(s, children_of(s, id), n);
}

proof fn lemma_height_list_bound(s: Seq<Todo>, cs: Seq<int>, n: nat)
    ensures
        height_list(s, cs, n) <= n,
    decreases n, 0int, cs.len(),
{
    if cs.len() > 0 && n > 0 {
        lemma_height_bound(s, s[cs[0]].id, (n - 1) as nat);
        lemma_height_list_bound(s, cs.drop_first(), n);
    }
}

fn height_rec(todos: &Vec<Todo>, id: i64, Ghost(n): Ghost<nat>) -> (r: usize)
    requires
        below_within(todos@, id, n),
        n < usize::MAX,
    ensures
        r == height(todos@, id, n),
    decreases n,
{
    let ghost s = todos@;
    let cs = child_indices(todos, id);
    let ghost csi = as_ints(cs@);
    let mut best: usize = 0;
    let mut k: usize = cs.len();
    proof {
        lemma_height_list_bound(s, csi, n);
    }
    // Fold from the back so that `best` is the height of the remaining suffix.
    while k > 0
        invariant
            k <= cs.len(),
            s == todos@,
            csi == as_ints(cs@),
            csi == children_of(s, id),
            n < usize::MAX,
            forall|m: int| 0 <= m < cs@.len() ==> cs@[m] < todos.len(),
            forest_within(s, csi, n),
            best == height_list(s, csi.skip(k as int), n),
            best <= n,
        decreases k,
    {
        k = k - 1;
        let ghost rest = csi.skip(k as int);
        assert(rest.drop_first() == csi.skip(k + 1));
        proof {
            lemma_forest_skip(s, csi, n, k as int);
            lemma_height_bound(s, s[csi[k as int]].id, (n - 1) as nat);
        }
        let c = cs[k];
        let h = height_rec(todos, todos[c].id, Ghost((n - 1) as nat));
        if h >= best {
            best = h;
        }
    }
    assert(csi.skip(0) == csi);
    1 + best
}

proof fn lemma_forest_skip(s: Seq<Todo>, cs: Seq<int>, n: nat, k: int)
    requires
        forest_within(s, cs, n),
        0 <= k < cs.len(),
    ensures
        n > 0,
        0 <= cs[k] < s.len(),
        below_within(s, s[cs[k]].id, (n - 1) as nat),
    decreases k,
{
    if k > 0 {
        lemma_forest_skip(s, cs.drop_first(), n, k - 1);
        assert(cs.drop_first()[k - 1] == cs[k]);
    }
}

/// Height of the subtree rooted at `id` (1 when it has no children).
pub fn subtree_height(todos: &Vec<Todo>, id: i64) -> (r: usize)
    requires
        bounded_below(todos@, id),
        todos.len() < usize::MAX,
    ensures
        r == subtree_height_of(todos@, id),
{
    height_rec(todos, id, Ghost(todos@.len()))
}

/// Depth of the item with id `id` (0 for a top-level item, 0 as well when absent).
pub open spec fn depth_spec(s: Seq<Todo>, id: i64) -> nat {
    match find_index(s, id) {
        None => 0,
        Some(i) => ancestors_of(s, i).len(),
    }
}

/// The upward walk from the item with id `id` (when present) ends.
pub open spec fn rooted_id(s: Seq<Todo>, id: i64) -> bool {
    match find_index(s, id) {
        None => true,
        Some(i) => rooted(s, i),
    }
}

/// Depth of the item `id`: how many ancestors it has.
pub fn depth_of_id(todos: &Vec<Todo>, id: i64) -> (r: usize)
    requires
        rooted_id(todos@, id),
    ensures
        r == depth_spec(todos@, id),
{
    match find(todos, id) {
        None => 0,
        Some(i) => {
            proof {
                lemma_find_index(todos@, id);
            }
            ancestor_indices(todos, i).len()
        },
    }
}

/// Depth of `todo` within `todos`, counting the ancestors reached from its parent id.
pub open spec fn depth_in(s: Seq<Todo>, todo: Todo) -> nat {
    match todo.parent_id {
        None => 0,
        Some(p) => match find_index(s, p) {
            None => 0,
            Some(j) => 1 + ancestors_of(s, j).len(),
        },
    }
}

/// The upward walk starting at `todo`'s parent ends.
pub open spec fn rooted_from(s: Seq<Todo>, todo: Todo) -> bool {
    match todo.parent_id {
        None => true,
        Some(p) => rooted_id(s, p),
    }
}

/// Depth of `todo` among `todos` (top level = 0): the parent links are followed upward.
pub fn depth_of(todos: &[Todo], todo: &Todo) -> (r: usize)
    requires
        rooted_from(todos@, *todo),
        todos.len() < usize::MAX,
    ensures
        r == depth_in(todos@, *todo),
{
    match todo.parent_id {
        None => 0,
        Some(p) => match find(todos, p) {
            None => 0,
            Some(j) => {
                proof {
                    lemma_find_index(todos@, p);
                }
                let a = ancestor_indices(todos, j);
                proof {
                    lemma_chain_len(todos@, j as int, todos@.len());
                }
                1 + a.len()
            },
        },
    }
}

pub proof fn lemma_chain_len(s: Seq<Todo>, i: int, fuel: nat)
    ensures
        chain(s, i, fuel).len() <= fuel,
    decreases fuel,
{
    if fuel > 0 {
        if let Some(j) = parent_index(s, i) {
            lemma_chain_len(s, j, (fuel - 1) as nat);
        }
    }
}

/// Some ancestor of the item at `i` is collapsed, which hides it.
pub open spec fn hidden(s: Seq<Todo>, i: int) -> bool {
    exists|k: int|
        0 <= k < ancestors_of(s, i).len() && #[trigger] s[ancestors_of(s, i)[k]].collapsed
}

/// Index of the first item that has the same id as the item at `k`: an item is looked up
/// by its id, so that is the one whose ancestors decide whether it is shown.
pub open spec fn first_same_id(s: Seq<Todo>, k: int) -> int {
    match find_index(s, s[k].id) {
        Some(j) => j,
        None => k,
    }
}

/// The item at `k` is shown: no collapsed item is among the ancestors of the item that its
/// id leads to.
pub open spec fn shown(s: Seq<Todo>, k: int) -> bool {
    !hidden(s, first_same_id(s, k))
}

/// The walk up from every item reached by looking up some item's id ends.
pub open spec fn id_walks_end(s: Seq<Todo>) -> bool {
    forall|k: int| 0 <= k < s.len() ==> #[trigger] rooted(s, first_same_id(s, k))
}

/// Indices from `k` on, in order, of the shown items.
pub open spec fn visible_from(s: Seq<Todo>, k: int) -> Seq<int>
    decreases s.len() - k,
{
    if k < 0 || k >= s.len() {
        seq![]
    } else if shown(s, k) {
        seq![k] + visible_from(s, k + 1)
    } else {
        visible_from(s, k + 1)
    }
}

/// Indices, in list order, of the items shown on screen.
pub open spec fn visible_of(s: Seq<Todo>) -> Seq<int> {
    visible_from(s, 0)
}

pub proof fn lemma_visible_from(s: Seq<Todo>, k: int)
    requires
        0 <= k,
    ensures
        forall|m: int|
            0 <= m < visible_from(s, k).len() ==> k <= #[trigger] visible_from(s, k)[m] < s.len()
                && shown(s, visible_from(s, k)[m]),
        forall|i: int| k <= i < s.len() && shown(s, i) ==> visible_from(s, k).contains(i),
    decreases s.len() - k,
{
    if k < s.len() {
        lemma_visible_from(s, k + 1);
        let rest = visible_from(s, k + 1);
        if shown(s, k) {
            let cur = visible_from(s, k);
            assert(cur == seq![k] + rest);
            assert forall|i: int| k <= i < s.len() && shown(s, i) implies cur.contains(i) by {
                if i == k {
                    assert(cur[0] == k);
                } else {
                    assert(rest.contains(i));
                    let m = choose|m: int| 0 <= m < rest.len() && rest[m] == i;
                    assert(cur[m + 1] == i);
                }
            }
        } else {
            assert forall|i: int| k <= i < s.len() && shown(s, i) implies visible_from(
                s,
                k,
            ).contains(i) by {
                assert(i != k);
            }
        }
    }
}

/// When every walk up ends, so does every walk from an item found by id.
pub proof fn lemma_rooted_walks(s: Seq<Todo>)
    requires
        all_rooted(s),
    ensures
        id_walks_end(s),
{
    assert forall|k: int| 0 <= k < s.len() implies #[trigger] rooted(s, first_same_id(s, k)) by {
        lemma_find_index(s, s[k].id);
    }
}

fn is_hidden(todos: &Vec<Todo>, i: usize) -> (r: bool)
    requires
        i < todos.len(),
        rooted(todos@, i as int),
    ensures
        r == hidden(todos@, i as int),
{
    let anc = ancestor_indices(todos, i);
    let ghost a = ancestors_of(todos@, i as int);
    let mut k: usize = 0;
    while k < anc.len()
        invariant
            k <= anc.len(),
            as_ints(anc@) == a,
            a == ancestors_of(todos@, i as int),
            forall|m: int| 0 <= m < anc@.len() ==> anc@[m] < todos.len(),
            forall|m: int| 0 <= m < k ==> !todos@[#[trigger] a[m]].collapsed,
        decreases anc.len() - k,
    {
        assert(a[k as int] == anc@[k as int] as int);
        if todos[anc[k]].collapsed {
            return true;
        }
        k = k + 1;
    }
    false
}

/// Indices of the shown items: those whose id leads to an item with no collapsed ancestor.
pub fn visible_indices(todos: &Vec<Todo>) -> (r: Vec<usize>)
    requires
        id_walks_end(todos@),
    ensures
        as_ints(r@) == visible_of(todos@),
        forall|m: int| 0 <= m < r@.len() ==> r@[m] < todos.len(),
{
    let mut out: Vec<usize> = Vec::new();
    let mut k: usize = 0;
    while k < todos.len()
        invariant
            k <= todos.len(),
            id_walks_end(todos@),
            as_ints(out@) + visible_from(todos@, k as int) == visible_of(todos@),
            forall|m: int| 0 <= m < out@.len() ==> out@[m] < k,
        decreases todos.len() - k,
    {
        let j = match find(todos, todos[k].id) {
            Some(j) => j,
            None => k,
        };
        proof {
            lemma_find_index(todos@, todos@[k as int].id);
            assert(j as int == first_same_id(todos@, k as int));
            assert(rooted(todos@, first_same_id(todos@, k as int)));
        }
        if !is_hidden(todos, j) {
            let ghost old_out = out@;
            out.push(k);
            assert(as_ints(out@) == as_ints(old_out) + seq![k as int]);
            assert(as_ints(out@) + visible_from(todos@, k + 1) == as_ints(old_out) + (seq![
                k as int,
            ] + visible_from(todos@, k + 1)));
        }
        k = k + 1;
    }
    assert(as_ints(out@) + Seq::<int>::empty() == as_ints(out@));
    out
}


/// Indices of the top-level items among the first `k`, in list order.
pub open spec fn tops(s: Seq<Todo>, k: int) -> Seq<int>
    decreases k,
{
    if k <= 0 || k > s.len() {
        seq![]
    } else if s[k - 1].parent_id is None {
        tops(s, k - 1).push(k - 1)
    } else {
        tops(s, k - 1)
    }
}

/// Each top-level item among the first `k` followed by its whole subtree (depth-first,
/// pre-order): the order in which the list is shown.
pub open spec fn tree_order_upto(s: Seq<Todo>, k: int) -> Seq<int>
    decreases k,
{
    if k <= 0 || k > s.len() {
        seq![]
    } else if s[k - 1].parent_id is None {
        tree_order_upto(s, k - 1) + (seq![k - 1] + descendants_of(s, s[k - 1].id))
    } else {
        tree_order_upto(s, k - 1)
    }
}

/// Index order of the whole list laid out as a tree.
pub open spec fn tree_order_of(s: Seq<Todo>) -> Seq<int> {
    tree_order_upto(s, s.len() as int)
}

/// The subtree of every top-level item is finite.
pub open spec fn tops_bounded(s: Seq<Todo>) -> bool {
    forall|i: int| 0 <= i < s.len() && s[i].parent_id is None ==> #[trigger] bounded_below(s, s[i].id)
}

/// Lays `all` (already sorted: open before done, then by position) out as a tree: each
/// top-level item followed by its descendants, children right after their parent. Items
/// whose parent is missing from the list are left out.
pub fn tree_order(all: &Vec<Todo>) -> (r: Vec<Todo>)
    requires
        tops_bounded(all@),
    ensures
        r@ == tree_order_of(all@).map_values(|k: int| all@[k]),
{
    let ghost s = all@;
    let mut out: Vec<Todo> = Vec::new();
    let mut k: usize = 0;
    while k < all.len()
        invariant
            k <= all.len(),
            s == all@,
            tops_bounded(s),
            out@ == tree_order_upto(s, k as int).map_values(|j: int| s[j]),
        decreases all.len() - k,
    {
        if all[k].parent_id.is_none() {
            let ghost before = out@;
            out.push(all[k].clone());
            let below = descendant_indices(all, all[k].id);
            let mut m: usize = 0;
            while m < below.len()
                invariant
                    m <= below.len(),
                    k < all.len(),
                    s == all@,
                    as_ints(below@) == descendants_of(s, s[k as int].id),
                    forall|x: int| 0 <= x < below@.len() ==> below@[x] < s.len(),
                    out@ == before + (seq![k as int] + descendants_of(s, s[k as int].id).take(
                        m as int,
                    )).map_values(|j: int| s[j]),
                decreases below.len() - m,
            {
                assert(descendants_of(s, s[k as int].id)[m as int] == below@[m as int] as int);
                out.push(all[below[m]].clone());
                assert(descendants_of(s, s[k as int].id).take(m + 1) == descendants_of(
                    s,
                    s[k as int].id,
                ).take(m as int).push(below@[m as int] as int));
                assert(seq![k as int] + descendants_of(s, s[k as int].id).take(m + 1) == (seq![
                    k as int,
                ] + descendants_of(s, s[k as int].id).take(m as int)).push(below@[m as int] as int));
                m = m + 1;
            }
            assert(descendants_of(s, s[k as int].id).take(m as int) == descendants_of(
                s,
                s[k as int].id,
            ));
            let ghost block = seq![k as int] + descendants_of(s, s[k as int].id);
            assert(tree_order_upto(s, k + 1) == tree_order_upto(s, k as int) + block);
            assert((tree_order_upto(s, k as int) + block).map_values(|j: int| s[j]) =~= tree_order_upto(
                s,
                k as int,
            ).map_values(|j: int| s[j]) + block.map_values(|j: int| s[j]));
        }
        k = k + 1;
    }
    out
}

} // verus!

verus! {

/// Each entry of `r` (indices into `s`) whose parent is `id` or comes earlier in `r`.
pub open spec fn hangs_below(s: Seq<Todo>, r: Seq<int>, p: int, id: Option<i64>) -> bool {
    s[r[p]].parent_id == id || exists|q: int|
        0 <= q < p && s[r[p]].parent_id == Some(#[trigger] s[r[q]].id)
}

#[verifier::spinoff_prover]
#[verifier::rlimit(40)]
proof fn lemma_desc_list_parents(s: Seq<Todo>, id: i64, cs: Seq<int>, n: nat)
    requires
        forall|m: int| 0 <= m < cs.len() ==> 0 <= #[trigger] cs[m] < s.len() && s[cs[m]].parent_id == Some(id),
    ensures
        forall|p: int|
            0 <= p < desc_list(s, cs, n).len() ==> 0 <= #[trigger] desc_list(s, cs, n)[p] < s.len()
                && hangs_below(s, desc_list(s, cs, n), p, Some(id)),
    decreases n, cs.len(),
{
    if cs.len() > 0 && n > 0 {
        let c0 = cs[0];
        let cid = s[c0].id;
        let kids = children_of(s, cid);
        lemma_children_from(s, cid, 0);
        assert forall|m: int| 0 <= m < kids.len() implies 0 <= #[trigger] kids[m] < s.len()
            && s[kids[m]].parent_id == Some(cid) by {}
        lemma_desc_list_parents(s, cid, kids, (n - 1) as nat);
        let rest = cs.drop_first();
        assert forall|m: int| 0 <= m < rest.len() implies 0 <= #[trigger] rest[m] < s.len()
            && s[rest[m]].parent_id == Some(id) by {
            assert(rest[m] == cs[m + 1]);
        }
        lemma_desc_list_parents(s, id, rest, n);
        let a = desc(s, cid, (n - 1) as nat);
        let b = desc_list(s, rest, n);
        let d = desc_list(s, cs, n);
        assert(a == desc_list(s, kids, (n - 1) as nat));
        assert(d == seq![c0] + a + b);
        assert forall|p: int| 0 <= p < d.len() implies 0 <= #[trigger] d[p] < s.len()
            && hangs_below(s, d, p, Some(id)) by {
            if p == 0 {
                assert(d[0] == c0);
            } else if p < 1 + a.len() {
                assert(d[p] == a[p - 1]);
                assert(d[0] == c0);
                if s[a[p - 1]].parent_id != Some(cid) {
                    assert(hangs_below(s, a, p - 1, Some(cid)));
                    let q = choose|q: int| 0 <= q < p - 1 && s[a[p - 1]].parent_id == Some(#[trigger] s[a[q]].id);
                    assert(d[q + 1] == a[q]);
                }
            } else {
                let pb = p - 1 - a.len();
                assert(d[p] == b[pb]);
                if s[b[pb]].parent_id != Some(id) {
                    assert(hangs_below(s, b, pb, Some(id)));
                    let q = choose|q: int| 0 <= q < pb && s[b[pb]].parent_id == Some(#[trigger] s[b[q]].id);
                    assert(d[q + 1 + a.len()] == b[q]);
                }
            }
        }
    }
}

proof fn lemma_tree_order_upto_parents(s: Seq<Todo>, k: int)
    requires
        0 <= k <= s.len(),
    ensures
        forall|p: int|
            0 <= p < tree_order_upto(s, k).len() ==> 0 <= #[trigger] tree_order_upto(s, k)[p] < s.len()
                && hangs_below(s, tree_order_upto(s, k), p, None),
    decreases k,
{
    if k > 0 {
        lemma_tree_order_upto_parents(s, k - 1);
        if s[k - 1].parent_id is None {
            let pre = tree_order_upto(s, k - 1);
            let top = k - 1;
            let kids = children_of(s, s[top].id);
            lemma_children_from(s, s[top].id, 0);
            assert forall|m: int| 0 <= m < kids.len() implies 0 <= #[trigger] kids[m] < s.len()
                && s[kids[m]].parent_id == Some(s[top].id) by {}
            lemma_desc_list_parents(s, s[top].id, kids, s.len());
            let a = descendants_of(s, s[top].id);
            let r = tree_order_upto(s, k);
            assert(a == desc_list(s, kids, s.len()));
            assert(r == pre + (seq![top] + a));
            assert forall|p: int| 0 <= p < r.len() implies 0 <= #[trigger] r[p] < s.len()
                && hangs_below(s, r, p, None) by {
                if p < pre.len() {
                    assert(r[p] == pre[p]);
                    if s[pre[p]].parent_id is Some {
                        assert(hangs_below(s, pre, p, None));
                        let q = choose|q: int| 0 <= q < p && s[pre[p]].parent_id == Some(#[trigger] s[pre[q]].id);
                        assert(r[q] == pre[q]);
                    }
                } else if p == pre.len() {
                    assert(r[p] == top);
                } else {
                    let pa = p - pre.len() - 1;
                    assert(r[p] == a[pa]);
                    assert(r[pre.len() as int] == top);
                    if s[a[pa]].parent_id != Some(s[top].id) {
                        assert(hangs_below(s, a, pa, Some(s[top].id)));
                        let q = choose|q: int| 0 <= q < pa && s[a[pa]].parent_id == Some(#[trigger] s[a[q]].id);
                        assert(r[q + pre.len() + 1] == a[q]);
                    }
                }
            }
        }
    }
}

/// In the tree layout every item comes after its parent: an item listed with a parent id
/// has an earlier entry carrying that id.
pub proof fn lemma_tree_order_parent_first(s: Seq<Todo>)
    ensures
        forall|p: int| #![trigger tree_order_of(s)[p]]
            0 <= p < tree_order_of(s).len() ==> 0 <= tree_order_of(s)[p] < s.len() && (s[tree_order_of(s)[p]].parent_id matches Some(pid) ==> exists|q: int|
                0 <= q < p && s[#[trigger] tree_order_of(s)[q]].id == pid),
{
    lemma_tree_order_upto_parents(s, s.len() as int);
    let r = tree_order_of(s);
    assert forall|p: int| #![trigger r[p]] 0 <= p < r.len() implies 0 <= r[p] < s.len() && (s[r[p]].parent_id matches Some(pid) ==> exists|q: int|
                0 <= q < p && s[#[trigger] r[q]].id == pid) by {
        assert(hangs_below(s, r, p, None));
        if let Some(pid) = s[r[p]].parent_id {
            let q = choose|q: int| 0 <= q < p && s[r[p]].parent_id == Some(#[trigger] s[r[q]].id);
            assert(s[r[q]].id == pid);
        }
    }
}

} // verus!

verus! {

/// The item reached by walking `k` parent links up from `x`.
pub open spec fn up(s: Seq<Todo>, x: int, k: nat) -> Option<int>
    decreases k,
{
    if k == 0 {
        Some(x)
    } else {
        match parent_index(s, x) {
            None => None,
            Some(p) => up(s, p, (k - 1) as nat),
        }
    }
}

proof fn lemma_up_step(s: Seq<Todo>, x: int, k: nat)
    requires
        0 <= x < s.len(),
    ensures
        up(s, x, k + 1) == (match up(s, x, k) {
            None => None,
            Some(c) => parent_index(s, c),
        }),
        up(s, x, k) matches Some(c) ==> 0 <= c < s.len(),
    decreases k,
{
    if let Some(p) = parent_index(s, x) {
        lemma_find_index(s, s[x].parent_id->0);
        if k > 0 {
            lemma_up_step(s, p, (k - 1) as nat);
        } else {
            assert(up(s, p, 0) == Some(p));
        }
    }
}

proof fn lemma_up_within(s: Seq<Todo>, x: int, r: nat, t: int, k: nat)
    requires
        rooted_within(s, x, k),
        up(s, x, r) == Some(t),
        parent_index(s, t) is None,
    ensures
        r <= k,
    decreases r,
{
    if r > 0 {
        let p = parent_index(s, x)->0;
        lemma_up_within(s, p, (r - 1) as nat, t, (k - 1) as nat);
    }
}

proof fn lemma_desc_list_members(s: Seq<Todo>, cs: Seq<int>, m: nat, k: int)
    requires
        m > 0,
        0 <= k < cs.len(),
    ensures
        desc_list(s, cs, m).contains(cs[k]),
        forall|y: int| #[trigger] desc(s, s[cs[k]].id, (m - 1) as nat).contains(y) ==> desc_list(s, cs, m).contains(y),
    decreases k,
{
    let a = desc(s, s[cs[0]].id, (m - 1) as nat);
    let b = desc_list(s, cs.drop_first(), m);
    let d = desc_list(s, cs, m);
    assert(d == seq![cs[0]] + a + b);
    if k == 0 {
        assert(d[0] == cs[0]);
        assert forall|y: int| #[trigger] a.contains(y) implies d.contains(y) by {
            let i = choose|i: int| 0 <= i < a.len() && a[i] == y;
            assert(d[1 + i] == y);
        }
    } else {
        lemma_desc_list_members(s, cs.drop_first(), m, k - 1);
        assert(cs.drop_first()[k - 1] == cs[k]);
        assert forall|y: int| #[trigger] b.contains(y) implies d.contains(y) by {
            let i = choose|i: int| 0 <= i < b.len() && b[i] == y;
            assert(d[1 + a.len() + i] == y);
        }
    }
}

/// An item `r` parent links below `a` is among the descendants of `a` found with `m >= r`
/// levels of search.
proof fn lemma_reach_desc(s: Seq<Todo>, a: int, x: int, r: nat, m: nat)
    requires
        0 <= x < s.len(),
        up(s, x, r) == Some(a),
        1 <= r <= m,
    ensures
        desc(s, s[a].id, m).contains(x),
    decreases r,
{
    lemma_up_step(s, x, (r - 1) as nat);
    let c = up(s, x, (r - 1) as nat)->0;
    assert(up(s, x, (r - 1) as nat) is Some);
    assert(parent_index(s, c) == Some(a));
    lemma_find_index(s, s[c].parent_id->0);
    let cs = children_of(s, s[a].id);
    lemma_children_from(s, s[a].id, 0);
    assert(cs.contains(c));
    let k = choose|k: int| 0 <= k < cs.len() && cs[k] == c;
    lemma_desc_list_members(s, cs, m, k);
    assert(desc(s, s[a].id, m) == desc_list(s, cs, m));
    if r > 1 {
        lemma_reach_desc(s, c, x, (r - 1) as nat, (m - 1) as nat);
    } else {
        assert(c == x);
    }
}

proof fn lemma_tree_order_upto_blocks(s: Seq<Todo>, k: int, t: int)
    requires
        0 <= t < k <= s.len(),
        s[t].parent_id is None,
    ensures
        tree_order_upto(s, k).contains(t),
        forall|y: int| #[trigger] descendants_of(s, s[t].id).contains(y) ==> tree_order_upto(s, k).contains(y),
    decreases k,
{
    let pre = tree_order_upto(s, k - 1);
    if t < k - 1 {
        lemma_tree_order_upto_blocks(s, k - 1, t);
    }
    if s[k - 1].parent_id is None {
        let block = seq![k - 1] + descendants_of(s, s[k - 1].id);
        assert(tree_order_upto(s, k) == pre + block);
        assert forall|y: int| #[trigger] pre.contains(y) implies tree_order_upto(s, k).contains(y) by {
            let i = choose|i: int| 0 <= i < pre.len() && pre[i] == y;
            assert(tree_order_upto(s, k)[i] == y);
        }
        if t == k - 1 {
            assert(tree_order_upto(s, k)[pre.len() as int] == t);
            assert forall|y: int| #[trigger] descendants_of(s, s[t].id).contains(y) implies tree_order_upto(
                s,
                k,
            ).contains(y) by {
                let i = choose|i: int| 0 <= i < descendants_of(s, s[t].id).len() && descendants_of(s, s[t].id)[i] == y;
                assert(tree_order_upto(s, k)[pre.len() + 1 + i] == y);
            }
        }
    } else {
        assert(t != k - 1);
    }
}

/// In a list whose walks up all end, the tree layout lists every item whose walk up ends
/// at a top-level item.
pub proof fn lemma_tree_order_complete(s: Seq<Todo>, x: int, r: nat)
    requires
        all_rooted(s),
        0 <= x < s.len(),
        up(s, x, r) matches Some(t) && s[t].parent_id is None,
    ensures
        tree_order_of(s).contains(x),
{
    let n = s.len();
    let t = up(s, x, r)->0;
    if r > 0 {
        lemma_up_step(s, x, (r - 1) as nat);
    }
    lemma_up_step(s, x, r);
    assert(0 <= t < n);
    assert(parent_index(s, t) is None);
    assert(rooted(s, x));
    lemma_up_within(s, x, r, t, n);
    lemma_tree_order_upto_blocks(s, n as int, t);
    if r > 0 {
        lemma_reach_desc(s, t, x, r, n);
        assert(descendants_of(s, s[t].id).contains(x));
    } else {
        assert(x == t);
    }
}

} // verus!
