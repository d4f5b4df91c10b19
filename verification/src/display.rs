use vstd::prelude::*;

use crate::text::{push_char, push_str};
use crate::todo::Todo;

verus! {

/// Number of top-level items among the first `k`.
pub open spec fn top_count(s: Seq<Todo>, k: int) -> nat
    decreases k,
{
    if k <= 0 || k > s.len() {
        0
    } else if s[k - 1].parent_id is None {
        top_count(s, k - 1) + 1
    } else {
        top_count(s, k - 1)
    }
}

/// How many top-level items the list holds (the count in the title bar).
pub fn top_level_count(todos: &Vec<Todo>) -> (r: usize)
    ensures
        r == top_count(todos@, todos@.len() as int),
{
    let mut n: usize = 0;
    let mut k: usize = 0;
    while k < todos.len()
        invariant
            k <= todos.len(),
            n == top_count(todos@, k as int),
            n <= k,
        decreases todos.len() - k,
    {
        if todos[k].parent_id.is_none() {
            n = n + 1;
        }
        k = k + 1;
    }
    n
}

/// Index of the last item among the first `k` whose parent is `parent`.
pub open spec fn last_child_upto(s: Seq<Todo>, parent: Option<i64>, k: int) -> Option<int>
    decreases k,
{
    if k <= 0 || k > s.len() {
        None
    } else if s[k - 1].parent_id == parent {
        Some(k - 1)
    } else {
        last_child_upto(s, parent, k - 1)
    }
}

/// The item at `i` is drawn as the last of its siblings (`└` instead of `├`): the last
/// item with the same parent has its id.
pub open spec fn is_last_child_spec(s: Seq<Todo>, i: int) -> bool {
    match last_child_upto(s, s[i].parent_id, s.len() as int) {
        Some(k) => s[k].id == s[i].id,
        None => false,
    }
}

pub fn is_last_child(todos: &Vec<Todo>, i: usize) -> (r: bool)
    requires
        i < todos.len(),
    ensures
        r == is_last_child_spec(todos@, i as int),
{
    let parent = todos[i].parent_id;
    let mut k: usize = todos.len();
    while k > 0
        invariant
            k <= todos.len(),
            i < todos.len(),
            parent == todos@[i as int].parent_id,
            last_child_upto(todos@, parent, todos@.len() as int) == last_child_upto(
                todos@,
                parent,
                k as int,
            ),
        decreases k,
    {
        if todos[k - 1].parent_id == parent {
            return todos[k - 1].id == todos[i].id;
        }
        k = k - 1;
    }
    false
}

/// Checkbox drawn before an item.
pub fn checkbox(done: bool) -> (r: &'static str)
    ensures
        r@ == (if done {
            "[x] "@
        } else {
            "[ ] "@
        }),
{
    if done {
        "[x] "
    } else {
        "[ ] "
    }
}

/// Fold marker of a top-level item: a triangle when it has children, blanks otherwise.
pub fn fold_marker(has_children: bool, collapsed: bool) -> (r: &'static str)
    ensures
        r@ == (if !has_children {
            "  "@
        } else if collapsed {
            "▸ "@
        } else {
            "▾ "@
        }),
{
    if !has_children {
        "  "
    } else if collapsed {
        "▸ "
    } else {
        "▾ "
    }
}

/// Tree branch drawn before a child item.
pub fn branch(is_last: bool) -> (r: &'static str)
    ensures
        r@ == (if is_last {
            "    └ "@
        } else {
            "    ├ "@
        }),
{
    if is_last {
        "    └ "
    } else {
        "    ├ "
    }
}

/// Statements that bring an old `todos` table with the columns `existing` up to the
/// columns the current schema copies from: each missing column is added (an added
/// position takes the row's id, keeping the old order).
pub open spec fn upgrade_spec(existing: Seq<Seq<char>>) -> Seq<Seq<char>> {
    let has = |name: Seq<char>| existing.contains(name);
    (if has("due_at"@) {
        seq![]
    } else {
        seq!["ALTER TABLE todos ADD COLUMN due_at INTEGER"@]
    }) + (if has("position"@) {
        seq![]
    } else {
        seq![
            "ALTER TABLE todos ADD COLUMN position INTEGER NOT NULL DEFAULT 0"@,
            "UPDATE todos SET position = id"@,
        ]
    }) + (if has("parent_id"@) {
        seq![]
    } else {
        seq!["ALTER TABLE todos ADD COLUMN parent_id INTEGER"@]
    }) + (if has("collapsed"@) {
        seq![]
    } else {
        seq!["ALTER TABLE todos ADD COLUMN collapsed INTEGER NOT NULL DEFAULT 0"@]
    })
}

pub open spec fn name_views(v: Seq<String>) -> Seq<Seq<char>> {
    v.map_values(|s: String| s@)
}

pub open spec fn str_views(v: Seq<&str>) -> Seq<Seq<char>> {
    v.map_values(|s: &str| s@)
}

fn has_column(existing: &Vec<String>, name: &str) -> (r: bool)
    ensures
        r == name_views(existing@).contains(name@),
{
    let target = String::from_str(name);
    let mut k: usize = 0;
    while k < existing.len()
        invariant
            k <= existing.len(),
            target@ == name@,
            forall|j: int| 0 <= j < k ==> existing@[j]@ != name@,
        decreases existing.len() - k,
    {
        if existing[k] == target {
            assert(name_views(existing@)[k as int] == name@);
            return true;
        }
        k = k + 1;
    }
    assert forall|j: int| 0 <= j < name_views(existing@).len() implies name_views(existing@)[j]
        != name@ by {
        assert(name_views(existing@)[j] == existing@[j]@);
    }
    false
}

/// The statements that add the columns an old `todos` table lacks.
pub fn legacy_upgrade(existing: &Vec<String>) -> (r: Vec<&'static str>)
    ensures
        str_views(r@) == upgrade_spec(name_views(existing@)),
{
    let ghost ex = name_views(existing@);
    let mut out: Vec<&'static str> = Vec::new();
    if !has_column(existing, "due_at") {
        out.push("ALTER TABLE todos ADD COLUMN due_at INTEGER");
    }
    if !has_column(existing, "position") {
        out.push("ALTER TABLE todos ADD COLUMN position INTEGER NOT NULL DEFAULT 0");
        out.push("UPDATE todos SET position = id");
    }
    if !has_column(existing, "parent_id") {
        out.push("ALTER TABLE todos ADD COLUMN parent_id INTEGER");
    }
    if !has_column(existing, "collapsed") {
        out.push("ALTER TABLE todos ADD COLUMN collapsed INTEGER NOT NULL DEFAULT 0");
    }
    assert(str_views(out@) =~= upgrade_spec(ex));
    out
}

} // verus!

verus! {

/// Decimal digits of `n >= 0`, without leading zeros.
pub open spec fn nat_decimal(n: int) -> Seq<char>
    decreases n,
{
    if n < 10 {
        seq![('0' as u8 + n as u8) as char]
    } else {
        nat_decimal(n / 10).push(('0' as u8 + (n % 10) as u8) as char)
    }
}

/// `n` written in decimal, with a leading `-` when negative.
pub open spec fn decimal(n: int) -> Seq<char> {
    if n < 0 {
        seq!['-'] + nat_decimal(-n)
    } else {
        nat_decimal(n)
    }
}

/// Appends `m` written in decimal.
fn push_nat(out: &mut String, m: u64)
    ensures
        final(out)@ == old(out)@ + nat_decimal(m as int),
    decreases m,
{
    if m >= 10 {
        push_nat(out, m / 10);
    }
    let c = ('0' as u8 + (m % 10) as u8) as char;
    push_char(out, c);
    proof {
        if m >= 10 {
            assert(nat_decimal(m as int) == nat_decimal((m / 10) as int).push(c));
        } else {
            assert(nat_decimal(m as int) == seq![c]);
        }
    }
}

/// The number in decimal, `-` first when negative (as `i64::to_string` writes it).
fn int_text(n: i64) -> (r: String)
    ensures
        r@ == decimal(n as int),
{
    let mut out = String::new();
    if n < 0 {
        push_char(&mut out, '-');
        let m: u64 = (0i128 - n as i128) as u64;
        push_nat(&mut out, m);
        assert(out@ =~= seq!['-'] + nat_decimal(-n));
    } else {
        push_nat(&mut out, n as u64);
        assert(out@ =~= nat_decimal(n as int));
    }
    out
}

/// The progress shown after a parent: `  (done/total)`, or nothing when it has no children.
pub fn progress_suffix(done: usize, total: usize) -> (r: Option<String>)
    ensures
        total == 0 ==> r is None,
        total > 0 ==> (r matches Some(s) && s@ == seq![' ', ' ', '('] + decimal(done as int) + seq![
            '/',
        ] + decimal(total as int) + seq![')']),
{
    if total == 0 {
        return None;
    }
    let mut out = String::new();
    push_char(&mut out, ' ');
    push_char(&mut out, ' ');
    push_char(&mut out, '(');
    push_nat(&mut out, done as u64);
    push_char(&mut out, '/');
    push_nat(&mut out, total as u64);
    push_char(&mut out, ')');
    assert(out@ =~= seq![' ', ' ', '('] + decimal(done as int) + seq!['/'] + decimal(total as int)
        + seq![')']);
    Some(out)
}

/// Every child of a parent with children is done (its progress is shown as complete).
pub fn all_done(done: usize, total: usize) -> (r: bool)
    ensures
        r == (total > 0 && done == total),
{
    total > 0 && done == total
}

/// `count` copies of two spaces.
pub open spec fn indent_of(count: nat) -> Seq<char>
    decreases count,
{
    if count == 0 {
        seq![]
    } else {
        indent_of((count - 1) as nat) + seq![' ', ' ']
    }
}

/// One line of the command-line listing: indentation by depth, the checkbox, `#id`, the
/// text and, when the item has one, its due date.
pub open spec fn list_line_spec(depth: nat, t: Todo, due: Option<Seq<char>>) -> Seq<char> {
    indent_of(depth) + seq!['['] + (if t.done {
        seq!['x']
    } else {
        seq![' ']
    }) + seq![']', ' ', '#'] + decimal(t.id as int) + seq![' '] + t.text@ + match due {
        Some(d) => " (마감: "@ + d + seq![')'],
        None => seq![],
    }
}

pub open spec fn opt_view(o: Option<String>) -> Option<Seq<char>> {
    match o {
        Some(s) => Some(s@),
        None => None,
    }
}

/// The command-line listing line of `t` at `depth`, with its due date text `due`.
pub fn list_line(depth: usize, t: &Todo, due: &Option<String>) -> (r: String)
    ensures
        r@ == list_line_spec(depth as nat, *t, opt_view(*due)),
{
    let mut out = String::new();
    let mut k: usize = 0;
    while k < depth
        invariant
            k <= depth,
            out@ == indent_of(k as nat),
        decreases depth - k,
    {
        push_str(&mut out, "  ");
        proof {
            reveal_strlit("  ");
        }
        k = k + 1;
    }
    push_str(&mut out, if t.done { "[x] #" } else { "[ ] #" });
    proof {
        reveal_strlit("[x] #");
        reveal_strlit("[ ] #");
    }
    let id = int_text(t.id);
    push_str(&mut out, id.as_str());
    push_str(&mut out, " ");
    proof {
        reveal_strlit(" ");
    }
    push_str(&mut out, t.text.as_str());
    match due {
        Some(d) => {
            push_str(&mut out, " (마감: ");
            push_str(&mut out, d.as_str());
            push_str(&mut out, ")");
            proof {
                reveal_strlit(")");
            }
        },
        None => {},
    }
    let ghost want = list_line_spec(depth as nat, *t, opt_view(*due));
    assert(out@ =~= want);
    out
}

} // verus!
