use todo_tui::listing::Listing;
use todo_tui::outline::{depth_of_id, tree_order};
use todo_tui::plans::{IndentPlan, OutdentPlan};
use todo_tui::reorder::rotate;
use todo_tui::todo::Todo;
use todo_tui::undo::UndoHistory;

fn node(id: i64, parent_id: Option<i64>, done: bool) -> Todo {
    Todo {
        id,
        text: format!("n{id}"),
        created_at: 0,
        due_at: None,
        done,
        parent_id,
        collapsed: false,
    }
}

fn listing(todos: Vec<Todo>, selected_id: i64) -> Listing {
    let mut l = Listing::new();
    l.reload(todos);
    l.select_id_or_keep(Some(selected_id));
    l
}

#[test]
fn moving_back_restores_the_order() {
    let order = [4, 8, 15, 16, 23];
    for delta in [-7isize, -1, 0, 1, 2, 9] {
        let moved = rotate(&order, 15, delta).unwrap();
        let mut sorted = moved.clone();
        sorted.sort();
        assert_eq!(sorted, [4, 8, 15, 16, 23]);
        assert_eq!(rotate(&moved, 15, -delta).unwrap(), order);
    }
}

#[test]
fn history_keeps_the_latest_five() {
    let mut h = UndoHistory::new();
    for i in 0..7 {
        h.push(i);
    }
    assert_eq!(h.len(), 5);
    let popped: Vec<i32> = std::iter::from_fn(|| h.pop()).collect();
    assert_eq!(popped, [6, 5, 4, 3, 2]);
    assert_eq!(h.len(), 0);
    assert_eq!(h.pop(), None);
    h.push(9);
    assert_eq!(h.pop(), Some(9));
}

#[test]
fn tree_lists_parents_first() {
    let rows = vec![
        node(3, Some(2), false),
        node(1, None, false),
        node(2, Some(1), false),
        node(4, Some(1), true),
        node(5, None, true),
    ];
    let out = tree_order(&rows);
    let ids: Vec<i64> = out.iter().map(|t| t.id).collect();
    assert_eq!(ids, [1, 2, 3, 4, 5]);
    for (p, t) in out.iter().enumerate() {
        if let Some(pid) = t.parent_id {
            assert!(out[..p].iter().any(|u| u.id == pid));
        }
    }
}

#[test]
fn toggling_reaches_subtree_and_reopens_ancestors() {
    let rows = vec![node(1, None, true), node(2, Some(1), true), node(3, Some(2), true), node(4, None, true)];
    let l = listing(rows.clone(), 2);
    assert_eq!(l.plan_toggle().unwrap(), vec![(2, false), (3, false), (1, false)]);
    let open = vec![node(1, None, false), node(2, Some(1), false), node(3, Some(2), false)];
    let l = listing(open, 1);
    assert_eq!(l.plan_toggle().unwrap(), vec![(1, true), (2, true), (3, true)]);
    let l = listing(rows, 3);
    assert_eq!(l.plan_toggle().unwrap(), vec![(3, false), (2, false), (1, false)]);
}

#[test]
fn selection_round_trip() {
    let mut l = listing(vec![node(1, None, false), node(2, None, false), node(3, None, false)], 2);
    for delta in [-4isize, -1, 1, 5] {
        let start = l.selected;
        l.move_selection(delta);
        assert!(l.selected.unwrap() < 3);
        l.move_selection(-delta);
        assert_eq!(l.selected, start);
    }
}

#[test]
fn nesting_stays_within_three_levels() {
    // 4, then 1 > 2 > 3, then 5: nesting 5 under 1 is fine, nesting the three-level 1 is not.
    let rows = vec![
        node(4, None, false),
        node(1, None, false),
        node(2, Some(1), false),
        node(3, Some(2), false),
        node(5, None, false),
    ];
    let l = listing(rows.clone(), 5);
    match l.plan_indent() {
        IndentPlan::Indent { id, parent, reopen_parent } => {
            assert_eq!((id, parent, reopen_parent), (5, 1, true));
            let mut after = rows.clone();
            after[4].parent_id = Some(parent);
            for t in &after {
                assert!(depth_of_id(&after, t.id) < 3);
            }
        }
        _ => panic!("nesting refused"),
    }
    let l = listing(rows.clone(), 1);
    assert!(matches!(l.plan_indent(), IndentPlan::TooDeep));
    let l = listing(rows.clone(), 2);
    assert!(matches!(l.plan_indent(), IndentPlan::NoSiblingAbove));
    let l = listing(rows.clone(), 3);
    match l.plan_outdent() {
        OutdentPlan::Outdent { id, parent, order } => {
            assert_eq!((id, parent, order), (3, Some(1), vec![2, 3]));
        }
        _ => panic!("outdent refused"),
    }
    let l = listing(rows, 4);
    assert!(matches!(l.plan_outdent(), OutdentPlan::AlreadyTop));
}

#[test]
fn subtasks_go_beside_the_deepest_level() {
    let rows = vec![node(1, None, false), node(2, Some(1), false), node(3, Some(2), false)];
    assert_eq!(listing(rows.clone(), 1).subtask_parent(), Some(1));
    assert_eq!(listing(rows.clone(), 2).subtask_parent(), Some(2));
    assert_eq!(listing(rows, 3).subtask_parent(), Some(2));
    assert_eq!(Listing::new().subtask_parent(), None);
}

#[test]
fn tree_lists_every_item_below_a_top() {
    let rows = vec![
        node(7, Some(6), false),
        node(6, Some(5), false),
        node(5, None, false),
        node(9, Some(8), false),
        node(10, None, true),
    ];
    let ids: Vec<i64> = tree_order(&rows).iter().map(|t| t.id).collect();
    assert_eq!(ids, [5, 6, 7, 10]);
}

#[test]
fn reloading_a_tangled_list_keeps_the_old_one() {
    let mut l = listing(vec![node(1, None, false), node(2, None, false)], 2);
    assert!(!l.reload_checked(vec![node(1, Some(2), false), node(2, Some(1), false)]));
    assert_eq!(l.todos.len(), 2);
    assert_eq!(l.selected, Some(1));
    assert!(l.reload_checked(vec![node(2, None, false)]));
    assert_eq!(l.selected, Some(0));
    assert!(l.reload_checked(vec![node(3, None, false), node(3, None, false)]));
    assert_eq!(l.visible, [0, 1]);
}
