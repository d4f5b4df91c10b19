//! The list's commands played through the library's decisions on an in-memory table
//! that stores rows the way the database does (position order, open before done,
//! children deleted with their parent).

use todo_tui::error::Error;
use todo_tui::listing::Listing;
use todo_tui::outline::{depth_of_id, tree_order};
use todo_tui::plans::{IndentPlan, OutdentPlan};
use todo_tui::projects::{
    can_delete_project, neighbor_project, new_project_name, plan_move_project, project_at,
    project_index, shown_project,
};
use todo_tui::text::{quick_add_text, required_text};
use todo_tui::todo::{Project, Todo};
use todo_tui::undo::UndoHistory;

#[derive(Clone)]
struct Row {
    todo: Todo,
    position: i64,
    project: i64,
}

#[derive(Clone)]
struct Snap {
    rows: Vec<Row>,
    projects: Vec<Project>,
}

struct Board {
    rows: Vec<Row>,
    projects: Vec<Project>,
    project_id: i64,
    next_id: i64,
    list: Listing,
    undo: UndoHistory<Snap>,
    status: String,
}

impl Board {
    fn with_todos(n: usize) -> Board {
        let mut b = Board {
            rows: Vec::new(),
            projects: vec![Project { id: 1, name: "기본".to_string() }],
            project_id: 1,
            next_id: 1,
            list: Listing::new(),
            undo: UndoHistory::new(),
            status: String::new(),
        };
        for i in 0..n {
            b.add(&format!("todo {i}"), None);
        }
        b.reload();
        b
    }

    fn with_subtasks() -> Board {
        let mut b = Board::with_todos(2);
        let p0 = b.list.todos[0].id;
        b.add("child A", Some(p0));
        b.add("child B", Some(p0));
        b.reload();
        b
    }

    fn next_position(&self) -> i64 {
        self.rows.iter().map(|r| r.position).max().unwrap_or(0) + 1
    }

    fn add(&mut self, text: &str, parent_id: Option<i64>) -> i64 {
        let id = self.next_id;
        self.next_id += 1;
        let position = self.next_position();
        self.rows.push(Row {
            todo: Todo {
                id,
                text: text.to_string(),
                created_at: 1_700_000_000,
                due_at: None,
                done: false,
                parent_id,
                collapsed: false,
            },
            position,
            project: self.project_id,
        });
        id
    }

    fn row_mut(&mut self, id: i64) -> &mut Row {
        self.rows.iter_mut().find(|r| r.todo.id == id).unwrap()
    }

    fn listed(&self) -> Vec<Todo> {
        let mut rows: Vec<&Row> = self.rows.iter().filter(|r| r.project == self.project_id).collect();
        rows.sort_by_key(|r| (r.todo.done, r.position, r.todo.id));
        let all: Vec<Todo> = rows.iter().map(|r| r.todo.clone()).collect();
        tree_order(&all)
    }

    fn reload(&mut self) {
        if let Some(id) = shown_project(&self.projects, self.project_id) {
            self.project_id = id;
        }
        let todos = self.listed();
        self.list.reload(todos);
    }

    fn texts(&self) -> Vec<String> {
        self.list.todos.iter().map(|t| t.text.clone()).collect()
    }

    fn find(&self, id: i64) -> &Todo {
        self.list.todos.iter().find(|t| t.id == id).unwrap()
    }

    fn id_of(&self, text: &str) -> i64 {
        self.list.todos.iter().find(|t| t.text == text).unwrap().id
    }

    fn select_id(&mut self, id: i64) {
        self.list.select_id_or_keep(Some(id));
    }

    fn selected(&self) -> &Todo {
        &self.list.todos[self.list.selected_index().unwrap()]
    }

    fn depth(&self, id: i64) -> usize {
        depth_of_id(&self.list.todos, id)
    }

    fn push_undo(&mut self) {
        self.undo.push(Snap { rows: self.rows.clone(), projects: self.projects.clone() });
    }

    fn undo(&mut self) {
        match self.undo.pop() {
            None => self.status = "되돌릴 작업이 없어요".to_string(),
            Some(s) => {
                self.rows = s.rows;
                self.projects = s.projects;
                self.reload();
            }
        }
    }

    fn commit_insert(&mut self, input: &str) {
        if let Some(text) = quick_add_text(input) {
            self.push_undo();
            let id = self.add(&text, None);
            self.reload();
            self.select_id(id);
        }
    }

    fn commit_edit(&mut self, id: i64, input: &str) -> Result<(), Error> {
        let text = required_text(input)?;
        self.push_undo();
        self.row_mut(id).todo.text = text;
        self.reload();
        Ok(())
    }

    fn commit_subtask(&mut self, parent_id: i64, input: &str) -> Result<(), Error> {
        let text = required_text(input)?;
        self.push_undo();
        let id = self.add(&text, Some(parent_id));
        let parent = self.row_mut(parent_id);
        parent.todo.done = false;
        parent.todo.collapsed = false;
        self.reload();
        self.select_id(id);
        Ok(())
    }

    fn move_selected(&mut self, delta: isize) {
        if let Some(order) = self.list.plan_reorder(delta) {
            self.push_undo();
            for (i, id) in order.iter().enumerate() {
                self.row_mut(*id).position = i as i64 + 1;
            }
            self.reload();
        }
    }

    fn toggle_done(&mut self) {
        if let Some(updates) = self.list.plan_toggle() {
            self.push_undo();
            for (id, done) in updates {
                self.row_mut(id).todo.done = done;
            }
            self.reload();
        }
    }

    fn set_collapse(&mut self, collapsed: bool) {
        if let Some(id) = self.list.plan_collapse(collapsed) {
            self.row_mut(id).todo.collapsed = collapsed;
            self.reload();
        }
    }

    fn indent_selected(&mut self) {
        match self.list.plan_indent() {
            IndentPlan::Indent { id, parent, reopen_parent } => {
                self.push_undo();
                let position = self.next_position();
                let row = self.row_mut(id);
                row.todo.parent_id = Some(parent);
                row.position = position;
                let p = self.row_mut(parent);
                p.todo.collapsed = false;
                if reopen_parent {
                    p.todo.done = false;
                }
                self.reload();
                self.select_id(id);
            }
            IndentPlan::NoSiblingAbove => self.status = "위에 넣을 형제 항목이 없어요".to_string(),
            IndentPlan::TooDeep => self.status = "3단계까지만 넣을 수 있어요".to_string(),
            IndentPlan::NoSelection => {}
        }
    }

    fn outdent_selected(&mut self) {
        if let OutdentPlan::Outdent { id, parent, order } = self.list.plan_outdent() {
            self.push_undo();
            self.row_mut(id).todo.parent_id = parent;
            for (i, tid) in order.iter().enumerate() {
                self.row_mut(*tid).position = i as i64 + 1;
            }
            self.reload();
            self.select_id(id);
        }
    }

    fn delete_selected(&mut self) {
        if let Some(id) = self.list.selected_id() {
            self.push_undo();
            let mut gone = vec![id];
            loop {
                let more: Vec<i64> = self
                    .rows
                    .iter()
                    .filter(|r| {
                        r.todo.parent_id.is_some_and(|p| gone.contains(&p)) && !gone.contains(&r.todo.id)
                    })
                    .map(|r| r.todo.id)
                    .collect();
                if more.is_empty() {
                    break;
                }
                gone.extend(more);
            }
            self.rows.retain(|r| !gone.contains(&r.todo.id));
            self.reload();
        }
    }

    fn commit_new_project(&mut self, input: &str) -> Result<(), Error> {
        let name = new_project_name(self.projects.len(), input)?;
        self.push_undo();
        let id = self.projects.iter().map(|p| p.id).max().unwrap_or(0) + 1;
        self.projects.push(Project { id, name });
        self.project_id = id;
        self.list.selected = None;
        self.reload();
        Ok(())
    }

    fn select_project(&mut self, idx: usize) {
        if let Some(id) = project_at(&self.projects, idx) {
            self.project_id = id;
            self.list.selected = None;
            self.reload();
        }
    }

    fn move_project(&mut self, delta: isize) {
        if let Some(order) = plan_move_project(&self.projects, self.project_id, delta) {
            self.push_undo();
            let old = self.projects.clone();
            self.projects = order
                .iter()
                .map(|id| old.iter().find(|p| p.id == *id).unwrap().clone())
                .collect();
            self.reload();
        }
    }

    fn move_to_project(&mut self, delta: isize) {
        let Some(target) = neighbor_project(&self.projects, self.project_id, delta) else {
            return;
        };
        let target = self.projects[target].id;
        let Some(i) = self.list.selected_index() else {
            return;
        };
        let id = self.list.todos[i].id;
        let below = todo_tui::outline::descendant_indices(&self.list.todos, id);
        let mut subtree = vec![id];
        subtree.extend(below.iter().map(|&k| self.list.todos[k].id));
        self.push_undo();
        let position = self.next_position();
        for tid in &subtree {
            self.row_mut(*tid).project = target;
        }
        let row = self.row_mut(id);
        row.todo.parent_id = None;
        row.position = position;
        self.reload();
    }

    fn delete_project(&mut self) {
        if !can_delete_project(self.projects.len()) {
            self.status = "마지막 프로젝트는 삭제할 수 없어요".to_string();
            return;
        }
        self.push_undo();
        let pid = self.project_id;
        self.projects.retain(|p| p.id != pid);
        self.rows.retain(|r| r.project != pid);
        self.reload();
    }

    fn project_index(&self) -> usize {
        project_index(&self.projects, self.project_id)
    }

    fn project_names(&self) -> Vec<String> {
        self.projects.iter().map(|p| p.name.clone()).collect()
    }
}

#[test]
fn insert_adds_todo() {
    let mut app = Board::with_todos(0);
    app.commit_insert("장보기");
    assert_eq!(app.list.todos.len(), 1);
    assert_eq!(app.list.todos[0].text, "장보기");
    assert_eq!(app.selected().text, "장보기");
    app.commit_insert("   ");
    assert_eq!(app.list.todos.len(), 1);
}

#[test]
fn edit_updates_selected_text() {
    let mut app = Board::with_todos(2);
    app.list.move_selection(1);
    let id = app.list.selected_id().unwrap();
    app.commit_edit(id, "수정됨").unwrap();
    assert_eq!(app.list.todos[1].text, "수정됨");
}

#[test]
fn move_selected_reorders_and_keeps_selection() {
    let mut app = Board::with_todos(3);
    app.list.selected = Some(0);
    app.move_selected(1);
    assert_eq!(app.texts(), ["todo 1", "todo 0", "todo 2"]);
    assert_eq!(app.selected().text, "todo 0");
    assert_eq!(app.list.selected, Some(1));
}

#[test]
fn move_selected_wraps_at_edges() {
    let mut app = Board::with_todos(3);
    app.list.selected = Some(0);
    app.move_selected(-1);
    assert_eq!(app.texts(), ["todo 1", "todo 2", "todo 0"]);
    assert_eq!(app.selected().text, "todo 0");

    app.move_selected(1);
    assert_eq!(app.texts(), ["todo 0", "todo 1", "todo 2"]);
    assert_eq!(app.selected().text, "todo 0");
}

#[test]
fn toggle_done_sinks_and_restores() {
    let mut app = Board::with_todos(3);
    app.list.selected = Some(0);
    app.toggle_done();
    assert_eq!(app.texts(), ["todo 1", "todo 2", "todo 0"]);
    assert_eq!(app.selected().text, "todo 0");

    app.toggle_done();
    assert_eq!(app.texts(), ["todo 0", "todo 1", "todo 2"]);
    assert_eq!(app.selected().text, "todo 0");
}

#[test]
fn reorder_stays_within_done_group() {
    let mut app = Board::with_todos(3);
    app.list.selected = Some(2);
    app.toggle_done();
    assert_eq!(app.selected().text, "todo 2");

    app.move_selected(-1);
    assert_eq!(app.texts(), ["todo 0", "todo 1", "todo 2"]);
}

#[test]
fn toggle_and_delete() {
    let mut app = Board::with_todos(1);
    app.toggle_done();
    assert!(app.selected().done);
    app.delete_selected();
    assert!(app.list.todos.is_empty());
}

#[test]
fn subtask_moves_with_parent() {
    let mut app = Board::with_subtasks();
    let p0 = app.list.todos[0].id;
    app.select_id(p0);
    app.move_selected(1);
    assert_eq!(app.texts(), ["todo 1", "todo 0", "child A", "child B"]);
    assert_eq!(app.selected().text, "todo 0");
}

#[test]
fn subtask_reorders_only_among_siblings() {
    let mut app = Board::with_subtasks();
    let a = app.id_of("child A");
    app.select_id(a);
    app.move_selected(1);
    assert_eq!(app.texts(), ["todo 0", "child B", "child A", "todo 1"]);
    app.move_selected(1);
    assert_eq!(app.texts(), ["todo 0", "child A", "child B", "todo 1"]);
}

#[test]
fn parent_stays_open_when_all_children_done() {
    let mut app = Board::with_subtasks();
    let p0 = app.list.todos[0].id;
    let a = app.id_of("child A");
    let b = app.id_of("child B");

    app.select_id(a);
    app.toggle_done();
    assert!(!app.find(p0).done);

    app.select_id(b);
    app.toggle_done();
    assert!(!app.find(p0).done);
}

#[test]
fn unchecking_child_reopens_done_parent() {
    let mut app = Board::with_subtasks();
    let p0 = app.list.todos[0].id;
    let a = app.id_of("child A");

    app.select_id(p0);
    app.toggle_done();
    assert!(app.find(p0).done);

    app.select_id(a);
    app.toggle_done();
    assert!(!app.find(p0).done);
}

#[test]
fn unchecking_grandchild_reopens_ancestor_chain() {
    let mut app = Board::with_todos(1);
    let top = app.list.todos[0].id;
    let mid = app.add("mid", Some(top));
    let leaf = app.add("leaf", Some(mid));
    app.reload();

    app.select_id(top);
    app.toggle_done();
    assert!(app.list.todos.iter().all(|t| t.done));

    app.select_id(leaf);
    app.toggle_done();
    assert!(!app.find(top).done);
    assert!(!app.find(mid).done);
    assert!(!app.find(leaf).done);
}

#[test]
fn toggling_parent_cascades_to_children() {
    let mut app = Board::with_subtasks();
    let p0 = app.list.todos[0].id;
    app.select_id(p0);
    app.toggle_done();
    assert!(app.list.todos.iter().filter(|t| t.parent_id == Some(p0)).all(|t| t.done));
    assert!(app.find(p0).done);
}

#[test]
fn collapse_hides_children_from_visible() {
    let mut app = Board::with_subtasks();
    let p0 = app.list.todos[0].id;
    assert_eq!(app.list.visible.len(), 4);
    app.select_id(p0);
    app.set_collapse(true);
    assert_eq!(app.list.visible.len(), 2);
    app.set_collapse(false);
    assert_eq!(app.list.visible.len(), 4);
}

#[test]
fn collapsed_ancestor_hides_grandchildren() {
    let mut app = Board::with_todos(1);
    let top = app.list.todos[0].id;
    let mid = app.add("mid", Some(top));
    app.add("leaf", Some(mid));
    app.reload();
    assert_eq!(app.list.visible.len(), 3);

    app.select_id(top);
    app.set_collapse(true);
    assert_eq!(app.list.visible.len(), 1);
}

#[test]
fn indent_nests_under_item_above() {
    let mut app = Board::with_todos(2);
    let t1 = app.list.todos[1].id;
    app.select_id(t1);
    app.indent_selected();
    assert_eq!(app.find(t1).parent_id, Some(app.list.todos[0].id));
    assert_eq!(app.texts(), ["todo 0", "todo 1"]);
    assert_eq!(app.selected().id, t1);
}

#[test]
fn indent_to_third_level_allowed() {
    let mut app = Board::with_subtasks();
    let b = app.id_of("child B");
    app.select_id(b);
    app.indent_selected();
    let a = app.id_of("child A");
    assert_eq!(app.find(b).parent_id, Some(a));
    assert_eq!(app.depth(b), 2);
}

#[test]
fn indent_refused_beyond_third_level() {
    let mut app = Board::with_subtasks();
    let b = app.id_of("child B");
    app.select_id(b);
    app.indent_selected();
    assert_eq!(app.depth(b), 2);

    let a = app.id_of("child A");
    let c = app.add("child C", Some(a));
    app.reload();
    app.select_id(c);
    app.indent_selected();
    assert_eq!(app.depth(c), 2);
    assert_eq!(app.find(c).parent_id, Some(a));
}

#[test]
fn indent_refused_at_top_of_siblings() {
    let mut app = Board::with_todos(2);
    let t0 = app.list.todos[0].id;
    app.select_id(t0);
    app.indent_selected();
    assert!(app.find(t0).parent_id.is_none());
}

#[test]
fn indent_refused_when_subtree_would_exceed_depth() {
    let mut app = Board::with_todos(2);
    let t1 = app.list.todos[1].id;
    let mid = app.add("mid", Some(t1));
    app.add("leaf", Some(mid));
    app.reload();

    app.select_id(t1);
    app.indent_selected();
    assert!(app.find(t1).parent_id.is_none());
}

#[test]
fn outdent_promotes_child_after_parent_block() {
    let mut app = Board::with_subtasks();
    let a = app.id_of("child A");
    app.select_id(a);
    app.outdent_selected();
    assert!(app.find(a).parent_id.is_none());
    assert_eq!(app.texts(), ["todo 0", "child B", "child A", "todo 1"]);
    assert_eq!(app.selected().id, a);
}

#[test]
fn outdent_grandchild_moves_up_one_level() {
    let mut app = Board::with_todos(1);
    let top = app.list.todos[0].id;
    let mid = app.add("mid", Some(top));
    let leaf = app.add("leaf", Some(mid));
    app.reload();

    app.select_id(leaf);
    app.outdent_selected();
    assert_eq!(app.find(leaf).parent_id, Some(top));
    assert_eq!(app.texts(), ["todo 0", "mid", "leaf"]);
}

#[test]
fn indent_refused_when_done_item_sank_below() {
    let mut app = Board::with_todos(2);
    let t0 = app.list.todos[0].id;
    app.select_id(t0);
    app.toggle_done();
    assert!(app.find(t0).done);
    assert_eq!(app.list.todos[1].id, t0);

    let t1 = app.id_of("todo 1");
    app.select_id(t1);
    app.indent_selected();
    assert!(app.find(t1).parent_id.is_none());
}

#[test]
fn adding_subtask_reopens_completed_parent() {
    let mut app = Board::with_todos(1);
    let p = app.list.todos[0].id;
    app.select_id(p);
    app.toggle_done();
    assert!(app.find(p).done);
    app.commit_subtask(p, "새 하위").unwrap();
    assert!(!app.find(p).done);
}

#[test]
fn delete_keeps_cursor_position() {
    let mut app = Board::with_todos(4);
    app.list.selected = Some(2);
    app.delete_selected();
    assert_eq!(app.list.selected, Some(2));
    assert_eq!(app.selected().text, "todo 3");

    app.delete_selected();
    assert_eq!(app.list.selected, Some(1));
    assert_eq!(app.selected().text, "todo 1");
}

#[test]
fn undo_restores_deleted_todo() {
    let mut app = Board::with_subtasks();
    let p0 = app.list.todos[0].id;
    app.select_id(p0);
    app.delete_selected();
    assert_eq!(app.texts(), ["todo 1"]);

    app.undo();
    assert_eq!(app.texts(), ["todo 0", "child A", "child B", "todo 1"]);
}

#[test]
fn undo_keeps_only_last_five() {
    let mut app = Board::with_todos(0);
    for i in 0..7 {
        app.commit_insert(&format!("t{i}"));
    }
    for _ in 0..5 {
        app.undo();
    }
    assert_eq!(app.texts(), ["t0", "t1"]);

    app.undo();
    assert_eq!(app.texts(), ["t0", "t1"]);
    assert_eq!(app.status, "되돌릴 작업이 없어요");
}

#[test]
fn undo_after_toggle_restores_done_state() {
    let mut app = Board::with_todos(1);
    app.toggle_done();
    assert!(app.selected().done);
    app.undo();
    assert!(!app.selected().done);
}

#[test]
fn projects_switch_create_delete() {
    let mut app = Board::with_todos(1);
    let p1 = app.project_id;
    app.commit_new_project("업무").unwrap();
    let p2 = app.project_id;
    assert_ne!(p1, p2);
    assert!(app.list.todos.is_empty());

    app.commit_insert("회사 일");
    assert_eq!(app.texts(), ["회사 일"]);

    app.select_project(0);
    assert_eq!(app.project_id, p1);
    assert_eq!(app.texts(), ["todo 0"]);

    app.select_project(1);
    assert_eq!(app.project_id, p2);

    app.delete_project();
    assert_eq!(app.project_id, p1);
    assert_eq!(app.projects.len(), 1);

    app.delete_project();
    assert_eq!(app.projects.len(), 1);
}

#[test]
fn project_limit_is_five() {
    let mut app = Board::with_todos(0);
    for i in 0..4 {
        app.commit_new_project(&format!("p{i}")).unwrap();
    }
    assert_eq!(app.projects.len(), 5);
    assert!(matches!(app.commit_new_project("p5"), Err(Error::Invalid(_))));
}

#[test]
fn move_to_project_carries_subtree() {
    let mut app = Board::with_subtasks();
    app.commit_new_project("업무").unwrap();
    app.select_project(0);
    let p0 = app.list.todos[0].id;

    app.select_id(p0);
    app.move_to_project(1);
    assert_eq!(app.texts(), ["todo 1"]);

    app.select_project(1);
    assert_eq!(app.texts(), ["todo 0", "child A", "child B"]);

    app.undo();
    assert!(app.list.todos.is_empty());
    app.select_project(0);
    assert_eq!(app.texts(), ["todo 0", "child A", "child B", "todo 1"]);
}

#[test]
fn move_project_reorders_tabs_and_wraps() {
    let mut app = Board::with_todos(0);
    app.commit_new_project("업무").unwrap();
    app.commit_new_project("사이드").unwrap();
    assert_eq!(app.project_names(), ["기본", "업무", "사이드"]);
    assert_eq!(app.project_index(), 2);

    app.move_project(-1);
    assert_eq!(app.project_names(), ["기본", "사이드", "업무"]);
    assert_eq!(app.project_index(), 1);

    app.move_project(-1);
    assert_eq!(app.project_names(), ["사이드", "기본", "업무"]);
    app.move_project(-1);
    assert_eq!(app.project_names(), ["기본", "업무", "사이드"]);

    app.undo();
    assert_eq!(app.project_names(), ["사이드", "기본", "업무"]);
}

#[test]
fn undo_restores_deleted_project() {
    let mut app = Board::with_todos(1);
    app.commit_new_project("업무").unwrap();
    app.commit_insert("회사 일");

    app.delete_project();
    assert_eq!(app.projects.len(), 1);

    app.undo();
    assert_eq!(app.projects.len(), 2);
    let names = app.project_names();
    assert!(names.contains(&"업무".to_string()));
}

fn set_done(app: &mut Board, id: i64, done: bool) {
    app.row_mut(id).todo.done = done;
    app.reload();
}

#[test]
fn orders_by_position() {
    let mut app = Board::with_todos(0);
    let b = app.add("b", None);
    let a = app.add("a", None);
    app.row_mut(b).position = 2;
    app.row_mut(a).position = 1;
    app.reload();
    assert_eq!(app.list.todos[0].text, "a");
    assert_eq!(app.list.todos[1].text, "b");
}

#[test]
fn done_items_sink_to_bottom() {
    let mut app = Board::with_todos(0);
    let a = app.add("a", None);
    app.add("b", None);
    app.add("c", None);
    set_done(&mut app, a, true);
    assert_eq!(app.texts(), ["b", "c", "a"]);
    set_done(&mut app, a, false);
    assert_eq!(app.texts(), ["a", "b", "c"]);
}

#[test]
fn done_children_sink_within_parent() {
    let mut app = Board::with_todos(0);
    let p = app.add("p", None);
    let c1 = app.add("c1", Some(p));
    app.add("c2", Some(p));
    app.add("q", None);
    set_done(&mut app, c1, true);
    assert_eq!(app.texts(), ["p", "c2", "c1", "q"]);
}

#[test]
fn list_nests_children_after_parent() {
    let mut app = Board::with_todos(0);
    let a = app.add("a", None);
    app.add("b", None);
    app.add("a2", Some(a));
    app.add("a1", Some(a));
    app.reload();
    assert_eq!(app.texts(), ["a", "a2", "a1", "b"]);
}
