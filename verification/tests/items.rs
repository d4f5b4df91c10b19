use todo_tui::clipboard::{clipboard_commands, copy};
use todo_tui::dates::{midnight, parse_due, CalendarDate, WallClock, MAX_EPOCH, MIN_EPOCH};
use todo_tui::display::{
    all_done, progress_suffix,
    branch, checkbox, fold_marker, is_last_child, legacy_upgrade, list_line, top_level_count,
};
use todo_tui::error::Error;
use todo_tui::nesting::{nested, untangled, well_linked};
use todo_tui::outline::{children_done, depth_of, tree_order};
use todo_tui::plans::{ensure_depth, DepthError};
use todo_tui::popup::PopupKind;
use todo_tui::projects::{
    can_add_project, can_delete_project, neighbor_project, new_project_name, project_at,
    project_index, resolve_project, shown_project,
};
use todo_tui::reorder::{rotate, wrap_index};
use todo_tui::text::{quick_add_text, required_name, required_text};
use todo_tui::todo::{Project, Todo};

fn item(id: i64, text: &str, parent_id: Option<i64>) -> Todo {
    Todo {
        id,
        text: text.to_string(),
        created_at: 0,
        due_at: None,
        done: false,
        parent_id,
        collapsed: false,
    }
}

fn project(id: i64, name: &str) -> Project {
    Project { id, name: name.to_string() }
}

fn message(e: Error) -> String {
    match e {
        Error::Invalid(m) => m,
    }
}

#[test]
fn overdue_detection() {
    let mut t = Todo {
        id: 1,
        text: "x".into(),
        created_at: 0,
        due_at: Some(100),
        done: false,
        parent_id: None,
        collapsed: false,
    };
    assert!(t.is_overdue(200));
    assert!(!t.is_overdue(50));
    t.done = true;
    assert!(!t.is_overdue(200));
}

#[test]
fn overdue_needs_a_due_date_strictly_past() {
    let mut t = item(1, "x", None);
    assert!(!t.is_overdue(i64::MAX));
    t.due_at = Some(100);
    assert!(!t.is_overdue(100));
    assert!(t.is_overdue(101));
}

#[test]
fn parse_due_cases() {
    assert_eq!(parse_due("").unwrap(), None);
    assert_eq!(parse_due("   ").unwrap(), None);
    assert!(parse_due("2026-07-01").unwrap().is_some());
    assert!(parse_due("not-a-date").is_err());
    assert!(parse_due("2026/07/01").is_err());
}

#[test]
fn parse_due_reads_local_midnight() {
    // 2026-07-01 00:00 UTC; local midnight lies within a day of it in every time zone.
    let utc_midnight = 1_782_864_000i64;
    let t = parse_due("  2026-07-01 ").unwrap().unwrap();
    assert!((t - utc_midnight).abs() <= 24 * 3600);
    assert_eq!(parse_due("2026-07-02").unwrap().unwrap() - t, 24 * 3600);
}

#[test]
fn parse_due_error_message() {
    let e = parse_due("2026/07/01").unwrap_err();
    assert_eq!(message(e), "날짜 형식은 YYYY-MM-DD 여야 합니다");
    assert!(parse_due("2026-02-30").is_err());
}

#[test]
fn timestamps_out_of_range_print_a_question_mark() {
    let mut t = item(1, "x", None);
    t.created_at = MAX_EPOCH + 1;
    assert_eq!(t.created_at_string(), "?");
    t.created_at = MIN_EPOCH - 1;
    assert_eq!(t.created_at_string(), "?");
    t.due_at = Some(i64::MAX);
    assert_eq!(t.due_string(), Some("?".to_string()));
    t.due_at = Some(i64::MIN);
    assert_eq!(t.due_string(), Some("?".to_string()));
}

#[test]
fn timestamps_in_range_print_date_and_time() {
    let mut t = item(1, "x", None);
    t.created_at = 1_782_864_000;
    let s = t.created_at_string();
    assert_eq!(s.chars().count(), 16);
    assert!(s.starts_with("2026-0"));
    assert_eq!(&s[4..5], "-");
    assert_eq!(&s[10..11], " ");
    assert_eq!(&s[13..14], ":");
    assert_eq!(t.due_string(), None);
    t.due_at = Some(1_782_864_000 + 12 * 3600);
    let d = t.due_string().unwrap();
    assert!(d == "2026-07-01" || d == "2026-07-02");
    t.created_at = MAX_EPOCH;
    assert_ne!(t.created_at_string(), "?");
}

#[test]
fn text_inputs_are_trimmed_and_required() {
    assert_eq!(quick_add_text("  장보기 \t"), Some("장보기".to_string()));
    assert_eq!(quick_add_text(" \u{3000} "), None);
    assert_eq!(required_text("  수정됨  ").unwrap(), "수정됨");
    assert_eq!(message(required_text("   ").unwrap_err()), "내용을 입력하세요");
    assert_eq!(required_name(" 업무 ").unwrap(), "업무");
    assert_eq!(message(required_name("").unwrap_err()), "이름을 입력하세요");
}

#[test]
fn new_project_name_checks_blank_then_limit() {
    assert_eq!(new_project_name(4, " 업무 ").unwrap(), "업무");
    assert_eq!(message(new_project_name(5, "업무").unwrap_err()), "프로젝트는 최대 5개까지예요");
    assert_eq!(message(new_project_name(5, "  ").unwrap_err()), "이름을 입력하세요");
    assert!(can_add_project(4));
    assert!(!can_add_project(5));
    assert!(can_delete_project(2));
    assert!(!can_delete_project(1));
}

#[test]
fn project_lookup_and_neighbors() {
    let ps = vec![project(10, "기본"), project(20, "업무"), project(30, "사이드")];
    assert_eq!(project_index(&ps, 30), 2);
    assert_eq!(project_index(&ps, 99), 0);
    assert_eq!(neighbor_project(&ps, 30, 1), Some(0));
    assert_eq!(neighbor_project(&ps, 10, -1), Some(2));
    assert_eq!(neighbor_project(&ps[..1].to_vec(), 10, 1), None);
    assert_eq!(project_at(&ps, 1), Some(20));
    assert_eq!(project_at(&ps, 3), None);
    assert_eq!(resolve_project(&ps, "업무"), Some(20));
    assert_eq!(resolve_project(&ps, "없음"), None);
    assert_eq!(shown_project(&ps, 20), Some(20));
    assert_eq!(shown_project(&ps, 99), Some(10));
    assert_eq!(shown_project(&Vec::new(), 10), None);
}

#[test]
fn rotate_moves_and_wraps() {
    assert_eq!(rotate(&[1, 2, 3], 1, 1), Some(vec![2, 1, 3]));
    assert_eq!(rotate(&[1, 2, 3], 1, -1), Some(vec![2, 3, 1]));
    assert_eq!(rotate(&[1, 2, 3], 3, 1), Some(vec![3, 1, 2]));
    assert_eq!(rotate(&[1], 1, 1), None);
    assert_eq!(rotate(&[1, 2], 9, 1), None);
    assert_eq!(wrap_index(-1, 3), 2);
    assert_eq!(wrap_index(7, 3), 1);
    assert_eq!(wrap_index(-6, 3), 0);
}

#[test]
fn popup_labels() {
    assert_eq!(PopupKind::Edit { id: 1 }.label(), "내용 편집 (Enter 저장 · Esc 취소)");
    assert_eq!(PopupKind::Due { id: 1 }.label(), "마감 (YYYY-MM-DD, 비우면 해제)");
    assert_eq!(PopupKind::Subtask { parent_id: 1 }.label(), "하위 목표 (Enter 저장 · Esc 취소)");
    assert_eq!(PopupKind::NewProject.label(), "새 프로젝트 이름 (Enter 생성 · Esc 취소)");
    assert_eq!(PopupKind::RenameProject { id: 1 }.label(), "프로젝트 이름 변경 (Enter 저장 · Esc 취소)");
}

#[test]
fn row_decorations() {
    assert_eq!(checkbox(true), "[x] ");
    assert_eq!(checkbox(false), "[ ] ");
    assert_eq!(fold_marker(false, true), "  ");
    assert_eq!(fold_marker(true, true), "▸ ");
    assert_eq!(fold_marker(true, false), "▾ ");
    assert_eq!(branch(true), "    └ ");
    assert_eq!(branch(false), "    ├ ");
}

#[test]
fn counts_and_last_children() {
    let mut v = vec![item(1, "p", None), item(2, "a", Some(1)), item(3, "b", Some(1)), item(4, "q", None)];
    assert_eq!(top_level_count(&v), 2);
    assert!(!is_last_child(&v, 1));
    assert!(is_last_child(&v, 2));
    assert_eq!(children_done(&v, 1), (0, 2));
    v[2].done = true;
    assert_eq!(children_done(&v, 1), (1, 2));
    assert_eq!(children_done(&v, 4), (0, 0));
}

#[test]
fn depth_and_subtask_limits() {
    let v = vec![item(1, "top", None), item(2, "mid", Some(1)), item(3, "leaf", Some(2))];
    assert_eq!(depth_of(&v, &v[0]), 0);
    assert_eq!(depth_of(&v, &v[2]), 2);
    assert_eq!(depth_of(&v, &item(9, "orphan", Some(42))), 0);
    assert_eq!(ensure_depth(&v, 1), Ok(()));
    assert_eq!(ensure_depth(&v, 2), Ok(()));
    assert_eq!(ensure_depth(&v, 3), Err(DepthError::TooDeep));
    assert_eq!(ensure_depth(&v, 42), Err(DepthError::ParentMissing));
    let looped = vec![item(1, "a", Some(2)), item(2, "b", Some(1))];
    assert_eq!(ensure_depth(&looped, 1), Err(DepthError::Tangled));
    let twice = vec![item(1, "a", None), item(1, "b", None)];
    assert_eq!(ensure_depth(&twice, 1), Ok(()));
    let twice_deep = vec![item(1, "a", Some(2)), item(2, "b", Some(3)), item(3, "c", None), item(1, "d", None)];
    assert_eq!(ensure_depth(&twice_deep, 1), Err(DepthError::TooDeep));
    let loop_elsewhere = vec![item(1, "top", None), item(5, "x", Some(6)), item(6, "y", Some(5))];
    assert_eq!(ensure_depth(&loop_elsewhere, 1), Ok(()));
    assert_eq!(ensure_depth(&loop_elsewhere, 5), Err(DepthError::Tangled));
}

#[test]
fn tree_order_leaves_out_orphans() {
    let v = vec![item(1, "a", None), item(5, "x", Some(99)), item(2, "b", Some(1))];
    let out = tree_order(&v);
    let texts: Vec<&str> = out.iter().map(|t| t.text.as_str()).collect();
    assert_eq!(texts, ["a", "b"]);
}

#[test]
fn legacy_tables_get_missing_columns() {
    let old = vec!["id".to_string(), "text".to_string(), "created_at".to_string(), "done".to_string()];
    assert_eq!(
        legacy_upgrade(&old),
        vec![
            "ALTER TABLE todos ADD COLUMN due_at INTEGER",
            "ALTER TABLE todos ADD COLUMN position INTEGER NOT NULL DEFAULT 0",
            "UPDATE todos SET position = id",
            "ALTER TABLE todos ADD COLUMN parent_id INTEGER",
            "ALTER TABLE todos ADD COLUMN collapsed INTEGER NOT NULL DEFAULT 0",
        ]
    );
    let full: Vec<String> = ["id", "text", "created_at", "due_at", "done", "position", "parent_id", "collapsed"]
        .iter()
        .map(|s| s.to_string())
        .collect();
    assert!(legacy_upgrade(&full).is_empty());
}

#[test]
fn copy_stops_at_first_working_program() {
    let tried = std::cell::RefCell::new(Vec::new());
    let r = copy("안녕", |program: &str, _args: &Vec<&'static str>, text: &str| {
        tried.borrow_mut().push(program.to_string());
        assert_eq!(text, "안녕");
        if program == "xclip" { Ok(()) } else { Err("no display".to_string()) }
    });
    assert_eq!(r, Ok(()));
    assert_eq!(*tried.borrow(), ["pbcopy", "wl-copy", "xclip"]);
}

#[test]
fn copy_reports_last_failure() {
    let r = copy("x", |program: &str, _args: &Vec<&'static str>, _text: &str| {
        Err(format!("{program} missing"))
    });
    assert_eq!(r, Err("xsel: xsel missing".to_string()));
}

#[test]
fn clipboard_programs_in_order() {
    let cmds = clipboard_commands();
    let names: Vec<&str> = cmds.iter().map(|c| c.0).collect();
    assert_eq!(names, ["pbcopy", "wl-copy", "xclip", "xsel"]);
    assert_eq!(cmds[2].1, vec!["-selection", "clipboard"]);
    assert_eq!(cmds[3].1, vec!["--clipboard", "--input"]);
    assert!(cmds[0].1.is_empty());
}

#[test]
fn links_must_be_distinct_and_end() {
    let ok = vec![item(1, "a", None), item(2, "b", Some(1)), item(3, "c", Some(42))];
    assert!(well_linked(&ok));
    let looped = vec![item(1, "a", Some(2)), item(2, "b", Some(1)), item(3, "c", None)];
    assert!(!well_linked(&looped));
    let own = vec![item(1, "a", Some(1))];
    assert!(!well_linked(&own));
    let twice = vec![item(1, "a", None), item(1, "b", None)];
    assert!(!well_linked(&twice));
    assert!(well_linked(&Vec::new()));
}

#[test]
fn midnight_starts_the_day() {
    let d = CalendarDate { year: 2026, month: 7, day: 1 };
    assert_eq!(
        midnight(d),
        WallClock { year: 2026, month: 7, day: 1, hour: 0, minute: 0, second: 0 }
    );
}

#[test]
fn due_date_round_trips_through_the_local_clock() {
    // Reading a date and writing it back in the same time zone gives the same text.
    let e = parse_due("2026-07-01").unwrap().unwrap();
    let mut t = item(1, "x", None);
    t.due_at = Some(e);
    assert_eq!(t.due_string(), Some("2026-07-01".to_string()));
    t.created_at = e;
    assert_eq!(t.created_at_string(), "2026-07-01 00:00");
}

#[test]
fn command_line_rows() {
    let mut t = item(12, "장보기", Some(3));
    assert_eq!(list_line(0, &t, &None), "[ ] #12 장보기");
    t.done = true;
    assert_eq!(list_line(2, &t, &Some("2026-07-01".to_string())), "    [x] #12 장보기 (마감: 2026-07-01)");
    let neg = item(-5, "", None);
    assert_eq!(list_line(1, &neg, &None), "  [ ] #-5 ");
}

#[test]
fn nesting_refuses_tangled_lists() {
    let ok = vec![item(2, "c", Some(1)), item(1, "p", None)];
    let ids: Vec<i64> = nested(&ok).unwrap().iter().map(|t| t.id).collect();
    assert_eq!(ids, [1, 2]);
    assert!(nested(&vec![item(1, "a", Some(1))]).unwrap().is_empty());
    let twice: Vec<String> = nested(&vec![item(1, "a", None), item(1, "b", None)])
        .unwrap()
        .iter()
        .map(|t| t.text.clone())
        .collect();
    assert_eq!(twice, ["a", "b"]);
    let down_loop = vec![item(1, "a", None), item(2, "b", Some(1)), item(1, "c", Some(2))];
    assert!(nested(&down_loop).is_none());
    assert!(untangled(&vec![item(1, "a", None), item(1, "b", None)]));
    assert!(!untangled(&down_loop));
    assert!(!untangled(&vec![item(1, "a", Some(2)), item(2, "b", Some(1))]));
}

#[test]
fn legacy_tables_missing_some_columns() {
    let old: Vec<String> = ["id", "text", "created_at", "done", "position"].iter().map(|s| s.to_string()).collect();
    assert_eq!(
        legacy_upgrade(&old),
        vec![
            "ALTER TABLE todos ADD COLUMN due_at INTEGER",
            "ALTER TABLE todos ADD COLUMN parent_id INTEGER",
            "ALTER TABLE todos ADD COLUMN collapsed INTEGER NOT NULL DEFAULT 0",
        ]
    );
}

#[test]
fn due_text_is_the_date_part_of_the_creation_text() {
    let mut t = item(1, "x", None);
    t.created_at = 1_700_000_000;
    t.due_at = Some(1_700_000_000);
    let stamp = t.created_at_string();
    let date = t.due_string().unwrap();
    assert_eq!(date.chars().count(), 10);
    assert_eq!(&stamp[..10], date);
    assert!(date.chars().enumerate().all(|(i, c)| if i == 4 || i == 7 { c == '-' } else { c.is_ascii_digit() }));
}

#[test]
fn parent_progress_suffix() {
    assert_eq!(progress_suffix(0, 0), None);
    assert_eq!(progress_suffix(1, 3), Some("  (1/3)".to_string()));
    assert_eq!(progress_suffix(12, 120), Some("  (12/120)".to_string()));
    assert!(all_done(2, 2));
    assert!(!all_done(1, 2));
    assert!(!all_done(0, 0));
    let low = item(i64::MIN, "x", None);
    assert!(list_line(0, &low, &None).contains("#-9223372036854775808 x"));
    let high = item(i64::MAX, "y", None);
    assert!(list_line(0, &high, &None).contains("#9223372036854775807 y"));
}
