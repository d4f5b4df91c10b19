use todo_tui::keys::{
    edit_request, map_key, route_key, Action, EditRequest, Key, KeyContext, KeyPress, KeyRoute, Mode,
};
use todo_tui::wrap::{
    columns, help_groups, layout_chunks, measure_word, split_on_space, wrap_commands, wrap_measured,
    wrap_sized_commands, wrap_width, wrapped_lines, Lead, Measured,
};

fn texts_of(prefix: &[&str], text: &str, suffix: &[&str], width: usize) -> Vec<String> {
    let p: Vec<String> = prefix.iter().map(|s| s.to_string()).collect();
    let s: Vec<String> = suffix.iter().map(|s| s.to_string()).collect();
    let prefix_w = columns(&p.concat());
    wrapped_lines(&p, text, &s, width)
        .into_iter()
        .map(|l| {
            let mut out = match l.lead {
                Lead::Prefix => p.concat(),
                Lead::Pad(n) => {
                    assert_eq!(n, prefix_w);
                    " ".repeat(n)
                }
            };
            if let Some(t) = l.text {
                out.push_str(&t);
            }
            if l.suffix {
                out.push_str(&s.concat());
            }
            out
        })
        .collect()
}

#[test]
fn wrap_width_breaks_by_word_and_char() {
    assert_eq!(wrap_width("", 10), vec![""]);
    assert_eq!(wrap_width("짧음", 10), vec!["짧음"]);
    assert_eq!(
        wrap_width("본인인증 완료되면 이벤트 소싱", 10),
        vec!["본인인증", "완료되면", "이벤트", "소싱"]
    );
    assert_eq!(wrap_width("가나다라마", 4), vec!["가나", "다라", "마"]);
    for line in wrap_width("이벤트 소싱 카산드라 DB에서 PSQL로 마이그레이션", 12) {
        assert!(columns(&line) <= 12, "폭 초과: {line}");
    }
}

#[test]
fn wrap_width_ascii_exact() {
    assert_eq!(wrap_width("aaaa bbbb cccc", 9), vec!["aaaa bbbb", "cccc"]);
    assert_eq!(wrap_width("abcdefghij", 4), vec!["abcd", "efgh", "ij"]);
    assert_eq!(wrap_width("a b", 0), vec!["a", "b"]);
    assert_eq!(wrap_width("a  b", 10), vec!["a  b"]);
}

#[test]
fn columns_count_display_width() {
    assert_eq!(columns("abc"), 3);
    assert_eq!(columns("가나"), 4);
    assert_eq!(columns(""), 0);
}

#[test]
fn split_on_space_keeps_empty_pieces() {
    assert_eq!(split_on_space("a  b"), vec!["a", "", "b"]);
    assert_eq!(split_on_space(""), vec![""]);
}

#[test]
fn wrapped_lines_indent_continuation_and_carry_suffix() {
    let texts = texts_of(&["  ", "[ ] "], "aaaa bbbb cccc", &["  ⏳ 2026-07-02"], 12);
    assert!(texts.len() > 1);
    assert_eq!(texts[0], "  [ ] aaaa");
    assert!(texts[1].starts_with("      bbbb"));
    assert!(texts.last().unwrap().contains("⏳ 2026-07-02"));
}

#[test]
fn wrapped_lines_exact_layout() {
    assert_eq!(
        texts_of(&["  ", "[ ] "], "aaaa bbbb cccc", &["  ⏳ 2026-07-02"], 12),
        ["  [ ] aaaa", "      bbbb", "      cccc", "        ⏳ 2026-07-02"]
    );
    assert_eq!(texts_of(&["[ ] "], "ab", &[" (1/2)"], 40), ["[ ] ab (1/2)"]);
    assert_eq!(texts_of(&["[ ] "], "ab", &[], 40), ["[ ] ab"]);
}

#[test]
fn help_wraps_by_command_and_group() {
    let groups = help_groups();
    let wide = wrap_commands(&groups, 200);
    assert_eq!(wide.len(), 2);

    let narrow = wrap_commands(&groups, 12);
    for cmd in groups.iter().flat_map(|g| g.iter()) {
        assert!(narrow.iter().any(|l| l.contains(cmd)), "커맨드가 쪼개짐: {cmd}");
    }
}

#[test]
fn help_lines_join_commands_with_three_spaces() {
    let groups = vec![vec!["ab", "cd", "ef"], vec!["gh"]];
    assert_eq!(wrap_commands(&groups, 8), vec!["ab   cd", "ef", "gh"]);
    assert_eq!(wrap_commands(&Vec::new(), 8), vec![""]);
    assert_eq!(help_groups()[0][0], "i 입력");
    assert_eq!(help_groups()[1][6], "q 종료");
}

fn press(key: Key) -> KeyPress {
    KeyPress { key, ctrl: false, shift: false }
}

fn ctx(mode: Mode) -> KeyContext {
    KeyContext { popup_open: false, tab_held: false, mode, input_empty: true }
}

#[test]
fn popup_keys_edit_the_popup() {
    let c = KeyContext { popup_open: true, ..ctx(Mode::Normal) };
    assert_eq!(map_key(c, press(Key::Esc)), Some(Action::PopupCancel));
    assert_eq!(map_key(c, press(Key::Enter)), Some(Action::PopupCommit));
    assert_eq!(map_key(c, press(Key::Char('q'))), Some(Action::PopupInput(EditRequest::InsertChar('q'))));
    assert_eq!(map_key(c, press(Key::Up)), None);
}

#[test]
fn held_tab_sends_items_sideways() {
    let c = KeyContext { tab_held: true, ..ctx(Mode::Normal) };
    assert_eq!(map_key(c, press(Key::Left)), Some(Action::MoveToProject(-1)));
    assert_eq!(map_key(c, press(Key::Right)), Some(Action::MoveToProject(1)));
    assert_eq!(map_key(c, press(Key::Char('q'))), None);
    assert!(matches!(route_key(false, Key::Tab), KeyRoute::HoldTab));
    assert!(matches!(route_key(true, Key::Left), KeyRoute::Dispatch { tab_held: true }));
    assert!(matches!(route_key(true, Key::Up), KeyRoute::Dispatch { tab_held: false }));
}

#[test]
fn arrows_navigate_unless_typing() {
    let normal = ctx(Mode::Normal);
    let shift = |key| KeyPress { key, ctrl: false, shift: true };
    assert_eq!(map_key(normal, press(Key::Up)), Some(Action::Select(-1)));
    assert_eq!(map_key(normal, shift(Key::Down)), Some(Action::Reorder(1)));
    assert_eq!(map_key(normal, shift(Key::Left)), Some(Action::Indent));
    assert_eq!(map_key(normal, shift(Key::Right)), Some(Action::Outdent));
    assert_eq!(map_key(normal, press(Key::Left)), Some(Action::Collapse(true)));
    assert_eq!(
        map_key(normal, KeyPress { key: Key::Left, ctrl: true, shift: true }),
        Some(Action::MoveToProject(-1))
    );
    let typing = KeyContext { input_empty: false, ..ctx(Mode::Insert) };
    assert_eq!(map_key(typing, press(Key::Left)), Some(Action::Input(EditRequest::GoToPrevChar)));
    assert_eq!(map_key(typing, shift(Key::Left)), Some(Action::Input(EditRequest::GoToPrevChar)));
    assert_eq!(map_key(typing, press(Key::Down)), Some(Action::Select(1)));
}

#[test]
fn insert_mode_keys() {
    let c = ctx(Mode::Insert);
    assert_eq!(map_key(c, press(Key::Esc)), Some(Action::EnterNormal));
    assert_eq!(map_key(c, press(Key::Enter)), Some(Action::CommitInsert));
    assert_eq!(map_key(c, press(Key::Char('q'))), Some(Action::Input(EditRequest::InsertChar('q'))));
    assert_eq!(map_key(c, press(Key::Left)), Some(Action::Collapse(true)));
}

#[test]
fn normal_mode_keys() {
    let c = ctx(Mode::Normal);
    let ch = |x| map_key(c, press(Key::Char(x)));
    assert_eq!(ch('q'), Some(Action::Quit));
    assert_eq!(ch('a'), Some(Action::EnterInsert));
    assert_eq!(map_key(c, press(Key::Esc)), Some(Action::EnterInsert));
    assert_eq!(ch('s'), Some(Action::OpenSubtask));
    assert_eq!(ch(' '), Some(Action::ToggleDone));
    assert_eq!(ch('3'), Some(Action::ProjectSelect(2)));
    assert_eq!(ch('6'), None);
    assert_eq!(ch('['), Some(Action::MoveProject(-1)));
    assert_eq!(ch('.'), Some(Action::MoveToProject(1)));
    assert_eq!(ch('y'), Some(Action::Yank));
    assert_eq!(ch('z'), None);
    assert_eq!(map_key(c, press(Key::Enter)), None);
}

#[test]
fn text_editing_keys() {
    let ctrl = |key| KeyPress { key, ctrl: true, shift: false };
    assert_eq!(edit_request(ctrl(Key::Backspace)), Some(EditRequest::DeletePrevWord));
    assert_eq!(edit_request(press(Key::Backspace)), Some(EditRequest::DeletePrevChar));
    assert_eq!(edit_request(ctrl(Key::Char('u'))), Some(EditRequest::DeleteLine));
    assert_eq!(edit_request(ctrl(Key::Char('k'))), Some(EditRequest::DeleteTillEnd));
    assert_eq!(edit_request(ctrl(Key::Right)), Some(EditRequest::GoToNextWord));
    assert_eq!(edit_request(ctrl(Key::Char('x'))), None);
    assert_eq!(edit_request(press(Key::Tab)), None);
}

fn measured(text: &str, cols: usize, chars: &[(char, usize)]) -> Measured {
    Measured { text: text.to_string(), cols, chars: chars.to_vec() }
}

#[test]
fn wrap_measured_follows_given_widths() {
    let words = vec![
        measured("ab", 2, &[('a', 1), ('b', 1)]),
        measured("cdef", 6, &[('c', 2), ('d', 2), ('e', 1), ('f', 1)]),
    ];
    assert_eq!(wrap_measured(&words, 4), vec!["ab", "cd", "ef"]);
    assert_eq!(wrap_measured(&words, 9), vec!["ab cdef"]);
    assert_eq!(wrap_measured(&Vec::new(), 5), vec![""]);
}

#[test]
fn measuring_words() {
    let m = measure_word("가a");
    assert_eq!(m.text, "가a");
    assert_eq!(m.cols, 3);
    assert_eq!(m.chars, vec![('가', 2), ('a', 1)]);
    let c = measure_word("a\u{7}");
    assert_eq!(c.chars[1], ('\u{7}', 0));
}

#[test]
fn sized_commands_never_split() {
    assert_eq!(wrap_sized_commands(&vec![vec![("x", 5), ("y", 5)]], 12), vec!["x", "y"]);
    assert_eq!(wrap_sized_commands(&vec![vec![("x", 5), ("y", 5)]], 13), vec!["x   y"]);
    assert_eq!(wrap_sized_commands(&vec![vec![("x", 1)], vec![("y", 1)]], 80), vec!["x", "y"]);
}

#[test]
fn suffix_joins_last_line_only_when_it_fits() {
    let chunks = || vec!["ab".to_string(), "cd".to_string()];
    let fit = layout_chunks(chunks(), 4, 2, Some(3), 9);
    assert_eq!(fit.len(), 2);
    assert!(fit[0].lead == Lead::Prefix && !fit[0].suffix);
    assert!(fit[1].lead == Lead::Pad(4) && fit[1].suffix);
    assert_eq!(fit[1].text.as_deref(), Some("cd"));

    let spill = layout_chunks(chunks(), 4, 2, Some(3), 8);
    assert_eq!(spill.len(), 3);
    assert!(!spill[1].suffix);
    assert!(spill[2].lead == Lead::Pad(4) && spill[2].text.is_none() && spill[2].suffix);

    let bare = layout_chunks(chunks(), 4, 2, None, 1);
    assert_eq!(bare.len(), 2);
    assert!(!bare[1].suffix);
}
