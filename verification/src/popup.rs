use vstd::prelude::*;

verus! {

/// What an open popup edits.
#[derive(Clone, Copy, PartialEq, Eq, Structural, Debug)]
pub enum PopupKind {
    Edit { id: i64 },
    Due { id: i64 },
    Subtask { parent_id: i64 },
    NewProject,
    RenameProject { id: i64 },
}

/// The title shown on the popup of each kind.
pub open spec fn label_spec(k: PopupKind) -> Seq<char> {
    match k {
        PopupKind::Edit { .. } => "내용 편집 (Enter 저장 · Esc 취소)"@,
        PopupKind::Due { .. } => "마감 (YYYY-MM-DD, 비우면 해제)"@,
        PopupKind::Subtask { .. } => "하위 목표 (Enter 저장 · Esc 취소)"@,
        PopupKind::NewProject => "새 프로젝트 이름 (Enter 생성 · Esc 취소)"@,
        PopupKind::RenameProject { .. } => "프로젝트 이름 변경 (Enter 저장 · Esc 취소)"@,
    }
}

impl PopupKind {
    pub fn label(self) -> (r: &'static str)
        ensures
            r@ == label_spec(self),
    {
        match self {
            PopupKind::Edit { .. } => "내용 편집 (Enter 저장 · Esc 취소)",
            PopupKind::Due { .. } => "마감 (YYYY-MM-DD, 비우면 해제)",
            PopupKind::Subtask { .. } => "하위 목표 (Enter 저장 · Esc 취소)",
            PopupKind::NewProject => "새 프로젝트 이름 (Enter 생성 · Esc 취소)",
            PopupKind::RenameProject { .. } => "프로젝트 이름 변경 (Enter 저장 · Esc 취소)",
        }
    }
}

} // verus!
