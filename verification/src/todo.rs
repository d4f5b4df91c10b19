use vstd::prelude::*;

verus! {

/// One to-do item as stored: creation and due times are Unix seconds.
#[derive(Debug)]
pub struct Todo {
    pub id: i64,
    pub text: String,
    pub created_at: i64,
    pub due_at: Option<i64>,
    pub done: bool,
    pub parent_id: Option<i64>,
    pub collapsed: bool,
}

/// A project: one tab of the list.
#[derive(Debug)]
pub struct Project {
    pub id: i64,
    pub name: String,
}

impl Clone for Project {
    fn clone(&self) -> (r: Self)
        ensures
            r == *self,
    {
        Project { id: self.id, name: self.name.clone() }
    }
}

/// An item is overdue when it is still open and its due time lies strictly before `now`.
pub open spec fn overdue(t: Todo, now: i64) -> bool {
    !t.done && (t.due_at matches Some(d) && d < now)
}

impl Clone for Todo {
    fn clone(&self) -> (r: Self)
        ensures
            r == *self,
    {
        Todo {
            id: self.id,
            text: self.text.clone(),
            created_at: self.created_at,
            due_at: self.due_at,
            done: self.done,
            parent_id: self.parent_id,
            collapsed: self.collapsed,
        }
    }
}

impl Todo {
    pub fn is_overdue(&self, now: i64) -> (r: bool)
        ensures
            r == overdue(*self, now),
    {
        !self.done && match self.due_at {
            Some(d) => d < now,
            None => false,
        }
    }
}

} // verus!
