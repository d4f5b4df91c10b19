use vstd::prelude::*;

use crate::error::Error;
use crate::reorder::{rotate, rotate_defined, rotated, wrap_index};
use crate::text::{required, result_view, trim, trim_spec};
use crate::todo::Project;

verus! {

/// At most this many projects (tabs) exist.
pub const PROJECT_LIMIT: usize = 5;

/// Ids of the projects, in tab order.
pub open spec fn project_ids(p: Seq<Project>) -> Seq<i64> {
    p.map_values(|x: Project| x.id)
}

/// Index of the first project with id `id` at or after `k`.
pub open spec fn project_pos_from(p: Seq<Project>, id: i64, k: int) -> Option<int>
    decreases p.len() - k,
{
    if k < 0 || k >= p.len() {
        None
    } else if p[k].id == id {
        Some(k)
    } else {
        project_pos_from(p, id, k + 1)
    }
}

/// Tab index of the current project; 0 when it is not among the projects.
pub open spec fn project_index_spec(p: Seq<Project>, id: i64) -> int {
    match project_pos_from(p, id, 0) {
        Some(i) => i,
        None => 0,
    }
}

/// Tab index of the project `project_id` (0 when absent).
pub fn project_index(projects: &Vec<Project>, project_id: i64) -> (r: usize)
    ensures
        r as int == project_index_spec(projects@, project_id),
{
    let mut k: usize = 0;
    while k < projects.len()
        invariant
            k <= projects.len(),
            project_pos_from(projects@, project_id, 0) == project_pos_from(
                projects@,
                project_id,
                k as int,
            ),
        decreases projects.len() - k,
    {
        if projects[k].id == project_id {
            return k;
        }
        k = k + 1;
    }
    0
}

/// Tab `delta` places away from the current one, wrapping around; `None` with a single tab.
pub open spec fn neighbor_spec(p: Seq<Project>, id: i64, delta: int) -> Option<int> {
    if p.len() >= 2 {
        Some((project_index_spec(p, id) + delta) % (p.len() as int))
    } else {
        None
    }
}

/// Index of the project `delta` tabs away from the current one (wrapping), when there
/// are at least two projects.
pub fn neighbor_project(projects: &Vec<Project>, project_id: i64, delta: isize) -> (r: Option<usize>)
    ensures
        r matches Some(i) ==> neighbor_spec(projects@, project_id, delta as int) == Some(i as int),
        r is None ==> neighbor_spec(projects@, project_id, delta as int) is None,
{
    if projects.len() < 2 {
        return None;
    }
    let idx = project_index(projects, project_id);
    proof {
        lemma_project_pos(projects@, project_id, 0);
    }
    Some(wrap_index(idx as i128 + delta as i128, projects.len()))
}

proof fn lemma_project_pos(p: Seq<Project>, id: i64, k: int)
    requires
        0 <= k,
    ensures
        project_pos_from(p, id, k) matches Some(i) ==> k <= i < p.len() && p[i].id == id,
    decreases p.len() - k,
{
    if k < p.len() && p[k].id != id {
        lemma_project_pos(p, id, k + 1);
    }
}

/// Tab order after moving the current project `delta` places (wrapping); `None` with a
/// single project.
pub fn plan_move_project(projects: &Vec<Project>, project_id: i64, delta: isize) -> (r: Option<
    Vec<i64>,
>)
    requires
        rotate_defined(project_ids(projects@), project_id, delta as int),
    ensures
        r matches Some(v) ==> rotated(project_ids(projects@), project_id, delta as int) == Some(
            v@,
        ),
        r is None ==> rotated(project_ids(projects@), project_id, delta as int) is None,
{
    let mut ids: Vec<i64> = Vec::new();
    let mut k: usize = 0;
    while k < projects.len()
        invariant
            k <= projects.len(),
            ids@ == project_ids(projects@).take(k as int),
        decreases projects.len() - k,
    {
        ids.push(projects[k].id);
        assert(project_ids(projects@).take(k + 1) == project_ids(projects@).take(k as int).push(
            projects@[k as int].id,
        ));
        k = k + 1;
    }
    assert(project_ids(projects@).take(k as int) == project_ids(projects@));
    rotate(ids.as_slice(), project_id, delta)
}

/// The project to show: `project_id` while it still exists, otherwise the first tab;
/// `None` when there is no project at all.
pub fn shown_project(projects: &Vec<Project>, project_id: i64) -> (r: Option<i64>)
    ensures
        projects@.len() == 0 ==> r is None,
        r matches Some(id) ==> exists|i: int| 0 <= i < projects@.len() && #[trigger] projects@[i].id == id,
        projects@.len() > 0 ==> r == Some(
            if project_pos_from(projects@, project_id, 0) is Some {
                project_id
            } else {
                projects@[0].id
            },
        ),
{
    if projects.len() == 0 {
        return None;
    }
    let mut k: usize = 0;
    while k < projects.len()
        invariant
            k <= projects.len(),
            project_pos_from(projects@, project_id, 0) == project_pos_from(
                projects@,
                project_id,
                k as int,
            ),
        decreases projects.len() - k,
    {
        if projects[k].id == project_id {
            proof {
                lemma_project_pos(projects@, project_id, k as int);
            }
            return Some(project_id);
        }
        k = k + 1;
    }
    assert(projects@[0].id == projects@[0].id);
    Some(projects[0].id)
}

/// Id of the project at tab `idx`, when there is one.
pub fn project_at(projects: &Vec<Project>, idx: usize) -> (r: Option<i64>)
    ensures
        r == (if idx < projects@.len() {
            Some(projects@[idx as int].id)
        } else {
            None
        }),
{
    if idx < projects.len() {
        Some(projects[idx].id)
    } else {
        None
    }
}

/// A project may be deleted only while another one remains.
pub fn can_delete_project(count: usize) -> (r: bool)
    ensures
        r == (count > 1),
{
    count > 1
}

/// A new project may be opened only below the limit.
pub fn can_add_project(count: usize) -> (r: bool)
    ensures
        r == (count < PROJECT_LIMIT),
{
    count < PROJECT_LIMIT
}

/// Name for a new project: trimmed and non-empty, and only while fewer than
/// `PROJECT_LIMIT` projects exist.
pub fn new_project_name(count: usize, input: &str) -> (r: core::result::Result<String, Error>)
    ensures
        trim_spec(input@).len() == 0 ==> result_view(r) == Err::<Seq<char>, Seq<char>>(
            "이름을 입력하세요"@,
        ),
        trim_spec(input@).len() > 0 && count >= PROJECT_LIMIT ==> result_view(r) == Err::<
            Seq<char>,
            Seq<char>,
        >("프로젝트는 최대 5개까지예요"@),
        trim_spec(input@).len() > 0 && count < PROJECT_LIMIT ==> result_view(r) == Ok::<
            Seq<char>,
            Seq<char>,
        >(trim_spec(input@)),
{
    let t = trim(input);
    if t.is_empty() {
        return Err(Error::Invalid(String::from_str("이름을 입력하세요")));
    }
    if count >= PROJECT_LIMIT {
        return Err(Error::Invalid(String::from_str("프로젝트는 최대 5개까지예요")));
    }
    Ok(String::from_str(t))
}

/// Id of the first project called `name`.
pub fn resolve_project(projects: &Vec<Project>, name: &str) -> (r: Option<i64>)
    ensures
        r matches Some(id) ==> exists|i: int|
            0 <= i < projects@.len() && projects@[i].id == id && projects@[i].name@ == name@
                && forall|j: int| 0 <= j < i ==> projects@[j].name@ != name@,
        r is None ==> forall|i: int| 0 <= i < projects@.len() ==> projects@[i].name@ != name@,
{
    let target = String::from_str(name);
    let mut k: usize = 0;
    while k < projects.len()
        invariant
            k <= projects.len(),
            target@ == name@,
            forall|j: int| 0 <= j < k ==> projects@[j].name@ != name@,
        decreases projects.len() - k,
    {
        if projects[k].name == target {
            return Some(projects[k].id);
        }
        k = k + 1;
    }
    None
}

} // verus!
