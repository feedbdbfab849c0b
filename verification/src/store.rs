//! The relational store: four tables held in memory, with the invariants the
//! operations rely on — unique surrogate keys, unique department codes,
//! per-department serial uniqueness, and referential integrity.

use vstd::prelude::*;
use crate::types::{CourseStatus, Department};

verus! {

/// A stored course row; `serial` is unique within its department.
pub struct CourseRow {
    pub id: u64,
    pub department_id: u64,
    pub serial: i64,
    pub name: String,
    pub description: Option<String>,
    pub book: Option<String>,
    pub prompt: Option<String>,
    pub status: CourseStatus,
}

/// A stored week row of one course.
pub struct WeekRow {
    pub id: u64,
    pub course_id: u64,
    pub serial: i64,
    pub text: String,
    pub date: Option<u32>,
    pub is_complete: bool,
}

/// A stored target row of one week.
pub struct TargetRow {
    pub id: u64,
    pub week_id: u64,
    pub serial: i64,
    pub text: String,
    pub source: String,
    pub is_complete: bool,
}

/// The whole datastore. `next_id` is the source of fresh surrogate keys:
/// every stored id is below it.
pub struct Store {
    pub departments: Vec<Department>,
    pub courses: Vec<CourseRow>,
    pub weeks: Vec<WeekRow>,
    pub targets: Vec<TargetRow>,
    pub next_id: u64,
}

/// Some department has this id.
pub open spec fn has_dept(deps: Seq<Department>, id: u64) -> bool {
    exists|i: int| 0 <= i < deps.len() && (#[trigger] deps[i]).id == id
}

/// Some department has this code.
pub open spec fn has_code(deps: Seq<Department>, code: Seq<char>) -> bool {
    exists|i: int| 0 <= i < deps.len() && (#[trigger] deps[i]).code@ == code
}

/// Some course has this id.
pub open spec fn has_course(cs: Seq<CourseRow>, id: u64) -> bool {
    exists|i: int| 0 <= i < cs.len() && (#[trigger] cs[i]).id == id
}

/// Some week has this id.
pub open spec fn has_week(ws: Seq<WeekRow>, id: u64) -> bool {
    exists|i: int| 0 <= i < ws.len() && (#[trigger] ws[i]).id == id
}

/// Some course of this department already carries this serial.
pub open spec fn has_serial(cs: Seq<CourseRow>, department_id: u64, serial: i64) -> bool {
    exists|i: int|
        0 <= i < cs.len() && (#[trigger] cs[i]).department_id == department_id
            && cs[i].serial == serial
}

/// Departments: unique ids below `next_id`, globally unique codes.
pub open spec fn dept_table_wf(deps: Seq<Department>, next_id: u64) -> bool {
    &&& forall|i: int, j: int|
        #![trigger deps[i], deps[j]]
        0 <= i < j < deps.len() ==> deps[i].id != deps[j].id && deps[i].code@ != deps[j].code@
    &&& forall|i: int| 0 <= i < deps.len() ==> (#[trigger] deps[i]).id < next_id
}

/// Courses: unique ids below `next_id`, an existing owning department, and
/// serials unique within each department.
pub open spec fn course_table_wf(cs: Seq<CourseRow>, deps: Seq<Department>, next_id: u64) -> bool {
    &&& forall|i: int, j: int|
        #![trigger cs[i], cs[j]]
        0 <= i < j < cs.len() ==> cs[i].id != cs[j].id && !(cs[i].department_id
            == cs[j].department_id && cs[i].serial == cs[j].serial)
    &&& forall|i: int|
        0 <= i < cs.len() ==> (#[trigger] cs[i]).id < next_id && has_dept(
            deps,
            cs[i].department_id,
        )
}

/// Weeks: unique ids below `next_id` and an existing owning course.
pub open spec fn week_table_wf(ws: Seq<WeekRow>, cs: Seq<CourseRow>, next_id: u64) -> bool {
    &&& forall|i: int, j: int|
        #![trigger ws[i], ws[j]]
        0 <= i < j < ws.len() ==> ws[i].id != ws[j].id
    &&& forall|i: int|
        0 <= i < ws.len() ==> (#[trigger] ws[i]).id < next_id && has_course(cs, ws[i].course_id)
}

/// Targets: unique ids below `next_id` and an existing owning week.
pub open spec fn target_table_wf(ts: Seq<TargetRow>, ws: Seq<WeekRow>, next_id: u64) -> bool {
    &&& forall|i: int, j: int|
        #![trigger ts[i], ts[j]]
        0 <= i < j < ts.len() ==> ts[i].id != ts[j].id
    &&& forall|i: int|
        0 <= i < ts.len() ==> (#[trigger] ts[i]).id < next_id && has_week(ws, ts[i].week_id)
}

impl Store {
    /// Departments: unique ids below `next_id`, globally unique codes.
    pub open spec fn departments_wf(self) -> bool {
        dept_table_wf(self.departments@, self.next_id)
    }

    /// Courses: unique ids below `next_id`, an existing owning department,
    /// and serials unique within each department.
    pub open spec fn courses_wf(self) -> bool {
        course_table_wf(self.courses@, self.departments@, self.next_id)
    }

    /// Weeks: unique ids below `next_id` and an existing owning course.
    pub open spec fn weeks_wf(self) -> bool {
        week_table_wf(self.weeks@, self.courses@, self.next_id)
    }

    /// Targets: unique ids below `next_id` and an existing owning week.
    pub open spec fn targets_wf(self) -> bool {
        target_table_wf(self.targets@, self.weeks@, self.next_id)
    }

    /// Well-formedness of the whole store: what every operation requires and
    /// preserves.
    pub open spec fn wf(self) -> bool {
        &&& self.departments_wf()
        &&& self.courses_wf()
        &&& self.weeks_wf()
        &&& self.targets_wf()
    }

    /// An empty store.
    pub fn new() -> (s: Store)
        ensures
            s.wf(),
            s.departments@ == Seq::<Department>::empty(),
            s.courses@ == Seq::<CourseRow>::empty(),
            s.weeks@ == Seq::<WeekRow>::empty(),
            s.targets@ == Seq::<TargetRow>::empty(),
            s.next_id == 0,
    {
        Store {
            departments: Vec::new(),
            courses: Vec::new(),
            weeks: Vec::new(),
            targets: Vec::new(),
            next_id: 0,
        }
    }
}

/// Index of the course row with this id, if any.
pub fn find_course_index(cs: &Vec<CourseRow>, id: u64) -> (r: Option<usize>)
    ensures
        match r {
            Some(i) => i < cs@.len() && cs@[i as int].id == id,
            None => !has_course(cs@, id),
        },
{
    let mut i: usize = 0;
    while i < cs.len()
        invariant
            i <= cs@.len(),
            forall|k: int| 0 <= k < i ==> (#[trigger] cs@[k]).id != id,
        decreases cs@.len() - i,
    {
        if cs[i].id == id {
            return Some(i);
        }
        i = i + 1;
    }
    None
}

/// Index of the week row with this id, if any.
pub fn find_week_index(ws: &Vec<WeekRow>, id: u64) -> (r: Option<usize>)
    ensures
        match r {
            Some(i) => i < ws@.len() && ws@[i as int].id == id,
            None => !has_week(ws@, id),
        },
{
    let mut i: usize = 0;
    while i < ws.len()
        invariant
            i <= ws@.len(),
            forall|k: int| 0 <= k < i ==> (#[trigger] ws@[k]).id != id,
        decreases ws@.len() - i,
    {
        if ws[i].id == id {
            return Some(i);
        }
        i = i + 1;
    }
    None
}

/// Index of the target row with this id, if any.
pub fn find_target_index(ts: &Vec<TargetRow>, id: u64) -> (r: Option<usize>)
    ensures
        match r {
            Some(i) => i < ts@.len() && ts@[i as int].id == id,
            None => forall|k: int| 0 <= k < ts@.len() ==> (#[trigger] ts@[k]).id != id,
        },
{
    let mut i: usize = 0;
    while i < ts.len()
        invariant
            i <= ts@.len(),
            forall|k: int| 0 <= k < i ==> (#[trigger] ts@[k]).id != id,
        decreases ts@.len() - i,
    {
        if ts[i].id == id {
            return Some(i);
        }
        i = i + 1;
    }
    None
}

/// First index of the course row carrying this id, or -1.
pub open spec fn course_with_id(cs: Seq<CourseRow>, id: u64) -> int
    decreases cs.len(),
{
    if cs.len() == 0 {
        -1
    } else if cs[0].id == id {
        0
    } else {
        let r = course_with_id(cs.drop_first(), id);
        if r == -1 {
            -1
        } else {
            r + 1
        }
    }
}

pub proof fn lemma_course_with_id(cs: Seq<CourseRow>, id: u64)
    ensures
        course_with_id(cs, id) == -1 ==> forall|i: int| 0 <= i < cs.len() ==> (#[trigger] cs[i]).id
            != id,
        course_with_id(cs, id) != -1 ==> 0 <= course_with_id(cs, id) < cs.len() && cs[course_with_id(
            cs,
            id,
        )].id == id,
    decreases cs.len(),
{
    if cs.len() > 0 && cs[0].id != id {
        let rest = cs.drop_first();
        lemma_course_with_id(rest, id);
        if course_with_id(cs, id) == -1 {
            assert forall|i: int| 0 <= i < cs.len() implies (#[trigger] cs[i]).id != id by {
                if i > 0 {
                    assert(rest[i - 1] == cs[i]);
                }
            }
        }
    }
}

/// Index of the department row with this id, if any.
pub fn find_dept_index(deps: &Vec<Department>, id: u64) -> (r: Option<usize>)
    ensures
        match r {
            Some(i) => i < deps@.len() && deps@[i as int].id == id,
            None => !has_dept(deps@, id),
        },
{
    let mut i: usize = 0;
    while i < deps.len()
        invariant
            i <= deps@.len(),
            forall|k: int| 0 <= k < i ==> (#[trigger] deps@[k]).id != id,
        decreases deps@.len() - i,
    {
        if deps[i].id == id {
            return Some(i);
        }
        i = i + 1;
    }
    None
}

/// Index of the department row with this code, if any.
pub fn find_dept_by_code(deps: &Vec<Department>, code: &String) -> (r: Option<usize>)
    ensures
        match r {
            Some(i) => i < deps@.len() && deps@[i as int].code@ == code@,
            None => !has_code(deps@, code@),
        },
{
    let mut i: usize = 0;
    while i < deps.len()
        invariant
            i <= deps@.len(),
            forall|k: int| 0 <= k < i ==> (#[trigger] deps@[k]).code@ != code@,
        decreases deps@.len() - i,
    {
        if deps[i].code == *code {
            return Some(i);
        }
        i = i + 1;
    }
    None
}

/// Clone of the department table, equal to the original.
pub fn clone_departments(v: &Vec<Department>) -> (r: Vec<Department>)
    ensures
        r@ == v@,
{
    let mut r: Vec<Department> = Vec::new();
    let mut i: usize = 0;
    while i < v.len()
        invariant
            i <= v@.len(),
            r@.len() == i,
            forall|k: int| 0 <= k < i ==> #[trigger] r@[k] == v@[k],
        decreases v@.len() - i,
    {
        r.push(v[i].clone_row());
        i = i + 1;
    }
    proof {
        assert(r@ =~= v@);
    }
    r
}

/// Clone of the course table, equal to the original.
pub fn clone_courses(v: &Vec<CourseRow>) -> (r: Vec<CourseRow>)
    ensures
        r@ == v@,
{
    let mut r: Vec<CourseRow> = Vec::new();
    let mut i: usize = 0;
    while i < v.len()
        invariant
            i <= v@.len(),
            r@.len() == i,
            forall|k: int| 0 <= k < i ==> #[trigger] r@[k] == v@[k],
        decreases v@.len() - i,
    {
        r.push(v[i].clone_row());
        i = i + 1;
    }
    proof {
        assert(r@ =~= v@);
    }
    r
}

/// Clone of an optional text field, equal to the original.
pub fn clone_opt_string(o: &Option<String>) -> (r: Option<String>)
    ensures
        r == *o,
{
    match o {
        Some(s) => Some(s.clone()),
        None => None,
    }
}

impl Department {
    /// Clone of the row, equal to the original.
    pub fn clone_row(&self) -> (r: Department)
        ensures
            r == *self,
    {
        Department { id: self.id, code: self.code.clone(), name: self.name.clone() }
    }
}

impl CourseRow {
    /// Clone of the row, equal to the original.
    pub fn clone_row(&self) -> (r: CourseRow)
        ensures
            r == *self,
    {
        CourseRow {
            id: self.id,
            department_id: self.department_id,
            serial: self.serial,
            name: self.name.clone(),
            description: clone_opt_string(&self.description),
            book: clone_opt_string(&self.book),
            prompt: clone_opt_string(&self.prompt),
            status: self.status,
        }
    }
}

impl WeekRow {
    /// Clone of the row, equal to the original.
    pub fn clone_row(&self) -> (r: WeekRow)
        ensures
            r == *self,
    {
        WeekRow {
            id: self.id,
            course_id: self.course_id,
            serial: self.serial,
            text: self.text.clone(),
            date: self.date,
            is_complete: self.is_complete,
        }
    }
}

impl TargetRow {
    /// Clone of the row, equal to the original.
    pub fn clone_row(&self) -> (r: TargetRow)
        ensures
            r == *self,
    {
        TargetRow {
            id: self.id,
            week_id: self.week_id,
            serial: self.serial,
            text: self.text.clone(),
            source: self.source.clone(),
            is_complete: self.is_complete,
        }
    }
}

} // verus!
