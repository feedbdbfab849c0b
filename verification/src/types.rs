//! Data types of the planner: drafts handed in by the caller, and the
//! aggregate shapes handed back by the queries.

use vstd::prelude::*;

verus! {

/// A department as the caller submits it: identity is the `code`.
pub struct DepartmentDraft {
    pub code: String,
    pub name: String,
}

/// A stored department; `id` is a surrogate key assigned at first insert.
pub struct Department {
    pub id: u64,
    pub code: String,
    pub name: String,
}

/// A study task as the caller submits it, with its ordering serial.
pub struct TargetDraft {
    pub serial: i64,
    pub text: String,
    pub source: String,
}

/// A stored study task of one week.
pub struct Target {
    pub id: u64,
    pub serial: i64,
    pub text: String,
    pub source: String,
    pub is_complete: bool,
}

/// A week of a course's plan as the caller submits it.
pub struct WeekDraft {
    pub serial: i64,
    pub text: String,
    pub targets: Vec<TargetDraft>,
}

/// A week of a course's plan, optionally bound to a calendar day, with its
/// ordered targets. Days are counted from the first day of the common era,
/// whose day number is 1.
pub struct Week {
    pub id: u64,
    pub serial: i64,
    pub text: String,
    pub date: Option<u32>,
    pub is_complete: bool,
    pub targets: Vec<Target>,
}

/// Completion summary of a course's weeks.
pub struct WeeksPreview {
    pub num_complete: u64,
    pub num_total: u64,
}

/// Lifecycle state of a course, stored under a lowercase text encoding.
#[derive(Clone, Copy, PartialEq, Eq, Structural, Debug)]
pub enum CourseStatus {
    Draft,
    Inactive,
    Active,
    Complete,
}

/// A course as the caller submits it; `department` is a department code.
pub struct CourseDraft {
    pub department: String,
    pub name: String,
    pub description: Option<String>,
    pub book: Option<String>,
    pub prompt: Option<String>,
}

/// Replacement content for a course: header fields and the full week list.
pub struct CourseContentDraft {
    pub name: String,
    pub description: Option<String>,
    pub book: Option<String>,
    pub prompt: Option<String>,
    pub weeks: Vec<WeekDraft>,
}

/// A full course aggregate: header, owning department, and ordered weeks.
pub struct Course {
    pub id: u64,
    pub department: Department,
    pub serial: i64,
    pub name: String,
    pub description: Option<String>,
    pub book: Option<String>,
    pub prompt: Option<String>,
    pub status: CourseStatus,
    pub weeks: Vec<Week>,
}

/// A course row of the course list, with its completion summary.
pub struct CoursePreview {
    pub id: u64,
    pub department: String,
    pub serial: i64,
    pub name: String,
    pub status: CourseStatus,
    pub weeks: WeeksPreview,
}

/// A course header of a schedule entry; `department` is a department code.
pub struct CourseHeader {
    pub id: u64,
    pub department: String,
    pub serial: i64,
    pub name: String,
    pub status: CourseStatus,
}

/// One schedule entry: a course and its weeks falling on the queried day.
pub struct ScheduleItem {
    pub course: CourseHeader,
    pub weeks: Vec<Week>,
}

/// Why an operation was refused. `NotFound`: a referenced entity is missing.
/// `InvalidArgument`: an unknown department code or status text.
/// `StorageError`: the store cannot represent the result (a saturated serial
/// space, or a week date past the largest representable day).
#[derive(Clone, Copy, PartialEq, Eq, Structural, Debug)]
pub enum StoreError {
    NotFound,
    InvalidArgument,
    StorageError,
}

/// The text encoding under which a status is stored.
pub open spec fn status_code(st: CourseStatus) -> Seq<char> {
    match st {
        CourseStatus::Draft => "draft"@,
        CourseStatus::Inactive => "inactive"@,
        CourseStatus::Active => "active"@,
        CourseStatus::Complete => "complete"@,
    }
}

/// The status a text decodes to, or `None` on unrecognized text.
pub open spec fn status_from_code(s: Seq<char>) -> Option<CourseStatus> {
    if s == "draft"@ {
        Some(CourseStatus::Draft)
    } else if s == "inactive"@ {
        Some(CourseStatus::Inactive)
    } else if s == "active"@ {
        Some(CourseStatus::Active)
    } else if s == "complete"@ {
        Some(CourseStatus::Complete)
    } else {
        None
    }
}

impl CourseStatus {
    /// Decode a stored status text, refusing unrecognized text.
    pub fn parse(s: &String) -> (r: Option<CourseStatus>)
        ensures
            r == status_from_code(s@),
    {
        if *s == "draft".to_owned() {
            Some(CourseStatus::Draft)
        } else if *s == "inactive".to_owned() {
            Some(CourseStatus::Inactive)
        } else if *s == "active".to_owned() {
            Some(CourseStatus::Active)
        } else if *s == "complete".to_owned() {
            Some(CourseStatus::Complete)
        } else {
            None
        }
    }

    /// Encode a status as its stored text.
    pub fn encode(&self) -> (r: String)
        ensures
            r@ == status_code(*self),
    {
        match self {
            CourseStatus::Draft => "draft".to_owned(),
            CourseStatus::Inactive => "inactive".to_owned(),
            CourseStatus::Active => "active".to_owned(),
            CourseStatus::Complete => "complete".to_owned(),
        }
    }
}

/// The four status texts are pairwise distinct, so decoding inverts encoding:
/// every status round-trips through its text form.
pub proof fn status_code_round_trip(st: CourseStatus)
    ensures
        status_from_code(status_code(st)) == Some(st),
{
    reveal_strlit("draft");
    reveal_strlit("inactive");
    reveal_strlit("active");
    reveal_strlit("complete");
    assert("inactive"@[0] == 'i' && "complete"@[0] == 'c');
    assert("draft"@.len() == 5 && "inactive"@.len() == 8 && "active"@.len() == 6
        && "complete"@.len() == 8);
}

} // verus!
