//! The ways in which planning or checking a schedule can fail.

use vstd::prelude::*;
use vstd::string::*;

verus! {

/// Why an operation on a schedule failed.
#[derive(Debug, Clone, Copy, PartialEq, Eq, Structural)]
pub enum ScheduleError {
    /// A program name that the catalog does not declare.
    UnknownProgram,
    /// A course code that the catalog does not declare.
    UnknownCourse,
    /// A requirement that no available course can discharge.
    UnsatisfiableRequirement,
    /// Prerequisites that cannot be put before the courses that need them.
    PrerequisiteCycle,
    /// A course that is assigned more than once.
    DuplicateCourseAssignment,
    /// A semester that carries more credits than allowed.
    CreditCapExceeded,
    /// The selection took more attempts than the planner allows.
    SearchExhausted,
}

impl ScheduleError {
    /// The error in words.
    pub fn message(&self) -> (r: String)
        ensures
            r@ == match *self {
                ScheduleError::UnknownProgram => "unknown program"@,
                ScheduleError::UnknownCourse => "unknown course"@,
                ScheduleError::UnsatisfiableRequirement => "unsatisfiable requirement"@,
                ScheduleError::PrerequisiteCycle => "prerequisite cycle"@,
                ScheduleError::DuplicateCourseAssignment => "duplicate course assignment"@,
                ScheduleError::CreditCapExceeded => "credit cap exceeded"@,
                ScheduleError::SearchExhausted => "search exhausted"@,
            },
    {
        match self {
            ScheduleError::UnknownProgram => String::from_str("unknown program"),
            ScheduleError::UnknownCourse => String::from_str("unknown course"),
            ScheduleError::UnsatisfiableRequirement => String::from_str(
                "unsatisfiable requirement",
            ),
            ScheduleError::PrerequisiteCycle => String::from_str("prerequisite cycle"),
            ScheduleError::DuplicateCourseAssignment => String::from_str(
                "duplicate course assignment",
            ),
            ScheduleError::CreditCapExceeded => String::from_str("credit cap exceeded"),
            ScheduleError::SearchExhausted => String::from_str("search exhausted"),
        }
    }
}

/// Why a question about further courses could not be answered.
#[derive(Debug, Clone, Copy, PartialEq, Eq, Structural)]
pub enum QueryError {
    /// A general-education reason was named without the name of the
    /// category.
    NameRequired,
    /// An elective was asked for without its name or without its program.
    NameAndProgramRequired,
}

impl QueryError {
    /// The error in words.
    pub fn message(&self) -> (r: String)
        ensures
            r@ == match *self {
                QueryError::NameRequired => "Name must be provided for Core reason type"@,
                QueryError::NameAndProgramRequired =>
                    "Name and Program must be provided for ProgramElective reason type"@,
            },
    {
        match self {
            QueryError::NameRequired => String::from_str(
                "Name must be provided for Core reason type",
            ),
            QueryError::NameAndProgramRequired => String::from_str(
                "Name and Program must be provided for ProgramElective reason type",
            ),
        }
    }
}

} // verus!
