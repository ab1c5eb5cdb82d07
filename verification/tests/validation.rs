use ross_link::catalog::{Catalog, Course, Elective, GenEd, Program};
use ross_link::code::{CourseCode, CourseCodeSuffix};
use ross_link::error::ScheduleError;
use ross_link::requirement::RequirementTree;
use ross_link::schedule::{flatten, no_repeats, Schedule, MAX_CREDITS_PER_SEMESTER};
use ross_link::validate::{
    caps_respected, check_plan, check_semesters, collect_obligations, known_codes,
    known_programs, prereq_satisfied, prereqs_respected, trees_satisfied, within_cap,
};

fn cc(stem: &str, n: u32) -> CourseCode {
    CourseCode { stem: stem.to_string(), code: CourseCodeSuffix::Number(n) }
}

fn leaf(stem: &str, n: u32) -> RequirementTree {
    RequirementTree::Course(cc(stem, n))
}

fn course(stem: &str, n: u32, credits: Option<u32>, prereq: Vec<RequirementTree>) -> Course {
    Course { code: cc(stem, n), name: format!("{stem} {n}"), credits, prereq: RequirementTree::All(prereq) }
}

fn catalog() -> Catalog {
    Catalog {
        courses: vec![
            course("CS", 101, Some(3), vec![]),
            course("CS", 201, Some(3), vec![leaf("CS", 101)]),
            course("CS", 301, Some(4), vec![leaf("CS", 201)]),
            course("ENG", 100, Some(3), vec![]),
            course("ART", 110, Some(2), vec![]),
            course("LAB", 1, None, vec![]),
            course("BIG", 1, Some(8), vec![]),
            course("BIG", 2, Some(8), vec![]),
        ],
        geneds: vec![GenEd::Core { name: "Writing".to_string(), req: leaf("ENG", 100) }],
        programs: vec![Program {
            name: "CS".to_string(),
            required: RequirementTree::All(vec![leaf("CS", 101), leaf("CS", 201)]),
            electives: vec![Elective {
                name: "Breadth".to_string(),
                req: RequirementTree::AnyOf(1, vec![leaf("ART", 110), leaf("CS", 301)]),
            }],
        }],
    }
}

fn plan<'a>(catalog: &'a Catalog, incoming: Vec<CourseCode>, courses: Vec<Vec<CourseCode>>) -> Schedule<'a> {
    Schedule { programs: vec!["CS".to_string()], incoming, courses, catalog }
}

fn good_semesters() -> Vec<Vec<CourseCode>> {
    vec![vec![cc("CS", 101), cc("ENG", 100)], vec![cc("CS", 201), cc("ART", 110)]]
}

#[test]
fn a_sound_plan_is_valid() {
    let cat = catalog();
    let mut s = plan(&cat, vec![], good_semesters());
    assert!(s.is_valid());
    assert_eq!(s.validate(), Ok(()));
    assert_eq!(s.courses, good_semesters());
}

#[test]
fn incoming_courses_count_for_prerequisites_and_requirements() {
    let cat = catalog();
    let mut s = plan(&cat, vec![cc("CS", 101), cc("ENG", 100)], vec![vec![cc("CS", 201), cc("CS", 301)]]);
    assert_eq!(s.validate(), Err(ScheduleError::PrerequisiteCycle));
    let mut s = plan(&cat, vec![cc("CS", 101), cc("ENG", 100)], vec![vec![cc("CS", 201)], vec![cc("CS", 301)]]);
    assert_eq!(s.validate(), Ok(()));
}

#[test]
fn a_repeated_course_is_reported() {
    let cat = catalog();
    let mut s = plan(&cat, vec![], vec![vec![cc("CS", 101), cc("ENG", 100)], vec![cc("CS", 201), cc("CS", 101)]]);
    assert_eq!(s.validate(), Err(ScheduleError::DuplicateCourseAssignment));
    assert!(!s.is_valid());
    let mut s = plan(&cat, vec![cc("CS", 101)], good_semesters());
    assert_eq!(s.validate(), Err(ScheduleError::DuplicateCourseAssignment));
}

#[test]
fn an_undeclared_course_is_reported() {
    let cat = catalog();
    let mut semesters = good_semesters();
    semesters[1].push(cc("XX", 1));
    let mut s = plan(&cat, vec![], semesters);
    assert_eq!(s.validate(), Err(ScheduleError::UnknownCourse));
    let mut s = plan(&cat, vec![cc("XX", 1)], good_semesters());
    assert_eq!(s.validate(), Err(ScheduleError::UnknownCourse));
}

#[test]
fn a_semester_over_the_cap_is_reported() {
    let cat = catalog();
    let mut semesters = good_semesters();
    semesters.push(vec![cc("BIG", 1), cc("BIG", 2)]);
    let mut s = plan(&cat, vec![], semesters);
    assert_eq!(s.validate(), Err(ScheduleError::CreditCapExceeded));
}

#[test]
fn a_semester_at_the_cap_is_accepted() {
    assert_eq!(MAX_CREDITS_PER_SEMESTER, 15);
    let cat = catalog();
    let full = vec![cc("BIG", 1), cc("CS", 101), cc("ENG", 100), cc("LAB", 1)];
    assert!(within_cap(&cat, &full, 14));
    assert!(!within_cap(&cat, &full, 13));
    let mut semesters = vec![vec![cc("BIG", 1), cc("CS", 101), cc("ENG", 100), cc("LAB", 1)]];
    semesters.push(vec![cc("CS", 201), cc("ART", 110)]);
    let mut s = plan(&cat, vec![], semesters);
    assert_eq!(s.validate(), Ok(()));
}

#[test]
fn a_prerequisite_in_the_same_or_a_later_semester_is_reported() {
    let cat = catalog();
    let mut s = plan(&cat, vec![], vec![vec![cc("CS", 101), cc("CS", 201), cc("ENG", 100), cc("ART", 110)]]);
    assert_eq!(s.validate(), Err(ScheduleError::PrerequisiteCycle));
    let mut s = plan(&cat, vec![], vec![vec![cc("CS", 201), cc("ENG", 100)], vec![cc("CS", 101), cc("ART", 110)]]);
    assert_eq!(s.validate(), Err(ScheduleError::PrerequisiteCycle));
}

#[test]
fn an_undeclared_program_is_reported() {
    let cat = catalog();
    let mut s = plan(&cat, vec![], good_semesters());
    s.programs.push("Physics".to_string());
    assert_eq!(s.validate(), Err(ScheduleError::UnknownProgram));
}

#[test]
fn an_unsatisfied_requirement_is_reported() {
    let cat = catalog();
    let mut s = plan(&cat, vec![], vec![vec![cc("CS", 101), cc("ENG", 100)], vec![cc("CS", 201)]]);
    assert_eq!(s.validate(), Err(ScheduleError::UnsatisfiableRequirement));
    let mut s = plan(&cat, vec![], vec![vec![cc("CS", 101)], vec![cc("CS", 201), cc("ART", 110)]]);
    assert_eq!(s.validate(), Err(ScheduleError::UnsatisfiableRequirement));
}

#[test]
fn the_first_failing_check_decides() {
    let cat = catalog();
    // repeated, undeclared, over the cap, out of order, unknown program: the repetition wins
    let mut s = plan(
        &cat,
        vec![],
        vec![vec![cc("CS", 201), cc("XX", 1), cc("BIG", 1), cc("BIG", 2), cc("CS", 201)]],
    );
    s.programs = vec!["Physics".to_string()];
    assert_eq!(s.validate(), Err(ScheduleError::DuplicateCourseAssignment));
    s.courses = vec![vec![cc("CS", 201), cc("XX", 1), cc("BIG", 1), cc("BIG", 2)]];
    assert_eq!(s.validate(), Err(ScheduleError::UnknownCourse));
    s.courses = vec![vec![cc("CS", 201), cc("BIG", 1), cc("BIG", 2)]];
    assert_eq!(s.validate(), Err(ScheduleError::CreditCapExceeded));
    s.courses = vec![vec![cc("CS", 201), cc("BIG", 1)]];
    assert_eq!(s.validate(), Err(ScheduleError::PrerequisiteCycle));
    s.courses = vec![vec![cc("CS", 101), cc("BIG", 1)]];
    assert_eq!(s.validate(), Err(ScheduleError::UnknownProgram));
    s.programs = vec!["CS".to_string()];
    assert_eq!(s.validate(), Err(ScheduleError::UnsatisfiableRequirement));
}

#[test]
fn the_parts_of_the_check_agree_with_the_whole() {
    let cat = catalog();
    let programs = vec!["CS".to_string()];
    let semesters = good_semesters();
    let flat = flatten(&vec![], &semesters);
    assert_eq!(flat, vec![cc("CS", 101), cc("ENG", 100), cc("CS", 201), cc("ART", 110)]);
    assert!(no_repeats(&flat));
    assert!(!no_repeats(&vec![cc("A", 1), cc("B", 1), cc("A", 1)]));
    assert!(known_codes(&cat, &flat));
    assert!(!known_codes(&cat, &vec![cc("CS", 101), cc("XX", 1)]));
    assert!(caps_respected(&cat, &semesters, 6));
    assert!(!caps_respected(&cat, &semesters, 5));
    assert!(prereqs_respected(&cat, &vec![], &semesters));
    assert!(prereq_satisfied(&cat, &vec![cc("CS", 101)], &cc("CS", 201)));
    assert!(!prereq_satisfied(&cat, &vec![], &cc("CS", 201)));
    assert!(prereq_satisfied(&cat, &vec![], &cc("XX", 1)));
    assert!(known_programs(&cat, &programs));
    assert!(!known_programs(&cat, &vec!["CS".to_string(), "cs".to_string()]));
    let trees = collect_obligations(&cat, &programs);
    assert_eq!(trees.len(), 3);
    assert!(trees_satisfied(&trees, &flat));
    assert!(!trees_satisfied(&trees, &vec![cc("CS", 101)]));
    assert_eq!(check_semesters(&cat, &vec![], &semesters, 15), Ok(()));
    assert_eq!(check_plan(&cat, &programs, &vec![], &semesters, 15), Ok(()));
    assert_eq!(check_plan(&cat, &programs, &vec![], &semesters, 5), Err(ScheduleError::CreditCapExceeded));
}

#[test]
fn credits_without_a_recorded_value_count_as_zero() {
    let cat = catalog();
    assert_eq!(cat.credits(&cc("LAB", 1)), 0);
    assert_eq!(cat.credits(&cc("CS", 301)), 4);
    assert_eq!(cat.credits(&cc("XX", 1)), 0);
    assert_eq!(cat.find_course(&cc("ENG", 100)), Some(3));
    assert_eq!(cat.find_course(&cc("XX", 1)), None);
    assert_eq!(cat.find_program(&"CS".to_string()), Some(0));
    assert_eq!(cat.find_program(&"Physics".to_string()), None);
}

#[test]
fn errors_in_words() {
    assert_eq!(ScheduleError::UnknownProgram.message(), "unknown program");
    assert_eq!(ScheduleError::UnknownCourse.message(), "unknown course");
    assert_eq!(ScheduleError::UnsatisfiableRequirement.message(), "unsatisfiable requirement");
    assert_eq!(ScheduleError::PrerequisiteCycle.message(), "prerequisite cycle");
    assert_eq!(ScheduleError::DuplicateCourseAssignment.message(), "duplicate course assignment");
    assert_eq!(ScheduleError::CreditCapExceeded.message(), "credit cap exceeded");
    assert_eq!(ScheduleError::SearchExhausted.message(), "search exhausted");
}
