use ross_link::builder::generate_schedule;
use ross_link::catalog::{Catalog, Course, Program};
use ross_link::code::{CourseCode, CourseCodeSuffix};
use ross_link::error::ScheduleError;
use ross_link::requirement::RequirementTree;

fn cc(stem: &str, n: u32) -> CourseCode {
    CourseCode { stem: stem.to_string(), code: CourseCodeSuffix::Number(n) }
}

fn course(stem: &str, n: u32, credits: u32, prereq: Vec<RequirementTree>) -> Course {
    Course {
        code: cc(stem, n),
        name: format!("{stem} {n}"),
        credits: Some(credits),
        prereq: RequirementTree::All(prereq),
    }
}

fn cs_catalog() -> Catalog {
    Catalog {
        courses: vec![
            course("CS", 101, 3, vec![]),
            course("CS", 201, 3, vec![RequirementTree::Course(cc("CS", 101))]),
        ],
        geneds: vec![],
        programs: vec![Program {
            name: "CS".to_string(),
            required: RequirementTree::All(vec![
                RequirementTree::Course(cc("CS", 101)),
                RequirementTree::Course(cc("CS", 201)),
            ]),
            electives: vec![],
        }],
    }
}

fn semester_of(courses: &Vec<Vec<CourseCode>>, c: &CourseCode) -> Option<usize> {
    courses.iter().position(|sem| sem.contains(c))
}

#[test]
fn prerequisite_is_placed_in_an_earlier_semester() {
    let catalog = cs_catalog();
    let s = generate_schedule(vec!["CS".to_string()], &catalog, None, None).unwrap();
    assert_eq!(s.courses, vec![vec![cc("CS", 101)], vec![cc("CS", 201)]]);
    assert_eq!(semester_of(&s.courses, &cc("CS", 101)), Some(0));
    assert!(semester_of(&s.courses, &cc("CS", 201)).unwrap() >= 1);
    assert!(s.is_valid());
}

#[test]
fn incoming_course_is_not_placed_again() {
    let catalog = cs_catalog();
    let s = generate_schedule(vec!["CS".to_string()], &catalog, Some(vec![cc("CS", 101)]), None)
        .unwrap();
    assert_eq!(s.incoming, vec![cc("CS", 101)]);
    assert_eq!(semester_of(&s.courses, &cc("CS", 101)), None);
    assert_eq!(s.courses, vec![vec![cc("CS", 201)]]);
    assert!(s.is_valid());
}

#[test]
fn unknown_program_is_reported() {
    let catalog = cs_catalog();
    let r = generate_schedule(vec!["Physics".to_string()], &catalog, None, None);
    assert_eq!(r.err(), Some(ScheduleError::UnknownProgram));
}
