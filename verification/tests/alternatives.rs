use ross_link::builder::generate_schedule;
use ross_link::catalog::{Catalog, Course, GenEd, Program};
use ross_link::code::{CourseCode, CourseCodeSuffix};
use ross_link::error::ScheduleError;
use ross_link::multi::{copy_names, generate_multi_schedules, is_listed, same_semesters, subset_codes};
use ross_link::requirement::RequirementTree;
use ross_link::schedule::Schedule;

fn cc(stem: &str, n: u32) -> CourseCode {
    CourseCode { stem: stem.to_string(), code: CourseCodeSuffix::Number(n) }
}

fn leaf(stem: &str, n: u32) -> RequirementTree {
    RequirementTree::Course(cc(stem, n))
}

fn course(stem: &str, n: u32, credits: u32, prereq: Vec<RequirementTree>) -> Course {
    Course {
        code: cc(stem, n),
        name: format!("{stem} {n}"),
        credits: Some(credits),
        prereq: RequirementTree::All(prereq),
    }
}

fn college() -> Catalog {
    Catalog {
        courses: vec![
            course("ENG", 100, 3, vec![]),
            course("MATH", 101, 4, vec![]),
            course("STAT", 200, 3, vec![]),
            course("CS", 101, 3, vec![]),
            course("CS", 201, 3, vec![leaf("CS", 101)]),
            course("ART", 110, 2, vec![]),
            course("ART", 120, 3, vec![]),
        ],
        geneds: vec![
            GenEd::Core { name: "Writing".to_string(), req: leaf("ENG", 100) },
            GenEd::Foundation {
                name: "Quantitative".to_string(),
                req: RequirementTree::AnyOf(1, vec![leaf("MATH", 101), leaf("STAT", 200)]),
            },
            GenEd::SkillAndPerspective {
                name: "Arts".to_string(),
                req: RequirementTree::AnyWithStem("ART".to_string()),
            },
        ],
        programs: vec![Program {
            name: "CS".to_string(),
            required: RequirementTree::All(vec![leaf("CS", 101), leaf("CS", 201)]),
            electives: vec![],
        }],
    }
}

fn base(cat: &Catalog) -> Schedule<'_> {
    generate_schedule(vec!["CS".to_string()], cat, None, None).unwrap()
}

fn plans(list: &[Schedule]) -> Vec<Vec<Vec<CourseCode>>> {
    list.iter().map(|s| s.courses.clone()).collect()
}

fn first() -> Vec<Vec<CourseCode>> {
    vec![vec![cc("ENG", 100), cc("MATH", 101), cc("CS", 101), cc("ART", 110)], vec![cc("CS", 201)]]
}

fn second() -> Vec<Vec<CourseCode>> {
    vec![vec![cc("ENG", 100), cc("STAT", 200), cc("CS", 101), cc("ART", 110)], vec![cc("CS", 201)]]
}

fn third() -> Vec<Vec<CourseCode>> {
    vec![vec![cc("ENG", 100), cc("MATH", 101), cc("CS", 101), cc("ART", 120)], vec![cc("CS", 201)]]
}

#[test]
fn lists_the_plan_and_its_alternatives() {
    let cat = college();
    let list = generate_multi_schedules(base(&cat), 15, 10).unwrap();
    assert_eq!(plans(&list), vec![first(), second(), third()]);
    for s in &list {
        assert!(s.is_valid());
        assert_eq!(s.programs, vec!["CS".to_string()]);
        assert!(s.incoming.is_empty());
    }
}

#[test]
fn lists_no_more_plans_than_asked_for() {
    let cat = college();
    assert_eq!(plans(&generate_multi_schedules(base(&cat), 15, 3).unwrap()), vec![first(), second(), third()]);
    assert_eq!(plans(&generate_multi_schedules(base(&cat), 15, 2).unwrap()), vec![first(), second()]);
    assert_eq!(plans(&generate_multi_schedules(base(&cat), 15, 1).unwrap()), vec![first()]);
}

#[test]
fn the_plan_itself_is_always_listed() {
    let cat = college();
    assert_eq!(plans(&generate_multi_schedules(base(&cat), 15, 0).unwrap()), vec![first()]);
}

#[test]
fn no_two_listed_plans_are_the_same() {
    let cat = college();
    let list = generate_multi_schedules(base(&cat), 15, u64::MAX).unwrap();
    for i in 0..list.len() {
        for j in 0..i {
            assert!(!same_semesters(&list[i].courses, &list[j].courses));
        }
    }
}

#[test]
fn listing_twice_gives_the_same_list() {
    let cat = college();
    let a = generate_multi_schedules(base(&cat), 15, 10).unwrap();
    let b = generate_multi_schedules(base(&cat), 15, 10).unwrap();
    assert_eq!(plans(&a), plans(&b));
}

#[test]
fn alternatives_are_built_with_the_cap_given() {
    let cat = college();
    let list = generate_multi_schedules(base(&cat), 9, 2).unwrap();
    assert_eq!(
        plans(&list),
        vec![
            first(),
            vec![vec![cc("ENG", 100), cc("STAT", 200), cc("CS", 101)], vec![cc("CS", 201), cc("ART", 110)]],
        ]
    );
}

#[test]
fn alternatives_over_the_cap_of_a_valid_plan_are_left_out() {
    let mut cat = college();
    cat.courses[2].credits = Some(9);
    // with STAT-200 at nine credits the first semester of that alternative carries seventeen
    let list = generate_multi_schedules(base(&cat), 20, 10).unwrap();
    assert_eq!(plans(&list), vec![first(), third()]);
}

#[test]
fn incoming_courses_are_kept_in_every_alternative() {
    let cat = college();
    let b = generate_schedule(vec!["CS".to_string()], &cat, Some(vec![cc("CS", 101)]), None).unwrap();
    let list = generate_multi_schedules(b, 15, 10).unwrap();
    assert_eq!(list.len(), 3);
    for s in &list {
        assert_eq!(s.incoming, vec![cc("CS", 101)]);
        assert!(s.is_valid());
    }
    assert_eq!(list[0].courses, vec![vec![cc("ENG", 100), cc("MATH", 101), cc("CS", 201), cc("ART", 110)]]);
}

#[test]
fn a_plan_that_is_not_valid_has_no_alternatives() {
    let cat = college();
    let mut b = base(&cat);
    b.courses[1].push(cc("ENG", 100));
    assert_eq!(generate_multi_schedules(b, 15, 3).err(), Some(ScheduleError::DuplicateCourseAssignment));
    let mut b = base(&cat);
    b.courses.pop();
    assert_eq!(generate_multi_schedules(b, 15, 3).err(), Some(ScheduleError::UnsatisfiableRequirement));
}

#[test]
fn plans_are_compared_semester_by_semester_as_sets() {
    let a = vec![vec![cc("A", 1), cc("B", 1)], vec![cc("C", 1)]];
    let b = vec![vec![cc("B", 1), cc("A", 1)], vec![cc("C", 1)]];
    let c = vec![vec![cc("A", 1)], vec![cc("B", 1), cc("C", 1)]];
    let d = vec![vec![cc("A", 1), cc("B", 1)], vec![cc("C", 1)], vec![]];
    assert!(same_semesters(&a, &b));
    assert!(!same_semesters(&a, &c));
    assert!(!same_semesters(&a, &d));
    assert!(subset_codes(&vec![cc("A", 1)], &a[0]));
    assert!(!subset_codes(&a[0], &vec![cc("A", 1)]));
    assert!(subset_codes(&vec![], &vec![]));
    let cat = college();
    let list = vec![Schedule { programs: vec![], incoming: vec![], courses: a, catalog: &cat }];
    assert!(is_listed(&list, &b));
    assert!(!is_listed(&list, &c));
    assert!(!is_listed(&Vec::new(), &b));
}

#[test]
fn names_are_copied() {
    let names = vec!["CS".to_string(), "Art".to_string()];
    assert_eq!(copy_names(&names), names);
}
