use ross_link::builder::{build, generate_schedule};
use ross_link::catalog::{Catalog, Course, Elective, GenEd, Program};
use ross_link::code::{CourseCode, CourseCodeSuffix};
use ross_link::error::ScheduleError;
use ross_link::place::{find_fit, find_ready, has_room, place_courses};
use ross_link::requirement::RequirementTree;
use ross_link::select::{find_open, pick_course, score_of, select_courses, MAX_SELECTION_ATTEMPTS};
use ross_link::validate::collect_obligations;

fn cc(stem: &str, n: u32) -> CourseCode {
    CourseCode { stem: stem.to_string(), code: CourseCodeSuffix::Number(n) }
}

fn leaf(stem: &str, n: u32) -> RequirementTree {
    RequirementTree::Course(cc(stem, n))
}

fn course(stem: &str, n: u32, credits: u32, prereq: Vec<RequirementTree>) -> Course {
    Course {
        code: cc(stem, n),
        name: format!("{stem} {n}"),
        credits: Some(credits),
        prereq: RequirementTree::All(prereq),
    }
}

fn program(name: &str, required: Vec<RequirementTree>) -> Program {
    Program { name: name.to_string(), required: RequirementTree::All(required), electives: vec![] }
}

fn college() -> Catalog {
    Catalog {
        courses: vec![
            course("ENG", 100, 3, vec![]),
            course("MATH", 101, 4, vec![]),
            course("CS", 101, 3, vec![]),
            course("CS", 201, 3, vec![leaf("CS", 101)]),
            course("CS", 301, 4, vec![leaf("CS", 201), leaf("MATH", 101)]),
            course("ART", 110, 2, vec![]),
            course("STAT", 200, 3, vec![leaf("MATH", 101)]),
        ],
        geneds: vec![
            GenEd::Core { name: "Writing".to_string(), req: leaf("ENG", 100) },
            GenEd::Foundation {
                name: "Quantitative".to_string(),
                req: RequirementTree::AnyOf(1, vec![leaf("MATH", 101), leaf("STAT", 200)]),
            },
            GenEd::SkillAndPerspective {
                name: "Arts".to_string(),
                req: RequirementTree::AnyWithStem("ART".to_string()),
            },
        ],
        programs: vec![
            Program {
                name: "CS".to_string(),
                required: RequirementTree::All(vec![leaf("CS", 101), leaf("CS", 201), leaf("CS", 301)]),
                electives: vec![Elective {
                    name: "Data".to_string(),
                    req: RequirementTree::AnyOf(1, vec![leaf("STAT", 200), leaf("MATH", 101)]),
                }],
            },
            program("Statistics", vec![leaf("STAT", 200)]),
        ],
    }
}

fn names(list: &[&str]) -> Vec<String> {
    list.iter().map(|s| s.to_string()).collect()
}

#[test]
fn builds_a_plan_for_one_program() {
    let cat = college();
    let s = generate_schedule(names(&["CS"]), &cat, None, None).unwrap();
    assert_eq!(
        s.courses,
        vec![
            vec![cc("ENG", 100), cc("MATH", 101), cc("CS", 101), cc("ART", 110)],
            vec![cc("CS", 201)],
            vec![cc("CS", 301)],
        ]
    );
    assert_eq!(s.programs, names(&["CS"]));
    assert!(s.incoming.is_empty());
    assert!(s.is_valid());
}

#[test]
fn a_plan_without_programs_covers_general_education() {
    let cat = college();
    let s = generate_schedule(vec![], &cat, None, None).unwrap();
    assert_eq!(s.courses, vec![vec![cc("ENG", 100), cc("MATH", 101), cc("ART", 110)]]);
    assert!(s.is_valid());
}

#[test]
fn prerequisites_of_chosen_courses_are_chosen_too() {
    let mut cat = college();
    cat.geneds.clear();
    let s = generate_schedule(names(&["Statistics"]), &cat, None, None).unwrap();
    assert_eq!(s.courses, vec![vec![cc("MATH", 101)], vec![cc("STAT", 200)]]);
    assert!(s.is_valid());
}

#[test]
fn two_programs_share_courses() {
    let cat = college();
    // STAT-200 helps three requirements and is chosen before MATH-101, which it needs;
    // it is placed after it all the same.
    let s = generate_schedule(names(&["Statistics", "CS"]), &cat, None, None).unwrap();
    assert_eq!(
        s.courses,
        vec![
            vec![cc("ENG", 100), cc("MATH", 101), cc("CS", 101), cc("ART", 110)],
            vec![cc("CS", 201), cc("STAT", 200)],
            vec![cc("CS", 301)],
        ]
    );
    assert!(s.is_valid());
}

#[test]
fn the_course_that_helps_more_requirements_is_preferred() {
    let cat = Catalog {
        courses: vec![course("A", 1, 3, vec![]), course("B", 1, 3, vec![])],
        geneds: vec![],
        programs: vec![Program {
            name: "P".to_string(),
            required: RequirementTree::AnyOf(1, vec![leaf("A", 1), leaf("B", 1)]),
            electives: vec![Elective { name: "E".to_string(), req: leaf("B", 1) }],
        }],
    };
    let s = generate_schedule(names(&["P"]), &cat, None, None).unwrap();
    assert_eq!(s.courses, vec![vec![cc("B", 1)]]);
}

#[test]
fn of_equal_courses_the_one_declared_first_is_chosen() {
    let cat = Catalog {
        courses: vec![course("B", 1, 3, vec![]), course("A", 1, 3, vec![])],
        geneds: vec![],
        programs: vec![program("P", vec![RequirementTree::AnyOf(1, vec![leaf("A", 1), leaf("B", 1)])])],
    };
    let s = generate_schedule(names(&["P"]), &cat, None, None).unwrap();
    assert_eq!(s.courses, vec![vec![cc("B", 1)]]);
}

#[test]
fn a_semester_is_filled_up_to_the_cap() {
    let cat = Catalog {
        courses: (1..=6).map(|n| course("F", n, 3, vec![])).collect(),
        geneds: vec![],
        programs: vec![program("P", (1..=6).map(|n| leaf("F", n)).collect())],
    };
    let s = generate_schedule(names(&["P"]), &cat, None, None).unwrap();
    assert_eq!(
        s.courses,
        vec![vec![cc("F", 1), cc("F", 2), cc("F", 3), cc("F", 4), cc("F", 5)], vec![cc("F", 6)]]
    );
}

#[test]
fn a_course_goes_into_the_first_semester_with_room() {
    let cat = Catalog {
        courses: vec![course("X", 1, 8, vec![]), course("X", 2, 8, vec![]), course("X", 3, 7, vec![])],
        geneds: vec![],
        programs: vec![program("P", vec![leaf("X", 1), leaf("X", 2), leaf("X", 3)])],
    };
    let s = generate_schedule(names(&["P"]), &cat, None, None).unwrap();
    assert_eq!(s.courses, vec![vec![cc("X", 1), cc("X", 3)], vec![cc("X", 2)]]);
}

#[test]
fn semesters_given_to_start_from_are_kept_and_filled_up() {
    let cat = college();
    let s = generate_schedule(
        names(&["CS"]),
        &cat,
        Some(vec![cc("ENG", 100)]),
        Some(vec![vec![cc("CS", 101)], vec![cc("CS", 201)]]),
    )
    .unwrap();
    assert_eq!(s.incoming, vec![cc("ENG", 100)]);
    assert_eq!(
        s.courses,
        vec![vec![cc("CS", 101), cc("MATH", 101), cc("ART", 110)], vec![cc("CS", 201)], vec![cc("CS", 301)]]
    );
    assert!(s.is_valid());
}

#[test]
fn unsound_semesters_to_start_from_are_reported() {
    let cat = college();
    let start = |courses: Vec<Vec<CourseCode>>| {
        generate_schedule(names(&["CS"]), &cat, None, Some(courses)).err()
    };
    assert_eq!(
        start(vec![vec![cc("CS", 101)], vec![cc("CS", 101)]]),
        Some(ScheduleError::DuplicateCourseAssignment)
    );
    assert_eq!(start(vec![vec![cc("XX", 1)]]), Some(ScheduleError::UnknownCourse));
    assert_eq!(start(vec![vec![cc("CS", 201)]]), Some(ScheduleError::PrerequisiteCycle));
    let five = vec![cc("ENG", 100), cc("MATH", 101), cc("CS", 101), cc("ART", 110)];
    let mut over = five.clone();
    over.push(cc("CS", 301));
    assert_eq!(start(vec![over]), Some(ScheduleError::CreditCapExceeded));
}

#[test]
fn an_unknown_program_is_reported_before_anything_else() {
    let cat = college();
    let r = generate_schedule(names(&["CS", "Physics"]), &cat, Some(vec![cc("XX", 1)]), None);
    assert_eq!(r.err(), Some(ScheduleError::UnknownProgram));
}

#[test]
fn an_undeclared_incoming_course_is_reported() {
    let cat = college();
    let r = generate_schedule(names(&["CS"]), &cat, Some(vec![cc("XX", 1)]), None);
    assert_eq!(r.err(), Some(ScheduleError::UnknownCourse));
}

#[test]
fn a_requirement_without_a_course_is_reported() {
    let mut cat = college();
    cat.programs.push(program("Physics", vec![leaf("PHYS", 101)]));
    let r = generate_schedule(names(&["Physics"]), &cat, None, None);
    assert_eq!(r.err(), Some(ScheduleError::UnsatisfiableRequirement));
    let mut cat = college();
    cat.programs.push(program("Hard", vec![RequirementTree::AnyOf(2, vec![leaf("CS", 101)])]));
    let r = generate_schedule(names(&["Hard"]), &cat, None, None);
    assert_eq!(r.err(), Some(ScheduleError::UnsatisfiableRequirement));
}

#[test]
fn prerequisites_in_a_circle_are_reported() {
    let cat = Catalog {
        courses: vec![course("A", 1, 3, vec![leaf("B", 1)]), course("B", 1, 3, vec![leaf("A", 1)])],
        geneds: vec![],
        programs: vec![program("P", vec![leaf("A", 1)])],
    };
    let r = generate_schedule(names(&["P"]), &cat, None, None);
    assert_eq!(r.err(), Some(ScheduleError::PrerequisiteCycle));
}

#[test]
fn a_course_over_the_cap_by_itself_is_reported() {
    let cat = Catalog {
        courses: vec![course("A", 1, 16, vec![])],
        geneds: vec![],
        programs: vec![program("P", vec![leaf("A", 1)])],
    };
    let r = generate_schedule(names(&["P"]), &cat, None, None);
    assert_eq!(r.err(), Some(ScheduleError::CreditCapExceeded));
    assert_eq!(build(&cat, &names(&["P"]), &vec![], vec![], &vec![], 16), Ok(vec![vec![cc("A", 1)]]));
}

fn chain(n: u32) -> Catalog {
    Catalog {
        courses: (0..n)
            .map(|i| course("C", i, 1, if i + 1 < n { vec![leaf("C", i + 1)] } else { vec![] }))
            .collect(),
        geneds: vec![],
        programs: vec![program("P", vec![leaf("C", 0)])],
    }
}

#[test]
fn the_selection_gives_up_after_its_attempts() {
    assert_eq!(MAX_SELECTION_ATTEMPTS, 512);
    let cat = chain(513);
    let r = generate_schedule(names(&["P"]), &cat, None, None);
    assert_eq!(r.err(), Some(ScheduleError::SearchExhausted));
}

#[test]
fn the_selection_may_use_all_its_attempts() {
    let cat = chain(512);
    let s = generate_schedule(names(&["P"]), &cat, None, None).unwrap();
    assert_eq!(s.courses.len(), 512);
    assert_eq!(s.courses[0], vec![cc("C", 511)]);
    assert_eq!(s.courses[511], vec![cc("C", 0)]);
}

#[test]
fn banned_courses_are_not_chosen() {
    let cat = college();
    let r = build(&cat, &vec![], &vec![], vec![], &vec![cc("MATH", 101)], 15);
    assert_eq!(r.err(), Some(ScheduleError::UnsatisfiableRequirement));
    let mut cat = college();
    cat.courses[6].prereq = RequirementTree::All(vec![]);
    let r = build(&cat, &vec![], &vec![], vec![], &vec![cc("MATH", 101)], 15);
    assert_eq!(r, Ok(vec![vec![cc("ENG", 100), cc("ART", 110), cc("STAT", 200)]]));
}

#[test]
fn a_course_declared_twice_counts_as_declared_first() {
    let cat = Catalog {
        courses: vec![course("A", 1, 3, vec![]), course("B", 1, 3, vec![]), course("A", 1, 9, vec![leaf("B", 1)])],
        geneds: vec![],
        programs: vec![program("P", vec![leaf("A", 1)])],
    };
    let s = generate_schedule(names(&["P"]), &cat, None, None).unwrap();
    assert_eq!(s.courses, vec![vec![cc("A", 1)]]);
}

#[test]
fn the_steps_of_the_selection() {
    let cat = college();
    let programs = names(&["CS"]);
    let trees = collect_obligations(&cat, &programs);
    assert_eq!(trees.len(), 5);
    let done = vec![cc("ENG", 100)];
    assert_eq!(find_open(&trees, &done), Some(1));
    assert_eq!(find_open(&trees, &vec![]), Some(0));
    assert_eq!(score_of(&trees, &done, &cc("MATH", 101)), 2);
    assert_eq!(score_of(&trees, &done, &cc("CS", 101)), 1);
    assert_eq!(score_of(&trees, &done, &cc("ENG", 100)), 0);
    assert_eq!(pick_course(&cat, &trees, 1, &done, &vec![]), Some(1));
    assert_eq!(pick_course(&cat, &trees, 1, &done, &vec![cc("MATH", 101)]), Some(6));
    assert_eq!(pick_course(&cat, &trees, 0, &done, &vec![]), None);
    let all = select_courses(&cat, trees, done, &vec![]).unwrap();
    assert_eq!(
        all,
        vec![cc("ENG", 100), cc("MATH", 101), cc("ART", 110), cc("CS", 101), cc("CS", 201), cc("CS", 301)]
    );
    let trees = collect_obligations(&cat, &programs);
    assert_eq!(find_open(&trees, &all), None);
}

#[test]
fn the_steps_of_the_placement() {
    let cat = college();
    let semesters = vec![vec![cc("ENG", 100), cc("MATH", 101)], vec![cc("CS", 101)]];
    let placed = vec![cc("ENG", 100), cc("MATH", 101), cc("CS", 101)];
    let remaining = vec![cc("CS", 301), cc("STAT", 200), cc("CS", 201)];
    // STAT-200 and CS-201 are ready; the catalog declares CS-201 first
    assert_eq!(find_ready(&cat, &placed, &remaining), Some(2));
    assert_eq!(find_ready(&cat, &placed, &vec![cc("XX", 1), cc("STAT", 200), cc("XX", 1)]), Some(1));
    assert_eq!(find_ready(&cat, &placed, &vec![cc("XX", 2), cc("XX", 1)]), Some(0));
    assert_eq!(find_ready(&cat, &vec![], &remaining), None);
    assert_eq!(find_fit(&cat, &vec![], &semesters, 15, &cc("STAT", 200)), Some(1));
    assert_eq!(find_fit(&cat, &vec![], &semesters, 15, &cc("ART", 110)), Some(0));
    assert_eq!(find_fit(&cat, &vec![], &semesters, 8, &cc("ART", 110)), Some(1));
    assert_eq!(find_fit(&cat, &vec![], &semesters, 15, &cc("CS", 201)), None);
    assert_eq!(find_fit(&cat, &vec![cc("CS", 101)], &semesters, 15, &cc("CS", 201)), Some(0));
    assert!(has_room(&cat, &semesters[0], 8, 15));
    assert!(!has_room(&cat, &semesters[0], 9, 15));
    assert!(!has_room(&cat, &vec![], 16, 15));
    let r = place_courses(&cat, &vec![], semesters, remaining, 15);
    assert_eq!(
        r,
        Ok(vec![
            vec![cc("ENG", 100), cc("MATH", 101)],
            vec![cc("CS", 101), cc("STAT", 200)],
            vec![cc("CS", 201)],
            vec![cc("CS", 301)],
        ])
    );
}
