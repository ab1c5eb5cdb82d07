use ross_link::catalog::{Catalog, Course, Elective, GenEd, Program};
use ross_link::code::{CourseCode, CourseCodeSuffix};
use ross_link::error::{QueryError, ScheduleError};
use ross_link::listing::{entries_of_row, label_of_row, sum_credits};
use ross_link::other::{contains_text, offered_courses, text_in_codes};
use ross_link::reasons::ReasonTypes;
use ross_link::requirement::RequirementTree;
use ross_link::schedule::Schedule;
use ross_link::text_api::{codes_from_text, get_programs, semesters_from_text};

fn cc(stem: &str, n: u32) -> CourseCode {
    CourseCode { stem: stem.to_string(), code: CourseCodeSuffix::Number(n) }
}

fn leaf(stem: &str, n: u32) -> RequirementTree {
    RequirementTree::Course(cc(stem, n))
}

fn course(stem: &str, n: u32, credits: Option<u32>, prereq: Vec<RequirementTree>) -> Course {
    Course { code: cc(stem, n), name: format!("{stem} {n}"), credits, prereq: RequirementTree::All(prereq) }
}

fn any_of(n: usize, leaves: &[(&str, u32)]) -> RequirementTree {
    RequirementTree::AnyOf(n, leaves.iter().map(|(s, k)| leaf(s, *k)).collect())
}

fn college() -> Catalog {
    Catalog {
        courses: vec![
            course("ENG", 100, Some(3), vec![]),
            course("ENG", 110, Some(3), vec![]),
            course("MATH", 101, Some(4), vec![]),
            course("CS", 101, Some(3), vec![]),
            course("CS", 201, Some(3), vec![leaf("CS", 101)]),
            course("ART", 110, Some(2), vec![]),
            course("ART", 120, None, vec![]),
            Course {
                code: CourseCode { stem: "MATH".to_string(), code: CourseCodeSuffix::Special("PLACEMENT".to_string()) },
                name: "Placement".to_string(),
                credits: Some(0),
                prereq: RequirementTree::All(vec![]),
            },
        ],
        geneds: vec![
            GenEd::Core { name: "Writing".to_string(), req: any_of(1, &[("ENG", 100), ("ENG", 110), ("ENG", 999)]) },
            GenEd::Foundation { name: "Writing".to_string(), req: leaf("MATH", 101) },
            GenEd::SkillAndPerspective {
                name: "Arts".to_string(),
                req: RequirementTree::AnyWithStem("ART".to_string()),
            },
            GenEd::Core { name: "Writing".to_string(), req: any_of(1, &[("ENG", 110), ("CS", 101)]) },
        ],
        programs: vec![
            Program {
                name: "CS".to_string(),
                required: RequirementTree::All(vec![leaf("CS", 101), leaf("CS", 201)]),
                electives: vec![
                    Elective { name: "Breadth".to_string(), req: any_of(1, &[("ART", 110), ("MATH", 101)]) },
                    Elective { name: "Depth".to_string(), req: leaf("CS", 201) },
                    Elective { name: "Breadth".to_string(), req: leaf("ENG", 110) },
                ],
            },
            Program { name: "Art".to_string(), required: leaf("ART", 110), electives: vec![] },
        ],
    }
}

fn texts(list: &[&str]) -> Vec<String> {
    list.iter().map(|s| s.to_string()).collect()
}

fn plan(cat: &Catalog) -> Schedule<'_> {
    Schedule {
        programs: texts(&["CS"]),
        incoming: vec![cc("ENG", 100)],
        courses: vec![vec![cc("CS", 101), cc("ART", 110)], vec![cc("CS", 201), cc("ART", 120)]],
        catalog: cat,
    }
}

fn sorted(mut v: Vec<String>) -> Vec<String> {
    v.sort();
    v
}

#[test]
fn other_courses_of_a_general_education_category() {
    let cat = college();
    let s = plan(&cat);
    let r = s.get_other_courses(ReasonTypes::Core, Some("Writing".to_string()), None).unwrap();
    // both core categories named Writing count; ENG-100 and CS-101 are in the plan, ENG-999 is not declared
    assert_eq!(r, texts(&["ENG-110"]));
    let r = s.get_other_courses(ReasonTypes::Foundation, Some("Writing".to_string()), None).unwrap();
    assert_eq!(r, texts(&["MATH-101"]));
    let r = s.get_other_courses(ReasonTypes::SkillsAndPerspective, Some("Arts".to_string()), None).unwrap();
    assert_eq!(r, Vec::<String>::new());
    let r = s.get_other_courses(ReasonTypes::Core, Some("Arts".to_string()), None).unwrap();
    assert_eq!(r, Vec::<String>::new());
}

#[test]
fn other_courses_of_an_elective() {
    let cat = college();
    let s = plan(&cat);
    let r = s
        .get_other_courses(ReasonTypes::ProgramElective, Some("Breadth".to_string()), Some("CS".to_string()))
        .unwrap();
    assert_eq!(sorted(r), texts(&["ENG-110", "MATH-101"]));
    let r = s
        .get_other_courses(ReasonTypes::ProgramElective, Some("Depth".to_string()), Some("CS".to_string()))
        .unwrap();
    assert_eq!(r, Vec::<String>::new());
    let r = s
        .get_other_courses(ReasonTypes::ProgramElective, Some("Breadth".to_string()), Some("Art".to_string()))
        .unwrap();
    assert_eq!(r, Vec::<String>::new());
}

#[test]
fn the_other_kinds_offer_nothing() {
    let cat = college();
    let s = plan(&cat);
    assert_eq!(s.get_other_courses(ReasonTypes::ProgramRequired, None, None), Ok(vec![]));
    assert_eq!(
        s.get_other_courses(ReasonTypes::ProgramRequired, Some("CS".to_string()), Some("CS".to_string())),
        Ok(vec![])
    );
    assert_eq!(s.get_other_courses(ReasonTypes::CourseReq, None, None), Ok(vec![]));
}

#[test]
fn a_question_without_a_name_is_refused() {
    let cat = college();
    let s = plan(&cat);
    for kind in [ReasonTypes::Core, ReasonTypes::Foundation, ReasonTypes::SkillsAndPerspective] {
        assert_eq!(s.get_other_courses(kind, None, None), Err(QueryError::NameRequired));
        assert_eq!(s.get_other_courses(kind, None, Some("CS".to_string())), Err(QueryError::NameRequired));
    }
    let e = ReasonTypes::ProgramElective;
    assert_eq!(s.get_other_courses(e, None, None), Err(QueryError::NameAndProgramRequired));
    assert_eq!(s.get_other_courses(e, Some("Breadth".to_string()), None), Err(QueryError::NameAndProgramRequired));
    assert_eq!(s.get_other_courses(e, None, Some("CS".to_string())), Err(QueryError::NameAndProgramRequired));
}

#[test]
fn query_errors_in_words() {
    assert_eq!(QueryError::NameRequired.message(), "Name must be provided for Core reason type");
    assert_eq!(
        QueryError::NameAndProgramRequired.message(),
        "Name and Program must be provided for ProgramElective reason type"
    );
}

#[test]
fn each_text_is_listed_once() {
    let cat = college();
    let s = Schedule { programs: vec![], incoming: vec![], courses: vec![], catalog: &cat };
    let r = s.get_other_courses(ReasonTypes::Core, Some("Writing".to_string()), None).unwrap();
    assert_eq!(sorted(r), texts(&["CS-101", "ENG-100", "ENG-110"]));
}

#[test]
fn the_helpers_of_other_courses() {
    let cat = college();
    let codes = offered_courses(&cat, ReasonTypes::Core, &"Writing".to_string(), &String::new());
    assert_eq!(codes, vec![cc("ENG", 100), cc("ENG", 110), cc("ENG", 110), cc("CS", 101)]);
    assert_eq!(offered_courses(&cat, ReasonTypes::CourseReq, &String::new(), &String::new()), vec![]);
    assert!(contains_text(&texts(&["A-1", "B-2"]), &"B-2".to_string()));
    assert!(!contains_text(&texts(&["A-1", "B-2"]), &"B-3".to_string()));
    assert!(text_in_codes(&vec![cc("A", 1), cc("B", 2)], &"B-2".to_string()));
    assert!(!text_in_codes(&vec![cc("A", 1), cc("B", 2)], &"B-02".to_string()));
}

#[test]
fn courses_row_by_row() {
    let cat = college();
    let mut s = plan(&cat);
    s.incoming.push(CourseCode {
        stem: "MATH".to_string(),
        code: CourseCodeSuffix::Special("PLACEMENT".to_string()),
    });
    let rows = s.get_courses().unwrap();
    assert_eq!(
        rows,
        vec![
            (
                "incoming".to_string(),
                vec![
                    ("ENG".to_string(), CourseCodeSuffix::Number(100), Some(3)),
                    ("MATH".to_string(), CourseCodeSuffix::Special("PLACEMENT".to_string()), Some(0)),
                ]
            ),
            (
                "semester-1".to_string(),
                vec![
                    ("CS".to_string(), CourseCodeSuffix::Number(101), Some(3)),
                    ("ART".to_string(), CourseCodeSuffix::Number(110), Some(2)),
                ]
            ),
            (
                "semester-2".to_string(),
                vec![
                    ("CS".to_string(), CourseCodeSuffix::Number(201), Some(3)),
                    ("ART".to_string(), CourseCodeSuffix::Number(120), None),
                ]
            ),
        ]
    );
}

#[test]
fn rows_of_a_plan_with_an_undeclared_course_are_refused() {
    let cat = college();
    let mut s = plan(&cat);
    s.courses[1].push(cc("XX", 1));
    assert_eq!(s.get_courses().err(), Some(ScheduleError::UnknownCourse));
}

#[test]
fn rows_of_an_empty_plan() {
    let cat = college();
    let s = Schedule { programs: vec![], incoming: vec![], courses: vec![], catalog: &cat };
    assert_eq!(s.get_courses().unwrap(), vec![("incoming".to_string(), vec![])]);
}

#[test]
fn row_labels_count_from_one() {
    assert_eq!(label_of_row(0), "incoming");
    assert_eq!(label_of_row(1), "semester-1");
    assert_eq!(label_of_row(10), "semester-10");
    assert_eq!(label_of_row(1234567), "semester-1234567");
}

#[test]
fn entries_hold_stem_suffix_and_credits() {
    let cat = college();
    assert_eq!(
        entries_of_row(&cat, &vec![cc("MATH", 101), cc("XX", 1)]),
        vec![
            ("MATH".to_string(), CourseCodeSuffix::Number(101), Some(4)),
            ("XX".to_string(), CourseCodeSuffix::Number(1), None),
        ]
    );
}

#[test]
fn the_summary_line_by_line() {
    let cat = college();
    let mut s = plan(&cat);
    s.courses.push(vec![cc("XX", 1)]);
    assert_eq!(
        s.display(),
        texts(&[
            "Final schedule (two-stage, balanced):",
            "Semester 0 (incoming only):",
            "  ENG-100 (3 credits)",
            "  Credits: 3",
            "Semester 1",
            "  CS-101 (3 credits)",
            "  ART-110 (2 credits)",
            "  Credits: 5",
            "Semester 2",
            "  CS-201 (3 credits)",
            "  ART-120 (0 credits)",
            "  Credits: 3",
            "Semester 3",
            "  XX-1 (0 credits)",
            "  Credits: 0",
            "Total credits (excluding incoming): 8",
        ])
    );
}

#[test]
fn the_summary_of_an_empty_plan() {
    let cat = college();
    let s = Schedule { programs: vec![], incoming: vec![], courses: vec![], catalog: &cat };
    assert_eq!(
        s.display(),
        texts(&[
            "Final schedule (two-stage, balanced):",
            "Semester 0 (incoming only):",
            "  Credits: 0",
            "Total credits (excluding incoming): 0",
        ])
    );
}

#[test]
fn credits_are_added_up_without_overflow() {
    let cat = Catalog {
        courses: vec![course("A", 1, Some(u32::MAX), vec![]), course("A", 2, Some(u32::MAX), vec![])],
        geneds: vec![],
        programs: vec![],
    };
    assert_eq!(sum_credits(&cat, &vec![cc("A", 1), cc("A", 2), cc("A", 1)]), 3 * (u32::MAX as u128));
    let s = Schedule { programs: vec![], incoming: vec![], courses: vec![vec![cc("A", 1), cc("A", 2)]], catalog: &cat };
    let lines = s.display();
    assert_eq!(lines[6], "  Credits: 8589934590");
    assert_eq!(lines[7], "Total credits (excluding incoming): 8589934590");
}

#[test]
fn program_names_in_the_order_of_the_catalog() {
    assert_eq!(get_programs(&college()), texts(&["CS", "Art"]));
    let none = Catalog { courses: vec![], geneds: vec![], programs: vec![] };
    assert_eq!(get_programs(&none), Vec::<String>::new());
}

#[test]
fn codes_are_read_from_text() {
    assert_eq!(codes_from_text(&texts(&["CS-101", "ART-110"])), vec![cc("CS", 101), cc("ART", 110)]);
    assert_eq!(
        semesters_from_text(&vec![texts(&["CS-101"]), vec![], texts(&["ART-110", "CS-201"])]),
        vec![vec![cc("CS", 101)], vec![], vec![cc("ART", 110), cc("CS", 201)]]
    );
}

#[test]
fn a_plan_is_built_from_text() {
    let cat = college();
    let s = Schedule::new(texts(&["Art"]), Some(texts(&["ENG-100", "MATH-101"])), &cat).unwrap();
    assert_eq!(s.incoming, vec![cc("ENG", 100), cc("MATH", 101)]);
    // the second core category is still open and takes ENG-110, declared before CS-101
    assert_eq!(s.courses, vec![vec![cc("ENG", 110), cc("ART", 110)]]);
    assert!(s.is_valid());
    // ENG-110 counts for both core categories and is preferred to ENG-100
    let s = Schedule::new(texts(&["Art"]), None, &cat).unwrap();
    assert_eq!(s.courses, vec![vec![cc("ENG", 110), cc("MATH", 101), cc("ART", 110)]]);
    assert_eq!(Schedule::new(texts(&["Law"]), None, &cat).err(), Some(ScheduleError::UnknownProgram));
}

#[test]
fn a_plan_is_built_from_semesters_given_as_text() {
    let cat = college();
    let s = Schedule::with_courses(
        texts(&["CS"]),
        Some(texts(&["ENG-100"])),
        Some(vec![texts(&["CS-101"]), texts(&["CS-201"])]),
        &cat,
    )
    .unwrap();
    assert_eq!(
        s.courses,
        vec![vec![cc("CS", 101), cc("ENG", 110), cc("MATH", 101), cc("ART", 110)], vec![cc("CS", 201)]]
    );
    let s = Schedule::with_courses(texts(&["Art"]), None, None, &cat).unwrap();
    assert_eq!(s.courses, vec![vec![cc("ENG", 110), cc("MATH", 101), cc("ART", 110)]]);
    let r = Schedule::with_courses(texts(&["CS"]), None, Some(vec![texts(&["CS-201"])]), &cat);
    assert_eq!(r.err(), Some(ScheduleError::PrerequisiteCycle));
}

#[test]
fn courses_are_swapped_without_a_check() {
    let cat = college();
    let mut s = plan(&cat);
    s.swap_courses(vec![texts(&["CS-201", "XX-9"]), vec![]], None);
    assert_eq!(s.incoming, vec![cc("ENG", 100)]);
    assert_eq!(s.courses, vec![vec![cc("CS", 201), cc("XX", 9)], vec![]]);
    assert_eq!(s.programs, texts(&["CS"]));
    assert!(!s.is_valid());
    s.swap_courses(vec![texts(&["CS-201"])], Some(texts(&["CS-101", "MATH-101", "ENG-110", "ART-110"])));
    assert_eq!(s.incoming, vec![cc("CS", 101), cc("MATH", 101), cc("ENG", 110), cc("ART", 110)]);
    assert_eq!(s.courses, vec![vec![cc("CS", 201)]]);
    assert!(s.is_valid());
}

#[test]
fn options_are_listed_from_text() {
    let cat = college();
    let list = Schedule::gen_valid_options(texts(&["Art"]), texts(&["MATH-101"]), 5, &cat).unwrap();
    let plans: Vec<_> = list.iter().map(|s| s.courses.clone()).collect();
    assert_eq!(
        plans,
        vec![vec![vec![cc("ENG", 110), cc("ART", 110)]], vec![vec![cc("ENG", 100), cc("CS", 101), cc("ART", 110)]]]
    );
    for s in &list {
        assert_eq!(s.incoming, vec![cc("MATH", 101)]);
        assert!(s.is_valid());
    }
    let r = Schedule::gen_valid_options(texts(&["Law"]), vec![], 5, &cat);
    assert_eq!(r.err(), Some(ScheduleError::UnknownProgram));
}
