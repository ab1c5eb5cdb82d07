//! The catalog: courses with credits and prerequisites, general-education
//! requirements, and programs with their required courses and electives.

use vstd::prelude::*;
use crate::code::{code_views, contains_code, CodeView, CourseCode};
use crate::requirement::RequirementTree;

verus! {

/// One course of the catalog.
#[derive(Debug)]
pub struct Course {
    pub code: CourseCode,
    pub name: String,
    /// Credit hours; a course without a recorded value counts as zero.
    pub credits: Option<u32>,
    /// What must be completed in an earlier semester.
    pub prereq: RequirementTree,
}

/// A general-education requirement, tagged by its kind.
#[derive(Debug)]
pub enum GenEd {
    Core { name: String, req: RequirementTree },
    Foundation { name: String, req: RequirementTree },
    SkillAndPerspective { name: String, req: RequirementTree },
}

/// A named choice among courses inside a program.
#[derive(Debug)]
pub struct Elective {
    pub name: String,
    pub req: RequirementTree,
}

/// A major or minor.
#[derive(Debug)]
pub struct Program {
    pub name: String,
    pub required: RequirementTree,
    pub electives: Vec<Elective>,
}

/// Everything the planner knows about the institution. Where a code or a
/// program name is declared more than once, the first declaration counts.
#[derive(Debug)]
pub struct Catalog {
    pub courses: Vec<Course>,
    pub geneds: Vec<GenEd>,
    pub programs: Vec<Program>,
}

impl GenEd {
    /// The requirement tree of this category.
    pub open spec fn tree(self) -> RequirementTree {
        match self {
            GenEd::Core { name, req } => req,
            GenEd::Foundation { name, req } => req,
            GenEd::SkillAndPerspective { name, req } => req,
        }
    }

    /// The name of this category.
    pub open spec fn label(self) -> Seq<char> {
        match self {
            GenEd::Core { name, req } => name@,
            GenEd::Foundation { name, req } => name@,
            GenEd::SkillAndPerspective { name, req } => name@,
        }
    }

    /// The requirement tree of this category.
    pub fn req(&self) -> (r: &RequirementTree)
        ensures
            *r == self.tree(),
    {
        match self {
            GenEd::Core { name, req } => req,
            GenEd::Foundation { name, req } => req,
            GenEd::SkillAndPerspective { name, req } => req,
        }
    }
}

/// The index of the first course at or after `i` whose code is `c`.
pub open spec fn find_course_from(courses: Seq<Course>, c: CodeView, i: int) -> Option<int>
    decreases courses.len() - i,
{
    if i < 0 || i >= courses.len() {
        None
    } else if courses[i].code@ == c {
        Some(i)
    } else {
        find_course_from(courses, c, i + 1)
    }
}

/// The index of the first program at or after `i` whose name is `name`.
pub open spec fn find_program_from(programs: Seq<Program>, name: Seq<char>, i: int) -> Option<int>
    decreases programs.len() - i,
{
    if i < 0 || i >= programs.len() {
        None
    } else if programs[i].name@ == name {
        Some(i)
    } else {
        find_program_from(programs, name, i + 1)
    }
}

/// What `find_course_from` finds is the first match, and it finds one
/// whenever there is one.
pub proof fn lemma_find_course(courses: Seq<Course>, c: CodeView, i: int)
    requires
        0 <= i <= courses.len(),
    ensures
        match find_course_from(courses, c, i) {
            Some(k) => i <= k < courses.len() && courses[k].code@ == c && forall|j: int|
                i <= j < k ==> (#[trigger] courses[j]).code@ != c,
            None => forall|j: int| i <= j < courses.len() ==> (#[trigger] courses[j]).code@ != c,
        },
    decreases courses.len() - i,
{
    if i < courses.len() && courses[i].code@ != c {
        lemma_find_course(courses, c, i + 1);
    }
}

/// What `find_program_from` finds is the first match, and it finds one
/// whenever there is one.
pub proof fn lemma_find_program(programs: Seq<Program>, name: Seq<char>, i: int)
    requires
        0 <= i <= programs.len(),
    ensures
        match find_program_from(programs, name, i) {
            Some(k) => i <= k < programs.len() && programs[k].name@ == name && forall|j: int|
                i <= j < k ==> (#[trigger] programs[j]).name@ != name,
            None => forall|j: int|
                i <= j < programs.len() ==> (#[trigger] programs[j]).name@ != name,
        },
    decreases programs.len() - i,
{
    if i < programs.len() && programs[i].name@ != name {
        lemma_find_program(programs, name, i + 1);
    }
}

impl Catalog {
    /// Where the course `c` is declared, if it is.
    pub open spec fn course_index(self, c: CodeView) -> Option<int> {
        find_course_from(self.courses@, c, 0)
    }

    /// Whether the catalog declares the course `c`.
    pub open spec fn knows(self, c: CodeView) -> bool {
        self.course_index(c) is Some
    }

    /// The credits of `c`: zero for a course that is unknown or has no
    /// recorded value.
    pub open spec fn credits_of(self, c: CodeView) -> nat {
        match self.course_index(c) {
            Some(k) => match self.courses[k].credits {
                Some(n) => n as nat,
                None => 0,
            },
            None => 0,
        }
    }

    /// Where the program `name` is declared, if it is.
    pub open spec fn program_index(self, name: Seq<char>) -> Option<int> {
        find_program_from(self.programs@, name, 0)
    }

    /// Whether the catalog declares the program `name`.
    pub open spec fn has_program(self, name: Seq<char>) -> bool {
        self.program_index(name) is Some
    }

    /// Looks a course up by its code.
    pub fn find_course(&self, code: &CourseCode) -> (r: Option<usize>)
        ensures
            match r {
                Some(k) => self.course_index(code@) == Some(k as int) && k < self.courses.len(),
                None => self.course_index(code@) is None,
            },
    {
        let mut i: usize = 0;
        while i < self.courses.len()
            invariant
                i <= self.courses.len(),
                self.course_index(code@) == find_course_from(self.courses@, code@, i as int),
            decreases self.courses.len() - i,
        {
            if self.courses[i].code.same(code) {
                return Some(i);
            }
            i += 1;
        }
        None
    }

    /// Looks a program up by its name.
    pub fn find_program(&self, name: &String) -> (r: Option<usize>)
        ensures
            match r {
                Some(k) => self.program_index(name@) == Some(k as int) && k < self.programs.len(),
                None => self.program_index(name@) is None,
            },
    {
        let mut i: usize = 0;
        while i < self.programs.len()
            invariant
                i <= self.programs.len(),
                self.program_index(name@) == find_program_from(self.programs@, name@, i as int),
            decreases self.programs.len() - i,
        {
            if self.programs[i].name == *name {
                return Some(i);
            }
            i += 1;
        }
        None
    }

    /// The credits that a course counts for.
    pub fn credits(&self, code: &CourseCode) -> (r: u32)
        ensures
            r == self.credits_of(code@),
    {
        match self.find_course(code) {
            Some(k) => match self.courses[k].credits {
                Some(n) => n,
                None => 0,
            },
            None => 0,
        }
    }
}

/// Whether one of the first `n` courses has the code `c`.
pub open spec fn declared_among(courses: Seq<Course>, c: CodeView, n: int) -> bool {
    exists|j: int| 0 <= j < n && (#[trigger] courses[j]).code@ == c
}

/// A catalog knows exactly the codes that one of its courses carries.
pub proof fn lemma_knows(catalog: Catalog, c: CodeView)
    ensures
        catalog.knows(c) <==> declared_among(catalog.courses@, c, catalog.courses.len() as int),
{
    lemma_find_course(catalog.courses@, c, 0);
    match find_course_from(catalog.courses@, c, 0) {
        Some(k) => {
            assert(catalog.courses@[k].code@ == c);
        },
        None => {},
    }
}

impl RequirementTree {
    /// Every course of the catalog that could discharge this requirement,
    /// each once.
    pub fn all_course_codes(&self, catalog: &Catalog) -> (r: Vec<CourseCode>)
        ensures
            code_views(r@).no_duplicates(),
            forall|c: CodeView|
                #[trigger] code_views(r@).contains(c) <==> (catalog.knows(c) && self.accepts(c)),
    {
        let mut out: Vec<CourseCode> = Vec::new();
        let mut i: usize = 0;
        while i < catalog.courses.len()
            invariant
                i <= catalog.courses.len(),
                code_views(out@).no_duplicates(),
                forall|c: CodeView|
                    #[trigger] code_views(out@).contains(c) <==> (self.accepts(c) && declared_among(
                        catalog.courses@,
                        c,
                        i as int,
                    )),
            decreases catalog.courses.len() - i,
        {
            let code = &catalog.courses[i].code;
            let ghost before = code_views(out@);
            let take = self.accepts_code(code) && !contains_code(&out, code);
            if take {
                out.push(code.clone());
                assert(code_views(out@) =~= before.push(code@));
            }
            proof {
                let after = code_views(out@);
                assert forall|c: CodeView|
                    after.contains(c) <==> (self.accepts(c) && declared_among(
                        catalog.courses@,
                        c,
                        i + 1,
                    )) by {
                    if after.contains(c) {
                        if before.contains(c) {
                            let j = choose|j: int|
                                0 <= j < i && (#[trigger] catalog.courses@[j]).code@ == c;
                            assert(0 <= j < i + 1 && catalog.courses@[j].code@ == c);
                        } else {
                            let k = choose|k: int| 0 <= k < after.len() && after[k] == c;
                            if k < before.len() {
                                assert(before[k] == c);
                            }
                            assert(catalog.courses@[i as int].code@ == c);
                        }
                    }
                    if self.accepts(c) && declared_among(catalog.courses@, c, i + 1) {
                        let j = choose|j: int|
                            0 <= j < i + 1 && (#[trigger] catalog.courses@[j]).code@ == c;
                        if j < i {
                            assert(declared_among(catalog.courses@, c, i as int));
                            assert(before.contains(c));
                        }
                        if before.contains(c) {
                            let k = choose|k: int| 0 <= k < before.len() && before[k] == c;
                            assert(after[k] == c);
                        } else {
                            assert(take);
                            assert(after[before.len() as int] == c);
                        }
                    }
                }
            }
            i += 1;
        }
        proof {
            assert forall|c: CodeView|
                code_views(out@).contains(c) <==> (catalog.knows(c) && self.accepts(c)) by {
                lemma_knows(*catalog, c);
            }
        }
        out
    }
}

} // verus!
