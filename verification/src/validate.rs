//! Checking a plan against its catalog: no course twice, every course
//! known, credit caps, prerequisites before the courses that need them, and
//! every requirement of the programs satisfied.

use vstd::prelude::*;
use crate::catalog::{Catalog, Elective, GenEd, Program};
use crate::code::{code_views, CodeView, CourseCode};
use crate::error::ScheduleError;
use crate::requirement::{code_set, RequirementTree};
use crate::schedule::{
    all_codes, append_codes, codes_before, copy_codes, flatten, name_views, no_repeats,
    lemma_placed_somewhere, placed_upto, semester_views, Schedule, MAX_CREDITS_PER_SEMESTER,
};

verus! {

/// The credits of a list of courses, added up.
pub open spec fn credits_total(cat: Catalog, sem: Seq<CodeView>) -> nat
    decreases sem.len(),
{
    if sem.len() == 0 {
        0
    } else {
        credits_total(cat, sem.drop_last()) + cat.credits_of(sem.last())
    }
}

/// Whether the prerequisites of `c` are satisfied by `done`. A course that
/// the catalog does not declare has none.
pub open spec fn prereq_met(cat: Catalog, done: Set<CodeView>, c: CodeView) -> bool {
    match cat.course_index(c) {
        Some(k) => cat.courses[k].prereq.satisfied(done),
        None => true,
    }
}

/// The requirement trees of one program: its required courses, then its
/// electives in order.
pub open spec fn program_trees(p: Program) -> Seq<RequirementTree> {
    seq![p.required] + p.electives@.map_values(|e: Elective| e.req)
}

/// The requirement trees of the first `n` of the named programs. A name
/// that the catalog does not declare contributes nothing.
pub open spec fn named_program_trees(cat: Catalog, programs: Seq<Seq<char>>, n: int) -> Seq<
    RequirementTree,
>
    decreases n,
{
    if n <= 0 {
        Seq::empty()
    } else {
        named_program_trees(cat, programs, n - 1) + match cat.program_index(programs[n - 1]) {
            Some(k) => program_trees(cat.programs[k]),
            None => Seq::empty(),
        }
    }
}

/// Everything a student of `programs` must satisfy: every general-education
/// requirement, then the trees of each program in the order given.
pub open spec fn obligations(cat: Catalog, programs: Seq<Seq<char>>) -> Seq<RequirementTree> {
    cat.geneds@.map_values(|g: GenEd| g.tree()) + named_program_trees(
        cat,
        programs,
        programs.len() as int,
    )
}

/// Every code of `codes` is declared in the catalog.
pub open spec fn all_known(cat: Catalog, codes: Seq<CodeView>) -> bool {
    forall|k: int| 0 <= k < codes.len() ==> cat.knows(#[trigger] codes[k])
}

/// No semester carries more than `cap` credits.
pub open spec fn caps_hold(cat: Catalog, semesters: Seq<Seq<CodeView>>, cap: nat) -> bool {
    forall|i: int| 0 <= i < semesters.len() ==> credits_total(cat, #[trigger] semesters[i]) <= cap
}

/// Every placed course has its prerequisites among the incoming courses and
/// the courses of strictly earlier semesters.
pub open spec fn prereqs_hold(
    cat: Catalog,
    incoming: Seq<CodeView>,
    semesters: Seq<Seq<CodeView>>,
) -> bool {
    forall|i: int, j: int|
        0 <= i < semesters.len() && 0 <= j < semesters[i].len() ==> prereq_met(
            cat,
            codes_before(incoming, semesters, i).to_set(),
            #[trigger] semesters[i][j],
        )
}

/// Every named program is declared in the catalog.
pub open spec fn programs_known(cat: Catalog, programs: Seq<Seq<char>>) -> bool {
    forall|p: int| 0 <= p < programs.len() ==> cat.has_program(#[trigger] programs[p])
}

/// Every tree of `trees` is satisfied by `done`.
pub open spec fn all_satisfied(trees: Seq<RequirementTree>, done: Set<CodeView>) -> bool {
    forall|k: int| 0 <= k < trees.len() ==> (#[trigger] trees[k]).satisfied(done)
}

/// The outcome of checking the semesters alone: the first check that
/// fails decides, in the order duplicates, unknown courses, credit caps,
/// prerequisites.
pub open spec fn check_placement(
    cat: Catalog,
    incoming: Seq<CodeView>,
    semesters: Seq<Seq<CodeView>>,
    cap: nat,
) -> Result<(), ScheduleError> {
    let codes = all_codes(incoming, semesters);
    if !codes.no_duplicates() {
        Err(ScheduleError::DuplicateCourseAssignment)
    } else if !all_known(cat, codes) {
        Err(ScheduleError::UnknownCourse)
    } else if !caps_hold(cat, semesters, cap) {
        Err(ScheduleError::CreditCapExceeded)
    } else if !prereqs_hold(cat, incoming, semesters) {
        Err(ScheduleError::PrerequisiteCycle)
    } else {
        Ok(())
    }
}

/// The outcome of checking a plan: the checks of the semesters come first,
/// then unknown programs, then the requirements.
pub open spec fn check(
    cat: Catalog,
    programs: Seq<Seq<char>>,
    incoming: Seq<CodeView>,
    semesters: Seq<Seq<CodeView>>,
    cap: nat,
) -> Result<(), ScheduleError> {
    match check_placement(cat, incoming, semesters, cap) {
        Err(e) => Err(e),
        Ok(_) => if !programs_known(cat, programs) {
            Err(ScheduleError::UnknownProgram)
        } else if !all_satisfied(
            obligations(cat, programs),
            all_codes(incoming, semesters).to_set(),
        ) {
            Err(ScheduleError::UnsatisfiableRequirement)
        } else {
            Ok(())
        },
    }
}

/// The trees that a list of references points at.
pub open spec fn trees_of(refs: Seq<&RequirementTree>) -> Seq<RequirementTree> {
    refs.map_values(|t: &RequirementTree| *t)
}

/// Collects the requirement trees that a student of `programs` must
/// satisfy.
pub fn collect_obligations<'c>(cat: &'c Catalog, programs: &Vec<String>) -> (r: Vec<
    &'c RequirementTree,
>)
    ensures
        trees_of(r@) == obligations(*cat, name_views(programs@)),
{
    let mut out: Vec<&'c RequirementTree> = Vec::new();
    let ghost gtrees = cat.geneds@.map_values(|g: GenEd| g.tree());
    let mut g: usize = 0;
    while g < cat.geneds.len()
        invariant
            g <= cat.geneds.len(),
            gtrees == cat.geneds@.map_values(|g: GenEd| g.tree()),
            trees_of(out@) == gtrees.take(g as int),
        decreases cat.geneds.len() - g,
    {
        let ghost prev = trees_of(out@);
        out.push(cat.geneds[g].req());
        assert(trees_of(out@) =~= prev.push(cat.geneds@[g as int].tree()));
        assert(gtrees[g as int] == cat.geneds@[g as int].tree());
        assert(trees_of(out@) =~= gtrees.take(g + 1));
        g += 1;
    }
    assert(gtrees.take(g as int) =~= gtrees);
    let ghost names = name_views(programs@);
    let mut p: usize = 0;
    assert(trees_of(out@) =~= gtrees + named_program_trees(*cat, names, 0));
    while p < programs.len()
        invariant
            p <= programs.len(),
            names == name_views(programs@),
            trees_of(out@) == gtrees + named_program_trees(*cat, names, p as int),
        decreases programs.len() - p,
    {
        let ghost before = trees_of(out@);
        match cat.find_program(&programs[p]) {
            Some(k) => {
                let prog = &cat.programs[k];
                let ghost etrees = prog.electives@.map_values(|e: Elective| e.req);
                out.push(&prog.required);
                assert(trees_of(out@) =~= before + (seq![prog.required] + etrees.take(0)));
                let mut e: usize = 0;
                while e < prog.electives.len()
                    invariant
                        e <= prog.electives.len(),
                        etrees == prog.electives@.map_values(|e: Elective| e.req),
                        trees_of(out@) == before + (seq![prog.required] + etrees.take(e as int)),
                    decreases prog.electives.len() - e,
                {
                    let ghost prev = trees_of(out@);
                    out.push(&prog.electives[e].req);
                    assert(trees_of(out@) =~= prev.push(prog.electives@[e as int].req));
                    assert(etrees[e as int] == prog.electives@[e as int].req);
                    assert(trees_of(out@) =~= before + (seq![prog.required] + etrees.take(e + 1)));
                    e += 1;
                }
                assert(etrees.take(e as int) =~= etrees);
                assert(names[p as int] == programs@[p as int]@);
                assert(trees_of(out@) =~= gtrees + named_program_trees(*cat, names, p + 1));
            },
            None => {
                assert(names[p as int] == programs@[p as int]@);
                assert(trees_of(out@) =~= gtrees + named_program_trees(*cat, names, p + 1));
            },
        }
        p += 1;
    }
    out
}

/// A prefix of a semester carries no more credits than the whole.
pub proof fn lemma_credits_prefix(cat: Catalog, sem: Seq<CodeView>, i: int)
    requires
        0 <= i <= sem.len(),
    ensures
        credits_total(cat, sem.take(i)) <= credits_total(cat, sem),
    decreases sem.len(),
{
    if i < sem.len() {
        assert(sem.drop_last().take(i) =~= sem.take(i));
        lemma_credits_prefix(cat, sem.drop_last(), i);
    } else {
        assert(sem.take(i) =~= sem);
    }
}

/// Whether the catalog declares every code of `list`.
pub fn known_codes(cat: &Catalog, list: &Vec<CourseCode>) -> (r: bool)
    ensures
        r == all_known(*cat, code_views(list@)),
{
    let ghost views = code_views(list@);
    let mut i: usize = 0;
    while i < list.len()
        invariant
            i <= list.len(),
            views == code_views(list@),
            forall|k: int| 0 <= k < i ==> cat.knows(#[trigger] views[k]),
        decreases list.len() - i,
    {
        if cat.find_course(&list[i]).is_none() {
            assert(!cat.knows(views[i as int]));
            return false;
        }
        i += 1;
    }
    true
}

/// Whether the courses of `sem` carry at most `cap` credits.
pub fn within_cap(cat: &Catalog, sem: &Vec<CourseCode>, cap: u32) -> (r: bool)
    ensures
        r == (credits_total(*cat, code_views(sem@)) <= cap),
{
    let ghost views = code_views(sem@);
    let mut sum: u64 = 0;
    let mut i: usize = 0;
    assert(views.take(0) =~= Seq::empty());
    while i < sem.len()
        invariant
            i <= sem.len(),
            views == code_views(sem@),
            sum == credits_total(*cat, views.take(i as int)),
            sum <= cap,
        decreases sem.len() - i,
    {
        let c: u32 = cat.credits(&sem[i]);
        assert(views.take(i + 1).drop_last() =~= views.take(i as int));
        assert(views.take(i + 1).last() == sem@[i as int]@);
        sum = sum + c as u64;
        if sum > cap as u64 {
            proof {
                lemma_credits_prefix(*cat, views, i + 1);
            }
            return false;
        }
        i += 1;
    }
    assert(views.take(i as int) =~= views);
    true
}

/// Whether every semester carries at most `cap` credits.
pub fn caps_respected(cat: &Catalog, courses: &Vec<Vec<CourseCode>>, cap: u32) -> (r: bool)
    ensures
        r == caps_hold(*cat, semester_views(courses@), cap as nat),
{
    let ghost sems = semester_views(courses@);
    let mut i: usize = 0;
    while i < courses.len()
        invariant
            i <= courses.len(),
            sems == semester_views(courses@),
            forall|k: int| 0 <= k < i ==> credits_total(*cat, #[trigger] sems[k]) <= cap,
        decreases courses.len() - i,
    {
        assert(sems[i as int] == code_views(courses@[i as int]@));
        if !within_cap(cat, &courses[i], cap) {
            return false;
        }
        i += 1;
    }
    true
}

/// Whether `done` satisfies the prerequisites of `c`.
pub fn prereq_satisfied(cat: &Catalog, done: &Vec<CourseCode>, c: &CourseCode) -> (r: bool)
    ensures
        r == prereq_met(*cat, code_set(done@), c@),
{
    match cat.find_course(c) {
        Some(k) => cat.courses[k].prereq.is_satisfied(done),
        None => true,
    }
}

/// Whether every placed course has its prerequisites before it.
pub fn prereqs_respected(
    cat: &Catalog,
    incoming: &Vec<CourseCode>,
    courses: &Vec<Vec<CourseCode>>,
) -> (r: bool)
    ensures
        r == prereqs_hold(*cat, code_views(incoming@), semester_views(courses@)),
{
    let ghost inc = code_views(incoming@);
    let ghost sems = semester_views(courses@);
    let mut done = copy_codes(incoming);
    assert(inc + placed_upto(sems, 0) =~= inc);
    let mut i: usize = 0;
    while i < courses.len()
        invariant
            i <= courses.len(),
            inc == code_views(incoming@),
            sems == semester_views(courses@),
            code_views(done@) == codes_before(inc, sems, i as int),
            forall|a: int, b: int|
                0 <= a < i && 0 <= b < sems[a].len() ==> prereq_met(
                    *cat,
                    codes_before(inc, sems, a).to_set(),
                    #[trigger] sems[a][b],
                ),
        decreases courses.len() - i,
    {
        let sem = &courses[i];
        assert(sems[i as int] == code_views(sem@));
        let mut j: usize = 0;
        while j < sem.len()
            invariant
                j <= sem.len(),
                i < courses.len(),
                inc == code_views(incoming@),
                sems == semester_views(courses@),
                sems[i as int] == code_views(sem@),
                code_views(done@) == codes_before(inc, sems, i as int),
                forall|b: int|
                    0 <= b < j ==> prereq_met(
                        *cat,
                        codes_before(inc, sems, i as int).to_set(),
                        #[trigger] sems[i as int][b],
                    ),
            decreases sem.len() - j,
        {
            if !prereq_satisfied(cat, &done, &sem[j]) {
                assert(sems[i as int][j as int] == sem@[j as int]@);
                assert(0 <= i < sems.len() && 0 <= j < sems[i as int].len());
                assert(!prereq_met(
                    *cat,
                    codes_before(inc, sems, i as int).to_set(),
                    sems[i as int][j as int],
                ));
                return false;
            }
            j += 1;
        }
        append_codes(&mut done, sem);
        i += 1;
    }
    true
}

/// Whether the catalog declares every name of `programs`.
pub fn known_programs(cat: &Catalog, programs: &Vec<String>) -> (r: bool)
    ensures
        r == programs_known(*cat, name_views(programs@)),
{
    let ghost names = name_views(programs@);
    let mut i: usize = 0;
    while i < programs.len()
        invariant
            i <= programs.len(),
            names == name_views(programs@),
            forall|k: int| 0 <= k < i ==> cat.has_program(#[trigger] names[k]),
        decreases programs.len() - i,
    {
        if cat.find_program(&programs[i]).is_none() {
            assert(!cat.has_program(names[i as int]));
            return false;
        }
        i += 1;
    }
    true
}

/// Whether `done` satisfies every tree of `trees`.
pub fn trees_satisfied(trees: &Vec<&RequirementTree>, done: &Vec<CourseCode>) -> (r: bool)
    ensures
        r == all_satisfied(trees_of(trees@), code_set(done@)),
{
    let mut i: usize = 0;
    while i < trees.len()
        invariant
            i <= trees.len(),
            forall|k: int|
                0 <= k < i ==> (#[trigger] trees_of(trees@)[k]).satisfied(code_set(done@)),
        decreases trees.len() - i,
    {
        if !trees[i].is_satisfied(done) {
            assert(!trees_of(trees@)[i as int].satisfied(code_set(done@)));
            return false;
        }
        i += 1;
    }
    true
}

/// Checks the semesters alone and names the first check that fails.
pub fn check_semesters(
    cat: &Catalog,
    incoming: &Vec<CourseCode>,
    courses: &Vec<Vec<CourseCode>>,
    cap: u32,
) -> (r: Result<(), ScheduleError>)
    ensures
        r == check_placement(
            *cat,
            code_views(incoming@),
            semester_views(courses@),
            cap as nat,
        ),
{
    let flat = flatten(incoming, courses);
    if !no_repeats(&flat) {
        return Err(ScheduleError::DuplicateCourseAssignment);
    }
    if !known_codes(cat, &flat) {
        return Err(ScheduleError::UnknownCourse);
    }
    if !caps_respected(cat, courses, cap) {
        return Err(ScheduleError::CreditCapExceeded);
    }
    if !prereqs_respected(cat, incoming, courses) {
        return Err(ScheduleError::PrerequisiteCycle);
    }
    Ok(())
}

/// Checks a plan and names the first check that fails.
pub fn check_plan(
    cat: &Catalog,
    programs: &Vec<String>,
    incoming: &Vec<CourseCode>,
    courses: &Vec<Vec<CourseCode>>,
    cap: u32,
) -> (r: Result<(), ScheduleError>)
    ensures
        r == check(
            *cat,
            name_views(programs@),
            code_views(incoming@),
            semester_views(courses@),
            cap as nat,
        ),
{
    match check_semesters(cat, incoming, courses, cap) {
        Err(e) => {
            return Err(e);
        },
        Ok(_) => {},
    }
    if !known_programs(cat, programs) {
        return Err(ScheduleError::UnknownProgram);
    }
    let trees = collect_obligations(cat, programs);
    let flat = flatten(incoming, courses);
    if !trees_satisfied(&trees, &flat) {
        return Err(ScheduleError::UnsatisfiableRequirement);
    }
    Ok(())
}

impl<'a> Schedule<'a> {
    /// The outcome that checking this plan has.
    pub open spec fn verdict(self) -> Result<(), ScheduleError> {
        check(
            *self.catalog,
            self.programs_view(),
            self.incoming_view(),
            self.semesters_view(),
            MAX_CREDITS_PER_SEMESTER as nat,
        )
    }

    /// Whether the plan passes every check.
    pub open spec fn valid(self) -> bool {
        self.verdict() is Ok
    }

    /// Checks the plan and reports the first violation. The plan itself is
    /// left as it was.
    pub fn validate(&mut self) -> (r: Result<(), ScheduleError>)
        ensures
            r == old(self).verdict(),
            *final(self) == *old(self),
    {
        check_plan(
            self.catalog,
            &self.programs,
            &self.incoming,
            &self.courses,
            MAX_CREDITS_PER_SEMESTER,
        )
    }

    /// Whether the plan passes every check.
    pub fn is_valid(&self) -> (r: bool)
        ensures
            r == self.valid(),
    {
        check_plan(
            self.catalog,
            &self.programs,
            &self.incoming,
            &self.courses,
            MAX_CREDITS_PER_SEMESTER,
        ).is_ok()
    }
}

impl<'a> Schedule<'a> {
    /// In a valid plan no semester carries more than
    /// `MAX_CREDITS_PER_SEMESTER` credits.
    pub proof fn lemma_valid_within_cap(self, i: int)
        requires
            self.valid(),
            0 <= i < self.courses.len(),
        ensures
            credits_total(*self.catalog, self.semesters_view()[i]) <= MAX_CREDITS_PER_SEMESTER,
    {
    }

    /// In a valid plan the prerequisites of every placed course are
    /// satisfied by the incoming courses and the semesters before it.
    pub proof fn lemma_valid_prereqs_met(self, i: int, j: int)
        requires
            self.valid(),
            0 <= i < self.courses.len(),
            0 <= j < self.courses[i].len(),
        ensures
            prereq_met(
                *self.catalog,
                codes_before(self.incoming_view(), self.semesters_view(), i).to_set(),
                self.semesters_view()[i][j],
            ),
    {
        assert(self.semesters_view()[i].len() == self.courses[i].len());
    }

    /// In a valid plan a course that is indispensable to a placed course of
    /// semester `i` is incoming or stands in a semester before `i`.
    pub proof fn lemma_valid_prereq_earlier(self, i: int, j: int, p: CodeView)
        requires
            self.valid(),
            0 <= i < self.courses.len(),
            0 <= j < self.courses[i].len(),
            match self.catalog.course_index(self.semesters_view()[i][j]) {
                Some(k) => self.catalog.courses[k].prereq.demands(p),
                None => false,
            },
        ensures
            self.incoming_view().contains(p) || exists|a: int, b: int|
                0 <= a < i && 0 <= b < self.semesters_view()[a].len()
                    && #[trigger] self.semesters_view()[a][b] == p,
    {
        self.lemma_valid_prereqs_met(i, j);
        let sems = self.semesters_view();
        let inc = self.incoming_view();
        let before = codes_before(inc, sems, i);
        let k = self.catalog.course_index(sems[i][j]).unwrap();
        self.catalog.courses[k].prereq.lemma_demanded_is_done(before.to_set(), p);
        let t = choose|t: int| 0 <= t < before.len() && before[t] == p;
        if t < inc.len() {
            assert(inc[t] == p);
        } else {
            assert(placed_upto(sems, i)[t - inc.len()] == p);
            lemma_placed_somewhere(sems, i, p);
        }
    }

    /// In a valid plan no course occurs twice among the incoming courses
    /// and the semesters.
    pub proof fn lemma_valid_no_repeats(self)
        requires
            self.valid(),
        ensures
            self.codes().no_duplicates(),
    {
    }
}

} // verus!
