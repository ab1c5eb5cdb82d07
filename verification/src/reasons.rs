//! Why a course is part of a plan: the requirements that it can discharge.

use vstd::prelude::*;
use crate::catalog::{Catalog, GenEd, Program};
use crate::code::{code_views, CodeView, CourseCode};
use crate::error::ScheduleError;
use crate::schedule::{flatten, name_views, Schedule};
use crate::validate::{all_known, known_codes};

verus! {

/// The kinds of reason, without their details.
#[derive(Debug, Clone, Copy, PartialEq, Eq, Hash, Structural)]
pub enum ReasonTypes {
    Core,
    Foundation,
    SkillsAndPerspective,
    ProgramRequired,
    ProgramElective,
    CourseReq,
}

/// One reason why a course is part of a plan.
#[derive(Debug, PartialEq, Eq)]
pub enum CourseReasons {
    /// It counts for the core category `name`.
    Core { name: String },
    /// It counts for the foundation category `name`.
    Foundation { name: String },
    /// It counts for the skills-and-perspective category `name`.
    SkillsAndPerspective { name: String },
    /// The program `prog` requires it.
    ProgramRequired { prog: String },
    /// It counts for the elective `name` of the program `prog`.
    ProgramElective { prog: String, name: String },
    /// It is a prerequisite of `course`, and nothing else asks for it.
    CourseReq { course: CourseCode },
}

/// The mathematical value of a reason.
pub enum ReasonView {
    Core { name: Seq<char> },
    Foundation { name: Seq<char> },
    SkillsAndPerspective { name: Seq<char> },
    ProgramRequired { prog: Seq<char> },
    ProgramElective { prog: Seq<char>, name: Seq<char> },
    CourseReq { course: CodeView },
}

impl View for CourseReasons {
    type V = ReasonView;

    open spec fn view(&self) -> ReasonView {
        match *self {
            CourseReasons::Core { name } => ReasonView::Core { name: name@ },
            CourseReasons::Foundation { name } => ReasonView::Foundation { name: name@ },
            CourseReasons::SkillsAndPerspective { name } => ReasonView::SkillsAndPerspective {
                name: name@,
            },
            CourseReasons::ProgramRequired { prog } => ReasonView::ProgramRequired { prog: prog@ },
            CourseReasons::ProgramElective { prog, name } => ReasonView::ProgramElective {
                prog: prog@,
                name: name@,
            },
            CourseReasons::CourseReq { course } => ReasonView::CourseReq { course: course@ },
        }
    }
}

impl Clone for CourseReasons {
    fn clone(&self) -> (r: Self)
        ensures
            r@ == self@,
    {
        match self {
            CourseReasons::Core { name } => CourseReasons::Core { name: name.clone() },
            CourseReasons::Foundation { name } => CourseReasons::Foundation { name: name.clone() },
            CourseReasons::SkillsAndPerspective { name } => CourseReasons::SkillsAndPerspective {
                name: name.clone(),
            },
            CourseReasons::ProgramRequired { prog } => CourseReasons::ProgramRequired {
                prog: prog.clone(),
            },
            CourseReasons::ProgramElective { prog, name } => CourseReasons::ProgramElective {
                prog: prog.clone(),
                name: name.clone(),
            },
            CourseReasons::CourseReq { course } => CourseReasons::CourseReq {
                course: course.clone(),
            },
        }
    }
}

impl CourseReasons {
    /// The kind of this reason.
    pub fn kind(&self) -> (r: ReasonTypes)
        ensures
            r == kind_of(self@),
    {
        match self {
            CourseReasons::Core { .. } => ReasonTypes::Core,
            CourseReasons::Foundation { .. } => ReasonTypes::Foundation,
            CourseReasons::SkillsAndPerspective { .. } => ReasonTypes::SkillsAndPerspective,
            CourseReasons::ProgramRequired { .. } => ReasonTypes::ProgramRequired,
            CourseReasons::ProgramElective { .. } => ReasonTypes::ProgramElective,
            CourseReasons::CourseReq { .. } => ReasonTypes::CourseReq,
        }
    }
}

/// The kind of a reason.
pub open spec fn kind_of(r: ReasonView) -> ReasonTypes {
    match r {
        ReasonView::Core { .. } => ReasonTypes::Core,
        ReasonView::Foundation { .. } => ReasonTypes::Foundation,
        ReasonView::SkillsAndPerspective { .. } => ReasonTypes::SkillsAndPerspective,
        ReasonView::ProgramRequired { .. } => ReasonTypes::ProgramRequired,
        ReasonView::ProgramElective { .. } => ReasonTypes::ProgramElective,
        ReasonView::CourseReq { .. } => ReasonTypes::CourseReq,
    }
}

/// The values of a list of reasons.
pub open spec fn reason_views(list: Seq<CourseReasons>) -> Seq<ReasonView> {
    list.map_values(|r: CourseReasons| r@)
}

/// The reason that a general-education category gives.
pub open spec fn gened_reason(g: GenEd) -> ReasonView {
    match g {
        GenEd::Core { name, req } => ReasonView::Core { name: name@ },
        GenEd::Foundation { name, req } => ReasonView::Foundation { name: name@ },
        GenEd::SkillAndPerspective { name, req } => ReasonView::SkillsAndPerspective {
            name: name@,
        },
    }
}

/// The reasons that the first `n` general-education categories give for
/// the course `c`.
pub open spec fn gened_reasons(geneds: Seq<GenEd>, c: CodeView, n: int) -> Seq<ReasonView>
    decreases n,
{
    if n <= 0 {
        Seq::empty()
    } else {
        let rest = gened_reasons(geneds, c, n - 1);
        if geneds[n - 1].tree().accepts(c) {
            rest.push(gened_reason(geneds[n - 1]))
        } else {
            rest
        }
    }
}

/// The reasons that the first `n` electives of a program give for `c`.
pub open spec fn elective_reasons(p: Program, c: CodeView, n: int) -> Seq<ReasonView>
    decreases n,
{
    if n <= 0 {
        Seq::empty()
    } else {
        let rest = elective_reasons(p, c, n - 1);
        if p.electives[n - 1].req.accepts(c) {
            rest.push(ReasonView::ProgramElective { prog: p.name@, name: p.electives[n - 1].name@ })
        } else {
            rest
        }
    }
}

/// The reasons that one program gives for `c`: its required courses first,
/// then its electives.
pub open spec fn one_program_reasons(p: Program, c: CodeView) -> Seq<ReasonView> {
    let required = if p.required.accepts(c) {
        seq![ReasonView::ProgramRequired { prog: p.name@ }]
    } else {
        Seq::empty()
    };
    required + elective_reasons(p, c, p.electives.len() as int)
}

/// The reasons that the first `n` of the named programs give for `c`. A
/// name that the catalog does not declare gives none.
pub open spec fn program_reasons(cat: Catalog, programs: Seq<Seq<char>>, c: CodeView, n: int) -> Seq<
    ReasonView,
>
    decreases n,
{
    if n <= 0 {
        Seq::empty()
    } else {
        program_reasons(cat, programs, c, n - 1) + match cat.program_index(programs[n - 1]) {
            Some(k) => one_program_reasons(cat.programs[k], c),
            None => Seq::empty(),
        }
    }
}

/// Whether `c` is named among the prerequisites of the course `d`.
pub open spec fn needed_by(cat: Catalog, d: CodeView, c: CodeView) -> bool {
    d != c && match cat.course_index(d) {
        Some(k) => cat.courses[k].prereq.accepts(c),
        None => false,
    }
}

/// For each of the first `n` courses of the plan that has `c` among its
/// prerequisites, a reason that names it.
pub open spec fn course_reasons(cat: Catalog, codes: Seq<CodeView>, c: CodeView, n: int) -> Seq<
    ReasonView,
>
    decreases n,
{
    if n <= 0 {
        Seq::empty()
    } else {
        let rest = course_reasons(cat, codes, c, n - 1);
        if needed_by(cat, codes[n - 1], c) {
            rest.push(ReasonView::CourseReq { course: codes[n - 1] })
        } else {
            rest
        }
    }
}

/// The reasons that general education and the programs give for `c`.
pub open spec fn direct_reasons(cat: Catalog, programs: Seq<Seq<char>>, c: CodeView) -> Seq<
    ReasonView,
> {
    gened_reasons(cat.geneds@, c, cat.geneds.len() as int) + program_reasons(
        cat,
        programs,
        c,
        programs.len() as int,
    )
}

/// All reasons for the course `c` in a plan with the courses `codes`: what
/// general education and the programs give; only if they give nothing, the
/// courses of the plan that need `c` as a prerequisite.
pub open spec fn reasons_for(
    cat: Catalog,
    programs: Seq<Seq<char>>,
    codes: Seq<CodeView>,
    c: CodeView,
) -> Seq<ReasonView> {
    let direct = direct_reasons(cat, programs, c);
    if direct.len() > 0 {
        direct
    } else {
        course_reasons(cat, codes, c, codes.len() as int)
    }
}

impl GenEd {
    /// The reason that this category gives.
    pub fn reason(&self) -> (r: CourseReasons)
        ensures
            r@ == gened_reason(*self),
    {
        match self {
            GenEd::Core { name, req } => CourseReasons::Core { name: name.clone() },
            GenEd::Foundation { name, req } => CourseReasons::Foundation { name: name.clone() },
            GenEd::SkillAndPerspective { name, req } => CourseReasons::SkillsAndPerspective {
                name: name.clone(),
            },
        }
    }
}

/// Adds the reasons that general education gives for `c`.
pub fn add_gened_reasons(cat: &Catalog, c: &CourseCode, out: &mut Vec<CourseReasons>)
    ensures
        reason_views(final(out)@) == reason_views(old(out)@) + gened_reasons(
            cat.geneds@,
            c@,
            cat.geneds.len() as int,
        ),
{
    let ghost start = reason_views(out@);
    let mut g: usize = 0;
    assert(start + gened_reasons(cat.geneds@, c@, 0) =~= start);
    while g < cat.geneds.len()
        invariant
            g <= cat.geneds.len(),
            reason_views(out@) == start + gened_reasons(cat.geneds@, c@, g as int),
        decreases cat.geneds.len() - g,
    {
        if cat.geneds[g].req().accepts_code(c) {
            let ghost before = reason_views(out@);
            out.push(cat.geneds[g].reason());
            assert(reason_views(out@) =~= before.push(gened_reason(cat.geneds@[g as int])));
        }
        assert(reason_views(out@) =~= start + gened_reasons(cat.geneds@, c@, g + 1));
        g += 1;
    }
}

/// Adds the reasons that one program gives for `c`.
pub fn add_program_reasons(p: &Program, c: &CourseCode, out: &mut Vec<CourseReasons>)
    ensures
        reason_views(final(out)@) == reason_views(old(out)@) + one_program_reasons(*p, c@),
{
    let ghost start = reason_views(out@);
    if p.required.accepts_code(c) {
        out.push(CourseReasons::ProgramRequired { prog: p.name.clone() });
        assert(reason_views(out@) =~= start.push(ReasonView::ProgramRequired { prog: p.name@ }));
    }
    let ghost head = reason_views(out@);
    let mut e: usize = 0;
    assert(head + elective_reasons(*p, c@, 0) =~= head);
    while e < p.electives.len()
        invariant
            e <= p.electives.len(),
            reason_views(out@) == head + elective_reasons(*p, c@, e as int),
        decreases p.electives.len() - e,
    {
        if p.electives[e].req.accepts_code(c) {
            let ghost before = reason_views(out@);
            out.push(
                CourseReasons::ProgramElective {
                    prog: p.name.clone(),
                    name: p.electives[e].name.clone(),
                },
            );
            assert(reason_views(out@) =~= before.push(
                ReasonView::ProgramElective { prog: p.name@, name: p.electives@[e as int].name@ },
            ));
        }
        assert(reason_views(out@) =~= head + elective_reasons(*p, c@, e + 1));
        e += 1;
    }
    assert(reason_views(out@) =~= start + one_program_reasons(*p, c@));
}

/// Whether the course `d` has `c` among its prerequisites.
pub fn is_needed_by(cat: &Catalog, d: &CourseCode, c: &CourseCode) -> (r: bool)
    ensures
        r == needed_by(*cat, d@, c@),
{
    if d.same(c) {
        return false;
    }
    match cat.find_course(d) {
        Some(k) => cat.courses[k].prereq.accepts_code(c),
        None => false,
    }
}

/// Lists the reasons for the course `c` in a plan for `programs` with the
/// courses `codes`.
pub fn reasons_of_course(
    cat: &Catalog,
    programs: &Vec<String>,
    codes: &Vec<CourseCode>,
    c: &CourseCode,
) -> (r: Vec<CourseReasons>)
    ensures
        reason_views(r@) == reasons_for(*cat, name_views(programs@), code_views(codes@), c@),
{
    let ghost names = name_views(programs@);
    let ghost all = code_views(codes@);
    let mut out: Vec<CourseReasons> = Vec::new();
    assert(reason_views(out@) =~= Seq::empty());
    add_gened_reasons(cat, c, &mut out);
    let ghost head = reason_views(out@);
    assert(head =~= gened_reasons(cat.geneds@, c@, cat.geneds.len() as int));
    let mut p: usize = 0;
    assert(head + program_reasons(*cat, names, c@, 0) =~= head);
    while p < programs.len()
        invariant
            p <= programs.len(),
            names == name_views(programs@),
            reason_views(out@) == head + program_reasons(*cat, names, c@, p as int),
        decreases programs.len() - p,
    {
        assert(names[p as int] == programs@[p as int]@);
        match cat.find_program(&programs[p]) {
            Some(k) => {
                add_program_reasons(&cat.programs[k], c, &mut out);
            },
            None => {},
        }
        assert(reason_views(out@) =~= head + program_reasons(*cat, names, c@, p + 1));
        p += 1;
    }
    if out.len() > 0 {
        return out;
    }
    assert(reason_views(out@) =~= Seq::empty());
    let mut d: usize = 0;
    while d < codes.len()
        invariant
            d <= codes.len(),
            all == code_views(codes@),
            names == name_views(programs@),
            direct_reasons(*cat, names, c@).len() == 0,
            reason_views(out@) == course_reasons(*cat, all, c@, d as int),
        decreases codes.len() - d,
    {
        assert(all[d as int] == codes@[d as int]@);
        if is_needed_by(cat, &codes[d], c) {
            let ghost before = reason_views(out@);
            out.push(CourseReasons::CourseReq { course: codes[d].clone() });
            assert(reason_views(out@) =~= before.push(
                ReasonView::CourseReq { course: all[d as int] },
            ));
        }
        d += 1;
    }
    out
}

impl<'a> Schedule<'a> {
    /// For every course of the plan, incoming first, the reasons why it is
    /// there. Fails exactly when the plan holds a course that the catalog
    /// does not declare.
    pub fn get_reasons(&self) -> (r: Result<Vec<(CourseCode, Vec<CourseReasons>)>, ScheduleError>)
        ensures
            match r {
                Ok(list) => all_known(*self.catalog, self.codes()) && list.len()
                    == self.codes().len() && forall|i: int|
                    0 <= i < list.len() ==> (#[trigger] list[i]).0@ == self.codes()[i]
                        && reason_views(list[i].1@) == reasons_for(
                        *self.catalog,
                        self.programs_view(),
                        self.codes(),
                        self.codes()[i],
                    ),
                Err(e) => e == ScheduleError::UnknownCourse && !all_known(
                    *self.catalog,
                    self.codes(),
                ),
            },
    {
        let flat = flatten(&self.incoming, &self.courses);
        if !known_codes(self.catalog, &flat) {
            return Err(ScheduleError::UnknownCourse);
        }
        let ghost all = code_views(flat@);
        let mut list: Vec<(CourseCode, Vec<CourseReasons>)> = Vec::new();
        let mut i: usize = 0;
        while i < flat.len()
            invariant
                i <= flat.len(),
                all == code_views(flat@),
                all == self.codes(),
                list.len() == i,
                forall|k: int|
                    0 <= k < i ==> (#[trigger] list[k]).0@ == all[k] && reason_views(list[k].1@)
                        == reasons_for(*self.catalog, self.programs_view(), all, all[k]),
            decreases flat.len() - i,
        {
            let why = reasons_of_course(self.catalog, &self.programs, &flat, &flat[i]);
            assert(all[i as int] == flat@[i as int]@);
            list.push((flat[i].clone(), why));
            i += 1;
        }
        Ok(list)
    }
}

/// Whether the reason `r` for the course `c` is borne out by the catalog:
/// a tree of the named category, program or elective accepts `c`, or the
/// named course of the plan has `c` among its prerequisites.
pub open spec fn justified(
    cat: Catalog,
    programs: Seq<Seq<char>>,
    codes: Seq<CodeView>,
    c: CodeView,
    r: ReasonView,
) -> bool {
    match r {
        ReasonView::ProgramRequired { prog } => programs.contains(prog) && exists|k: int|
            0 <= k < cat.programs.len() && (#[trigger] cat.programs[k]).name@ == prog
                && cat.programs[k].required.accepts(c),
        ReasonView::ProgramElective { prog, name } => programs.contains(prog) && exists|
            k: int,
            e: int,
        |
            0 <= k < cat.programs.len() && 0 <= e < cat.programs[k].electives.len()
                && cat.programs[k].name@ == prog && (#[trigger] cat.programs[k].electives[e]).name@
                == name && cat.programs[k].electives[e].req.accepts(c),
        ReasonView::CourseReq { course } => codes.contains(course) && needed_by(cat, course, c),
        _ => exists|g: int|
            0 <= g < cat.geneds.len() && gened_reason(#[trigger] cat.geneds[g]) == r
                && cat.geneds[g].tree().accepts(c),
    }
}

/// Every reason that general education gives is borne out.
pub proof fn lemma_gened_justified(
    cat: Catalog,
    programs: Seq<Seq<char>>,
    codes: Seq<CodeView>,
    c: CodeView,
    n: int,
    i: int,
)
    requires
        0 <= n <= cat.geneds.len(),
        0 <= i < gened_reasons(cat.geneds@, c, n).len(),
    ensures
        justified(cat, programs, codes, c, gened_reasons(cat.geneds@, c, n)[i]),
    decreases n,
{
    let rest = gened_reasons(cat.geneds@, c, n - 1);
    if i < rest.len() {
        lemma_gened_justified(cat, programs, codes, c, n - 1, i);
    } else {
        assert(gened_reasons(cat.geneds@, c, n)[i] == gened_reason(cat.geneds[n - 1]));
    }
}

/// Every reason that the electives of a declared program give is borne
/// out.
pub proof fn lemma_elective_justified(
    cat: Catalog,
    programs: Seq<Seq<char>>,
    codes: Seq<CodeView>,
    c: CodeView,
    k: int,
    n: int,
    i: int,
)
    requires
        0 <= k < cat.programs.len(),
        programs.contains(cat.programs[k].name@),
        0 <= n <= cat.programs[k].electives.len(),
        0 <= i < elective_reasons(cat.programs[k], c, n).len(),
    ensures
        justified(cat, programs, codes, c, elective_reasons(cat.programs[k], c, n)[i]),
    decreases n,
{
    let p = cat.programs[k];
    let rest = elective_reasons(p, c, n - 1);
    if i < rest.len() {
        lemma_elective_justified(cat, programs, codes, c, k, n - 1, i);
    } else {
        assert(p.electives[n - 1].req.accepts(c));
        assert(elective_reasons(p, c, n)[i] == ReasonView::ProgramElective {
            prog: p.name@,
            name: p.electives[n - 1].name@,
        });
    }
}

/// Every reason that the named programs give is borne out.
pub proof fn lemma_program_justified(
    cat: Catalog,
    programs: Seq<Seq<char>>,
    codes: Seq<CodeView>,
    c: CodeView,
    n: int,
    i: int,
)
    requires
        0 <= n <= programs.len(),
        0 <= i < program_reasons(cat, programs, c, n).len(),
    ensures
        justified(cat, programs, codes, c, program_reasons(cat, programs, c, n)[i]),
    decreases n,
{
    let rest = program_reasons(cat, programs, c, n - 1);
    if i < rest.len() {
        lemma_program_justified(cat, programs, codes, c, n - 1, i);
    } else {
        crate::catalog::lemma_find_program(cat.programs@, programs[n - 1], 0);
        let k = cat.program_index(programs[n - 1]).unwrap();
        let p = cat.programs[k];
        assert(programs.contains(p.name@));
        let own = one_program_reasons(p, c);
        let t = i - rest.len();
        assert(program_reasons(cat, programs, c, n)[i] == own[t]);
        if p.required.accepts(c) {
            if t > 0 {
                assert(own[t] == elective_reasons(p, c, p.electives.len() as int)[t - 1]);
                lemma_elective_justified(
                    cat,
                    programs,
                    codes,
                    c,
                    k,
                    p.electives.len() as int,
                    t - 1,
                );
            } else {
                assert(own[t] == ReasonView::ProgramRequired { prog: p.name@ });
            }
        } else {
            assert(own[t] == elective_reasons(p, c, p.electives.len() as int)[t]);
            lemma_elective_justified(cat, programs, codes, c, k, p.electives.len() as int, t);
        }
    }
}

/// Every reason that names a course of the plan is borne out.
pub proof fn lemma_course_justified(
    cat: Catalog,
    programs: Seq<Seq<char>>,
    codes: Seq<CodeView>,
    c: CodeView,
    n: int,
    i: int,
)
    requires
        0 <= n <= codes.len(),
        0 <= i < course_reasons(cat, codes, c, n).len(),
    ensures
        justified(cat, programs, codes, c, course_reasons(cat, codes, c, n)[i]),
    decreases n,
{
    let rest = course_reasons(cat, codes, c, n - 1);
    if i < rest.len() {
        lemma_course_justified(cat, programs, codes, c, n - 1, i);
    } else {
        assert(course_reasons(cat, codes, c, n)[i] == ReasonView::CourseReq {
            course: codes[n - 1],
        });
        assert(codes.contains(codes[n - 1]));
    }
}

/// Every reason given for a course is borne out by the catalog.
pub proof fn lemma_reasons_justified(
    cat: Catalog,
    programs: Seq<Seq<char>>,
    codes: Seq<CodeView>,
    c: CodeView,
    i: int,
)
    requires
        0 <= i < reasons_for(cat, programs, codes, c).len(),
    ensures
        justified(cat, programs, codes, c, reasons_for(cat, programs, codes, c)[i]),
{
    let direct = direct_reasons(cat, programs, c);
    if direct.len() > 0 {
        let g = gened_reasons(cat.geneds@, c, cat.geneds.len() as int);
        if i < g.len() {
            lemma_gened_justified(cat, programs, codes, c, cat.geneds.len() as int, i);
        } else {
            lemma_program_justified(cat, programs, codes, c, programs.len() as int, i - g.len());
        }
    } else {
        lemma_course_justified(cat, programs, codes, c, codes.len() as int, i);
    }
}

} // verus!
