//! Operations that take course codes as text, as a presentation layer
//! holds them.

use vstd::prelude::*;
use crate::builder::{built, generate_schedule, plan};
use crate::catalog::{Catalog, Program};
use crate::code::{code_views, dash_at, parse_code, str_to_cc, CodeView, CourseCode};
use crate::error::ScheduleError;
use crate::multi::{generate_multi_schedules, options_from, options_sound, plans_of};
use crate::schedule::{
    name_views, placed_upto, semester_views, Schedule, MAX_CREDITS_PER_SEMESTER,
};

verus! {

/// Whether every text of `list` holds a dash, so that it names a code.
pub open spec fn codes_readable(list: Seq<String>) -> bool {
    forall|i: int| 0 <= i < list.len() ==> dash_at((#[trigger] list[i])@, 0) < list[i]@.len()
}

/// Whether every text of every semester holds a dash.
pub open spec fn semesters_readable(semesters: Seq<Vec<String>>) -> bool {
    forall|i: int| 0 <= i < semesters.len() ==> codes_readable((#[trigger] semesters[i])@)
}

/// The codes that the texts of `list` name.
pub open spec fn codes_read(list: Seq<String>) -> Seq<CodeView> {
    list.map_values(|s: String| parse_code(s@))
}

/// The codes that the texts of each semester name.
pub open spec fn semesters_read(semesters: Seq<Vec<String>>) -> Seq<Seq<CodeView>> {
    semesters.map_values(|v: Vec<String>| codes_read(v@))
}

/// The codes that the texts name, or none.
pub open spec fn given_codes_read(list: Option<Vec<String>>) -> Seq<CodeView> {
    match list {
        Some(v) => codes_read(v@),
        None => Seq::empty(),
    }
}

/// The semesters that the texts name, or none.
pub open spec fn given_semesters_read(semesters: Option<Vec<Vec<String>>>) -> Seq<Seq<CodeView>> {
    match semesters {
        Some(v) => semesters_read(v@),
        None => Seq::empty(),
    }
}

/// Reads a list of course codes.
pub fn codes_from_text(list: &Vec<String>) -> (r: Vec<CourseCode>)
    requires
        codes_readable(list@),
    ensures
        code_views(r@) == codes_read(list@),
{
    let mut out: Vec<CourseCode> = Vec::new();
    let mut i: usize = 0;
    while i < list.len()
        invariant
            i <= list.len(),
            codes_readable(list@),
            code_views(out@) == codes_read(list@).take(i as int),
        decreases list.len() - i,
    {
        let ghost before = code_views(out@);
        out.push(str_to_cc(list[i].as_str()));
        assert(code_views(out@) =~= before.push(parse_code(list@[i as int]@)));
        assert(code_views(out@) =~= codes_read(list@).take(i + 1));
        i += 1;
    }
    assert(codes_read(list@).take(i as int) =~= codes_read(list@));
    out
}

/// Reads the course codes of a list of semesters.
pub fn semesters_from_text(semesters: &Vec<Vec<String>>) -> (r: Vec<Vec<CourseCode>>)
    requires
        semesters_readable(semesters@),
    ensures
        semester_views(r@) == semesters_read(semesters@),
{
    let mut out: Vec<Vec<CourseCode>> = Vec::new();
    let mut i: usize = 0;
    while i < semesters.len()
        invariant
            i <= semesters.len(),
            semesters_readable(semesters@),
            semester_views(out@) == semesters_read(semesters@).take(i as int),
        decreases semesters.len() - i,
    {
        let ghost before = semester_views(out@);
        out.push(codes_from_text(&semesters[i]));
        assert(semester_views(out@) =~= before.push(codes_read(semesters@[i as int]@)));
        assert(semester_views(out@) =~= semesters_read(semesters@).take(i + 1));
        i += 1;
    }
    assert(semesters_read(semesters@).take(i as int) =~= semesters_read(semesters@));
    out
}

/// The names of the programs that the catalog declares, in its order.
pub fn get_programs(catalog: &Catalog) -> (r: Vec<String>)
    ensures
        name_views(r@) == catalog.programs@.map_values(|p: Program| p.name@),
{
    let ghost names = catalog.programs@.map_values(|p: Program| p.name@);
    let mut out: Vec<String> = Vec::new();
    let mut i: usize = 0;
    while i < catalog.programs.len()
        invariant
            i <= catalog.programs.len(),
            names == catalog.programs@.map_values(|p: Program| p.name@),
            name_views(out@) == names.take(i as int),
        decreases catalog.programs.len() - i,
    {
        let ghost before = name_views(out@);
        out.push(catalog.programs[i].name.clone());
        assert(name_views(out@) =~= before.push(catalog.programs@[i as int].name@));
        assert(name_views(out@) =~= names.take(i + 1));
        i += 1;
    }
    assert(names.take(i as int) =~= names);
    out
}

impl<'a> Schedule<'a> {
    /// Builds a plan for the named programs from the completed courses
    /// given as text.
    pub fn new(programs: Vec<String>, incoming: Option<Vec<String>>, catalog: &'a Catalog) -> (r:
        Result<Schedule<'a>, ScheduleError>)
        requires
            incoming is Some ==> codes_readable(incoming->Some_0@),
        ensures
            built(catalog, programs, given_codes_read(incoming), Seq::empty(), r),
    {
        let completed = match &incoming {
            Some(v) => Some(codes_from_text(v)),
            None => None,
        };
        generate_schedule(programs, catalog, completed, None)
    }

    /// Builds a plan that starts from semesters given as text, which are
    /// kept and filled up.
    pub fn with_courses(
        programs: Vec<String>,
        incoming: Option<Vec<String>>,
        courses: Option<Vec<Vec<String>>>,
        catalog: &'a Catalog,
    ) -> (r: Result<Schedule<'a>, ScheduleError>)
        requires
            incoming is Some ==> codes_readable(incoming->Some_0@),
            courses is Some ==> semesters_readable(courses->Some_0@),
        ensures
            built(
                catalog,
                programs,
                given_codes_read(incoming),
                given_semesters_read(courses),
                r,
            ),
    {
        let completed = match &incoming {
            Some(v) => Some(codes_from_text(v)),
            None => None,
        };
        let seed = match &courses {
            Some(v) => Some(semesters_from_text(v)),
            None => None,
        };
        generate_schedule(programs, catalog, completed, seed)
    }

    /// Replaces the semesters, and the incoming courses if some are given,
    /// by what the texts name. Nothing is checked: the plan may be invalid
    /// afterwards.
    pub fn swap_courses(&mut self, semesters: Vec<Vec<String>>, incoming: Option<Vec<String>>)
        requires
            semesters_readable(semesters@),
            incoming is Some ==> codes_readable(incoming->Some_0@),
        ensures
            final(self).semesters_view() == semesters_read(semesters@),
            final(self).incoming_view() == match incoming {
                Some(v) => codes_read(v@),
                None => old(self).incoming_view(),
            },
            final(self).programs == old(self).programs,
            final(self).catalog == old(self).catalog,
    {
        self.courses = semesters_from_text(&semesters);
        match &incoming {
            Some(v) => {
                self.incoming = codes_from_text(v);
            },
            None => {},
        }
    }

    /// Builds a plan for the named programs and lists up to `options`
    /// valid and pairwise different plans, that plan first.
    pub fn gen_valid_options(
        programs: Vec<String>,
        incoming: Vec<String>,
        options: u64,
        catalog: &'a Catalog,
    ) -> (r: Result<Vec<Schedule<'a>>, ScheduleError>)
        requires
            codes_readable(incoming@),
        ensures
            match plan(
                *catalog,
                name_views(programs@),
                codes_read(incoming@),
                Seq::empty(),
                Set::empty(),
                MAX_CREDITS_PER_SEMESTER as nat,
            ) {
                Ok(first) => r is Ok && options_sound(
                    catalog,
                    name_views(programs@),
                    codes_read(incoming@),
                    first,
                    r->Ok_0@,
                    options as nat,
                ) && plans_of(r->Ok_0@) == options_from(
                    *catalog,
                    name_views(programs@),
                    codes_read(incoming@),
                    placed_upto(first, first.len() as int),
                    MAX_CREDITS_PER_SEMESTER as nat,
                    options as nat,
                    0,
                    seq![first],
                ),
                Err(e) => r == Err::<Vec<Schedule<'a>>, ScheduleError>(e),
            },
    {
        let completed = codes_from_text(&incoming);
        match generate_schedule(programs, catalog, Some(completed), None) {
            Err(e) => Err(e),
            Ok(base) => generate_multi_schedules(base, MAX_CREDITS_PER_SEMESTER, options),
        }
    }
}

} // verus!
