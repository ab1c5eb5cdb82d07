//! Building a plan: the requirements of the programs are gathered, courses
//! are chosen until every requirement is satisfied, and the chosen courses
//! are placed into semesters.

use vstd::prelude::*;
use crate::catalog::Catalog;
use crate::code::{code_views, CodeView, CourseCode};
use crate::error::ScheduleError;
use crate::place::{covers, extends, place, place_courses, placement_ready};
use crate::requirement::code_set;
use crate::schedule::{
    all_codes, flatten, name_views, semester_views, Schedule, MAX_CREDITS_PER_SEMESTER,
};
use crate::select::{select, select_courses, MAX_SELECTION_ATTEMPTS};
use crate::validate::{
    check, check_placement, check_semesters, collect_obligations, known_programs, obligations,
    programs_known, trees_of,
};

verus! {

/// The semesters that the builder produces, or the reason why it fails.
/// Unknown programs are reported first, then what is wrong with the
/// semesters given to start from, then what the selection and the placement
/// report. Courses in `banned` are never chosen.
pub open spec fn plan(
    cat: Catalog,
    programs: Seq<Seq<char>>,
    incoming: Seq<CodeView>,
    seed: Seq<Seq<CodeView>>,
    banned: Set<CodeView>,
    cap: nat,
) -> Result<Seq<Seq<CodeView>>, ScheduleError> {
    if !programs_known(cat, programs) {
        Err(ScheduleError::UnknownProgram)
    } else {
        match check_placement(cat, incoming, seed, cap) {
            Err(e) => Err(e),
            Ok(_) => {
                let base = all_codes(incoming, seed);
                match select(
                    cat,
                    obligations(cat, programs),
                    base,
                    banned,
                    MAX_SELECTION_ATTEMPTS as nat,
                ) {
                    Err(e) => Err(e),
                    Ok(done) => place(cat, incoming, seed, done.skip(base.len() as int), cap),
                }
            },
        }
    }
}

/// Whether no course of `banned` was added: every course of `after` that
/// `banned` holds is incoming or stands in `before` already.
pub open spec fn adds_none_of(
    incoming: Seq<CodeView>,
    before: Seq<Seq<CodeView>>,
    after: Seq<Seq<CodeView>>,
    banned: Set<CodeView>,
) -> bool {
    forall|x: CodeView| #[trigger]
        all_codes(incoming, after).contains(x) && banned.contains(x) ==> all_codes(
            incoming,
            before,
        ).contains(x)
}

/// Builds the semesters of a plan. Whatever is returned passes every check,
/// keeps the semesters given to start from, and holds no banned course that
/// was not given.
pub fn build(
    cat: &Catalog,
    programs: &Vec<String>,
    incoming: &Vec<CourseCode>,
    seed: Vec<Vec<CourseCode>>,
    banned: &Vec<CourseCode>,
    cap: u32,
) -> (r: Result<Vec<Vec<CourseCode>>, ScheduleError>)
    ensures
        match r {
            Ok(v) => plan(
                *cat,
                name_views(programs@),
                code_views(incoming@),
                semester_views(seed@),
                code_set(banned@),
                cap as nat,
            ) == Ok::<Seq<Seq<CodeView>>, ScheduleError>(semester_views(v@)) && check(
                *cat,
                name_views(programs@),
                code_views(incoming@),
                semester_views(v@),
                cap as nat,
            ) is Ok && extends(semester_views(seed@), semester_views(v@)) && adds_none_of(
                code_views(incoming@),
                semester_views(seed@),
                semester_views(v@),
                code_set(banned@),
            ),
            Err(e) => plan(
                *cat,
                name_views(programs@),
                code_views(incoming@),
                semester_views(seed@),
                code_set(banned@),
                cap as nat,
            ) == Err::<Seq<Seq<CodeView>>, ScheduleError>(e),
        },
{
    let ghost inc = code_views(incoming@);
    let ghost sems0 = semester_views(seed@);
    if !known_programs(cat, programs) {
        return Err(ScheduleError::UnknownProgram);
    }
    match check_semesters(cat, incoming, &seed, cap) {
        Err(e) => {
            return Err(e);
        },
        Ok(_) => {},
    }
    let trees = collect_obligations(cat, programs);
    let flat = flatten(incoming, &seed);
    let ghost base = code_views(flat@);
    let ghost goals = trees_of(trees@);
    let n = flat.len();
    match select_courses(cat, trees, flat, banned) {
        Err(e) => Err(e),
        Ok(chosen) => {
            let ghost out = code_views(chosen@);
            let mut kept = chosen;
            let rest = kept.split_off(n);
            let ghost rem = code_views(rest@);
            assert(rem =~= out.skip(base.len() as int));
            proof {
                assert(out.take(base.len() as int) == base);
                assert forall|k: int| 0 <= k < rem.len() implies cat.knows(#[trigger] rem[k])
                    && !base.contains(rem[k]) by {
                    let j = base.len() + k;
                    assert(rem[k] == out[j]);
                    if base.contains(rem[k]) {
                        let i = choose|i: int| 0 <= i < base.len() && base[i] == rem[k];
                        assert(out.take(base.len() as int)[i] == out[i]);
                        assert(out[i] == out[j]);
                    }
                }
                assert forall|a: int, b: int|
                    0 <= a < rem.len() && 0 <= b < rem.len() && a != b implies rem[a] != rem[b] by {
                    assert(rem[a] == out[base.len() + a]);
                    assert(rem[b] == out[base.len() + b]);
                }
                assert(placement_ready(*cat, inc, sems0, rem, cap as nat));
            }
            match place_courses(cat, incoming, seed, rest, cap) {
                Err(e) => Err(e),
                Ok(v) => {
                    proof {
                        let after = semester_views(v@);
                        assert(covers(inc, sems0, rem, after));
                        assert forall|x: CodeView| out.to_set().contains(x) implies all_codes(
                            inc,
                            after,
                        ).to_set().contains(x) by {
                            let j = choose|j: int| 0 <= j < out.len() && out[j] == x;
                            if j < base.len() {
                                assert(out.take(base.len() as int)[j] == out[j]);
                                assert(base.contains(x));
                            } else {
                                assert(rem[j - base.len()] == x);
                                assert(rem.contains(x));
                            }
                            assert(all_codes(inc, after).contains(x));
                        }
                        assert(out.to_set().subset_of(all_codes(inc, after).to_set()));
                        assert forall|x: CodeView| #[trigger]
                            all_codes(inc, after).contains(x) && code_set(banned@).contains(
                                x,
                            ) implies base.contains(x) by {
                            if !base.contains(x) {
                                assert(rem.contains(x));
                                let k = choose|k: int| 0 <= k < rem.len() && rem[k] == x;
                                assert(rem[k] == out[base.len() + k]);
                                assert(!code_set(banned@).contains(out[base.len() + k]));
                            }
                        }
                        assert forall|k: int| 0 <= k < goals.len() implies (#[trigger] goals[k]).satisfied(
                            all_codes(inc, after).to_set(),
                        ) by {
                            goals[k].lemma_monotone(out.to_set(), all_codes(inc, after).to_set());
                        }
                    }
                    Ok(v)
                },
            }
        },
    }
}

/// The courses given, or none.
pub open spec fn given_codes(list: Option<Vec<CourseCode>>) -> Seq<CodeView> {
    match list {
        Some(v) => code_views(v@),
        None => Seq::empty(),
    }
}

/// The semesters given, or none.
pub open spec fn given_semesters(courses: Option<Vec<Vec<CourseCode>>>) -> Seq<Seq<CodeView>> {
    match courses {
        Some(v) => semester_views(v@),
        None => Seq::empty(),
    }
}

/// What holds of the outcome `r` of building a plan for `programs` from
/// the completed courses `incoming` and the semesters `seed`: on success
/// the plan is for that student, has the semesters that `plan` gives, is
/// valid, and keeps the semesters of `seed`; on failure the error is the
/// one that `plan` gives.
pub open spec fn built<'a>(
    catalog: &'a Catalog,
    programs: Vec<String>,
    incoming: Seq<CodeView>,
    seed: Seq<Seq<CodeView>>,
    r: Result<Schedule<'a>, ScheduleError>,
) -> bool {
    let p = plan(
        *catalog,
        name_views(programs@),
        incoming,
        seed,
        Set::empty(),
        MAX_CREDITS_PER_SEMESTER as nat,
    );
    match r {
        Ok(s) => s.programs == programs && s.incoming_view() == incoming && s.catalog == catalog
            && p == Ok::<Seq<Seq<CodeView>>, ScheduleError>(s.semesters_view()) && s.valid()
            && extends(seed, s.semesters_view()),
        Err(e) => p == Err::<Seq<Seq<CodeView>>, ScheduleError>(e),
    }
}

/// Builds a plan for the named programs. `incoming` holds the courses
/// already completed; `courses`, if given, holds semesters to start from,
/// which are kept and filled up. The plan returned passes every check; an
/// unknown program, unsound semesters to start from, a requirement that no
/// course can discharge, prerequisites that cannot be ordered and a course
/// that is over the cap alone are reported as errors.
pub fn generate_schedule<'a>(
    programs: Vec<String>,
    catalog: &'a Catalog,
    incoming: Option<Vec<CourseCode>>,
    courses: Option<Vec<Vec<CourseCode>>>,
) -> (r: Result<Schedule<'a>, ScheduleError>)
    ensures
        built(catalog, programs, given_codes(incoming), given_semesters(courses), r),
{
    let completed: Vec<CourseCode> = match incoming {
        Some(v) => v,
        None => Vec::new(),
    };
    let seed: Vec<Vec<CourseCode>> = match courses {
        Some(v) => v,
        None => Vec::new(),
    };
    let banned: Vec<CourseCode> = Vec::new();
    assert(code_views(completed@) =~= given_codes(incoming));
    assert(semester_views(seed@) =~= given_semesters(courses));
    assert(code_set(banned@) =~= Set::empty());
    match build(catalog, &programs, &completed, seed, &banned, MAX_CREDITS_PER_SEMESTER) {
        Err(e) => Err(e),
        Ok(v) => Ok(Schedule { programs, incoming: completed, courses: v, catalog }),
    }
}

} // verus!
