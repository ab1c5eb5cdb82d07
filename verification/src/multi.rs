//! Alternatives to a plan: each placed course of the plan is banned in
//! turn, the plan is built again without it, and what is valid and differs
//! from everything found so far is kept.

use vstd::prelude::*;
use crate::builder::{adds_none_of, build, plan};
use crate::catalog::Catalog;
use crate::code::{code_views, contains_code, CodeView, CourseCode};
use crate::error::ScheduleError;
use crate::requirement::code_set;
use crate::schedule::{
    all_codes, copy_codes, flatten, name_views, placed_upto, semester_views, Schedule,
    MAX_CREDITS_PER_SEMESTER,
};
use crate::validate::{check, check_plan};

verus! {

/// Whether two semesters hold the same courses, in whatever order.
pub open spec fn same_courses(a: Seq<CodeView>, b: Seq<CodeView>) -> bool {
    a.to_set().subset_of(b.to_set()) && b.to_set().subset_of(a.to_set())
}

/// Whether two plans have the same number of semesters and, semester by
/// semester, the same courses.
pub open spec fn same_plan(a: Seq<Seq<CodeView>>, b: Seq<Seq<CodeView>>) -> bool {
    a.len() == b.len() && forall|i: int| 0 <= i < a.len() ==> same_courses(#[trigger] a[i], b[i])
}

/// Whether `v` is the same plan as one of `found`.
pub open spec fn already(found: Seq<Seq<Seq<CodeView>>>, v: Seq<Seq<CodeView>>) -> bool {
    exists|t: int| 0 <= t < found.len() && same_plan(#[trigger] found[t], v)
}

/// The plan built without the course `without`, if there is one and it
/// passes every check.
pub open spec fn option_for(
    cat: Catalog,
    programs: Seq<Seq<char>>,
    incoming: Seq<CodeView>,
    without: CodeView,
    cap: nat,
) -> Option<Seq<Seq<CodeView>>> {
    match plan(cat, programs, incoming, Seq::empty(), Set::empty().insert(without), cap) {
        Ok(v) => if check(cat, programs, incoming, v, MAX_CREDITS_PER_SEMESTER as nat) is Ok {
            Some(v)
        } else {
            None
        },
        Err(_) => None,
    }
}

/// The plans found when the courses `points[j..]` are banned in turn,
/// starting from the plans `found`, until `k` plans are found.
pub open spec fn options_from(
    cat: Catalog,
    programs: Seq<Seq<char>>,
    incoming: Seq<CodeView>,
    points: Seq<CodeView>,
    cap: nat,
    k: nat,
    j: int,
    found: Seq<Seq<Seq<CodeView>>>,
) -> Seq<Seq<Seq<CodeView>>>
    decreases points.len() - j,
{
    if j < 0 || j >= points.len() || found.len() >= k {
        found
    } else {
        let next = match option_for(cat, programs, incoming, points[j], cap) {
            Some(v) => if already(found, v) {
                found
            } else {
                found.push(v)
            },
            None => found,
        };
        options_from(cat, programs, incoming, points, cap, k, j + 1, next)
    }
}

/// The semesters of each plan of a list.
pub open spec fn plans_of(list: Seq<Schedule>) -> Seq<Seq<Seq<CodeView>>> {
    list.map_values(|s: Schedule| s.semesters_view())
}

/// Whether every course of `a` occurs in `b`.
pub fn subset_codes(a: &Vec<CourseCode>, b: &Vec<CourseCode>) -> (r: bool)
    ensures
        r == code_set(a@).subset_of(code_set(b@)),
{
    let mut i: usize = 0;
    while i < a.len()
        invariant
            i <= a.len(),
            forall|k: int| 0 <= k < i ==> code_set(b@).contains(#[trigger] code_views(a@)[k]),
        decreases a.len() - i,
    {
        if !contains_code(b, &a[i]) {
            assert(code_views(a@)[i as int] == a@[i as int]@);
            assert(code_set(a@).contains(code_views(a@)[i as int]));
            return false;
        }
        i += 1;
    }
    assert forall|x: CodeView| code_set(a@).contains(x) implies code_set(b@).contains(x) by {
        let k = choose|k: int| 0 <= k < code_views(a@).len() && code_views(a@)[k] == x;
        assert(code_set(b@).contains(code_views(a@)[k]));
    }
    true
}

/// Whether two plans are the same, semester by semester.
pub fn same_semesters(a: &Vec<Vec<CourseCode>>, b: &Vec<Vec<CourseCode>>) -> (r: bool)
    ensures
        r == same_plan(semester_views(a@), semester_views(b@)),
{
    if a.len() != b.len() {
        return false;
    }
    let ghost va = semester_views(a@);
    let ghost vb = semester_views(b@);
    let mut i: usize = 0;
    while i < a.len()
        invariant
            i <= a.len(),
            a.len() == b.len(),
            va == semester_views(a@),
            vb == semester_views(b@),
            forall|k: int| 0 <= k < i ==> same_courses(#[trigger] va[k], vb[k]),
        decreases a.len() - i,
    {
        assert(va[i as int] == code_views(a@[i as int]@));
        assert(vb[i as int] == code_views(b@[i as int]@));
        if !subset_codes(&a[i], &b[i]) || !subset_codes(&b[i], &a[i]) {
            assert(!same_courses(va[i as int], vb[i as int]));
            return false;
        }
        i += 1;
    }
    true
}

/// Whether the semesters `v` are the same plan as one of `list`.
pub fn is_listed(list: &Vec<Schedule>, v: &Vec<Vec<CourseCode>>) -> (r: bool)
    ensures
        r == already(plans_of(list@), semester_views(v@)),
{
    let ghost found = plans_of(list@);
    let mut t: usize = 0;
    while t < list.len()
        invariant
            t <= list.len(),
            found == plans_of(list@),
            forall|k: int| 0 <= k < t ==> !same_plan(#[trigger] found[k], semester_views(v@)),
        decreases list.len() - t,
    {
        assert(found[t as int] == list@[t as int].semesters_view());
        if same_semesters(&list[t].courses, v) {
            return true;
        }
        t += 1;
    }
    false
}

/// Copies a list of names.
pub fn copy_names(names: &Vec<String>) -> (r: Vec<String>)
    ensures
        r@ == names@,
{
    let mut out: Vec<String> = Vec::new();
    let mut i: usize = 0;
    while i < names.len()
        invariant
            i <= names.len(),
            out@ == names@.take(i as int),
        decreases names.len() - i,
    {
        out.push(names[i].clone());
        assert(out@ =~= names@.take(i + 1));
        i += 1;
    }
    assert(names@.take(i as int) =~= names@);
    out
}

/// Whether the plan `other` leaves out a course that the plan `first`
/// places.
pub open spec fn leaves_one_out(first: Seq<Seq<CodeView>>, other: Seq<Seq<CodeView>>) -> bool {
    exists|p: CodeView|
        #[trigger] placed_upto(first, first.len() as int).contains(p) && !placed_upto(
            other,
            other.len() as int,
        ).contains(p)
}

/// What holds of the alternatives to a plan with the semesters `first`:
/// the first is that plan, there are at most `k` of them unless `k` is
/// zero, each is valid and for the same student, each but the first leaves
/// out a course that the first places, and no two are the same plan.
pub open spec fn options_sound<'a>(
    catalog: &'a Catalog,
    programs: Seq<Seq<char>>,
    incoming: Seq<CodeView>,
    first: Seq<Seq<CodeView>>,
    list: Seq<Schedule<'a>>,
    k: nat,
) -> bool {
    &&& list.len() >= 1
    &&& list[0].semesters_view() == first
    &&& k >= 1 ==> list.len() <= k
    &&& forall|i: int|
        0 <= i < list.len() ==> (#[trigger] list[i]).valid() && list[i].programs_view() == programs
            && list[i].incoming_view() == incoming && list[i].catalog == catalog
    &&& forall|i: int|
        1 <= i < list.len() ==> leaves_one_out(first, (#[trigger] plans_of(list)[i]))
    &&& forall|i: int, j: int|
        0 <= i < j < list.len() ==> !same_plan(
            #[trigger] plans_of(list)[i],
            #[trigger] plans_of(list)[j],
        )
}

/// What holds of the outcome `r` of listing alternatives to `base`.
pub open spec fn options_listed<'a>(
    base: Schedule<'a>,
    cap: nat,
    k: nat,
    r: Result<Vec<Schedule<'a>>, ScheduleError>,
) -> bool {
    match r {
        Ok(list) => base.valid() && options_sound(
            base.catalog,
            base.programs_view(),
            base.incoming_view(),
            base.semesters_view(),
            list@,
            k,
        ) && plans_of(list@) == options_from(
            *base.catalog,
            base.programs_view(),
            base.incoming_view(),
            placed_upto(base.semesters_view(), base.courses.len() as int),
            cap,
            k,
            0,
            seq![base.semesters_view()],
        ),
        Err(e) => base.verdict() == Err::<(), ScheduleError>(e),
    }
}

/// A plan built without a course that a plan without repetitions places
/// leaves that course out.
pub proof fn lemma_banned_is_left_out(
    incoming: Seq<CodeView>,
    first: Seq<Seq<CodeView>>,
    other: Seq<Seq<CodeView>>,
    points: Seq<CodeView>,
    j: int,
)
    requires
        all_codes(incoming, first).no_duplicates(),
        points == placed_upto(first, first.len() as int),
        0 <= j < points.len(),
        adds_none_of(incoming, Seq::empty(), other, Set::empty().insert(points[j])),
    ensures
        leaves_one_out(first, other),
{
    let p = points[j];
    let whole = all_codes(incoming, first);
    let placed = placed_upto(other, other.len() as int);
    assert(points.contains(p));
    if placed.contains(p) {
        let k = choose|k: int| 0 <= k < placed.len() && placed[k] == p;
        assert(all_codes(incoming, other)[incoming.len() + k] == p);
        assert(all_codes(incoming, other).contains(p));
        assert(Set::<CodeView>::empty().insert(p).contains(p));
        assert(all_codes(incoming, Seq::empty()) =~= incoming);
        assert(incoming.contains(p));
        let a = choose|a: int| 0 <= a < incoming.len() && incoming[a] == p;
        assert(whole[a] == p);
        assert(whole[incoming.len() + j] == p);
    }
}

/// Lists up to `option_count` valid and pairwise different plans for the
/// student of `base`, `base` first. The others are built with at most
/// `max_credits_per_semester` credits in a semester, each without one of
/// the courses that `base` places. A `base` that is not valid is reported
/// with the check that it fails.
pub fn generate_multi_schedules<'a>(
    base: Schedule<'a>,
    max_credits_per_semester: u32,
    option_count: u64,
) -> (r: Result<Vec<Schedule<'a>>, ScheduleError>)
    ensures
        options_listed(base, max_credits_per_semester as nat, option_count as nat, r),
{
    let cat = base.catalog;
    match check_plan(cat, &base.programs, &base.incoming, &base.courses, MAX_CREDITS_PER_SEMESTER) {
        Err(e) => {
            return Err(e);
        },
        Ok(_) => {},
    }
    let programs = copy_names(&base.programs);
    let incoming = copy_codes(&base.incoming);
    let nothing: Vec<CourseCode> = Vec::new();
    let points = flatten(&nothing, &base.courses);
    let ghost names = base.programs_view();
    let ghost inc = base.incoming_view();
    let ghost pts = code_views(points@);
    let ghost cap = max_credits_per_semester as nat;
    let ghost k = option_count as nat;
    let ghost first = seq![base.semesters_view()];
    assert(pts =~= placed_upto(base.semesters_view(), base.courses.len() as int)) by {
        assert(code_views(nothing@) =~= Seq::empty());
        assert(Seq::<CodeView>::empty() + placed_upto(
            base.semesters_view(),
            base.courses.len() as int,
        ) =~= placed_upto(base.semesters_view(), base.courses.len() as int));
    }
    let mut list: Vec<Schedule<'a>> = Vec::new();
    list.push(base);
    assert(plans_of(list@) =~= first);
    let mut j: usize = 0;
    while j < points.len() && (list.len() as u64) < option_count
        invariant
            j <= points.len(),
            names == base.programs_view(),
            inc == base.incoming_view(),
            cat == base.catalog,
            name_views(programs@) == names,
            code_views(incoming@) == inc,
            pts == code_views(points@),
            cap == max_credits_per_semester as nat,
            k == option_count as nat,
            all_codes(inc, base.semesters_view()).no_duplicates(),
            pts == placed_upto(base.semesters_view(), base.semesters_view().len() as int),
            options_sound(cat, names, inc, base.semesters_view(), list@, k),
            options_from(*cat, names, inc, pts, cap, k, 0, first) == options_from(
                *cat,
                names,
                inc,
                pts,
                cap,
                k,
                j as int,
                plans_of(list@),
            ),
        decreases points.len() - j,
    {
        let ghost found = plans_of(list@);
        let mut banned: Vec<CourseCode> = Vec::new();
        banned.push(points[j].clone());
        assert(code_set(banned@) =~= Set::empty().insert(pts[j as int])) by {
            assert(code_views(banned@) =~= seq![pts[j as int]]);
            assert(seq![pts[j as int]][0] == pts[j as int]);
        }
        let seed: Vec<Vec<CourseCode>> = Vec::new();
        assert(semester_views(seed@) =~= Seq::empty());
        match build(cat, &programs, &incoming, seed, &banned, max_credits_per_semester) {
            Ok(v) => {
                if check_plan(cat, &programs, &incoming, &v, MAX_CREDITS_PER_SEMESTER).is_ok()
                    && !is_listed(&list, &v) {
                    let ghost sv = semester_views(v@);
                    let ghost before = list@;
                    let next = Schedule {
                        programs: copy_names(&programs),
                        incoming: copy_codes(&incoming),
                        courses: v,
                        catalog: cat,
                    };
                    list.push(next);
                    proof {
                        assert(plans_of(list@) =~= found.push(sv));
                        lemma_banned_is_left_out(inc, base.semesters_view(), sv, pts, j as int);
                        assert forall|i: int| 1 <= i < list@.len() implies leaves_one_out(
                            base.semesters_view(),
                            #[trigger] plans_of(list@)[i],
                        ) by {
                            if i < before.len() {
                                assert(plans_of(list@)[i] == plans_of(before)[i]);
                            }
                        }
                        assert forall|a: int, b: int| 0 <= a < b < list@.len() implies !same_plan(
                            #[trigger] plans_of(list@)[a],
                            #[trigger] plans_of(list@)[b],
                        ) by {
                            if b < before.len() {
                                assert(plans_of(list@)[a] == plans_of(before)[a]);
                                assert(plans_of(list@)[b] == plans_of(before)[b]);
                            } else {
                                assert(plans_of(list@)[a] == found[a]);
                            }
                        }
                        assert forall|i: int| 0 <= i < list@.len() implies (#[trigger] list@[i]).valid()
                            && list@[i].programs_view() == names && list@[i].incoming_view()
                            == inc && list@[i].catalog == cat by {
                            if i < before.len() {
                                assert(list@[i] == before[i]);
                            }
                        }
                    }
                }
            },
            Err(_) => {},
        }
        j += 1;
    }
    Ok(list)
}

} // verus!
