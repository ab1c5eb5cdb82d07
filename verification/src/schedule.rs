//! A student's plan: programs, completed courses, and semesters.

use vstd::prelude::*;
use crate::catalog::Catalog;
use crate::code::{code_views, CodeView, CourseCode};

verus! {

/// The most credits that one semester may carry.
pub const MAX_CREDITS_PER_SEMESTER: u32 = 15;

/// A plan built against a catalog. The catalog is shared and never changed.
#[derive(Debug)]
pub struct Schedule<'a> {
    /// The programs pursued, by name.
    pub programs: Vec<String>,
    /// Courses completed before the first semester.
    pub incoming: Vec<CourseCode>,
    /// The courses of each semester, first semester first.
    pub courses: Vec<Vec<CourseCode>>,
    /// The catalog that the plan refers to.
    pub catalog: &'a Catalog,
}

/// The values of the semesters of a plan.
pub open spec fn semester_views(courses: Seq<Vec<CourseCode>>) -> Seq<Seq<CodeView>> {
    courses.map_values(|s: Vec<CourseCode>| code_views(s@))
}

/// The values of a list of names.
pub open spec fn name_views(names: Seq<String>) -> Seq<Seq<char>> {
    names.map_values(|s: String| s@)
}

/// The courses of the first `n` semesters, in order.
pub open spec fn placed_upto(semesters: Seq<Seq<CodeView>>, n: int) -> Seq<CodeView>
    decreases n,
{
    if n <= 0 {
        Seq::empty()
    } else {
        placed_upto(semesters, n - 1) + semesters[n - 1]
    }
}

/// What is completed when semester `n` begins: the incoming courses and
/// those of all earlier semesters.
pub open spec fn codes_before(
    incoming: Seq<CodeView>,
    semesters: Seq<Seq<CodeView>>,
    n: int,
) -> Seq<CodeView> {
    incoming + placed_upto(semesters, n)
}

/// Every course of a plan: incoming first, then semester by semester.
pub open spec fn all_codes(incoming: Seq<CodeView>, semesters: Seq<Seq<CodeView>>) -> Seq<
    CodeView,
> {
    codes_before(incoming, semesters, semesters.len() as int)
}

impl<'a> Schedule<'a> {
    /// The incoming courses as values.
    pub open spec fn incoming_view(self) -> Seq<CodeView> {
        code_views(self.incoming@)
    }

    /// The semesters as values.
    pub open spec fn semesters_view(self) -> Seq<Seq<CodeView>> {
        semester_views(self.courses@)
    }

    /// The program names as values.
    pub open spec fn programs_view(self) -> Seq<Seq<char>> {
        name_views(self.programs@)
    }

    /// Every course of the plan, incoming first.
    pub open spec fn codes(self) -> Seq<CodeView> {
        all_codes(self.incoming_view(), self.semesters_view())
    }
}

/// Appends copies of the codes of `src` to `dst`.
pub fn append_codes(dst: &mut Vec<CourseCode>, src: &Vec<CourseCode>)
    ensures
        code_views(final(dst)@) == code_views(old(dst)@) + code_views(src@),
{
    let ghost start = code_views(dst@);
    let mut i: usize = 0;
    while i < src.len()
        invariant
            i <= src.len(),
            code_views(dst@) == start + code_views(src@).take(i as int),
        decreases src.len() - i,
    {
        let ghost before = code_views(dst@);
        dst.push(src[i].clone());
        assert(code_views(dst@) =~= before.push(src@[i as int]@));
        assert(code_views(src@).take(i + 1) =~= code_views(src@).take(i as int).push(
            src@[i as int]@,
        ));
        assert(code_views(dst@) =~= start + code_views(src@).take(i + 1));
        i += 1;
    }
    assert(code_views(src@).take(i as int) =~= code_views(src@));
}

/// Copies a list of codes.
pub fn copy_codes(src: &Vec<CourseCode>) -> (r: Vec<CourseCode>)
    ensures
        code_views(r@) == code_views(src@),
{
    let mut out: Vec<CourseCode> = Vec::new();
    assert(code_views(out@) =~= Seq::empty());
    append_codes(&mut out, src);
    assert(Seq::<CodeView>::empty() + code_views(src@) =~= code_views(src@));
    out
}

/// Every course of a plan in one list: incoming first, then the semesters.
pub fn flatten(incoming: &Vec<CourseCode>, courses: &Vec<Vec<CourseCode>>) -> (r: Vec<CourseCode>)
    ensures
        code_views(r@) == all_codes(code_views(incoming@), semester_views(courses@)),
{
    let mut out = copy_codes(incoming);
    let ghost sems = semester_views(courses@);
    let mut i: usize = 0;
    assert(code_views(incoming@) + placed_upto(sems, 0) =~= code_views(incoming@));
    while i < courses.len()
        invariant
            i <= courses.len(),
            sems == semester_views(courses@),
            code_views(out@) == codes_before(code_views(incoming@), sems, i as int),
        decreases courses.len() - i,
    {
        let ghost before = code_views(out@);
        append_codes(&mut out, &courses[i]);
        assert(sems[i as int] == code_views(courses@[i as int]@));
        assert(code_views(out@) =~= codes_before(code_views(incoming@), sems, i + 1));
        i += 1;
    }
    out
}

/// Whether no code occurs twice in `list`.
pub fn no_repeats(list: &Vec<CourseCode>) -> (r: bool)
    ensures
        r == code_views(list@).no_duplicates(),
{
    let ghost views = code_views(list@);
    let mut i: usize = 0;
    while i < list.len()
        invariant
            i <= list.len(),
            views == code_views(list@),
            forall|a: int, b: int| 0 <= a < b < i ==> views[a] != views[b],
        decreases list.len() - i,
    {
        let mut j: usize = 0;
        while j < i
            invariant
                j <= i < list.len(),
                views == code_views(list@),
                forall|a: int| 0 <= a < j ==> views[a] != views[i as int],
            decreases i - j,
        {
            if list[j].same(&list[i]) {
                assert(views[j as int] == views[i as int]);
                return false;
            }
            j += 1;
        }
        i += 1;
    }
    assert forall|a: int, b: int| 0 <= a < views.len() && 0 <= b < views.len() && a != b implies views[a] != views[b] by {
        if a < b {
            assert(views[a] != views[b]);
        } else {
            assert(views[b] != views[a]);
        }
    }
    true
}

/// A course among those of the first `n` semesters stands in one of them.
pub proof fn lemma_placed_somewhere(semesters: Seq<Seq<CodeView>>, n: int, x: CodeView)
    requires
        0 <= n <= semesters.len(),
        placed_upto(semesters, n).contains(x),
    ensures
        exists|a: int, b: int|
            0 <= a < n && 0 <= b < semesters[a].len() && #[trigger] semesters[a][b] == x,
    decreases n,
{
    if n > 0 {
        let head = placed_upto(semesters, n - 1);
        let all = placed_upto(semesters, n);
        let k = choose|k: int| 0 <= k < all.len() && all[k] == x;
        if k < head.len() {
            assert(head[k] == x);
            lemma_placed_somewhere(semesters, n - 1, x);
        } else {
            assert(semesters[n - 1][k - head.len()] == x);
        }
    }
}

} // verus!
