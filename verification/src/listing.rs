//! A plan written out: its courses row by row, and the lines of a printed
//! summary.

use vstd::prelude::*;
use vstd::string::*;
use crate::catalog::Catalog;
use crate::code::{
    code_text, code_views, digits, push_digits, CodeView, CourseCode, CourseCodeSuffix, SuffixView,
};
use crate::error::ScheduleError;
use crate::schedule::{flatten, name_views, placed_upto, Schedule};
use crate::validate::{all_known, credits_total, known_codes};

verus! {

/// The name of row `i` of a plan: the incoming courses first, then the
/// semesters, counted from one.
pub open spec fn row_label(i: nat) -> Seq<char> {
    if i == 0 {
        "incoming"@
    } else {
        "semester-"@ + digits(i)
    }
}

/// What a row tells of one course: stem, suffix, and the credits that the
/// catalog records.
pub open spec fn entry_of(cat: Catalog, c: CodeView) -> (Seq<char>, SuffixView, Option<u32>) {
    (
        c.stem,
        c.suffix,
        match cat.course_index(c) {
            Some(k) => cat.courses[k].credits,
            None => None,
        },
    )
}

/// The values of the entries of a row.
pub open spec fn entry_views(row: Seq<(String, CourseCodeSuffix, Option<u32>)>) -> Seq<
    (Seq<char>, SuffixView, Option<u32>),
> {
    row.map_values(|e: (String, CourseCodeSuffix, Option<u32>)| (e.0@, e.1@, e.2))
}

/// The courses of row `i`: the incoming courses for row zero, semester `i`
/// for any other.
pub open spec fn row_codes(incoming: Seq<CodeView>, semesters: Seq<Seq<CodeView>>, i: int) -> Seq<
    CodeView,
> {
    if i == 0 {
        incoming
    } else {
        semesters[i - 1]
    }
}

/// Writes the name of row `i`.
pub fn label_of_row(i: usize) -> (r: String)
    ensures
        r@ == row_label(i as nat),
{
    if i == 0 {
        String::from_str("incoming")
    } else {
        let mut out = String::from_str("semester-");
        push_digits(&mut out, i as u128);
        out
    }
}

/// Writes out the courses of one row. All of them must be known.
pub fn entries_of_row(cat: &Catalog, codes: &Vec<CourseCode>) -> (r: Vec<
    (String, CourseCodeSuffix, Option<u32>),
>)
    ensures
        entry_views(r@) == code_views(codes@).map_values(|c: CodeView| entry_of(*cat, c)),
{
    let ghost want = code_views(codes@).map_values(|c: CodeView| entry_of(*cat, c));
    let mut out: Vec<(String, CourseCodeSuffix, Option<u32>)> = Vec::new();
    let mut i: usize = 0;
    while i < codes.len()
        invariant
            i <= codes.len(),
            want == code_views(codes@).map_values(|c: CodeView| entry_of(*cat, c)),
            entry_views(out@) == want.take(i as int),
        decreases codes.len() - i,
    {
        let code = &codes[i];
        let credits = match cat.find_course(code) {
            Some(k) => cat.courses[k].credits,
            None => None,
        };
        let ghost before = entry_views(out@);
        out.push((code.stem.clone(), code.code.clone(), credits));
        assert(entry_views(out@) =~= before.push(entry_of(*cat, code@)));
        assert(want[i as int] == entry_of(*cat, code_views(codes@)[i as int]));
        assert(entry_views(out@) =~= want.take(i + 1));
        i += 1;
    }
    assert(want.take(i as int) =~= want);
    out
}

impl<'a> Schedule<'a> {
    /// The courses of the plan row by row: the incoming courses under the
    /// name `incoming`, then each semester under `semester-` and its
    /// number, each course with stem, suffix and recorded credits. Fails
    /// exactly when the plan holds a course that the catalog does not
    /// declare.
    pub fn get_courses(&self) -> (r: Result<
        Vec<(String, Vec<(String, CourseCodeSuffix, Option<u32>)>)>,
        ScheduleError,
    >)
        ensures
            match r {
                Ok(rows) => all_known(*self.catalog, self.codes()) && rows.len()
                    == self.courses.len() + 1 && forall|i: int|
                    0 <= i < rows.len() ==> (#[trigger] rows[i]).0@ == row_label(i as nat)
                        && entry_views(rows[i].1@) == row_codes(
                        self.incoming_view(),
                        self.semesters_view(),
                        i,
                    ).map_values(|c: CodeView| entry_of(*self.catalog, c)),
                Err(e) => e == ScheduleError::UnknownCourse && !all_known(
                    *self.catalog,
                    self.codes(),
                ),
            },
    {
        let flat = flatten(&self.incoming, &self.courses);
        if !known_codes(self.catalog, &flat) {
            return Err(ScheduleError::UnknownCourse);
        }
        let mut rows: Vec<(String, Vec<(String, CourseCodeSuffix, Option<u32>)>)> = Vec::new();
        rows.push((label_of_row(0), entries_of_row(self.catalog, &self.incoming)));
        let ghost inc = self.incoming_view();
        let ghost sems = self.semesters_view();
        let mut i: usize = 0;
        while i < self.courses.len()
            invariant
                i <= self.courses.len(),
                inc == self.incoming_view(),
                sems == self.semesters_view(),
                rows.len() == i + 1,
                forall|k: int|
                    0 <= k < rows.len() ==> (#[trigger] rows[k]).0@ == row_label(k as nat)
                        && entry_views(rows[k].1@) == row_codes(inc, sems, k).map_values(
                        |c: CodeView| entry_of(*self.catalog, c),
                    ),
            decreases self.courses.len() - i,
        {
            assert(sems[i as int] == code_views(self.courses@[i as int]@));
            let label = label_of_row(i + 1);
            rows.push((label, entries_of_row(self.catalog, &self.courses[i])));
            i += 1;
        }
        Ok(rows)
    }
}

/// The heading of block `s` of the summary.
pub open spec fn block_heading(s: nat) -> Seq<char> {
    if s == 0 {
        "Semester 0 (incoming only):"@
    } else {
        "Semester "@ + digits(s)
    }
}

/// The line of the summary for one course.
pub open spec fn course_line(cat: Catalog, c: CodeView) -> Seq<char> {
    "  "@ + code_text(c) + " ("@ + digits(cat.credits_of(c)) + " credits)"@
}

/// The block of the summary for row `s`: heading, one line for each
/// course, and the credits of the row.
pub open spec fn block_lines(cat: Catalog, s: nat, codes: Seq<CodeView>) -> Seq<Seq<char>> {
    seq![block_heading(s)] + codes.map_values(|c: CodeView| course_line(cat, c)) + seq![
        "  Credits: "@ + digits(credits_total(cat, codes)),
    ]
}

/// The blocks of the first `n` semesters.
pub open spec fn semester_blocks(cat: Catalog, semesters: Seq<Seq<CodeView>>, n: int) -> Seq<
    Seq<char>,
>
    decreases n,
{
    if n <= 0 {
        Seq::empty()
    } else {
        semester_blocks(cat, semesters, n - 1) + block_lines(cat, n as nat, semesters[n - 1])
    }
}

/// The lines of the summary of a plan: a title, the block of the incoming
/// courses, the block of each semester, and the credits of all semesters
/// together.
pub open spec fn summary_lines(
    cat: Catalog,
    incoming: Seq<CodeView>,
    semesters: Seq<Seq<CodeView>>,
) -> Seq<Seq<char>> {
    seq!["Final schedule (two-stage, balanced):"@] + block_lines(cat, 0, incoming)
        + semester_blocks(cat, semesters, semesters.len() as int) + seq![
        "Total credits (excluding incoming): "@ + digits(
            credits_total(cat, placed_upto(semesters, semesters.len() as int)),
        ),
    ]
}

/// Adds up the credits of a list of courses.
pub fn sum_credits(cat: &Catalog, codes: &Vec<CourseCode>) -> (r: u128)
    ensures
        r == credits_total(*cat, code_views(codes@)),
{
    let ghost views = code_views(codes@);
    let mut sum: u128 = 0;
    let mut i: usize = 0;
    assert(views.take(0) =~= Seq::empty());
    while i < codes.len()
        invariant
            i <= codes.len(),
            views == code_views(codes@),
            sum == credits_total(*cat, views.take(i as int)),
            sum <= i * 0x1_0000_0000,
        decreases codes.len() - i,
    {
        let c: u32 = cat.credits(&codes[i]);
        assert(views.take(i + 1).drop_last() =~= views.take(i as int));
        assert(views.take(i + 1).last() == codes@[i as int]@);
        sum = sum + c as u128;
        i += 1;
    }
    assert(views.take(i as int) =~= views);
    sum
}

/// Adds the block of one row to `out`.
pub fn push_block(cat: &Catalog, s: usize, codes: &Vec<CourseCode>, out: &mut Vec<String>)
    ensures
        name_views(final(out)@) == name_views(old(out)@) + block_lines(
            *cat,
            s as nat,
            code_views(codes@),
        ),
{
    let ghost start = name_views(out@);
    let ghost views = code_views(codes@);
    let ghost lines = views.map_values(|c: CodeView| course_line(*cat, c));
    let mut heading = if s == 0 {
        String::from_str("Semester 0 (incoming only):")
    } else {
        String::from_str("Semester ")
    };
    if s != 0 {
        push_digits(&mut heading, s as u128);
    }
    out.push(heading);
    assert(name_views(out@) =~= start + seq![block_heading(s as nat)] + lines.take(0));
    let mut i: usize = 0;
    while i < codes.len()
        invariant
            i <= codes.len(),
            views == code_views(codes@),
            lines == views.map_values(|c: CodeView| course_line(*cat, c)),
            name_views(out@) == start + seq![block_heading(s as nat)] + lines.take(i as int),
        decreases codes.len() - i,
    {
        let mut line = String::from_str("  ");
        let text = codes[i].to_text();
        line.append(text.as_str());
        line.append(" (");
        push_digits(&mut line, cat.credits(&codes[i]) as u128);
        line.append(" credits)");
        assert(line@ =~= course_line(*cat, views[i as int]));
        let ghost before = name_views(out@);
        out.push(line);
        assert(name_views(out@) =~= before.push(lines[i as int]));
        assert(name_views(out@) =~= start + seq![block_heading(s as nat)] + lines.take(i + 1));
        i += 1;
    }
    assert(lines.take(i as int) =~= lines);
    let mut last = String::from_str("  Credits: ");
    push_digits(&mut last, sum_credits(cat, codes));
    let ghost before = name_views(out@);
    out.push(last);
    assert(name_views(out@) =~= before.push(
        "  Credits: "@ + digits(credits_total(*cat, views)),
    ));
    assert(name_views(out@) =~= start + block_lines(*cat, s as nat, views));
}

impl<'a> Schedule<'a> {
    /// The lines of a printed summary of the plan, for the caller to print.
    pub fn display(&self) -> (r: Vec<String>)
        ensures
            name_views(r@) == summary_lines(
                *self.catalog,
                self.incoming_view(),
                self.semesters_view(),
            ),
    {
        let cat = self.catalog;
        let ghost inc = self.incoming_view();
        let ghost sems = self.semesters_view();
        let mut out: Vec<String> = Vec::new();
        out.push(String::from_str("Final schedule (two-stage, balanced):"));
        assert(name_views(out@) =~= seq!["Final schedule (two-stage, balanced):"@]);
        push_block(cat, 0, &self.incoming, &mut out);
        let ghost head = name_views(out@);
        let mut i: usize = 0;
        assert(head + semester_blocks(*cat, sems, 0) =~= head);
        while i < self.courses.len()
            invariant
                i <= self.courses.len(),
                cat == self.catalog,
                sems == self.semesters_view(),
                name_views(out@) == head + semester_blocks(*cat, sems, i as int),
            decreases self.courses.len() - i,
        {
            assert(sems[i as int] == code_views(self.courses@[i as int]@));
            push_block(cat, i + 1, &self.courses[i], &mut out);
            assert(name_views(out@) =~= head + semester_blocks(*cat, sems, i + 1));
            i += 1;
        }
        let nothing: Vec<CourseCode> = Vec::new();
        let placed = flatten(&nothing, &self.courses);
        assert(code_views(placed@) =~= placed_upto(sems, sems.len() as int)) by {
            assert(code_views(nothing@) =~= Seq::empty());
        }
        let mut last = String::from_str("Total credits (excluding incoming): ");
        push_digits(&mut last, sum_credits(cat, &placed));
        let ghost before = name_views(out@);
        out.push(last);
        assert(name_views(out@) =~= before.push(
            "Total credits (excluding incoming): "@ + digits(
                credits_total(*cat, placed_upto(sems, sems.len() as int)),
            ),
        ));
        assert(name_views(out@) =~= summary_lines(*cat, inc, sems));
        out
    }
}

} // verus!
