//! Requirement trees: "all of", "any N of", and leaves that name a course or
//! a whole subject.

use vstd::prelude::*;
use crate::code::{code_views, contains_code, CodeView, CourseCode};

verus! {

/// A requirement over the set of completed courses.
#[derive(Debug)]
pub enum RequirementTree {
    /// This very course.
    Course(CourseCode),
    /// Any course of the given subject stem.
    AnyWithStem(String),
    /// Every child.
    All(Vec<RequirementTree>),
    /// At least the given number of children.
    AnyOf(usize, Vec<RequirementTree>),
}

/// How many entries of `flags` are true.
pub open spec fn count_true(flags: Seq<bool>) -> nat
    decreases flags.len(),
{
    if flags.len() == 0 {
        0
    } else {
        count_true(flags.drop_last()) + if flags.last() { 1nat } else { 0nat }
    }
}

/// Whether some code in `done` has the stem `stem`.
pub open spec fn has_stem(done: Set<CodeView>, stem: Seq<char>) -> bool {
    exists|c: CodeView| #[trigger] done.contains(c) && c.stem == stem
}

impl RequirementTree {
    /// For each child, whether `done` satisfies it.
    pub open spec fn child_flags(children: Vec<RequirementTree>, done: Set<CodeView>) -> Seq<bool>
        decreases children, 0nat,
    {
        Seq::new(
            children.len() as nat,
            |i: int| 0 <= i < children.len() && children[i].satisfied(done),
        )
    }

    /// Whether the completed courses `done` satisfy this requirement.
    pub open spec fn satisfied(self, done: Set<CodeView>) -> bool
        decreases self, 1nat,
    {
        match self {
            RequirementTree::Course(c) => done.contains(c@),
            RequirementTree::AnyWithStem(s) => has_stem(done, s@),
            RequirementTree::All(v) => count_true(Self::child_flags(v, done)) == v.len(),
            RequirementTree::AnyOf(n, v) => count_true(Self::child_flags(v, done)) >= n,
        }
    }
}

/// The set of courses that a list of codes holds.
pub open spec fn code_set(v: Seq<CourseCode>) -> Set<CodeView> {
    code_views(v).to_set()
}

/// Counting one more flag adds one exactly when that flag is true.
pub proof fn lemma_count_true_step(flags: Seq<bool>, i: int)
    requires
        0 <= i < flags.len(),
    ensures
        count_true(flags.take(i + 1)) == count_true(flags.take(i)) + if flags[i] { 1nat } else { 0nat },
        count_true(flags.take(i)) <= i,
    decreases i,
{
    assert(flags.take(i + 1).drop_last() =~= flags.take(i));
    if i > 0 {
        lemma_count_true_step(flags, i - 1);
    }
}

/// Whether some code of `list` has the stem `stem`.
pub fn any_with_stem(list: &Vec<CourseCode>, stem: &String) -> (r: bool)
    ensures
        r == has_stem(code_set(list@), stem@),
{
    let mut i: usize = 0;
    while i < list.len()
        invariant
            i <= list.len(),
            forall|j: int| 0 <= j < i ==> (#[trigger] code_views(list@)[j]).stem != stem@,
        decreases list.len() - i,
    {
        if list[i].stem == *stem {
            assert(code_views(list@)[i as int] == list@[i as int]@);
            assert(code_set(list@).contains(list@[i as int]@));
            return true;
        }
        i += 1;
    }
    false
}

impl RequirementTree {
    /// Evaluates the requirement over the completed courses.
    pub fn is_satisfied(&self, completed: &Vec<CourseCode>) -> (r: bool)
        ensures
            r == self.satisfied(code_set(completed@)),
        decreases self,
    {
        match self {
            RequirementTree::Course(c) => contains_code(completed, c),
            RequirementTree::AnyWithStem(s) => any_with_stem(completed, s),
            RequirementTree::All(v) => Self::count_satisfied(v, completed) == v.len(),
            RequirementTree::AnyOf(n, v) => Self::count_satisfied(v, completed) >= *n,
        }
    }

    /// How many of `children` the completed courses satisfy.
    pub fn count_satisfied(children: &Vec<RequirementTree>, completed: &Vec<CourseCode>) -> (k: usize)
        ensures
            k == count_true(Self::child_flags(*children, code_set(completed@))),
        decreases children,
    {
        let ghost flags = Self::child_flags(*children, code_set(completed@));
        let mut k: usize = 0;
        let mut i: usize = 0;
        while i < children.len()
            invariant
                i <= children.len(),
                flags == Self::child_flags(*children, code_set(completed@)),
                k == count_true(flags.take(i as int)),
                k <= i,
            decreases children.len() - i,
        {
            proof {
                lemma_count_true_step(flags, i as int);
            }
            if children[i].is_satisfied(completed) {
                k += 1;
            }
            i += 1;
        }
        assert(flags.take(i as int) =~= flags);
        k
    }
}

impl RequirementTree {
    /// Whether the course `c` could discharge some leaf of this requirement.
    pub open spec fn accepts(self, c: CodeView) -> bool
        decreases self,
    {
        match self {
            RequirementTree::Course(x) => x@ == c,
            RequirementTree::AnyWithStem(s) => c.stem == s@,
            RequirementTree::All(v) => exists|i: int|
                0 <= i < v.len() && (#[trigger] v[i]).accepts(c),
            RequirementTree::AnyOf(_, v) => exists|i: int|
                0 <= i < v.len() && (#[trigger] v[i]).accepts(c),
        }
    }

    /// Whether the course `c` would help: it discharges a leaf in a part of
    /// this requirement that `done` leaves unsatisfied.
    pub open spec fn wants(self, done: Set<CodeView>, c: CodeView) -> bool
        decreases self,
    {
        match self {
            RequirementTree::Course(x) => x@ == c && !done.contains(c),
            RequirementTree::AnyWithStem(s) => c.stem == s@ && !has_stem(done, s@),
            RequirementTree::All(v) => exists|i: int|
                0 <= i < v.len() && (#[trigger] v[i]).wants(done, c),
            RequirementTree::AnyOf(n, v) => !self.satisfied(done) && exists|i: int|
                0 <= i < v.len() && (#[trigger] v[i]).wants(done, c),
        }
    }

    /// Decides `accepts` for one course.
    pub fn accepts_code(&self, c: &CourseCode) -> (r: bool)
        ensures
            r == self.accepts(c@),
        decreases self,
    {
        match self {
            RequirementTree::Course(x) => x.same(c),
            RequirementTree::AnyWithStem(s) => c.stem == *s,
            RequirementTree::All(v) => Self::any_child_accepts(v, c),
            RequirementTree::AnyOf(_, v) => Self::any_child_accepts(v, c),
        }
    }

    /// Whether some child accepts `c`.
    pub fn any_child_accepts(children: &Vec<RequirementTree>, c: &CourseCode) -> (r: bool)
        ensures
            r == exists|i: int| 0 <= i < children.len() && (#[trigger] children[i]).accepts(c@),
        decreases children,
    {
        let mut i: usize = 0;
        while i < children.len()
            invariant
                i <= children.len(),
                forall|j: int| 0 <= j < i ==> !(#[trigger] children[j]).accepts(c@),
            decreases children.len() - i,
        {
            if children[i].accepts_code(c) {
                return true;
            }
            i += 1;
        }
        false
    }

    /// Decides `wants` for one course.
    pub fn wants_code(&self, completed: &Vec<CourseCode>, c: &CourseCode) -> (r: bool)
        ensures
            r == self.wants(code_set(completed@), c@),
        decreases self,
    {
        match self {
            RequirementTree::Course(x) => x.same(c) && !contains_code(completed, c),
            RequirementTree::AnyWithStem(s) => c.stem == *s && !any_with_stem(completed, s),
            RequirementTree::All(v) => Self::any_child_wants(v, completed, c),
            RequirementTree::AnyOf(n, v) => {
                Self::count_satisfied(v, completed) < *n && Self::any_child_wants(v, completed, c)
            },
        }
    }

    /// Whether some child wants `c`.
    pub fn any_child_wants(
        children: &Vec<RequirementTree>,
        completed: &Vec<CourseCode>,
        c: &CourseCode,
    ) -> (r: bool)
        ensures
            r == exists|i: int|
                0 <= i < children.len() && (#[trigger] children[i]).wants(code_set(completed@), c@),
        decreases children,
    {
        let mut i: usize = 0;
        while i < children.len()
            invariant
                i <= children.len(),
                forall|j: int|
                    0 <= j < i ==> !(#[trigger] children[j]).wants(code_set(completed@), c@),
            decreases children.len() - i,
        {
            if children[i].wants_code(completed, c) {
                return true;
            }
            i += 1;
        }
        false
    }
}

/// No more flags are true than there are flags.
pub proof fn lemma_count_true_bound(flags: Seq<bool>)
    ensures
        count_true(flags) <= flags.len(),
    decreases flags.len(),
{
    if flags.len() > 0 {
        lemma_count_true_bound(flags.drop_last());
    }
}

/// Turning flags from false to true never lowers the count.
pub proof fn lemma_count_true_grows(f: Seq<bool>, g: Seq<bool>)
    requires
        f.len() == g.len(),
        forall|i: int| 0 <= i < f.len() && f[i] ==> g[i],
    ensures
        count_true(f) <= count_true(g),
    decreases f.len(),
{
    if f.len() > 0 {
        lemma_count_true_grows(f.drop_last(), g.drop_last());
    }
}

impl RequirementTree {
    /// With more courses completed, no fewer children are satisfied.
    pub proof fn lemma_children_monotone(
        children: Vec<RequirementTree>,
        a: Set<CodeView>,
        b: Set<CodeView>,
    )
        requires
            a.subset_of(b),
        ensures
            count_true(Self::child_flags(children, a)) <= count_true(
                Self::child_flags(children, b),
            ),
        decreases children, 0nat,
    {
        let fa = Self::child_flags(children, a);
        let fb = Self::child_flags(children, b);
        assert forall|i: int| 0 <= i < fa.len() && fa[i] implies fb[i] by {
            children[i].lemma_monotone(a, b);
        }
        lemma_count_true_grows(fa, fb);
    }

    /// Evaluation is monotonic: completing more courses never turns a
    /// satisfied requirement into an unsatisfied one.
    pub proof fn lemma_monotone(self, a: Set<CodeView>, b: Set<CodeView>)
        requires
            a.subset_of(b),
            self.satisfied(a),
        ensures
            self.satisfied(b),
        decreases self, 1nat,
    {
        match self {
            RequirementTree::Course(c) => {},
            RequirementTree::AnyWithStem(s) => {
                let w = choose|c: CodeView| #[trigger] a.contains(c) && c.stem == s@;
                assert(b.contains(w));
            },
            RequirementTree::All(v) => {
                Self::lemma_children_monotone(v, a, b);
                lemma_count_true_bound(Self::child_flags(v, b));
            },
            RequirementTree::AnyOf(n, v) => {
                Self::lemma_children_monotone(v, a, b);
            },
        }
    }
}

impl RequirementTree {
    /// A course that a requirement wants is not yet completed.
    pub proof fn lemma_wanted_is_new(self, done: Set<CodeView>, c: CodeView)
        requires
            self.wants(done, c),
        ensures
            !done.contains(c),
            self.accepts(c),
        decreases self,
    {
        match self {
            RequirementTree::Course(x) => {},
            RequirementTree::AnyWithStem(s) => {},
            RequirementTree::All(v) => {
                let i = choose|i: int| 0 <= i < v.len() && (#[trigger] v[i]).wants(done, c);
                v[i].lemma_wanted_is_new(done, c);
            },
            RequirementTree::AnyOf(n, v) => {
                let i = choose|i: int| 0 <= i < v.len() && (#[trigger] v[i]).wants(done, c);
                v[i].lemma_wanted_is_new(done, c);
            },
        }
    }
}

impl RequirementTree {
    /// Whether the course `p` is indispensable: the requirement is `p`
    /// itself, or an "all of" with an indispensable `p` among its children.
    pub open spec fn demands(self, p: CodeView) -> bool
        decreases self,
    {
        match self {
            RequirementTree::Course(x) => x@ == p,
            RequirementTree::AnyWithStem(_) => false,
            RequirementTree::All(v) => exists|i: int|
                0 <= i < v.len() && (#[trigger] v[i]).demands(p),
            RequirementTree::AnyOf(_, _) => false,
        }
    }

    /// In an "all of" that is satisfied, every child is satisfied.
    pub proof fn lemma_all_children(children: Vec<RequirementTree>, done: Set<CodeView>, i: int)
        requires
            count_true(Self::child_flags(children, done)) == children.len(),
            0 <= i < children.len(),
        ensures
            children[i].satisfied(done),
    {
        let flags = Self::child_flags(children, done);
        if !flags[i] {
            let g = flags.update(i, true);
            lemma_count_true_strict(flags, g, i);
            lemma_count_true_bound(g);
        }
    }

    /// A satisfied requirement has every indispensable course completed.
    pub proof fn lemma_demanded_is_done(self, done: Set<CodeView>, p: CodeView)
        requires
            self.satisfied(done),
            self.demands(p),
        ensures
            done.contains(p),
        decreases self,
    {
        match self {
            RequirementTree::All(v) => {
                let i = choose|i: int| 0 <= i < v.len() && (#[trigger] v[i]).demands(p);
                Self::lemma_all_children(v, done, i);
                v[i].lemma_demanded_is_done(done, p);
            },
            _ => {},
        }
    }
}

/// Turning one flag from false to true raises the count.
pub proof fn lemma_count_true_strict(f: Seq<bool>, g: Seq<bool>, i: int)
    requires
        0 <= i < f.len(),
        !f[i],
        g == f.update(i, true),
    ensures
        count_true(f) < count_true(g),
    decreases f.len(),
{
    if i == f.len() - 1 {
        assert(g.drop_last() =~= f.drop_last());
    } else {
        assert(g.drop_last() =~= f.drop_last().update(i, true));
        lemma_count_true_strict(f.drop_last(), g.drop_last(), i);
    }
}

/// Where more flags are true in `g` than in `f`, some flag is true in `g`
/// and false in `f`.
pub proof fn lemma_count_true_gap(f: Seq<bool>, g: Seq<bool>)
    requires
        f.len() == g.len(),
        count_true(f) < count_true(g),
    ensures
        exists|i: int| 0 <= i < f.len() && !#[trigger] f[i] && g[i],
    decreases f.len(),
{
    if f.len() > 0 {
        let last = f.len() - 1;
        if !f[last] && g[last] {
        } else {
            lemma_count_true_gap(f.drop_last(), g.drop_last());
            let i = choose|i: int|
                0 <= i < f.drop_last().len() && !#[trigger] f.drop_last()[i] && g.drop_last()[i];
            assert(!f[i] && g[i]);
        }
    }
}

impl RequirementTree {
    /// A requirement that is open, and that more courses would satisfy,
    /// wants one of those courses.
    pub proof fn lemma_open_wants(self, done: Set<CodeView>, more: Set<CodeView>)
        requires
            done.subset_of(more),
            !self.satisfied(done),
            self.satisfied(more),
        ensures
            exists|c: CodeView| more.contains(c) && #[trigger] self.wants(done, c),
        decreases self,
    {
        match self {
            RequirementTree::Course(x) => {
                assert(more.contains(x@) && self.wants(done, x@));
            },
            RequirementTree::AnyWithStem(s) => {
                let c = choose|c: CodeView| #[trigger] more.contains(c) && c.stem == s@;
                assert(more.contains(c) && self.wants(done, c));
            },
            RequirementTree::All(v) => {
                let f = Self::child_flags(v, done);
                let g = Self::child_flags(v, more);
                lemma_count_true_bound(f);
                lemma_count_true_gap(f, g);
                let i = choose|i: int| 0 <= i < f.len() && !#[trigger] f[i] && g[i];
                v[i].lemma_open_wants(done, more);
                let c = choose|c: CodeView| more.contains(c) && #[trigger] v[i].wants(done, c);
                assert(more.contains(c) && self.wants(done, c));
            },
            RequirementTree::AnyOf(n, v) => {
                let f = Self::child_flags(v, done);
                let g = Self::child_flags(v, more);
                lemma_count_true_gap(f, g);
                let i = choose|i: int| 0 <= i < f.len() && !#[trigger] f[i] && g[i];
                v[i].lemma_open_wants(done, more);
                let c = choose|c: CodeView| more.contains(c) && #[trigger] v[i].wants(done, c);
                assert(more.contains(c) && self.wants(done, c));
            },
        }
    }
}

} // verus!
