//! Further courses: what else could discharge a requirement of a plan.

use vstd::prelude::*;
use crate::catalog::{Catalog, GenEd, Program};
use crate::code::{code_text, code_views, CodeView, CourseCode};
use crate::error::QueryError;
use crate::reasons::ReasonTypes;
use crate::schedule::{append_codes, flatten, name_views, Schedule};

verus! {

/// The kind of reason that a general-education category gives.
pub open spec fn gened_kind(g: GenEd) -> ReasonTypes {
    match g {
        GenEd::Core { .. } => ReasonTypes::Core,
        GenEd::Foundation { .. } => ReasonTypes::Foundation,
        GenEd::SkillAndPerspective { .. } => ReasonTypes::SkillsAndPerspective,
    }
}

/// Whether one of the first `n` categories has the kind `kind` and the
/// name `name` and accepts the course `c`.
pub open spec fn gened_offers(
    cat: Catalog,
    kind: ReasonTypes,
    name: Seq<char>,
    c: CodeView,
    n: int,
) -> bool {
    exists|g: int|
        0 <= g < n && gened_kind(#[trigger] cat.geneds[g]) == kind && cat.geneds[g].label() == name
            && cat.geneds[g].tree().accepts(c)
}

/// Whether one of the first `m` electives of `p` has the name `name` and
/// accepts the course `c`.
pub open spec fn elective_offers(p: Program, name: Seq<char>, c: CodeView, m: int) -> bool {
    exists|e: int|
        0 <= e < m && (#[trigger] p.electives[e]).name@ == name && p.electives[e].req.accepts(c)
}

/// Whether one of the first `n` programs has the name `prog` and an
/// elective `name` that accepts the course `c`.
pub open spec fn program_offers(
    cat: Catalog,
    prog: Seq<char>,
    name: Seq<char>,
    c: CodeView,
    n: int,
) -> bool {
    exists|k: int|
        0 <= k < n && (#[trigger] cat.programs[k]).name@ == prog && elective_offers(
            cat.programs[k],
            name,
            c,
            cat.programs[k].electives.len() as int,
        )
}

/// Whether the catalog offers the course `c` for a reason of the given
/// kind: for a general-education kind, a category of that kind and name
/// accepts it; for an elective, an elective of that name in a program of
/// that name accepts it. The other kinds offer nothing.
pub open spec fn offers(
    cat: Catalog,
    kind: ReasonTypes,
    name: Seq<char>,
    prog: Seq<char>,
    c: CodeView,
) -> bool {
    cat.knows(c) && match kind {
        ReasonTypes::Core | ReasonTypes::Foundation | ReasonTypes::SkillsAndPerspective =>
            gened_offers(cat, kind, name, c, cat.geneds.len() as int),
        ReasonTypes::ProgramElective => program_offers(
            cat,
            prog,
            name,
            c,
            cat.programs.len() as int,
        ),
        _ => false,
    }
}

impl GenEd {
    /// The kind of reason that this category gives.
    pub fn kind(&self) -> (r: ReasonTypes)
        ensures
            r == gened_kind(*self),
    {
        match self {
            GenEd::Core { .. } => ReasonTypes::Core,
            GenEd::Foundation { .. } => ReasonTypes::Foundation,
            GenEd::SkillAndPerspective { .. } => ReasonTypes::SkillsAndPerspective,
        }
    }

    /// The name of this category.
    pub fn name(&self) -> (r: &String)
        ensures
            r@ == self.label(),
    {
        match self {
            GenEd::Core { name, req } => name,
            GenEd::Foundation { name, req } => name,
            GenEd::SkillAndPerspective { name, req } => name,
        }
    }
}

/// A concatenation contains what one of its parts contains.
pub proof fn lemma_concat_contains(a: Seq<CodeView>, b: Seq<CodeView>, x: CodeView)
    ensures
        (a + b).contains(x) <==> (a.contains(x) || b.contains(x)),
{
    let s = a + b;
    if s.contains(x) {
        let k = choose|k: int| 0 <= k < s.len() && s[k] == x;
        if k < a.len() {
            assert(a[k] == x);
        } else {
            assert(b[k - a.len()] == x);
        }
    }
    if a.contains(x) {
        let k = choose|k: int| 0 <= k < a.len() && a[k] == x;
        assert(s[k] == x);
    }
    if b.contains(x) {
        let k = choose|k: int| 0 <= k < b.len() && b[k] == x;
        assert(s[a.len() + k] == x);
    }
}

/// The courses that the general-education categories of the given kind
/// and name accept.
pub fn gened_courses(cat: &Catalog, kind: ReasonTypes, name: &String) -> (r: Vec<CourseCode>)
    ensures
        forall|c: CodeView| #[trigger]
            code_views(r@).contains(c) <==> (cat.knows(c) && gened_offers(
                *cat,
                kind,
                name@,
                c,
                cat.geneds.len() as int,
            )),
{
    let mut out: Vec<CourseCode> = Vec::new();
    let mut g: usize = 0;
    while g < cat.geneds.len()
        invariant
            g <= cat.geneds.len(),
            forall|c: CodeView| #[trigger]
                code_views(out@).contains(c) <==> (cat.knows(c) && gened_offers(
                    *cat,
                    kind,
                    name@,
                    c,
                    g as int,
                )),
        decreases cat.geneds.len() - g,
    {
        let ghost before = code_views(out@);
        let here = &cat.geneds[g];
        let hit = here.kind() == kind && *here.name() == *name;
        if hit {
            let codes = here.req().all_course_codes(cat);
            append_codes(&mut out, &codes);
            assert forall|c: CodeView| #[trigger]
                code_views(out@).contains(c) <==> (cat.knows(c) && gened_offers(
                    *cat,
                    kind,
                    name@,
                    c,
                    g + 1,
                )) by {
                lemma_concat_contains(before, code_views(codes@), c);
                if cat.knows(c) && gened_offers(*cat, kind, name@, c, g + 1) {
                    let w = choose|w: int|
                        0 <= w < g + 1 && gened_kind(#[trigger] cat.geneds[w]) == kind
                            && cat.geneds[w].label() == name@ && cat.geneds[w].tree().accepts(c);
                    if w < g {
                        assert(gened_offers(*cat, kind, name@, c, g as int));
                    }
                }
                if before.contains(c) {
                    let w = choose|w: int|
                        0 <= w < g && gened_kind(#[trigger] cat.geneds[w]) == kind
                            && cat.geneds[w].label() == name@ && cat.geneds[w].tree().accepts(c);
                    assert(0 <= w < g + 1);
                }
                if code_views(codes@).contains(c) {
                    assert(gened_kind(cat.geneds[g as int]) == kind);
                }
            }
        } else {
            assert forall|c: CodeView| #[trigger]
                code_views(out@).contains(c) <==> (cat.knows(c) && gened_offers(
                    *cat,
                    kind,
                    name@,
                    c,
                    g + 1,
                )) by {
                if cat.knows(c) && gened_offers(*cat, kind, name@, c, g + 1) {
                    let w = choose|w: int|
                        0 <= w < g + 1 && gened_kind(#[trigger] cat.geneds[w]) == kind
                            && cat.geneds[w].label() == name@ && cat.geneds[w].tree().accepts(c);
                    assert(w < g);
                    assert(gened_offers(*cat, kind, name@, c, g as int));
                }
                if before.contains(c) {
                    let w = choose|w: int|
                        0 <= w < g && gened_kind(#[trigger] cat.geneds[w]) == kind
                            && cat.geneds[w].label() == name@ && cat.geneds[w].tree().accepts(c);
                    assert(0 <= w < g + 1);
                }
            }
        }
        g += 1;
    }
    out
}

/// The courses that the electives of `p` with the name `name` accept.
pub fn elective_courses(cat: &Catalog, p: &Program, name: &String) -> (r: Vec<CourseCode>)
    ensures
        forall|c: CodeView| #[trigger]
            code_views(r@).contains(c) <==> (cat.knows(c) && elective_offers(
                *p,
                name@,
                c,
                p.electives.len() as int,
            )),
{
    let mut out: Vec<CourseCode> = Vec::new();
    let mut e: usize = 0;
    while e < p.electives.len()
        invariant
            e <= p.electives.len(),
            forall|c: CodeView| #[trigger]
                code_views(out@).contains(c) <==> (cat.knows(c) && elective_offers(
                    *p,
                    name@,
                    c,
                    e as int,
                )),
        decreases p.electives.len() - e,
    {
        let ghost before = code_views(out@);
        let here = &p.electives[e];
        let hit = here.name == *name;
        let ghost added = Seq::<CodeView>::empty();
        if hit {
            let codes = here.req.all_course_codes(cat);
            append_codes(&mut out, &codes);
            proof {
                added = code_views(codes@);
            }
        }
        assert(code_views(out@) =~= before + added);
        assert forall|c: CodeView| #[trigger]
            code_views(out@).contains(c) <==> (cat.knows(c) && elective_offers(
                *p,
                name@,
                c,
                e + 1,
            )) by {
            lemma_concat_contains(before, added, c);
            if cat.knows(c) && elective_offers(*p, name@, c, e + 1) {
                let w = choose|w: int|
                    0 <= w < e + 1 && (#[trigger] p.electives[w]).name@ == name@
                        && p.electives[w].req.accepts(c);
                if w < e {
                    assert(elective_offers(*p, name@, c, e as int));
                } else {
                    assert(hit);
                }
            }
            if before.contains(c) {
                let w = choose|w: int|
                    0 <= w < e && (#[trigger] p.electives[w]).name@ == name@
                        && p.electives[w].req.accepts(c);
                assert(0 <= w < e + 1);
            }
            if added.contains(c) {
                assert(p.electives[e as int].name@ == name@);
            }
        }
        e += 1;
    }
    out
}

/// The courses that the electives `name` of the programs `prog` accept.
pub fn program_courses(cat: &Catalog, prog: &String, name: &String) -> (r: Vec<CourseCode>)
    ensures
        forall|c: CodeView| #[trigger]
            code_views(r@).contains(c) <==> (cat.knows(c) && program_offers(
                *cat,
                prog@,
                name@,
                c,
                cat.programs.len() as int,
            )),
{
    let mut out: Vec<CourseCode> = Vec::new();
    let mut k: usize = 0;
    while k < cat.programs.len()
        invariant
            k <= cat.programs.len(),
            forall|c: CodeView| #[trigger]
                code_views(out@).contains(c) <==> (cat.knows(c) && program_offers(
                    *cat,
                    prog@,
                    name@,
                    c,
                    k as int,
                )),
        decreases cat.programs.len() - k,
    {
        let ghost before = code_views(out@);
        let here = &cat.programs[k];
        let hit = here.name == *prog;
        let ghost added = Seq::<CodeView>::empty();
        if hit {
            let codes = elective_courses(cat, here, name);
            append_codes(&mut out, &codes);
            proof {
                added = code_views(codes@);
            }
        }
        assert(code_views(out@) =~= before + added);
        assert forall|c: CodeView| #[trigger]
            code_views(out@).contains(c) <==> (cat.knows(c) && program_offers(
                *cat,
                prog@,
                name@,
                c,
                k + 1,
            )) by {
            lemma_concat_contains(before, added, c);
            if cat.knows(c) && program_offers(*cat, prog@, name@, c, k + 1) {
                let w = choose|w: int|
                    0 <= w < k + 1 && (#[trigger] cat.programs[w]).name@ == prog@
                        && elective_offers(
                        cat.programs[w],
                        name@,
                        c,
                        cat.programs[w].electives.len() as int,
                    );
                if w < k {
                    assert(program_offers(*cat, prog@, name@, c, k as int));
                } else {
                    assert(hit);
                }
            }
            if before.contains(c) {
                let w = choose|w: int|
                    0 <= w < k && (#[trigger] cat.programs[w]).name@ == prog@ && elective_offers(
                        cat.programs[w],
                        name@,
                        c,
                        cat.programs[w].electives.len() as int,
                    );
                assert(0 <= w < k + 1);
            }
            if added.contains(c) {
                assert(cat.programs[k as int].name@ == prog@);
            }
        }
        k += 1;
    }
    out
}

/// Whether one of the first `n` codes of `codes` is written `t`.
pub open spec fn text_among(codes: Seq<CodeView>, t: Seq<char>, n: int) -> bool {
    exists|k: int| 0 <= k < n && code_text(#[trigger] codes[k]) == t
}

/// Whether the catalog offers a course that is written `t`.
pub open spec fn text_offered(
    cat: Catalog,
    kind: ReasonTypes,
    name: Seq<char>,
    prog: Seq<char>,
    t: Seq<char>,
) -> bool {
    exists|c: CodeView| offers(cat, kind, name, prog, c) && #[trigger] code_text(c) == t
}

/// The text given, or the empty text.
pub open spec fn text_or_empty(o: Option<String>) -> Seq<char> {
    match o {
        Some(s) => s@,
        None => Seq::empty(),
    }
}

/// What is missing in a question: a general-education kind needs a name,
/// an elective needs a name and a program.
pub open spec fn query_error(kind: ReasonTypes, name: Option<String>, prog: Option<String>) -> Option<
    QueryError,
> {
    match kind {
        ReasonTypes::Core | ReasonTypes::Foundation | ReasonTypes::SkillsAndPerspective => if name is None {
            Some(QueryError::NameRequired)
        } else {
            None
        },
        ReasonTypes::ProgramElective => if name is None || prog is None {
            Some(QueryError::NameAndProgramRequired)
        } else {
            None
        },
        _ => None,
    }
}

/// Whether `t` occurs in `list`.
pub fn contains_text(list: &Vec<String>, t: &String) -> (r: bool)
    ensures
        r == name_views(list@).contains(t@),
{
    let mut i: usize = 0;
    while i < list.len()
        invariant
            i <= list.len(),
            forall|k: int| 0 <= k < i ==> name_views(list@)[k] != t@,
        decreases list.len() - i,
    {
        if list[i] == *t {
            assert(name_views(list@)[i as int] == t@);
            return true;
        }
        i += 1;
    }
    false
}

/// Whether one of `codes` is written `t`.
pub fn text_in_codes(codes: &Vec<CourseCode>, t: &String) -> (r: bool)
    ensures
        r == text_among(code_views(codes@), t@, codes.len() as int),
{
    let mut i: usize = 0;
    while i < codes.len()
        invariant
            i <= codes.len(),
            !text_among(code_views(codes@), t@, i as int),
        decreases codes.len() - i,
    {
        let here = codes[i].to_text();
        assert(code_views(codes@)[i as int] == codes@[i as int]@);
        if here == *t {
            return true;
        }
        assert(!text_among(code_views(codes@), t@, i + 1)) by {
            if text_among(code_views(codes@), t@, i + 1) {
                let k = choose|k: int|
                    0 <= k < i + 1 && code_text(#[trigger] code_views(codes@)[k]) == t@;
                if k < i {
                    assert(text_among(code_views(codes@), t@, i as int));
                }
            }
        }
        i += 1;
    }
    false
}

/// The courses that the catalog offers for a reason of the given kind.
pub fn offered_courses(cat: &Catalog, kind: ReasonTypes, name: &String, prog: &String) -> (r: Vec<
    CourseCode,
>)
    ensures
        forall|c: CodeView| #[trigger]
            code_views(r@).contains(c) <==> offers(*cat, kind, name@, prog@, c),
{
    match kind {
        ReasonTypes::Core | ReasonTypes::Foundation | ReasonTypes::SkillsAndPerspective => {
            gened_courses(cat, kind, name)
        },
        ReasonTypes::ProgramElective => program_courses(cat, prog, name),
        _ => Vec::new(),
    }
}

impl<'a> Schedule<'a> {
    /// What else could discharge a requirement: the courses that the
    /// catalog offers for a reason of the given kind, written as text, each
    /// text once, without the texts of the courses that the plan holds.
    pub fn get_other_courses(
        &self,
        reason: ReasonTypes,
        name: Option<String>,
        prog: Option<String>,
    ) -> (r: Result<Vec<String>, QueryError>)
        ensures
            match r {
                Ok(v) => query_error(reason, name, prog) is None && name_views(v@).no_duplicates()
                    && forall|t: Seq<char>| #[trigger]
                    name_views(v@).contains(t) <==> (text_offered(
                        *self.catalog,
                        reason,
                        text_or_empty(name),
                        text_or_empty(prog),
                        t,
                    ) && !text_among(self.codes(), t, self.codes().len() as int)),
                Err(e) => query_error(reason, name, prog) == Some(e),
            },
    {
        let empty = String::new();
        let wanted: &String = match &name {
            Some(n) => n,
            None => {
                match reason {
                    ReasonTypes::Core | ReasonTypes::Foundation | ReasonTypes::SkillsAndPerspective => {
                        return Err(QueryError::NameRequired);
                    },
                    ReasonTypes::ProgramElective => {
                        return Err(QueryError::NameAndProgramRequired);
                    },
                    _ => &empty,
                }
            },
        };
        let program: &String = match &prog {
            Some(p) => p,
            None => {
                match reason {
                    ReasonTypes::ProgramElective => {
                        return Err(QueryError::NameAndProgramRequired);
                    },
                    _ => &empty,
                }
            },
        };
        assert(wanted@ == text_or_empty(name));
        assert(program@ == text_or_empty(prog));
        let cat = self.catalog;
        let cands = offered_courses(cat, reason, wanted, program);
        let flat = flatten(&self.incoming, &self.courses);
        let ghost cs = code_views(cands@);
        let ghost held = code_views(flat@);
        let mut out: Vec<String> = Vec::new();
        let mut i: usize = 0;
        while i < cands.len()
            invariant
                i <= cands.len(),
                cs == code_views(cands@),
                held == code_views(flat@),
                name_views(out@).no_duplicates(),
                forall|t: Seq<char>| #[trigger]
                    name_views(out@).contains(t) <==> (text_among(cs, t, i as int) && !text_among(
                        held,
                        t,
                        held.len() as int,
                    )),
            decreases cands.len() - i,
        {
            let text = cands[i].to_text();
            assert(cs[i as int] == cands@[i as int]@);
            let ghost before = name_views(out@);
            let ghost tv = text@;
            let fresh = !text_in_codes(&flat, &text) && !contains_text(&out, &text);
            if fresh {
                out.push(text);
                assert(name_views(out@) =~= before.push(tv));
            }
            proof {
                let after = name_views(out@);
                assert forall|t: Seq<char>| #[trigger]
                    after.contains(t) <==> (text_among(cs, t, i + 1) && !text_among(
                        held,
                        t,
                        held.len() as int,
                    )) by {
                    if after.contains(t) {
                        if before.contains(t) {
                            let k = choose|k: int|
                                0 <= k < i && code_text(#[trigger] cs[k]) == t;
                            assert(0 <= k < i + 1);
                        } else {
                            let k = choose|k: int| 0 <= k < after.len() && after[k] == t;
                            if k < before.len() {
                                assert(before[k] == t);
                            }
                            assert(t == tv);
                            assert(code_text(cs[i as int]) == t);
                        }
                    }
                    if text_among(cs, t, i + 1) && !text_among(held, t, held.len() as int) {
                        let k = choose|k: int| 0 <= k < i + 1 && code_text(#[trigger] cs[k]) == t;
                        if k < i {
                            assert(text_among(cs, t, i as int));
                            assert(before.contains(t));
                        }
                        if before.contains(t) {
                            let j = choose|j: int| 0 <= j < before.len() && before[j] == t;
                            assert(after[j] == t);
                        } else {
                            assert(t == tv);
                            assert(fresh);
                            assert(after[before.len() as int] == t);
                        }
                    }
                }
            }
            i += 1;
        }
        proof {
            let n = text_or_empty(name);
            let p = text_or_empty(prog);
            assert(cs.len() == cands.len());
            assert(held == self.codes());
            assert forall|t: Seq<char>|
                text_among(cs, t, cs.len() as int) <==> #[trigger] text_offered(
                    *cat,
                    reason,
                    n,
                    p,
                    t,
                ) by {
                if text_among(cs, t, cs.len() as int) {
                    let k = choose|k: int| 0 <= k < cs.len() && code_text(#[trigger] cs[k]) == t;
                    assert(cs.contains(cs[k]));
                    assert(offers(*cat, reason, n, p, cs[k]));
                }
                if text_offered(*cat, reason, n, p, t) {
                    let c = choose|c: CodeView|
                        offers(*cat, reason, n, p, c) && #[trigger] code_text(c) == t;
                    assert(cs.contains(c));
                    let k = choose|k: int| 0 <= k < cs.len() && cs[k] == c;
                    assert(code_text(cs[k]) == t);
                }
            }
        }
        assert forall|t: Seq<char>| #[trigger]
            name_views(out@).contains(t) <==> (text_offered(
                *cat,
                reason,
                text_or_empty(name),
                text_or_empty(prog),
                t,
            ) && !text_among(self.codes(), t, self.codes().len() as int)) by {
            assert(text_among(cs, t, cs.len() as int) <==> text_offered(
                *cat,
                reason,
                text_or_empty(name),
                text_or_empty(prog),
                t,
            ));
        }
        Ok(out)
    }
}

} // verus!
