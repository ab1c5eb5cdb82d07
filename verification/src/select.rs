//! Choosing courses: as long as a requirement is open, the course that
//! helps the most open requirements is added.

use vstd::prelude::*;
use crate::catalog::{lemma_find_course, Catalog};
use crate::code::{code_views, contains_code, CodeView, CourseCode};
use crate::error::ScheduleError;
use crate::requirement::{code_set, count_true, lemma_count_true_step, RequirementTree};
use crate::validate::{all_satisfied, prereq_met, trees_of};

verus! {

/// How many courses one run of the selection may add.
pub const MAX_SELECTION_ATTEMPTS: usize = 512;

/// The first tree at or after `i` that `done` leaves unsatisfied.
pub open spec fn first_open(trees: Seq<RequirementTree>, done: Set<CodeView>, i: int) -> Option<int>
    decreases trees.len() - i,
{
    if i < 0 || i >= trees.len() {
        None
    } else if !trees[i].satisfied(done) {
        Some(i)
    } else {
        first_open(trees, done, i + 1)
    }
}

/// What `first_open` finds is open, and nothing before it is.
pub proof fn lemma_first_open(trees: Seq<RequirementTree>, done: Set<CodeView>, i: int)
    requires
        0 <= i <= trees.len(),
    ensures
        match first_open(trees, done, i) {
            Some(k) => i <= k < trees.len() && !trees[k].satisfied(done) && forall|j: int|
                i <= j < k ==> (#[trigger] trees[j]).satisfied(done),
            None => forall|j: int| i <= j < trees.len() ==> (#[trigger] trees[j]).satisfied(done),
        },
    decreases trees.len() - i,
{
    if i < trees.len() && trees[i].satisfied(done) {
        lemma_first_open(trees, done, i + 1);
    }
}

/// For each tree, whether it wants the course `c`.
pub open spec fn want_flags(trees: Seq<RequirementTree>, done: Set<CodeView>, c: CodeView) -> Seq<
    bool,
> {
    Seq::new(trees.len(), |k: int| trees[k].wants(done, c))
}

/// How many of the trees the course `c` would help.
pub open spec fn score(trees: Seq<RequirementTree>, done: Set<CodeView>, c: CodeView) -> nat {
    count_true(want_flags(trees, done, c))
}

/// Whether course `k` of the catalog may be chosen for `tree`: the tree
/// wants it, it is not banned, and `k` is where its code is declared.
pub open spec fn eligible(
    cat: Catalog,
    tree: RequirementTree,
    done: Set<CodeView>,
    banned: Set<CodeView>,
    k: int,
) -> bool {
    let c = cat.courses[k].code@;
    tree.wants(done, c) && !banned.contains(c) && cat.course_index(c) == Some(k)
}

/// Scans the catalog from course `i` on, keeping the eligible course with
/// the highest score; of equal scores the earlier course stays.
pub open spec fn best_from(
    cat: Catalog,
    trees: Seq<RequirementTree>,
    open: int,
    done: Set<CodeView>,
    banned: Set<CodeView>,
    i: int,
    best: Option<int>,
) -> Option<int>
    decreases cat.courses.len() - i,
{
    if i < 0 || i >= cat.courses.len() {
        best
    } else {
        let better = eligible(cat, trees[open], done, banned, i) && match best {
            Some(b) => score(trees, done, cat.courses[i].code@) > score(
                trees,
                done,
                cat.courses[b].code@,
            ),
            None => true,
        };
        best_from(cat, trees, open, done, banned, i + 1, if better { Some(i) } else { best })
    }
}

/// The course chosen for the open tree `open`, if any is eligible.
pub open spec fn pick(
    cat: Catalog,
    trees: Seq<RequirementTree>,
    open: int,
    done: Set<CodeView>,
    banned: Set<CodeView>,
) -> Option<int> {
    best_from(cat, trees, open, done, banned, 0, None)
}

/// The selection: while a tree is open, the picked course is added to
/// `done` and its prerequisites become a further tree. Ends with the
/// courses completed or chosen, or with the reason why none could be found.
pub open spec fn select(
    cat: Catalog,
    trees: Seq<RequirementTree>,
    done: Seq<CodeView>,
    banned: Set<CodeView>,
    fuel: nat,
) -> Result<Seq<CodeView>, ScheduleError>
    decreases fuel,
{
    match first_open(trees, done.to_set(), 0) {
        None => Ok(done),
        Some(o) => if fuel == 0 {
            Err(ScheduleError::SearchExhausted)
        } else {
            match pick(cat, trees, o, done.to_set(), banned) {
                None => Err(ScheduleError::UnsatisfiableRequirement),
                Some(k) => select(
                    cat,
                    trees.push(cat.courses[k].prereq),
                    done.push(cat.courses[k].code@),
                    banned,
                    (fuel - 1) as nat,
                ),
            }
        },
    }
}

/// Finds the first tree that `done` leaves unsatisfied.
pub fn find_open(trees: &Vec<&RequirementTree>, done: &Vec<CourseCode>) -> (r: Option<usize>)
    ensures
        match r {
            Some(k) => k < trees.len() && first_open(trees_of(trees@), code_set(done@), 0) == Some(
                k as int,
            ),
            None => first_open(trees_of(trees@), code_set(done@), 0) is None,
        },
{
    let mut i: usize = 0;
    while i < trees.len()
        invariant
            i <= trees.len(),
            first_open(trees_of(trees@), code_set(done@), 0) == first_open(
                trees_of(trees@),
                code_set(done@),
                i as int,
            ),
        decreases trees.len() - i,
    {
        assert(trees_of(trees@)[i as int] == *trees@[i as int]);
        if !trees[i].is_satisfied(done) {
            return Some(i);
        }
        i += 1;
    }
    None
}

/// Counts the trees that want the course `c`.
pub fn score_of(trees: &Vec<&RequirementTree>, done: &Vec<CourseCode>, c: &CourseCode) -> (r: usize)
    ensures
        r == score(trees_of(trees@), code_set(done@), c@),
{
    let ghost flags = want_flags(trees_of(trees@), code_set(done@), c@);
    let mut n: usize = 0;
    let mut i: usize = 0;
    while i < trees.len()
        invariant
            i <= trees.len(),
            flags == want_flags(trees_of(trees@), code_set(done@), c@),
            n == count_true(flags.take(i as int)),
            n <= i,
        decreases trees.len() - i,
    {
        proof {
            lemma_count_true_step(flags, i as int);
            assert(trees_of(trees@)[i as int] == *trees@[i as int]);
        }
        if trees[i].wants_code(done, c) {
            n += 1;
        }
        i += 1;
    }
    assert(flags.take(i as int) =~= flags);
    n
}

/// Picks the course for the open tree `open`.
pub fn pick_course(
    cat: &Catalog,
    trees: &Vec<&RequirementTree>,
    open: usize,
    done: &Vec<CourseCode>,
    banned: &Vec<CourseCode>,
) -> (r: Option<usize>)
    requires
        open < trees.len(),
    ensures
        match r {
            Some(k) => k < cat.courses.len() && pick(
                *cat,
                trees_of(trees@),
                open as int,
                code_set(done@),
                code_set(banned@),
            ) == Some(k as int),
            None => pick(*cat, trees_of(trees@), open as int, code_set(done@), code_set(banned@))
                is None,
        },
{
    let ghost ts = trees_of(trees@);
    let ghost ds = code_set(done@);
    let ghost bs = code_set(banned@);
    let mut best: Option<usize> = None;
    let mut best_score: usize = 0;
    let mut i: usize = 0;
    while i < cat.courses.len()
        invariant
            i <= cat.courses.len(),
            open < trees.len(),
            ts == trees_of(trees@),
            ds == code_set(done@),
            bs == code_set(banned@),
            match best {
                Some(b) => b < cat.courses.len() && best_score == score(
                    ts,
                    ds,
                    cat.courses[b as int].code@,
                ) && pick(*cat, ts, open as int, ds, bs) == best_from(
                    *cat,
                    ts,
                    open as int,
                    ds,
                    bs,
                    i as int,
                    Some(b as int),
                ),
                None => pick(*cat, ts, open as int, ds, bs) == best_from(
                    *cat,
                    ts,
                    open as int,
                    ds,
                    bs,
                    i as int,
                    None,
                ),
            },
        decreases cat.courses.len() - i,
    {
        let code = &cat.courses[i].code;
        assert(ts[open as int] == *trees@[open as int]);
        let ok = trees[open].wants_code(done, code) && !contains_code(banned, code)
            && cat.find_course(code) == Some(i);
        assert(ok == eligible(*cat, ts[open as int], ds, bs, i as int));
        if ok {
            let s = score_of(trees, done, code);
            let better = match best {
                Some(_) => s > best_score,
                None => true,
            };
            if better {
                best = Some(i);
                best_score = s;
            }
        }
        i += 1;
    }
    best
}

/// What holds of a finished selection `out` that started from `base`: the
/// start is kept, every tree is satisfied, and each added course is known,
/// not banned, new, and has its prerequisites within `out`.
pub open spec fn selection_sound(
    cat: Catalog,
    trees: Seq<RequirementTree>,
    base: Seq<CodeView>,
    banned: Set<CodeView>,
    out: Seq<CodeView>,
) -> bool {
    &&& base.len() <= out.len()
    &&& out.take(base.len() as int) == base
    &&& all_satisfied(trees, out.to_set())
    &&& base.no_duplicates() ==> out.no_duplicates()
    &&& forall|k: int|
        base.len() <= k < out.len() ==> cat.knows(#[trigger] out[k]) && !banned.contains(out[k])
            && prereq_met(cat, out.to_set(), out[k])
}

/// Runs the selection from the completed courses `done`. On success the
/// result holds `done` followed by the chosen courses in the order chosen.
pub fn select_courses<'c>(
    cat: &'c Catalog,
    trees: Vec<&'c RequirementTree>,
    done: Vec<CourseCode>,
    banned: &Vec<CourseCode>,
) -> (r: Result<Vec<CourseCode>, ScheduleError>)
    ensures
        match r {
            Ok(v) => select(
                *cat,
                trees_of(trees@),
                code_views(done@),
                code_set(banned@),
                MAX_SELECTION_ATTEMPTS as nat,
            ) == Ok::<Seq<CodeView>, ScheduleError>(code_views(v@)) && selection_sound(
                *cat,
                trees_of(trees@),
                code_views(done@),
                code_set(banned@),
                code_views(v@),
            ),
            Err(e) => select(
                *cat,
                trees_of(trees@),
                code_views(done@),
                code_set(banned@),
                MAX_SELECTION_ATTEMPTS as nat,
            ) == Err::<Seq<CodeView>, ScheduleError>(e),
        },
{
    let ghost ts0 = trees_of(trees@);
    let ghost base = code_views(done@);
    let ghost bs = code_set(banned@);
    let mut open_trees = trees;
    let mut taken = done;
    let mut fuel: usize = MAX_SELECTION_ATTEMPTS;
    assert(trees_of(open_trees@).take(ts0.len() as int) =~= ts0);
    assert(code_views(taken@).take(base.len() as int) =~= base);
    loop
        invariant
            ts0 == trees_of(trees@),
            base == code_views(done@),
            bs == code_set(banned@),
            select(*cat, ts0, base, bs, MAX_SELECTION_ATTEMPTS as nat) == select(
                *cat,
                trees_of(open_trees@),
                code_views(taken@),
                bs,
                fuel as nat,
            ),
            base.len() <= taken.len(),
            code_views(taken@).take(base.len() as int) == base,
            open_trees.len() == ts0.len() + (taken.len() - base.len()),
            trees_of(open_trees@).take(ts0.len() as int) == ts0,
            base.no_duplicates() ==> code_views(taken@).no_duplicates(),
            forall|k: int|
                base.len() <= k < taken.len() ==> cat.knows(#[trigger] code_views(taken@)[k])
                    && !bs.contains(code_views(taken@)[k]) && match cat.course_index(
                    code_views(taken@)[k],
                ) {
                    Some(j) => trees_of(open_trees@)[ts0.len() + (k - base.len())]
                        == cat.courses[j].prereq,
                    None => false,
                },
        decreases fuel,
    {
        let ghost ts = trees_of(open_trees@);
        let ghost ds = code_views(taken@);
        match find_open(&open_trees, &taken) {
            None => {
                proof {
                    lemma_first_open(ts, ds.to_set(), 0);
                    assert forall|k: int| 0 <= k < ts0.len() implies (#[trigger] ts0[k]).satisfied(
                        ds.to_set(),
                    ) by {
                        assert(ts0[k] == ts.take(ts0.len() as int)[k]);
                        assert(ts[k].satisfied(ds.to_set()));
                    }
                    assert forall|k: int| base.len() <= k < ds.len() implies prereq_met(
                        *cat,
                        ds.to_set(),
                        #[trigger] ds[k],
                    ) by {
                        let t = ts0.len() + (k - base.len());
                        assert(ts[t].satisfied(ds.to_set()));
                    }
                }
                return Ok(taken);
            },
            Some(o) => {
                if fuel == 0 {
                    return Err(ScheduleError::SearchExhausted);
                }
                match pick_course(cat, &open_trees, o, &taken, banned) {
                    None => {
                        return Err(ScheduleError::UnsatisfiableRequirement);
                    },
                    Some(k) => {
                        let course = &cat.courses[k];
                        proof {
                            lemma_pick_is_best(*cat, ts, o as int, ds.to_set(), bs);
                            ts[o as int].lemma_wanted_is_new(ds.to_set(), course.code@);
                        }
                        open_trees.push(&course.prereq);
                        taken.push(course.code.clone());
                        fuel = fuel - 1;
                        proof {
                            let ts2 = trees_of(open_trees@);
                            let ds2 = code_views(taken@);
                            assert(ts2 =~= ts.push(course.prereq));
                            assert(ds2 =~= ds.push(course.code@));
                            assert(ts2.take(ts0.len() as int) =~= ts.take(ts0.len() as int));
                            assert(ds2.take(base.len() as int) =~= ds.take(base.len() as int));
                            assert forall|a: int| base.len() <= a < ds2.len() implies cat.knows(
                                #[trigger] ds2[a],
                            ) && !bs.contains(ds2[a]) && match cat.course_index(ds2[a]) {
                                Some(j) => ts2[ts0.len() + (a - base.len())]
                                    == cat.courses[j].prereq,
                                None => false,
                            } by {
                                if a < ds.len() {
                                    assert(ds2[a] == ds[a]);
                                    assert(ts2[ts0.len() + (a - base.len())] == ts[ts0.len() + (a
                                        - base.len())]);
                                }
                            }
                            if base.no_duplicates() {
                                assert forall|a: int, b: int|
                                    0 <= a < ds2.len() && 0 <= b < ds2.len() && a != b implies ds2[a]
                                    != ds2[b] by {
                                    if a < ds.len() && b < ds.len() {
                                        assert(ds[a] != ds[b]);
                                    } else if a < ds.len() {
                                        assert(ds.contains(ds[a]));
                                    } else {
                                        assert(ds.contains(ds[b]));
                                    }
                                }
                            }
                        }
                    },
                }
            },
        }
    }
}

/// The score of course `k` of the catalog.
pub open spec fn score_at(
    cat: Catalog,
    trees: Seq<RequirementTree>,
    done: Set<CodeView>,
    k: int,
) -> nat {
    score(trees, done, cat.courses[k].code@)
}

/// Whether course `k` is the best choice among the first `n` courses of
/// the catalog: it is eligible, no eligible course scores higher, and none
/// that scores the same is declared earlier.
pub open spec fn best_among(
    cat: Catalog,
    trees: Seq<RequirementTree>,
    open: int,
    done: Set<CodeView>,
    banned: Set<CodeView>,
    n: int,
    k: int,
) -> bool {
    &&& 0 <= k < n
    &&& eligible(cat, trees[open], done, banned, k)
    &&& forall|j: int|
        0 <= j < n && #[trigger] eligible(cat, trees[open], done, banned, j) ==> score_at(
            cat,
            trees,
            done,
            j,
        ) <= score_at(cat, trees, done, k) && (score_at(cat, trees, done, j) == score_at(
            cat,
            trees,
            done,
            k,
        ) ==> k <= j)
}

/// Whether none of the first `n` courses of the catalog is eligible.
pub open spec fn none_eligible(
    cat: Catalog,
    tree: RequirementTree,
    done: Set<CodeView>,
    banned: Set<CodeView>,
    n: int,
) -> bool {
    forall|j: int| 0 <= j < n ==> !#[trigger] eligible(cat, tree, done, banned, j)
}

/// A scan that has kept the best of the courses before `i` ends with the
/// best of all courses.
pub proof fn lemma_scan_keeps_best(
    cat: Catalog,
    trees: Seq<RequirementTree>,
    open: int,
    done: Set<CodeView>,
    banned: Set<CodeView>,
    i: int,
    best: Option<int>,
)
    requires
        0 <= i <= cat.courses.len(),
        match best {
            Some(b) => best_among(cat, trees, open, done, banned, i, b),
            None => none_eligible(cat, trees[open], done, banned, i),
        },
    ensures
        match best_from(cat, trees, open, done, banned, i, best) {
            Some(k) => best_among(cat, trees, open, done, banned, cat.courses.len() as int, k),
            None => none_eligible(cat, trees[open], done, banned, cat.courses.len() as int),
        },
    decreases cat.courses.len() - i,
{
    if i < cat.courses.len() {
        let better = eligible(cat, trees[open], done, banned, i) && match best {
            Some(b) => score_at(cat, trees, done, i) > score_at(cat, trees, done, b),
            None => true,
        };
        let next = if better { Some(i) } else { best };
        match next {
            Some(b) => {
                assert forall|j: int|
                    0 <= j < i + 1 && #[trigger] eligible(
                        cat,
                        trees[open],
                        done,
                        banned,
                        j,
                    ) implies score_at(cat, trees, done, j) <= score_at(cat, trees, done, b) && (
                    score_at(cat, trees, done, j) == score_at(cat, trees, done, b) ==> b <= j) by {
                    if j < i && best is Some {
                        assert(best_among(cat, trees, open, done, banned, i, best.unwrap()));
                    }
                }
                assert(best_among(cat, trees, open, done, banned, i + 1, b));
            },
            None => {
                assert(none_eligible(cat, trees[open], done, banned, i + 1));
            },
        }
        lemma_scan_keeps_best(cat, trees, open, done, banned, i + 1, next);
    }
}

/// The course picked is eligible and scores highest; of those that score
/// highest it is the one declared first. Nothing is picked only if nothing
/// is eligible.
pub proof fn lemma_pick_is_best(
    cat: Catalog,
    trees: Seq<RequirementTree>,
    open: int,
    done: Set<CodeView>,
    banned: Set<CodeView>,
)
    ensures
        match pick(cat, trees, open, done, banned) {
            Some(k) => best_among(cat, trees, open, done, banned, cat.courses.len() as int, k),
            None => none_eligible(cat, trees[open], done, banned, cat.courses.len() as int),
        },
{
    lemma_scan_keeps_best(cat, trees, open, done, banned, 0, None);
}

/// The courses that the catalog declares.
pub open spec fn declared(cat: Catalog) -> Set<CodeView> {
    Set::new(|c: CodeView| cat.knows(c))
}

/// Where nothing is banned and no course can be picked for an open tree,
/// the tree cannot be satisfied by what is completed together with every
/// course of the catalog.
pub proof fn lemma_stuck_is_unsatisfiable(
    cat: Catalog,
    trees: Seq<RequirementTree>,
    open: int,
    done: Set<CodeView>,
)
    requires
        !trees[open].satisfied(done),
        pick(cat, trees, open, done, Set::empty()) is None,
    ensures
        !trees[open].satisfied(done.union(declared(cat))),
{
    let all = done.union(declared(cat));
    if trees[open].satisfied(all) {
        trees[open].lemma_open_wants(done, all);
        let c = choose|c: CodeView| all.contains(c) && trees[open].wants(done, c);
        trees[open].lemma_wanted_is_new(done, c);
        assert(cat.knows(c));
        lemma_find_course(cat.courses@, c, 0);
        let k = cat.course_index(c).unwrap();
        assert(eligible(cat, trees[open], done, Set::empty(), k));
        lemma_pick_is_best(cat, trees, open, done, Set::empty());
    }
}

} // verus!
