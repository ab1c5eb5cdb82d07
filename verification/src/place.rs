//! Placing chosen courses into semesters: of the courses whose
//! prerequisites are already placed, the one that the catalog declares
//! first goes next, into the first semester that lies after its
//! prerequisites and has room for its credits.

use vstd::prelude::*;
use crate::catalog::Catalog;
use crate::code::{code_views, CodeView, CourseCode};
use crate::error::ScheduleError;
use crate::requirement::code_set;
use crate::schedule::{all_codes, append_codes, codes_before, copy_codes, flatten, placed_upto, semester_views};
use crate::validate::{
    all_known, caps_hold, credits_total, lemma_credits_prefix, prereq_met, prereq_satisfied,
    prereqs_hold,
};

verus! {

/// Where the catalog declares the course `c`; the number of its courses
/// for a course that it does not declare.
pub open spec fn rank(cat: Catalog, c: CodeView) -> int {
    match cat.course_index(c) {
        Some(k) => k,
        None => cat.courses.len() as int,
    }
}

/// Scans `remaining` from position `i` on for the courses whose
/// prerequisites `placed` satisfies, keeping the one that the catalog
/// declares first; of equal ones the earlier stays. `best` is the position
/// kept so far, the length of `remaining` while there is none.
pub open spec fn ready_from(
    cat: Catalog,
    placed: Set<CodeView>,
    remaining: Seq<CodeView>,
    i: nat,
    best: nat,
) -> nat
    decreases remaining.len() - i,
{
    if i >= remaining.len() {
        best
    } else {
        let better = prereq_met(cat, placed, remaining[i as int]) && (best >= remaining.len()
            || rank(cat, remaining[i as int]) < rank(cat, remaining[best as int]));
        ready_from(cat, placed, remaining, i + 1, if better { i } else { best })
    }
}

/// The position of the course to place next: of the courses of `remaining`
/// whose prerequisites `placed` satisfies, the one that the catalog
/// declares first. The length of `remaining` if there is none.
pub open spec fn next_ready(cat: Catalog, placed: Set<CodeView>, remaining: Seq<CodeView>) -> nat {
    ready_from(cat, placed, remaining, 0, remaining.len())
}

/// Whether the course `c` may join semester `i`: its prerequisites lie in
/// earlier semesters or are incoming, and the semester has room.
pub open spec fn fits(
    cat: Catalog,
    incoming: Seq<CodeView>,
    semesters: Seq<Seq<CodeView>>,
    cap: nat,
    c: CodeView,
    i: int,
) -> bool {
    prereq_met(cat, codes_before(incoming, semesters, i).to_set(), c) && credits_total(
        cat,
        semesters[i],
    ) + cat.credits_of(c) <= cap
}

/// The first semester at or after `i` that `c` fits into.
pub open spec fn first_fit(
    cat: Catalog,
    incoming: Seq<CodeView>,
    semesters: Seq<Seq<CodeView>>,
    cap: nat,
    c: CodeView,
    i: int,
) -> Option<int>
    decreases semesters.len() - i,
{
    if i < 0 || i >= semesters.len() {
        None
    } else if fits(cat, incoming, semesters, cap, c, i) {
        Some(i)
    } else {
        first_fit(cat, incoming, semesters, cap, c, i + 1)
    }
}

/// The semesters after `c` has joined semester `slot`, or a new last
/// semester if there is no slot.
pub open spec fn put(semesters: Seq<Seq<CodeView>>, c: CodeView, slot: Option<int>) -> Seq<
    Seq<CodeView>,
> {
    match slot {
        Some(i) => semesters.update(i, semesters[i].push(c)),
        None => semesters.push(seq![c]),
    }
}

/// Places the courses of `remaining` one by one. Fails with
/// `PrerequisiteCycle` when no remaining course has its prerequisites
/// placed, and with `CreditCapExceeded` when a course alone is over the cap.
pub open spec fn place(
    cat: Catalog,
    incoming: Seq<CodeView>,
    semesters: Seq<Seq<CodeView>>,
    remaining: Seq<CodeView>,
    cap: nat,
) -> Result<Seq<Seq<CodeView>>, ScheduleError>
    decreases remaining.len(),
{
    if remaining.len() == 0 {
        Ok(semesters)
    } else {
        let r = next_ready(cat, all_codes(incoming, semesters).to_set(), remaining);
        if r >= remaining.len() {
            Err(ScheduleError::PrerequisiteCycle)
        } else {
            let c = remaining[r as int];
            let slot = first_fit(cat, incoming, semesters, cap, c, 0);
            if slot is None && cat.credits_of(c) > cap {
                Err(ScheduleError::CreditCapExceeded)
            } else {
                place(cat, incoming, put(semesters, c, slot), remaining.remove(r as int), cap)
            }
        }
    }
}

/// Whether position `r` holds the course to place next among the first
/// `n` of `remaining`: its prerequisites are satisfied, no course with
/// satisfied prerequisites is declared before it, and none declared at the
/// same place stands before it.
pub open spec fn first_ready(
    cat: Catalog,
    placed: Set<CodeView>,
    remaining: Seq<CodeView>,
    n: int,
    r: int,
) -> bool {
    &&& 0 <= r < n
    &&& prereq_met(cat, placed, remaining[r])
    &&& forall|j: int|
        0 <= j < n && prereq_met(cat, placed, #[trigger] remaining[j]) ==> rank(cat, remaining[r])
            <= rank(cat, remaining[j]) && (rank(cat, remaining[r]) == rank(cat, remaining[j])
            ==> r <= j)
}

/// Whether none of the first `n` of `remaining` has its prerequisites
/// satisfied.
pub open spec fn none_ready(
    cat: Catalog,
    placed: Set<CodeView>,
    remaining: Seq<CodeView>,
    n: int,
) -> bool {
    forall|j: int| 0 <= j < n ==> !prereq_met(cat, placed, #[trigger] remaining[j])
}

/// A scan that has kept the course to place next among those before `i`
/// ends with the course to place next among all.
pub proof fn lemma_scan_keeps_ready(
    cat: Catalog,
    placed: Set<CodeView>,
    remaining: Seq<CodeView>,
    i: nat,
    best: nat,
)
    requires
        i <= remaining.len(),
        if best < remaining.len() {
            first_ready(cat, placed, remaining, i as int, best as int)
        } else {
            none_ready(cat, placed, remaining, i as int)
        },
    ensures
        ({
            let r = ready_from(cat, placed, remaining, i, best);
            if r < remaining.len() {
                first_ready(cat, placed, remaining, remaining.len() as int, r as int)
            } else {
                none_ready(cat, placed, remaining, remaining.len() as int)
            }
        }),
    decreases remaining.len() - i,
{
    if i < remaining.len() {
        let better = prereq_met(cat, placed, remaining[i as int]) && (best >= remaining.len()
            || rank(cat, remaining[i as int]) < rank(cat, remaining[best as int]));
        let next = if better { i } else { best };
        if next < remaining.len() {
            assert forall|j: int|
                0 <= j < i + 1 && prereq_met(cat, placed, #[trigger] remaining[j]) implies rank(
                cat,
                remaining[next as int],
            ) <= rank(cat, remaining[j]) && (rank(cat, remaining[next as int]) == rank(
                cat,
                remaining[j],
            ) ==> next <= j) by {
                if j < i && best < remaining.len() {
                    assert(first_ready(cat, placed, remaining, i as int, best as int));
                }
            }
            assert(first_ready(cat, placed, remaining, (i + 1) as int, next as int));
        } else {
            assert(none_ready(cat, placed, remaining, (i + 1) as int));
        }
        lemma_scan_keeps_ready(cat, placed, remaining, i + 1, next);
    }
}

/// The course placed next has its prerequisites satisfied, and of such
/// courses it is the one that the catalog declares first. No course is
/// placed next only if none has its prerequisites satisfied.
pub proof fn lemma_next_ready(cat: Catalog, placed: Set<CodeView>, remaining: Seq<CodeView>)
    ensures
        ({
            let r = next_ready(cat, placed, remaining);
            if r < remaining.len() {
                first_ready(cat, placed, remaining, remaining.len() as int, r as int)
            } else {
                none_ready(cat, placed, remaining, remaining.len() as int)
            }
        }),
{
    lemma_scan_keeps_ready(cat, placed, remaining, 0, remaining.len());
}

/// What `first_fit` finds is a semester that fits.
pub proof fn lemma_first_fit(
    cat: Catalog,
    incoming: Seq<CodeView>,
    semesters: Seq<Seq<CodeView>>,
    cap: nat,
    c: CodeView,
    i: int,
)
    requires
        0 <= i <= semesters.len(),
    ensures
        match first_fit(cat, incoming, semesters, cap, c, i) {
            Some(k) => i <= k < semesters.len() && fits(cat, incoming, semesters, cap, c, k),
            None => true,
        },
    decreases semesters.len() - i,
{
    if i < semesters.len() && !fits(cat, incoming, semesters, cap, c, i) {
        lemma_first_fit(cat, incoming, semesters, cap, c, i + 1);
    }
}

/// Inserting `c` adds exactly `c` to what a sequence contains.
pub proof fn lemma_insert_contains(s: Seq<CodeView>, p: int, c: CodeView, x: CodeView)
    requires
        0 <= p <= s.len(),
    ensures
        s.insert(p, c).contains(x) <==> (s.contains(x) || x == c),
{
    let t = s.insert(p, c);
    if t.contains(x) {
        let k = choose|k: int| 0 <= k < t.len() && t[k] == x;
        if k < p {
            assert(s[k] == x);
        } else if k > p {
            assert(s[k - 1] == x);
        }
    }
    if s.contains(x) {
        let k = choose|k: int| 0 <= k < s.len() && s[k] == x;
        if k < p {
            assert(t[k] == x);
        } else {
            assert(t[k + 1] == x);
        }
    }
    assert(t[p] == c);
}

/// Inserting a new element into a sequence without duplicates leaves it
/// without duplicates.
pub proof fn lemma_insert_no_duplicates(s: Seq<CodeView>, p: int, c: CodeView)
    requires
        0 <= p <= s.len(),
        s.no_duplicates(),
        !s.contains(c),
    ensures
        s.insert(p, c).no_duplicates(),
{
    let t = s.insert(p, c);
    assert forall|a: int, b: int| 0 <= a < t.len() && 0 <= b < t.len() && a != b implies t[a]
        != t[b] by {
        let a0 = if a < p { a } else { a - 1 };
        let b0 = if b < p { b } else { b - 1 };
        if a == p {
            assert(t[b] == s[b0]);
            assert(s.contains(s[b0]));
        } else if b == p {
            assert(t[a] == s[a0]);
            assert(s.contains(s[a0]));
        } else {
            assert(t[a] == s[a0]);
            assert(t[b] == s[b0]);
        }
    }
}

/// Where the courses of the first `n` semesters end in the list of all
/// placed courses.
pub open spec fn placed_len(semesters: Seq<Seq<CodeView>>, n: int) -> int {
    placed_upto(semesters, n).len() as int
}

/// How joining semester `i` changes the courses of the first `n`
/// semesters: nothing up to `i`, one insertion beyond.
pub proof fn lemma_put_slot(semesters: Seq<Seq<CodeView>>, c: CodeView, i: int, n: int)
    requires
        0 <= i < semesters.len(),
        0 <= n <= semesters.len(),
    ensures
        n <= i ==> placed_upto(put(semesters, c, Some(i)), n) == placed_upto(semesters, n),
        n > i ==> placed_upto(put(semesters, c, Some(i)), n) == placed_upto(semesters, n).insert(
            placed_len(semesters, i + 1),
            c,
        ),
        n > i ==> placed_len(semesters, i + 1) <= placed_len(semesters, n),
    decreases n,
{
    let after = put(semesters, c, Some(i));
    if n > 0 {
        lemma_put_slot(semesters, c, i, n - 1);
        if n - 1 < i {
            assert(after[n - 1] == semesters[n - 1]);
        } else if n - 1 == i {
            assert(after[i] == semesters[i].push(c));
            assert(placed_upto(after, n) =~= placed_upto(semesters, n).insert(
                placed_len(semesters, i + 1),
                c,
            ));
        } else {
            assert(after[n - 1] == semesters[n - 1]);
            assert(placed_upto(after, n) =~= placed_upto(semesters, n).insert(
                placed_len(semesters, i + 1),
                c,
            ));
        }
    }
}

/// How a new last semester changes the courses of the first `n` semesters.
pub proof fn lemma_put_new(semesters: Seq<Seq<CodeView>>, c: CodeView, n: int)
    requires
        0 <= n <= semesters.len() + 1,
    ensures
        n <= semesters.len() ==> placed_upto(put(semesters, c, None), n) == placed_upto(
            semesters,
            n,
        ),
        n == semesters.len() + 1 ==> placed_upto(put(semesters, c, None), n) == placed_upto(
            semesters,
            semesters.len() as int,
        ).push(c),
    decreases n,
{
    let after = put(semesters, c, None);
    if n > 0 {
        lemma_put_new(semesters, c, n - 1);
        if n <= semesters.len() {
            assert(after[n - 1] == semesters[n - 1]);
        } else {
            assert(after[n - 1] == seq![c]);
            assert(placed_upto(after, n) =~= placed_upto(semesters, semesters.len() as int).push(
                c,
            ));
        }
    }
}

/// Completing more courses never breaks a prerequisite that was met.
pub proof fn lemma_prereq_monotone(cat: Catalog, a: Set<CodeView>, b: Set<CodeView>, c: CodeView)
    requires
        a.subset_of(b),
        prereq_met(cat, a, c),
    ensures
        prereq_met(cat, b, c),
{
    match cat.course_index(c) {
        Some(k) => {
            cat.courses[k].prereq.lemma_monotone(a, b);
        },
        None => {},
    }
}

/// What holds of semesters that are filled soundly: no course twice, every
/// course known, every semester within the cap, every prerequisite earlier.
pub open spec fn placement_ok(
    cat: Catalog,
    incoming: Seq<CodeView>,
    semesters: Seq<Seq<CodeView>>,
    cap: nat,
) -> bool {
    &&& all_codes(incoming, semesters).no_duplicates()
    &&& all_known(cat, all_codes(incoming, semesters))
    &&& caps_hold(cat, semesters, cap)
    &&& prereqs_hold(cat, incoming, semesters)
}

/// Whether `c` may be put at `slot`: into a semester that fits, or into a
/// new last semester when everything it needs is placed and it is not over
/// the cap by itself.
pub open spec fn may_put(
    cat: Catalog,
    incoming: Seq<CodeView>,
    semesters: Seq<Seq<CodeView>>,
    cap: nat,
    c: CodeView,
    slot: Option<int>,
) -> bool {
    match slot {
        Some(i) => 0 <= i < semesters.len() && fits(cat, incoming, semesters, cap, c, i),
        None => prereq_met(cat, all_codes(incoming, semesters).to_set(), c) && cat.credits_of(c)
            <= cap,
    }
}

/// The semester that `slot` stands for: the one named, or the new last
/// one.
pub open spec fn slot_index(semesters: Seq<Seq<CodeView>>, slot: Option<int>) -> int {
    match slot {
        Some(i) => i,
        None => semesters.len() as int,
    }
}

/// Where a course put at `slot` lands in the list of all courses.
pub open spec fn put_pos(
    incoming: Seq<CodeView>,
    semesters: Seq<Seq<CodeView>>,
    slot: Option<int>,
) -> int {
    match slot {
        Some(i) => incoming.len() + placed_len(semesters, i + 1),
        None => all_codes(incoming, semesters).len() as int,
    }
}

/// How putting `c` at `slot` changes what is completed when semester `n`
/// begins: nothing up to the slot, one insertion beyond it.
pub proof fn lemma_put_codes(
    incoming: Seq<CodeView>,
    semesters: Seq<Seq<CodeView>>,
    c: CodeView,
    slot: Option<int>,
    n: int,
)
    requires
        0 <= slot_index(semesters, slot) <= semesters.len(),
        slot is Some ==> slot_index(semesters, slot) < semesters.len(),
        0 <= n <= put(semesters, c, slot).len(),
    ensures
        n <= slot_index(semesters, slot) ==> codes_before(incoming, put(semesters, c, slot), n)
            == codes_before(incoming, semesters, n),
        n > slot_index(semesters, slot) ==> {
            let m = if n <= semesters.len() { n } else { semesters.len() as int };
            &&& 0 <= put_pos(incoming, semesters, slot) <= codes_before(incoming, semesters, m).len()
            &&& codes_before(incoming, put(semesters, c, slot), n) == codes_before(
                incoming,
                semesters,
                m,
            ).insert(put_pos(incoming, semesters, slot), c)
        },
{
    match slot {
        Some(i) => {
            lemma_put_slot(semesters, c, i, n);
            if n > i {
                assert(codes_before(incoming, put(semesters, c, slot), n) =~= codes_before(
                    incoming,
                    semesters,
                    n,
                ).insert(put_pos(incoming, semesters, slot), c));
            }
        },
        None => {
            lemma_put_new(semesters, c, n);
            if n > semesters.len() {
                let whole = all_codes(incoming, semesters);
                assert(codes_before(incoming, put(semesters, c, slot), n) =~= whole.push(c));
                assert(whole.push(c) =~= whole.insert(whole.len() as int, c));
            }
        },
    }
}

/// Putting `c` at `slot` takes nothing away from what is completed when a
/// semester begins.
pub proof fn lemma_put_grows(
    incoming: Seq<CodeView>,
    semesters: Seq<Seq<CodeView>>,
    c: CodeView,
    slot: Option<int>,
    n: int,
)
    requires
        0 <= slot_index(semesters, slot) <= semesters.len(),
        slot is Some ==> slot_index(semesters, slot) < semesters.len(),
        0 <= n <= semesters.len(),
    ensures
        codes_before(incoming, semesters, n).to_set().subset_of(
            codes_before(incoming, put(semesters, c, slot), n).to_set(),
        ),
{
    lemma_put_codes(incoming, semesters, c, slot, n);
    let was = codes_before(incoming, semesters, n);
    let now = codes_before(incoming, put(semesters, c, slot), n);
    assert forall|x: CodeView| was.to_set().contains(x) implies now.to_set().contains(x) by {
        if n > slot_index(semesters, slot) {
            lemma_insert_contains(was, put_pos(incoming, semesters, slot), c, x);
        }
    }
}

/// Putting a course where it fits keeps every semester within the cap.
pub proof fn lemma_put_caps(
    cat: Catalog,
    semesters: Seq<Seq<CodeView>>,
    cap: nat,
    c: CodeView,
    slot: Option<int>,
)
    requires
        caps_hold(cat, semesters, cap),
        match slot {
            Some(i) => 0 <= i < semesters.len() && credits_total(cat, semesters[i])
                + cat.credits_of(c) <= cap,
            None => cat.credits_of(c) <= cap,
        },
    ensures
        caps_hold(cat, put(semesters, c, slot), cap),
{
    let after = put(semesters, c, slot);
    match slot {
        Some(i) => {
            assert(semesters[i].push(c).drop_last() =~= semesters[i]);
            assert(credits_total(cat, after[i]) == credits_total(cat, semesters[i])
                + cat.credits_of(c));
            assert forall|a: int| 0 <= a < after.len() implies credits_total(
                cat,
                #[trigger] after[a],
            ) <= cap by {
                if a != i {
                    assert(after[a] == semesters[a]);
                }
            }
        },
        None => {
            assert(seq![c].drop_last() =~= Seq::<CodeView>::empty());
            assert(credits_total(cat, Seq::<CodeView>::empty()) == 0);
            assert(seq![c].last() == c);
            assert(credits_total(cat, seq![c]) == cat.credits_of(c));
            assert forall|a: int| 0 <= a < after.len() implies credits_total(
                cat,
                #[trigger] after[a],
            ) <= cap by {
                if a < semesters.len() {
                    assert(after[a] == semesters[a]);
                }
            }
        },
    }
}

/// Putting a course after its prerequisites keeps every prerequisite
/// earlier than the course that needs it.
pub proof fn lemma_put_prereqs(
    cat: Catalog,
    incoming: Seq<CodeView>,
    semesters: Seq<Seq<CodeView>>,
    c: CodeView,
    slot: Option<int>,
)
    requires
        prereqs_hold(cat, incoming, semesters),
        0 <= slot_index(semesters, slot) <= semesters.len(),
        slot is Some ==> slot_index(semesters, slot) < semesters.len(),
        prereq_met(
            cat,
            codes_before(incoming, semesters, slot_index(semesters, slot)).to_set(),
            c,
        ),
    ensures
        prereqs_hold(cat, incoming, put(semesters, c, slot)),
{
    let after = put(semesters, c, slot);
    let at = slot_index(semesters, slot);
    assert forall|a: int, b: int| 0 <= a < after.len() && 0 <= b < after[a].len() implies prereq_met(
        cat,
        codes_before(incoming, after, a).to_set(),
        #[trigger] after[a][b],
    ) by {
        if a < semesters.len() {
            lemma_put_grows(incoming, semesters, c, slot, a);
        }
        if a == at && (slot is None || b == semesters[a].len()) {
            lemma_put_codes(incoming, semesters, c, slot, a);
            assert(after[a][b] == c);
        } else {
            assert(after[a][b] == semesters[a][b]);
            lemma_prereq_monotone(
                cat,
                codes_before(incoming, semesters, a).to_set(),
                codes_before(incoming, after, a).to_set(),
                semesters[a][b],
            );
        }
    }
}

/// Putting a new, known course where it may go keeps the semesters sound,
/// and adds exactly that course.
pub proof fn lemma_put_keeps_ok(
    cat: Catalog,
    incoming: Seq<CodeView>,
    semesters: Seq<Seq<CodeView>>,
    cap: nat,
    c: CodeView,
    slot: Option<int>,
)
    requires
        placement_ok(cat, incoming, semesters, cap),
        !all_codes(incoming, semesters).contains(c),
        cat.knows(c),
        may_put(cat, incoming, semesters, cap, c, slot),
    ensures
        placement_ok(cat, incoming, put(semesters, c, slot), cap),
        forall|x: CodeView|
            #[trigger] all_codes(incoming, put(semesters, c, slot)).contains(x) <==> (all_codes(
                incoming,
                semesters,
            ).contains(x) || x == c),
{
    let after = put(semesters, c, slot);
    let old_all = all_codes(incoming, semesters);
    let new_all = all_codes(incoming, after);
    let q = put_pos(incoming, semesters, slot);
    lemma_put_codes(incoming, semesters, c, slot, after.len() as int);
    assert(new_all == old_all.insert(q, c));
    lemma_insert_no_duplicates(old_all, q, c);
    assert forall|x: CodeView| #[trigger]
        new_all.contains(x) <==> (old_all.contains(x) || x == c) by {
        lemma_insert_contains(old_all, q, c, x);
    }
    lemma_put_caps(cat, semesters, cap, c, slot);
    lemma_put_prereqs(cat, incoming, semesters, c, slot);
    assert forall|k: int| 0 <= k < new_all.len() implies cat.knows(#[trigger] new_all[k]) by {
        assert(new_all.contains(new_all[k]));
        if new_all[k] != c {
            let j = choose|j: int| 0 <= j < old_all.len() && old_all[j] == new_all[k];
            assert(cat.knows(old_all[j]));
        }
    }
}

/// Removing one element of a sequence without duplicates removes exactly
/// that element.
pub proof fn lemma_remove_one(s: Seq<CodeView>, r: int)
    requires
        0 <= r < s.len(),
        s.no_duplicates(),
    ensures
        s.remove(r).no_duplicates(),
        !s.remove(r).contains(s[r]),
        forall|x: CodeView| s.contains(x) <==> (#[trigger] s.remove(r).contains(x) || x == s[r]),
{
    let t = s.remove(r);
    assert forall|k: int| 0 <= k < t.len() implies #[trigger] t[k] == s[if k < r { k } else { k + 1 }] by {}
    assert forall|a: int, b: int| 0 <= a < t.len() && 0 <= b < t.len() && a != b implies t[a]
        != t[b] by {
        assert(t[a] == s[if a < r { a } else { a + 1 }]);
        assert(t[b] == s[if b < r { b } else { b + 1 }]);
    }
    if t.contains(s[r]) {
        let k = choose|k: int| 0 <= k < t.len() && t[k] == s[r];
        assert(t[k] == s[if k < r { k } else { k + 1 }]);
    }
    assert forall|x: CodeView| s.contains(x) <==> (#[trigger] t.contains(x) || x == s[r]) by {
        if s.contains(x) && x != s[r] {
            let k = choose|k: int| 0 <= k < s.len() && s[k] == x;
            let j = if k < r { k } else { k - 1 };
            assert(t[j] == s[if j < r { j } else { j + 1 }]);
        }
        if t.contains(x) {
            let k = choose|k: int| 0 <= k < t.len() && t[k] == x;
            assert(t[k] == s[if k < r { k } else { k + 1 }]);
        }
    }
}

/// Where the catalog declares a course, as `rank` counts it.
pub fn rank_of(cat: &Catalog, c: &CourseCode) -> (r: usize)
    ensures
        r == rank(*cat, c@),
{
    match cat.find_course(c) {
        Some(k) => k,
        None => cat.courses.len(),
    }
}

/// Finds the course to place next.
pub fn find_ready(cat: &Catalog, placed: &Vec<CourseCode>, remaining: &Vec<CourseCode>) -> (r:
    Option<usize>)
    ensures
        match r {
            Some(k) => k < remaining.len() && next_ready(
                *cat,
                code_set(placed@),
                code_views(remaining@),
            ) == k,
            None => next_ready(*cat, code_set(placed@), code_views(remaining@))
                >= remaining.len(),
        },
{
    let ghost rest = code_views(remaining@);
    let mut best: Option<usize> = None;
    let mut best_rank: usize = 0;
    let mut i: usize = 0;
    while i < remaining.len()
        invariant
            i <= remaining.len(),
            rest == code_views(remaining@),
            match best {
                Some(b) => b < remaining.len() && best_rank == rank(*cat, rest[b as int])
                    && next_ready(*cat, code_set(placed@), rest) == ready_from(
                    *cat,
                    code_set(placed@),
                    rest,
                    i as nat,
                    b as nat,
                ),
                None => next_ready(*cat, code_set(placed@), rest) == ready_from(
                    *cat,
                    code_set(placed@),
                    rest,
                    i as nat,
                    rest.len(),
                ),
            },
        decreases remaining.len() - i,
    {
        assert(rest[i as int] == remaining@[i as int]@);
        if prereq_satisfied(cat, placed, &remaining[i]) {
            let here = rank_of(cat, &remaining[i]);
            let better = match best {
                Some(_) => here < best_rank,
                None => true,
            };
            if better {
                best = Some(i);
                best_rank = here;
            }
        }
        i += 1;
    }
    best
}

/// Whether the courses of `sem` and `extra` further credits stay within
/// `cap`.
pub fn has_room(cat: &Catalog, sem: &Vec<CourseCode>, extra: u32, cap: u32) -> (r: bool)
    ensures
        r == (credits_total(*cat, code_views(sem@)) + extra <= cap),
{
    if extra > cap {
        return false;
    }
    let ghost views = code_views(sem@);
    let mut sum: u64 = extra as u64;
    let mut i: usize = 0;
    assert(views.take(0) =~= Seq::empty());
    while i < sem.len()
        invariant
            i <= sem.len(),
            views == code_views(sem@),
            sum == credits_total(*cat, views.take(i as int)) + extra,
            sum <= cap,
        decreases sem.len() - i,
    {
        let c: u32 = cat.credits(&sem[i]);
        assert(views.take(i + 1).drop_last() =~= views.take(i as int));
        assert(views.take(i + 1).last() == sem@[i as int]@);
        sum = sum + c as u64;
        if sum > cap as u64 {
            proof {
                lemma_credits_prefix(*cat, views, i + 1);
            }
            return false;
        }
        i += 1;
    }
    assert(views.take(i as int) =~= views);
    true
}

/// Finds the first semester that the course `c` fits into.
pub fn find_fit(
    cat: &Catalog,
    incoming: &Vec<CourseCode>,
    semesters: &Vec<Vec<CourseCode>>,
    cap: u32,
    c: &CourseCode,
) -> (r: Option<usize>)
    ensures
        match r {
            Some(k) => k < semesters.len() && first_fit(
                *cat,
                code_views(incoming@),
                semester_views(semesters@),
                cap as nat,
                c@,
                0,
            ) == Some(k as int),
            None => first_fit(
                *cat,
                code_views(incoming@),
                semester_views(semesters@),
                cap as nat,
                c@,
                0,
            ) is None,
        },
{
    let ghost inc = code_views(incoming@);
    let ghost sems = semester_views(semesters@);
    let credits = cat.credits(c);
    let mut done = copy_codes(incoming);
    assert(inc + placed_upto(sems, 0) =~= inc);
    let mut i: usize = 0;
    while i < semesters.len()
        invariant
            i <= semesters.len(),
            inc == code_views(incoming@),
            sems == semester_views(semesters@),
            credits == cat.credits_of(c@),
            code_views(done@) == codes_before(inc, sems, i as int),
            first_fit(*cat, inc, sems, cap as nat, c@, 0) == first_fit(
                *cat,
                inc,
                sems,
                cap as nat,
                c@,
                i as int,
            ),
        decreases semesters.len() - i,
    {
        assert(sems[i as int] == code_views(semesters@[i as int]@));
        if prereq_satisfied(cat, &done, c) && has_room(cat, &semesters[i], credits, cap) {
            return Some(i);
        }
        append_codes(&mut done, &semesters[i]);
        i += 1;
    }
    None
}

/// What must hold before placing: the semesters are sound, and the
/// remaining courses are known, distinct and not yet placed.
pub open spec fn placement_ready(
    cat: Catalog,
    incoming: Seq<CodeView>,
    semesters: Seq<Seq<CodeView>>,
    remaining: Seq<CodeView>,
    cap: nat,
) -> bool {
    &&& placement_ok(cat, incoming, semesters, cap)
    &&& remaining.no_duplicates()
    &&& all_known(cat, remaining)
    &&& forall|k: int|
        0 <= k < remaining.len() ==> !all_codes(incoming, semesters).contains(
            #[trigger] remaining[k],
        )
}

/// Whether `after` holds exactly the courses of `before` and `remaining`.
pub open spec fn covers(
    incoming: Seq<CodeView>,
    before: Seq<Seq<CodeView>>,
    remaining: Seq<CodeView>,
    after: Seq<Seq<CodeView>>,
) -> bool {
    forall|x: CodeView| #[trigger]
        all_codes(incoming, after).contains(x) <==> (all_codes(incoming, before).contains(x)
            || remaining.contains(x))
}

/// Whether `after` keeps the semesters of `before`, each with its courses
/// in front and in order, and only adds to them.
pub open spec fn extends(before: Seq<Seq<CodeView>>, after: Seq<Seq<CodeView>>) -> bool {
    before.len() <= after.len() && forall|i: int|
        0 <= i < before.len() ==> (#[trigger] before[i]).len() <= after[i].len()
            && after[i].take(before[i].len() as int) == before[i]
}

/// Putting a course keeps the semesters that were there and only adds to
/// them.
pub proof fn lemma_put_extends(
    start: Seq<Seq<CodeView>>,
    semesters: Seq<Seq<CodeView>>,
    c: CodeView,
    slot: Option<int>,
)
    requires
        extends(start, semesters),
        slot is Some ==> 0 <= slot->Some_0 < semesters.len(),
    ensures
        extends(start, put(semesters, c, slot)),
{
    let after = put(semesters, c, slot);
    assert forall|i: int| 0 <= i < start.len() implies (#[trigger] start[i]).len() <= after[i].len()
        && after[i].take(start[i].len() as int) == start[i] by {
        assert(semesters[i].take(start[i].len() as int) == start[i]);
        if slot == Some(i) {
            assert(after[i] == semesters[i].push(c));
            assert(after[i].take(start[i].len() as int) =~= semesters[i].take(
                start[i].len() as int,
            ));
        } else {
            assert(after[i] == semesters[i]);
        }
    }
}

/// Places the courses of `remaining` into the semesters, one by one.
pub fn place_courses(
    cat: &Catalog,
    incoming: &Vec<CourseCode>,
    semesters: Vec<Vec<CourseCode>>,
    remaining: Vec<CourseCode>,
    cap: u32,
) -> (r: Result<Vec<Vec<CourseCode>>, ScheduleError>)
    ensures
        match r {
            Ok(v) => place(
                *cat,
                code_views(incoming@),
                semester_views(semesters@),
                code_views(remaining@),
                cap as nat,
            ) == Ok::<Seq<Seq<CodeView>>, ScheduleError>(semester_views(v@)) && extends(
                semester_views(semesters@),
                semester_views(v@),
            ) && (placement_ready(
                *cat,
                code_views(incoming@),
                semester_views(semesters@),
                code_views(remaining@),
                cap as nat,
            ) ==> placement_ok(*cat, code_views(incoming@), semester_views(v@), cap as nat)
                && covers(
                code_views(incoming@),
                semester_views(semesters@),
                code_views(remaining@),
                semester_views(v@),
            )),
            Err(e) => place(
                *cat,
                code_views(incoming@),
                semester_views(semesters@),
                code_views(remaining@),
                cap as nat,
            ) == Err::<Seq<Seq<CodeView>>, ScheduleError>(e),
        },
{
    let ghost inc = code_views(incoming@);
    let ghost sems0 = semester_views(semesters@);
    let ghost rem0 = code_views(remaining@);
    let ghost ready = placement_ready(*cat, inc, sems0, rem0, cap as nat);
    let mut filled = semesters;
    let mut rest = remaining;
    assert(extends(sems0, semester_views(filled@))) by {
        assert forall|i: int| 0 <= i < sems0.len() implies (#[trigger] sems0[i]).take(
            sems0[i].len() as int,
        ) == sems0[i] by {
            assert(sems0[i].take(sems0[i].len() as int) =~= sems0[i]);
        }
    }
    while rest.len() > 0
        invariant
            inc == code_views(incoming@),
            sems0 == semester_views(semesters@),
            rem0 == code_views(remaining@),
            ready == placement_ready(*cat, inc, sems0, rem0, cap as nat),
            extends(sems0, semester_views(filled@)),
            place(*cat, inc, sems0, rem0, cap as nat) == place(
                *cat,
                inc,
                semester_views(filled@),
                code_views(rest@),
                cap as nat,
            ),
            ready ==> placement_ready(
                *cat,
                inc,
                semester_views(filled@),
                code_views(rest@),
                cap as nat,
            ),
            ready ==> forall|x: CodeView|
                (all_codes(inc, semester_views(filled@)).contains(x) || code_views(
                    rest@,
                ).contains(x)) <==> (#[trigger] all_codes(inc, sems0).contains(x)
                    || rem0.contains(x)),
        decreases rest.len(),
    {
        let ghost sems = semester_views(filled@);
        let ghost rem = code_views(rest@);
        let flat = flatten(incoming, &filled);
        match find_ready(cat, &flat, &rest) {
            None => {
                return Err(ScheduleError::PrerequisiteCycle);
            },
            Some(r) => {
                let c = rest.remove(r);
                assert(code_views(rest@) =~= rem.remove(r as int));
                assert(rem[r as int] == c@);
                let slot = find_fit(cat, incoming, &filled, cap, &c);
                let ghost gslot: Option<int> = match slot {
                    Some(i) => Some(i as int),
                    None => None,
                };
                assert(gslot == first_fit(*cat, inc, sems, cap as nat, c@, 0));
                if slot.is_none() && cat.credits(&c) > cap {
                    return Err(ScheduleError::CreditCapExceeded);
                }
                proof {
                    lemma_next_ready(*cat, all_codes(inc, sems).to_set(), rem);
                    lemma_first_fit(*cat, inc, sems, cap as nat, c@, 0);
                    lemma_put_extends(sems0, sems, c@, gslot);
                    if ready {
                        lemma_remove_one(rem, r as int);
                        assert(rem.contains(c@));
                        lemma_put_keeps_ok(*cat, inc, sems, cap as nat, c@, gslot);
                    }
                }
                match slot {
                    Some(i) => {
                        let ghost row = code_views(filled@[i as int]@);
                        assert(sems[i as int] == row);
                        filled[i].push(c);
                        assert(code_views(filled@[i as int]@) =~= row.push(c@));
                        assert(semester_views(filled@) =~= put(sems, c@, gslot));
                    },
                    None => {
                        let mut fresh: Vec<CourseCode> = Vec::new();
                        fresh.push(c);
                        assert(code_views(fresh@) =~= seq![c@]);
                        filled.push(fresh);
                        assert(semester_views(filled@) =~= put(sems, c@, gslot));
                    },
                }
                proof {
                    if ready {
                        let after = semester_views(filled@);
                        let left = code_views(rest@);
                        assert forall|k: int| 0 <= k < left.len() implies cat.knows(
                            #[trigger] left[k],
                        ) && !all_codes(inc, after).contains(left[k]) by {
                            assert(left.contains(left[k]));
                            assert(rem.contains(left[k]));
                            let j = choose|j: int| 0 <= j < rem.len() && rem[j] == left[k];
                            assert(cat.knows(rem[j]));
                        }
                    }
                }
            },
        }
    }
    proof {
        if ready {
            let after = semester_views(filled@);
            assert forall|x: CodeView| #[trigger]
                all_codes(inc, after).contains(x) <==> (all_codes(inc, sems0).contains(x)
                    || rem0.contains(x)) by {
                assert(!code_views(rest@).contains(x));
            }
        }
    }
    Ok(filled)
}

} // verus!
