//! The greedy term planner.
use vstd::prelude::*;
use crate::catalog::{Courses, credits_in, lemma_offered_in_has, idx_credits, kind_at, lemma_catalog_has, lemma_reached_is_key, names_of, offered_in};
use crate::course::{Course, TermType};
use crate::relation::{
    contains_name, is_walk, lemma_linked_reaches, lemma_linked_symmetric, lemma_reaches_extend,
    lemma_reaches_symmetric, lemma_reaches_trans, linked, names, reaches, values_of,
};
use crate::laws::prerequisites_coherent;
use crate::term::Term;

verus! {

/// `n` came into `t` with a course `l` of `t`, offered in the kind of `t`,
/// whose prerequisites all lie in `prior`: `n` itself, or a concurrency
/// partner reached from `l`.
pub open spec fn led_in(c: Courses, t: Term, n: Seq<char>, prior: Set<Seq<char>>) -> bool {
    exists|l: Seq<char>|
        #[trigger] t.has_course(l) && (l == n || reaches(c.concurs(), l, n)) && c.offers(l, t.spec_kind())
            && forall|d: Seq<char>| #[trigger] values_of(c.prereqs(), l).contains(d) ==> prior.contains(d)
}

/// Names placed in the terms before position `k`.
pub open spec fn placed_before(terms: Seq<Term>, k: int) -> Set<Seq<char>> {
    Set::new(|d: Seq<char>| exists|j: int| 0 <= j < k && #[trigger] terms[j].has_course(d))
}

/// A plan for catalog `c` under the per-term credit limits `limits`: every
/// term is non-empty and within its limit; it holds courses of the catalog
/// with their credits, each in one term only; a concurrency group is never split; and each course
/// came with a course of its term whose prerequisites all lie in earlier terms;
/// and every course offered in a term's kind but placed neither in it nor
/// before it was blocked against that term's final load.
pub open spec fn valid_plan(c: Courses, terms: Seq<Term>, limits: Seq<u8>) -> bool {
    &&& forall|k: int| 0 <= k < terms.len() ==> (#[trigger] terms[k]).wf() && terms[k].spec_units() <= terms[k].spec_limit()
        && terms[k].spec_limit() == limits[terms[k].spec_kind().spec_index()] && terms[k].entries().len() > 0
    &&& forall|k: int, n: Seq<char>| 0 <= k < terms.len() && #[trigger] terms[k].has_course(n) ==> c.has_course(n)
    &&& forall|k: int, e: (Seq<char>, u8)| 0 <= k < terms.len() && #[trigger] terms[k].entries().contains(e) ==> c.is_entry(e)
    &&& forall|k1: int, k2: int, n: Seq<char>|
        0 <= k1 < terms.len() && 0 <= k2 < terms.len() && #[trigger] terms[k1].has_course(n) && #[trigger] terms[k2].has_course(n)
        ==> k1 == k2
    &&& forall|k: int, x: Seq<char>, y: Seq<char>|
        0 <= k < terms.len() && #[trigger] terms[k].has_course(x) && #[trigger] reaches(c.concurs(), x, y)
        ==> terms[k].has_course(y)
    &&& forall|k: int, n: Seq<char>| 0 <= k < terms.len() && #[trigger] terms[k].has_course(n)
        ==> led_in(c, terms[k], n, placed_before(terms, k))
    &&& forall|k: int, m: int| 0 <= k < terms.len() && 0 <= m < c.catalog().len()
        && #[trigger] c.catalog()[m].spec_is_available(terms[k].spec_kind())
        && !placed_before(terms, k + 1).contains(c.catalog()[m].name@)
        ==> blocked_with(c, m, placed_before(terms, k), terms[k].spec_units(), terms[k].spec_limit())
}

/// Every course of the catalog has a term in the plan.
pub open spec fn complete_plan(c: Courses, terms: Seq<Term>) -> bool {
    forall|n: Seq<char>| c.has_course(n) ==> exists|k: int| 0 <= k < terms.len() && #[trigger] terms[k].has_course(n)
}

/// `s` without the names of `done`, order kept.
pub open spec fn without_names(s: Seq<Seq<char>>, done: Seq<Seq<char>>) -> Seq<Seq<char>>
    decreases s.len(),
{
    if s.len() == 0 {
        s
    } else if done.contains(s.last()) {
        without_names(s.drop_last(), done)
    } else {
        without_names(s.drop_last(), done).push(s.last())
    }
}

proof fn lemma_plan_push(c: Courses, terms: Seq<Term>, t: Term, before: Seq<Seq<char>>, limits: Seq<u8>)
    requires
        valid_plan(c, terms, limits),
        forall|n: Seq<char>| #[trigger] before.contains(n) <==> placed_before(terms, terms.len() as int).contains(n),
        t.wf(),
        t.spec_units() <= t.spec_limit(),
        t.spec_limit() == limits[t.spec_kind().spec_index()],
        t.entries().len() > 0,
        forall|n: Seq<char>| #[trigger] t.has_course(n) ==> c.has_course(n) && !before.contains(n),
        forall|e: (Seq<char>, u8)| #[trigger] t.entries().contains(e) ==> c.is_entry(e),
        forall|x: Seq<char>, y: Seq<char>| #[trigger] t.has_course(x) && #[trigger] reaches(c.concurs(), x, y) ==> t.has_course(y),
        forall|n: Seq<char>| #[trigger] t.has_course(n) ==> led_in(c, t, n, before.to_set()),
        forall|m: int| 0 <= m < c.catalog().len() && #[trigger] c.catalog()[m].spec_is_available(t.spec_kind())
            && !before.contains(c.catalog()[m].name@) && !t.has_course(c.catalog()[m].name@)
            ==> blocked_with(c, m, before.to_set(), t.spec_units(), t.spec_limit()),
    ensures
        valid_plan(c, terms.push(t), limits),
        forall|n: Seq<char>| #[trigger] placed_before(terms.push(t), terms.len() as int + 1).contains(n) <==> before.contains(n) || t.has_course(n),
        forall|k: int| 0 <= k <= terms.len() ==> #[trigger] placed_before(terms.push(t), k) == placed_before(terms, k),
{
    let ts = terms.push(t);
    let len = terms.len() as int;
    assert forall|k: int| 0 <= k <= len implies #[trigger] placed_before(ts, k) == placed_before(terms, k) || k == len + 1 by {
        if k <= len {
            assert forall|d: Seq<char>| placed_before(ts, k).contains(d) <==> placed_before(terms, k).contains(d) by {
                if placed_before(ts, k).contains(d) {
                    let j = choose|j: int| 0 <= j < k && #[trigger] ts[j].has_course(d);
                    assert(terms[j] == ts[j]);
                }
                if placed_before(terms, k).contains(d) {
                    let j = choose|j: int| 0 <= j < k && #[trigger] terms[j].has_course(d);
                    assert(terms[j] == ts[j]);
                }
            }
            assert(placed_before(ts, k) =~= placed_before(terms, k));
        }
    }
    assert(placed_before(ts, len) == placed_before(terms, len));
    assert forall|d: Seq<char>| #[trigger] before.to_set().contains(d) <==> placed_before(ts, len).contains(d) by {}
    assert(before.to_set() =~= placed_before(ts, len));
    assert(ts[len] == t);
    assert forall|k: int| 0 <= k < ts.len() implies (#[trigger] ts[k]).wf() && ts[k].spec_units() <= ts[k].spec_limit()
        && ts[k].spec_limit() == limits[ts[k].spec_kind().spec_index()] && ts[k].entries().len() > 0 by {
        if k < len {
            assert(ts[k] == terms[k]);
        }
    }
    assert forall|k: int, n: Seq<char>| 0 <= k < ts.len() && #[trigger] ts[k].has_course(n) implies c.has_course(n) by {
        if k < len {
            assert(ts[k] == terms[k]);
        }
    }
    assert forall|k: int, e: (Seq<char>, u8)| 0 <= k < ts.len() && #[trigger] ts[k].entries().contains(e) implies c.is_entry(e) by {
        if k < len {
            assert(ts[k] == terms[k]);
        }
    }
    assert forall|k1: int, k2: int, n: Seq<char>|
        0 <= k1 < ts.len() && 0 <= k2 < ts.len() && #[trigger] ts[k1].has_course(n) && #[trigger] ts[k2].has_course(n)
        implies k1 == k2 by {
        if k1 < len && k2 < len {
            assert(ts[k1] == terms[k1] && ts[k2] == terms[k2]);
        } else if k1 < len {
            assert(ts[k1] == terms[k1]);
            assert(placed_before(terms, len).contains(n));
        } else if k2 < len {
            assert(ts[k2] == terms[k2]);
            assert(placed_before(terms, len).contains(n));
        }
    }
    assert forall|k: int, x: Seq<char>, y: Seq<char>|
        0 <= k < ts.len() && #[trigger] ts[k].has_course(x) && #[trigger] reaches(c.concurs(), x, y)
        implies ts[k].has_course(y) by {
        if k < len {
            assert(ts[k] == terms[k]);
        }
    }
    assert forall|k: int, n: Seq<char>| 0 <= k < ts.len() && #[trigger] ts[k].has_course(n)
        implies led_in(c, ts[k], n, placed_before(ts, k)) by {
        if k < len {
            assert(ts[k] == terms[k]);
            assert(placed_before(ts, k) == placed_before(terms, k));
        }
    }
    assert forall|n: Seq<char>| #[trigger] placed_before(ts, len + 1).contains(n) <==> before.contains(n) || t.has_course(n) by {
        if placed_before(ts, len + 1).contains(n) {
            let j = choose|j: int| 0 <= j < len + 1 && #[trigger] ts[j].has_course(n);
            if j < len {
                assert(placed_before(ts, len).contains(n));
            }
        }
        if before.contains(n) {
            assert(placed_before(ts, len).contains(n));
            let j = choose|j: int| 0 <= j < len && #[trigger] ts[j].has_course(n);
        }
        if t.has_course(n) {
            assert(ts[len].has_course(n));
        }
    }
    assert forall|k: int, m: int| 0 <= k < ts.len() && 0 <= m < c.catalog().len()
        && #[trigger] c.catalog()[m].spec_is_available(ts[k].spec_kind())
        && !placed_before(ts, k + 1).contains(c.catalog()[m].name@)
        implies blocked_with(c, m, placed_before(ts, k), ts[k].spec_units(), ts[k].spec_limit()) by {
        if k < len {
            assert(ts[k] == terms[k]);
            assert(placed_before(ts, k) == placed_before(terms, k));
            assert(placed_before(ts, k + 1) == placed_before(terms, k + 1));
        } else {
            assert(!before.contains(c.catalog()[m].name@));
        }
    }
    assert forall|n: Seq<char>| #[trigger] placed_before(ts, len + 1).contains(n) <==> before.contains(n) || t.has_course(n) by {
        if placed_before(ts, len + 1).contains(n) {
            let j = choose|j: int| 0 <= j < len + 1 && #[trigger] ts[j].has_course(n);
            if j < len {
                assert(placed_before(ts, len).contains(n));
            }
        }
        if before.contains(n) {
            assert(placed_before(ts, len).contains(n));
            let j = choose|j: int| 0 <= j < len && #[trigger] ts[j].has_course(n);
        }
        if t.has_course(n) {
            assert(ts[len].has_course(n));
        }
    }
}

proof fn lemma_passes_push(c: Courses, terms: Seq<Term>, t: Term, limits: Seq<u8>, ps: Seq<int>, p: int)
    requires
        0 <= p,
        passes_of(c, terms, limits, ps),
        forall|k: int| 0 <= k < ps.len() ==> #[trigger] ps[k] < p,
        forall|q: int| (if ps.len() == 0 { 0 <= q } else { ps.last() < q }) && q < p
            ==> #[trigger] pass_idle(c, q, placed_before(terms, terms.len() as int), limits),
        t.spec_kind() == kind_at(p % 4),
        forall|k: int| 0 <= k <= terms.len() ==> #[trigger] placed_before(terms.push(t), k) == placed_before(terms, k),
    ensures
        passes_of(c, terms.push(t), limits, ps.push(p)),
{
    let ts = terms.push(t);
    let ps2 = ps.push(p);
    let len = terms.len() as int;
    assert forall|k: int, q: int| 0 <= k < ts.len() && (if k == 0 { 0 <= q } else { ps2[k - 1] < q }) && q < ps2[k]
        implies #[trigger] pass_idle(c, q, placed_before(ts, k), limits) by {
        assert(placed_before(ts, k) == placed_before(terms, k));
        if k < len {
            assert(ps2[k] == ps[k]);
            if k > 0 {
                assert(ps2[k - 1] == ps[k - 1]);
            }
        } else {
            if k > 0 {
                assert(ps2[k - 1] == ps.last());
            }
            assert(pass_idle(c, q, placed_before(terms, len), limits));
        }
    }
    assert forall|k: int| 0 <= k < ts.len() implies 0 <= #[trigger] ps2[k] && ts[k].spec_kind() == kind_at(ps2[k] % 4) by {
        if k < len {
            assert(ts[k] == terms[k]);
            assert(ps2[k] == ps[k]);
        }
    }
    assert forall|k: int| 0 <= k < ts.len() - 1 implies #[trigger] ps2[k] < ps2[k + 1] by {
        if k + 1 < len {
            assert(ps2[k] == ps[k] && ps2[k + 1] == ps[k + 1]);
        } else {
            assert(ps2[k] == ps[k]);
        }
    }
}

/// The names of `list` that are not in `done`, order kept.
fn retain_unscheduled(list: &Vec<String>, done: &Vec<String>) -> (r: Vec<String>)
    ensures
        names(r@) == without_names(names(list@), names(done@)),
{
    let mut r: Vec<String> = Vec::new();
    let mut i: usize = 0;
    assert(names(r@) =~= without_names(names(list@).take(0), names(done@)));
    while i < list.len()
        invariant
            0 <= i <= list.len(),
            names(r@) == without_names(names(list@).take(i as int), names(done@)),
        decreases list.len() - i,
    {
        let ghost before = names(r@);
        assert(names(list@).take(i + 1).drop_last() =~= names(list@).take(i as int));
        assert(names(list@).take(i + 1).last() == list@[i as int]@);
        if !contains_name(done, &list[i]) {
            r.push(list[i].clone());
            assert(names(r@) =~= before.push(list@[i as int]@));
        }
        i = i + 1;
    }
    assert(names(list@).take(i as int) =~= names(list@));
    r
}

/// In a pass over an empty term with credit limit `limit`, after the names
/// `done`, the course at position `i` of the catalog cannot be placed: the
/// term has no room at all, a prerequisite is not done, the course is too
/// large, or its concurrency group is.
pub open spec fn blocked(c: Courses, i: int, done: Seq<Seq<char>>, limit: u8) -> bool {
    let course = c.catalog()[i];
    ||| limit == 0
    ||| !(forall|d: Seq<char>| #[trigger] values_of(c.prereqs(), course.name@).contains(d) ==> done.contains(d))
    ||| course.credits > limit
    ||| (values_of(c.concurs(), course.name@).len() > 0 && credits_in(c.catalog(), c.group(course.name@)) > limit)
}

/// In a pass that started with the names `prior` done, against a term
/// holding `units` of `limit` credits, the course at position `i` of the
/// catalog cannot be placed: the term is full, a prerequisite is not done,
/// the course does not fit, or its concurrency group does not.
pub open spec fn blocked_with(c: Courses, i: int, prior: Set<Seq<char>>, units: u8, limit: u8) -> bool {
    let course = c.catalog()[i];
    ||| units == limit
    ||| !(forall|d: Seq<char>| #[trigger] values_of(c.prereqs(), course.name@).contains(d) ==> prior.contains(d))
    ||| course.credits + units > limit
    ||| (values_of(c.concurs(), course.name@).len() > 0 && credits_in(c.catalog(), c.group(course.name@)) + units > limit)
}

/// Pass number `q`, of kind `q % 4` and started with the names `prior`
/// placed, can place nothing in an empty term under the limits `limits`.
pub open spec fn pass_idle(c: Courses, q: int, prior: Set<Seq<char>>, limits: Seq<u8>) -> bool {
    forall|m: int| 0 <= m < c.catalog().len() && #[trigger] c.catalog()[m].spec_is_available(kind_at(q % 4))
        && !prior.contains(c.catalog()[m].name@) ==> blocked_with(c, m, prior, 0, limits[q % 4])
}

/// The terms come from passes numbered from 0 in the cycle of kinds that
/// starts with Fall: term `k` from pass `ps[k]`, of kind `ps[k] % 4`, and
/// every pass before a term that made no term of its own could place nothing.
pub open spec fn passes_of(c: Courses, terms: Seq<Term>, limits: Seq<u8>, ps: Seq<int>) -> bool {
    &&& ps.len() == terms.len()
    &&& forall|k: int| 0 <= k < terms.len() ==> 0 <= #[trigger] ps[k] && terms[k].spec_kind() == kind_at(ps[k] % 4)
    &&& forall|k: int| 0 <= k < terms.len() - 1 ==> #[trigger] ps[k] < ps[k + 1]
    &&& forall|k: int, q: int| 0 <= k < terms.len() && (if k == 0 { 0 <= q } else { ps[k - 1] < q }) && q < ps[k]
        ==> #[trigger] pass_idle(c, q, placed_before(terms, k), limits)
}

/// No course offered in the kind at position `k` and not yet done can be
/// placed in a term of that kind.
pub open spec fn kind_stuck(c: Courses, k: int, done: Seq<Seq<char>>, limit: u8) -> bool {
    forall|i: int| 0 <= i < c.catalog().len() && #[trigger] c.catalog()[i].spec_is_available(kind_at(k))
        && !done.contains(c.catalog()[i].name@) ==> blocked(c, i, done, limit)
}

/// Every prerequisite of a course is a course of the catalog, of a strictly
/// smaller rank: prerequisites form no cycle.
pub open spec fn ranked_by(c: Courses, rank: spec_fn(Seq<char>) -> nat) -> bool {
    forall|x: Seq<char>, d: Seq<char>| c.has_course(x) && #[trigger] values_of(c.prereqs(), x).contains(d)
        ==> c.has_course(d) && rank(d) < rank(x)
}

/// The credits the course at position `i` needs in one term: those of its
/// whole concurrency group when it has partners, its own otherwise.
pub open spec fn load(c: Courses, i: int) -> int {
    if values_of(c.concurs(), c.catalog()[i].name@).len() > 0 {
        credits_in(c.catalog(), c.group(c.catalog()[i].name@))
    } else {
        c.catalog()[i].credits as int
    }
}

/// For every course, the course itself or a member of its concurrency group
/// is offered in a term kind whose credit limit is positive and holds the
/// course's load.
#[verifier::opaque]
pub open spec fn fits_somewhere(c: Courses, limits: Seq<u8>) -> bool {
    forall|i: int| #![trigger load(c, i)] 0 <= i < c.catalog().len() ==> exists|g: int, k: int|
        0 <= g < c.catalog().len() && 0 <= k < 4
        && (g == i || reaches(c.concurs(), c.catalog()[i].name@, c.catalog()[g].name@))
        && #[trigger] c.catalog()[g].spec_is_available(kind_at(k)) && limits[k] > 0 && load(c, i) <= limits[k]
}

proof fn lemma_without_names_contains(s: Seq<Seq<char>>, done: Seq<Seq<char>>, n: Seq<char>)
    ensures
        without_names(s, done).contains(n) <==> s.contains(n) && !done.contains(n),
    decreases s.len(),
{
    if s.len() > 0 {
        let r = without_names(s.drop_last(), done);
        lemma_without_names_contains(s.drop_last(), done, n);
        if s.contains(n) && n != s.last() {
            let k = choose|k: int| 0 <= k < s.len() && s[k] == n;
            assert(s.drop_last()[k] == n);
        }
        if s.drop_last().contains(n) {
            let k = choose|k: int| 0 <= k < s.drop_last().len() && s.drop_last()[k] == n;
            assert(s[k] == n);
        }
        assert(s[s.len() - 1] == s.last());
        if !done.contains(s.last()) {
            if r.push(s.last()).contains(n) && n != s.last() {
                let k = choose|k: int| 0 <= k < r.push(s.last()).len() && r.push(s.last())[k] == n;
                assert(r[k] == n);
            }
            if r.contains(n) {
                let k = choose|k: int| 0 <= k < r.len() && r[k] == n;
                assert(r.push(s.last())[k] == n);
            }
            assert(r.push(s.last())[r.len() as int] == s.last());
        }
    }
}

proof fn lemma_offered_in_contains(cat: Seq<Course>, k: int, i: int)
    requires
        0 <= i < cat.len(),
        cat[i].spec_is_available(kind_at(k)),
    ensures
        offered_in(cat, k).contains(cat[i].name@),
    decreases cat.len(),
{
    if i == cat.len() - 1 {
        let r = offered_in(cat.drop_last(), k);
        assert(r.push(cat[i].name@)[r.len() as int] == cat[i].name@);
    } else {
        assert(cat.drop_last()[i] == cat[i]);
        lemma_offered_in_contains(cat.drop_last(), k, i);
        let r = offered_in(cat.drop_last(), k);
        let j = choose|j: int| 0 <= j < r.len() && r[j] == cat[i].name@;
        if cat.last().spec_is_available(kind_at(k)) {
            assert(r.push(cat.last().name@)[j] == cat[i].name@);
        }
    }
}

/// Among the courses not in `done`, one of least rank.
proof fn lemma_least_rank(c: Courses, done: Seq<Seq<char>>, rank: spec_fn(Seq<char>) -> nat, i: int) -> (m: int)
    requires
        0 <= i < c.catalog().len(),
        !done.contains(c.catalog()[i].name@),
    ensures
        0 <= m < c.catalog().len(),
        !done.contains(c.catalog()[m].name@),
        forall|j: int| 0 <= j < c.catalog().len() && !done.contains(#[trigger] c.catalog()[j].name@)
            ==> rank(c.catalog()[m].name@) <= rank(c.catalog()[j].name@),
    decreases rank(c.catalog()[i].name@),
{
    if exists|j: int| 0 <= j < c.catalog().len() && !done.contains(#[trigger] c.catalog()[j].name@)
        && rank(c.catalog()[j].name@) < rank(c.catalog()[i].name@) {
        let j = choose|j: int| 0 <= j < c.catalog().len() && !done.contains(#[trigger] c.catalog()[j].name@)
            && rank(c.catalog()[j].name@) < rank(c.catalog()[i].name@);
        lemma_least_rank(c, done, rank, j)
    } else {
        i
    }
}

/// With acyclic prerequisites inside the catalog and room for every course,
/// some term kind still has a course that a pass can place while courses
/// remain.
proof fn lemma_never_stuck(c: Courses, done: Seq<Seq<char>>, limits: Seq<u8>, rank: spec_fn(Seq<char>) -> nat)
    requires
        c.wf(),
        limits.len() == 4,
        ranked_by(c, rank),
        fits_somewhere(c, limits),
        done.no_duplicates(),
        done.len() < c.catalog().len(),
        forall|n: Seq<char>| #[trigger] done.contains(n) ==> c.has_course(n),
        forall|x: Seq<char>, y: Seq<char>| #[trigger] done.contains(x) && #[trigger] reaches(c.concurs(), x, y) ==> done.contains(y),
        prerequisites_coherent(c),
    ensures
        exists|k: int| 0 <= k < 4 && !#[trigger] kind_stuck(c, k, done, limits[k]),
{
    crate::catalog::lemma_names_set_len(c);
    let all = names_of(c.catalog()).to_set();
    let missing = choose|n: Seq<char>| all.contains(n) && !done.contains(n);
    if !exists|n: Seq<char>| all.contains(n) && !done.contains(n) {
        done.unique_seq_to_set();
        assert forall|n: Seq<char>| all.contains(n) implies done.to_set().contains(n) by {}
        vstd::set_lib::lemma_len_subset(all, done.to_set());
    }
    let i0 = choose|i: int| 0 <= i < names_of(c.catalog()).len() && names_of(c.catalog())[i] == missing;
    let m = lemma_least_rank(c, done, rank, i0);
    let course = c.catalog()[m];
    lemma_catalog_has(c, m);
    assert forall|d: Seq<char>| #[trigger] values_of(c.prereqs(), course.name@).contains(d) implies done.contains(d) by {
        if !done.contains(d) {
            let j = choose|j: int| 0 <= j < names_of(c.catalog()).len() && names_of(c.catalog())[j] == d;
            assert(c.catalog()[j].name@ == d);
        }
    }
    lemma_ready_course_fits(c, done, limits, m);
}

/// A course not done whose prerequisites are all done, under the hypotheses
/// of `fits_somewhere`, leaves some kind not stuck.
proof fn lemma_ready_course_fits(c: Courses, done: Seq<Seq<char>>, limits: Seq<u8>, m: int)
    requires
        c.wf(),
        limits.len() == 4,
        fits_somewhere(c, limits),
        0 <= m < c.catalog().len(),
        !done.contains(c.catalog()[m].name@),
        forall|d: Seq<char>| #[trigger] values_of(c.prereqs(), c.catalog()[m].name@).contains(d) ==> done.contains(d),
        forall|x: Seq<char>, y: Seq<char>| #[trigger] done.contains(x) && #[trigger] reaches(c.concurs(), x, y) ==> done.contains(y),
        prerequisites_coherent(c),
    ensures
        exists|k: int| 0 <= k < 4 && !#[trigger] kind_stuck(c, k, done, limits[k]),
{
    let course = c.catalog()[m];
    let rel = c.concurs();
    let mn = course.name@;
    assert(exists|g: int, k: int| 0 <= g < c.catalog().len() && 0 <= k < 4
        && (g == m || reaches(rel, mn, c.catalog()[g].name@))
        && #[trigger] c.catalog()[g].spec_is_available(kind_at(k)) && limits[k] > 0 && load(c, m) <= limits[k]) by {
        reveal(fits_somewhere);
        assert(load(c, m) == load(c, m));
    }
    let (g, k) = choose|g: int, k: int| 0 <= g < c.catalog().len() && 0 <= k < 4
        && (g == m || reaches(rel, mn, c.catalog()[g].name@))
        && #[trigger] c.catalog()[g].spec_is_available(kind_at(k)) && limits[k] > 0 && load(c, m) <= limits[k];
    lemma_member_not_blocked(c, done, limits[k], m, g);
    assert(!kind_stuck(c, k, done, limits[k])) by {
        assert(c.catalog()[g].spec_is_available(kind_at(k)));
    }
}

/// A member `g` of the group of a course `m` that is not done and whose
/// prerequisites are all done cannot be blocked under a limit that holds the
/// load of `m`.
proof fn lemma_member_not_blocked(c: Courses, done: Seq<Seq<char>>, limit: u8, m: int, g: int)
    requires
        c.wf(),
        0 <= m < c.catalog().len(),
        0 <= g < c.catalog().len(),
        g == m || reaches(c.concurs(), c.catalog()[m].name@, c.catalog()[g].name@),
        limit > 0,
        load(c, m) <= limit,
        !done.contains(c.catalog()[m].name@),
        forall|d: Seq<char>| #[trigger] values_of(c.prereqs(), c.catalog()[m].name@).contains(d) ==> done.contains(d),
        forall|x: Seq<char>, y: Seq<char>| #[trigger] done.contains(x) && #[trigger] reaches(c.concurs(), x, y) ==> done.contains(y),
        prerequisites_coherent(c),
    ensures
        !blocked(c, g, done, limit),
        !done.contains(c.catalog()[g].name@),
{
    let rel = c.concurs();
    let mn = c.catalog()[m].name@;
    let gn = c.catalog()[g].name@;
    if g != m {
        lemma_reaches_symmetric(rel, mn, gn);
        crate::laws::lemma_closure_consistency(c, mn, gn);
        lemma_reached_is_key(rel, mn, gn);
        assert(c.group(mn) =~= c.group(gn)) by {
            assert forall|b: Seq<char>| c.group(mn).contains(b) <==> c.group(gn).contains(b) by {
                if reaches(rel, mn, b) {
                    lemma_reaches_trans(rel, gn, mn, b);
                }
                if reaches(rel, gn, b) {
                    lemma_reaches_trans(rel, mn, gn, b);
                }
            }
        }
        crate::catalog::lemma_credits_in_member(c.catalog(), c.group(mn), g);
        assert(!done.contains(gn)) by {
            if done.contains(gn) {
                assert(done.contains(mn));
            }
        }
        assert forall|d: Seq<char>| #[trigger] values_of(c.prereqs(), gn).contains(d) implies done.contains(d) by {
            assert(values_of(c.prereqs(), mn).contains(d));
        }
    } else if values_of(rel, mn).len() > 0 {
        let v = values_of(rel, mn)[0];
        assert(linked(rel, mn, v));
        lemma_linked_reaches(rel, mn, v);
        lemma_linked_symmetric(rel, mn, v);
        lemma_reaches_extend(rel, mn, v, mn);
        crate::catalog::lemma_credits_in_member(c.catalog(), c.group(mn), m);
    }
}

/// Whether `n` is the name of a course at one of the positions `idx`.
pub open spec fn at_positions(c: Courses, idx: Seq<usize>, n: Seq<char>) -> bool {
    exists|k: int| 0 <= k < idx.len() && #[trigger] c.catalog()[idx[k] as int].name@ == n
}

proof fn lemma_credits_prefix(c: Courses, idx: Seq<usize>, j: int)
    requires
        0 <= j <= idx.len(),
    ensures
        idx_credits(c.catalog(), idx.take(j)) <= idx_credits(c.catalog(), idx),
    decreases idx.len() - j,
{
    if j < idx.len() {
        lemma_credits_prefix(c, idx, j + 1);
        assert(idx.take(j + 1).drop_last() =~= idx.take(j));
    } else {
        assert(idx.take(j) =~= idx);
    }
}

/// Places the courses at positions `idx` of the catalog in `term`, and marks
/// them done.
fn place_group(c: &Courses, term: &mut Term, idx: &Vec<usize>, done: &mut Vec<String>)
    requires
        old(term).wf(),
        old(term).spec_units() + idx_credits(c.catalog(), idx@) <= old(term).spec_limit(),
        forall|k: int| 0 <= k < idx@.len() ==> #[trigger] idx@[k] < c.catalog().len(),
        forall|k1: int, k2: int| 0 <= k1 < idx@.len() && 0 <= k2 < idx@.len() && k1 != k2
            ==> #[trigger] c.catalog()[idx@[k1] as int].name@ != #[trigger] c.catalog()[idx@[k2] as int].name@,
        forall|n: Seq<char>| #[trigger] at_positions(*c, idx@, n) ==> !names(old(done)@).contains(n) && !old(term).has_course(n),
        names(old(done)@).no_duplicates(),
    ensures
        final(term).wf(),
        final(term).spec_kind() == old(term).spec_kind(),
        final(term).spec_limit() == old(term).spec_limit(),
        final(term).spec_units() == old(term).spec_units() + idx_credits(c.catalog(), idx@),
        final(term).entries().len() == old(term).entries().len() + idx@.len(),
        forall|e: (Seq<char>, u8)| #[trigger] final(term).entries().contains(e) ==> old(term).entries().contains(e) || c.is_entry(e),
        forall|n: Seq<char>| #[trigger] final(term).has_course(n) <==> old(term).has_course(n) || at_positions(*c, idx@, n),
        forall|n: Seq<char>| #[trigger] names(final(done)@).contains(n) <==> names(old(done)@).contains(n) || at_positions(*c, idx@, n),
        names(final(done)@).no_duplicates(),
        final(done)@.len() == old(done)@.len() + idx@.len(),
        names(final(done)@).take(old(done)@.len() as int) == names(old(done)@),
{
    let ghost t0 = *term;
    let ghost d0 = names(done@);
    let mut j: usize = 0;
    while j < idx.len()
        invariant
            0 <= j <= idx.len(),
            forall|k: int| 0 <= k < idx@.len() ==> #[trigger] idx@[k] < c.catalog().len(),
            forall|k1: int, k2: int| 0 <= k1 < idx@.len() && 0 <= k2 < idx@.len() && k1 != k2
                ==> #[trigger] c.catalog()[idx@[k1] as int].name@ != #[trigger] c.catalog()[idx@[k2] as int].name@,
            forall|n: Seq<char>| #[trigger] at_positions(*c, idx@, n) ==> !d0.contains(n) && !t0.has_course(n),
            t0.spec_units() + idx_credits(c.catalog(), idx@) <= t0.spec_limit(),
            term.wf(),
            term.spec_kind() == t0.spec_kind(),
            term.spec_limit() == t0.spec_limit(),
            term.spec_units() == t0.spec_units() + idx_credits(c.catalog(), idx@.take(j as int)),
            term.entries().len() == t0.entries().len() + j,
            forall|e: (Seq<char>, u8)| #[trigger] term.entries().contains(e) ==> t0.entries().contains(e) || c.is_entry(e),
            forall|n: Seq<char>| #[trigger] term.has_course(n) <==> t0.has_course(n) || at_positions(*c, idx@.take(j as int), n),
            forall|n: Seq<char>| #[trigger] names(done@).contains(n) <==> d0.contains(n) || at_positions(*c, idx@.take(j as int), n),
            names(done@).no_duplicates(),
            done@.len() == d0.len() + j,
            names(done@).take(d0.len() as int) == d0,
        decreases idx.len() - j,
    {
        let course = c.course_at(idx[j]);
        let ghost n = course.name@;
        let ghost tb = *term;
        let ghost db = names(done@);
        assert(idx@.take(j + 1).drop_last() =~= idx@.take(j as int));
        assert(idx@.take(j + 1) =~= idx@.take(j as int).push(idx@[j as int]));
        proof {
            lemma_credits_prefix(*c, idx@, j + 1);
            assert(at_positions(*c, idx@, n));
            assert forall|m: Seq<char>| at_positions(*c, idx@.take(j + 1), m) <==> at_positions(*c, idx@.take(j as int), m)
                || m == n by {
                if at_positions(*c, idx@.take(j + 1), m) && m != n {
                    let k = choose|k: int| 0 <= k < j + 1 && #[trigger] c.catalog()[idx@.take(j + 1)[k] as int].name@ == m;
                    assert(idx@.take(j as int)[k] == idx@.take(j + 1)[k]);
                }
                if at_positions(*c, idx@.take(j as int), m) {
                    let k = choose|k: int| 0 <= k < j && #[trigger] c.catalog()[idx@.take(j as int)[k] as int].name@ == m;
                    assert(idx@.take(j + 1)[k] == idx@.take(j as int)[k]);
                }
                if m == n {
                    assert(idx@.take(j + 1)[j as int] == idx@[j as int]);
                }
            }
            assert(!tb.has_course(n)) by {
                if tb.has_course(n) {
                    if !t0.has_course(n) {
                        let k = choose|k: int| 0 <= k < j && #[trigger] c.catalog()[idx@.take(j as int)[k] as int].name@ == n;
                        assert(idx@.take(j as int)[k] == idx@[k]);
                    }
                }
            }
            assert(!db.contains(n)) by {
                if db.contains(n) {
                    if !d0.contains(n) {
                        let k = choose|k: int| 0 <= k < j && #[trigger] c.catalog()[idx@.take(j as int)[k] as int].name@ == n;
                        assert(idx@.take(j as int)[k] == idx@[k]);
                    }
                }
            }
            Term::lemma_has_course_entry(tb, (n, course.credits));
        }
        term.add(course);
        done.push(course.name.clone());
        proof {
            Term::lemma_has_course_push(tb, *term, (n, course.credits));
            crate::term::lemma_push_contains(tb.entries(), (n, course.credits));
            assert(c.catalog()[idx@[j as int] as int].name@ == n);
            assert(c.is_entry((n, course.credits)));
            assert(names(done@) =~= db.push(n));
            assert(names(done@).take(d0.len() as int) =~= db.take(d0.len() as int));
            assert forall|m: Seq<char>| #[trigger] names(done@).contains(m) <==> db.contains(m) || m == n by {
                if names(done@).contains(m) && m != n {
                    let k = choose|k: int| 0 <= k < names(done@).len() && names(done@)[k] == m;
                    assert(db[k] == m);
                }
                if db.contains(m) {
                    let k = choose|k: int| 0 <= k < db.len() && db[k] == m;
                    assert(names(done@)[k] == m);
                }
                assert(names(done@)[db.len() as int] == n);
            }
            assert(names(done@).no_duplicates()) by {
                assert forall|a: int, b: int| 0 <= a < b < names(done@).len() implies names(done@)[a] != names(done@)[b] by {
                    if b == db.len() {
                        assert(db.contains(names(done@)[a]));
                    }
                }
            }
        }
        j = j + 1;
    }
    assert(idx@.take(j as int) =~= idx@);
}

impl Courses {
    #[verifier::rlimit(80)]
    /// Plans the catalog term by term, starting with a Fall term and cycling
    /// through the kinds; `term_unit_limits` holds the credit limit of each
    /// kind. Nothing when the catalog is empty, or when four terms in a row
    /// place nothing, since the remaining courses can then never be placed
    /// (a prerequisite cycle, a prerequisite that is not in the catalog, or a
    /// group that fits no term).
    pub fn get_terms(&self, term_unit_limits: [u8; 4]) -> (r: Option<Vec<Term>>)
        requires
            self.wf(),
            self.partners_known(),
        ensures
            self.catalog().len() == 0 ==> r.is_none(),
            r.is_some() ==> valid_plan(*self, r.unwrap()@, term_unit_limits@),
            r.is_some() ==> complete_plan(*self, r.unwrap()@),
            r.is_some() ==> exists|ps: Seq<int>| #[trigger] passes_of(*self, r.unwrap()@, term_unit_limits@, ps),
            self.catalog().len() > 0 && (exists|rank: spec_fn(Seq<char>) -> nat| ranked_by(*self, rank))
                && prerequisites_coherent(*self) && fits_somewhere(*self, term_unit_limits@) ==> r.is_some(),
    {
        let mut completed_terms: Vec<Term> = Vec::new();
        let mut fall_courses = self.get_term_courses_for(&TermType::Fall);
        let mut winter_courses = self.get_term_courses_for(&TermType::Winter);
        let mut spring_courses = self.get_term_courses_for(&TermType::Spring);
        let mut summer_courses = self.get_term_courses_for(&TermType::Summer);
        let mut done: Vec<String> = Vec::new();
        let total_courses_count = self.len();
        let mut current_term = TermType::Fall;
        let mut idle: usize = 0;
        let ghost mut pass_no: int = 0;
        let ghost mut ps: Seq<int> = Seq::empty();
        proof {
            assert(names(done@) =~= Seq::<Seq<char>>::empty());
            assert forall|n: Seq<char>| without_names(offered_in(self.catalog(), 0), names(done@)).contains(n)
                == offered_in(self.catalog(), 0).contains(n) by {
                lemma_without_names_contains(offered_in(self.catalog(), 0), names(done@), n);
            }
            assert forall|n: Seq<char>| #[trigger] names(done@).contains(n) <==> placed_before(completed_terms@, 0).contains(n) by {
                if placed_before(completed_terms@, 0).contains(n) {
                    let j = choose|j: int| 0 <= j < 0 && #[trigger] completed_terms@[j].has_course(n);
                }
            }
        }
        while done.len() < total_courses_count
            invariant
                0 <= pass_no,
                current_term.spec_index() == pass_no % 4,
                passes_of(*self, completed_terms@, term_unit_limits@, ps),
                forall|k: int| 0 <= k < ps.len() ==> #[trigger] ps[k] < pass_no,
                forall|q: int| (if ps.len() == 0 { 0 <= q } else { ps.last() < q }) && q < pass_no
                    ==> #[trigger] pass_idle(*self, q, placed_before(completed_terms@, completed_terms@.len() as int), term_unit_limits@),
                self.wf(),
                self.partners_known(),
                total_courses_count == self.catalog().len(),
                valid_plan(*self, completed_terms@, term_unit_limits@),
                names(done@).no_duplicates(),
                forall|n: Seq<char>| #[trigger] names(done@).contains(n) ==> self.has_course(n),
                forall|n: Seq<char>| #[trigger] names(done@).contains(n)
                    <==> placed_before(completed_terms@, completed_terms@.len() as int).contains(n),
                forall|x: Seq<char>, y: Seq<char>| #[trigger] names(done@).contains(x) && #[trigger] reaches(self.concurs(), x, y)
                    ==> names(done@).contains(y),
                idle < 4,
                done@.len() <= total_courses_count,
                completed_terms@.len() > 0 ==> done@.len() > 0,
                completed_terms@.len() == 0 ==> done@.len() == 0,
                forall|n: Seq<char>| #[trigger] names(fall_courses@).contains(n) <==> offered_in(self.catalog(), 0).contains(n)
                    && !names(done@).contains(n),
                forall|n: Seq<char>| #[trigger] names(winter_courses@).contains(n) <==> offered_in(self.catalog(), 1).contains(n)
                    && !names(done@).contains(n),
                forall|n: Seq<char>| #[trigger] names(spring_courses@).contains(n) <==> offered_in(self.catalog(), 2).contains(n)
                    && !names(done@).contains(n),
                forall|n: Seq<char>| #[trigger] names(summer_courses@).contains(n) <==> offered_in(self.catalog(), 3).contains(n)
                    && !names(done@).contains(n),
                forall|j: int| 0 <= j < idle ==> #[trigger] kind_stuck(*self, (current_term.spec_index() + 3 - j) % 4, names(done@),
                    term_unit_limits@[(current_term.spec_index() + 3 - j) % 4]),
            decreases (total_courses_count - done@.len()) * 5 + 4 - idle,
        {
            let limit = term_unit_limits[current_term.index()];
            let mut term = Term::new(&current_term, limit);
            let ghost before = names(done@);
            let ghost cur = current_term.spec_index();
            let ghost cands_names = match current_term {
                TermType::Fall => names(fall_courses@),
                TermType::Winter => names(winter_courses@),
                TermType::Spring => names(spring_courses@),
                TermType::Summer => names(summer_courses@),
            };
            let ghost lists = (names(fall_courses@), names(winter_courses@), names(spring_courses@), names(summer_courses@));
            match current_term {
                TermType::Fall => self.fill_term(&mut term, &fall_courses, &mut done),
                TermType::Winter => self.fill_term(&mut term, &winter_courses, &mut done),
                TermType::Spring => self.fill_term(&mut term, &spring_courses, &mut done),
                TermType::Summer => self.fill_term(&mut term, &summer_courses, &mut done),
            }
            fall_courses = retain_unscheduled(&fall_courses, &done);
            winter_courses = retain_unscheduled(&winter_courses, &done);
            spring_courses = retain_unscheduled(&spring_courses, &done);
            summer_courses = retain_unscheduled(&summer_courses, &done);
            proof {
                assert(kind_at(cur) == current_term);
                assert forall|n: Seq<char>| before.contains(n) implies #[trigger] names(done@).contains(n) by {}
                assert forall|n: Seq<char>| #[trigger] names(fall_courses@).contains(n) <==> offered_in(self.catalog(), 0).contains(n)
                    && !names(done@).contains(n) by {
                    lemma_without_names_contains(lists.0, names(done@), n);
                }
                assert forall|n: Seq<char>| #[trigger] names(winter_courses@).contains(n) <==> offered_in(self.catalog(), 1).contains(n)
                    && !names(done@).contains(n) by {
                    lemma_without_names_contains(lists.1, names(done@), n);
                }
                assert forall|n: Seq<char>| #[trigger] names(spring_courses@).contains(n) <==> offered_in(self.catalog(), 2).contains(n)
                    && !names(done@).contains(n) by {
                    lemma_without_names_contains(lists.2, names(done@), n);
                }
                assert forall|n: Seq<char>| #[trigger] names(summer_courses@).contains(n) <==> offered_in(self.catalog(), 3).contains(n)
                    && !names(done@).contains(n) by {
                    lemma_without_names_contains(lists.3, names(done@), n);
                }
                assert forall|x: Seq<char>, y: Seq<char>| #[trigger] names(done@).contains(x) && #[trigger] reaches(self.concurs(), x, y)
                    implies names(done@).contains(y) by {
                    if before.contains(x) {
                        assert(before.contains(y));
                    }
                }
                names(done@).unique_seq_to_set();
                crate::catalog::lemma_names_set_len(*self);
                vstd::set_lib::lemma_len_subset(names(done@).to_set(), crate::catalog::names_of(self.catalog()).to_set());
                assert forall|n: Seq<char>| names(done@).to_set().contains(n) implies crate::catalog::names_of(self.catalog()).to_set().contains(n) by {
                    assert(self.has_course(n));
                }
            }
            if !term.is_empty() {
                proof {
                    assert forall|n: Seq<char>| #[trigger] term.has_course(n) implies self.has_course(n) && !before.contains(n) by {
                        assert(names(done@).contains(n));
                    }
                    assert forall|m: int| 0 <= m < self.catalog().len() && #[trigger] self.catalog()[m].spec_is_available(term.spec_kind())
                        && !before.contains(self.catalog()[m].name@) && !term.has_course(self.catalog()[m].name@)
                        implies blocked_with(*self, m, before.to_set(), term.spec_units(), term.spec_limit()) by {
                        lemma_offered_in_contains(self.catalog(), cur, m);
                        assert(cands_names.contains(self.catalog()[m].name@));
                        assert(!names(done@).contains(self.catalog()[m].name@));
                    }
                    lemma_plan_push(*self, completed_terms@, term, before, term_unit_limits@);
                    lemma_passes_push(*self, completed_terms@, term, term_unit_limits@, ps, pass_no);
                    let ps2 = ps.push(pass_no);
                    ps = ps2;
                }
                completed_terms.push(term);
                idle = 0;
            } else {
                proof {
                    assert(names(done@).take(before.len() as int) == before);
                    assert(names(done@) =~= before);
                    assert forall|m: int| 0 <= m < self.catalog().len() && #[trigger] self.catalog()[m].spec_is_available(kind_at(cur))
                        && !before.contains(self.catalog()[m].name@) implies blocked(*self, m, before, term_unit_limits@[cur]) by {
                        lemma_offered_in_contains(self.catalog(), cur, m);
                        assert(cands_names.contains(self.catalog()[m].name@));
                    }
                    assert(kind_stuck(*self, cur, names(done@), term_unit_limits@[cur]));
                    let prior = placed_before(completed_terms@, completed_terms@.len() as int);
                    assert forall|m: int| 0 <= m < self.catalog().len() && #[trigger] self.catalog()[m].spec_is_available(kind_at(pass_no % 4))
                        && !prior.contains(self.catalog()[m].name@) implies blocked_with(*self, m, prior, 0, term_unit_limits@[pass_no % 4]) by {
                        lemma_offered_in_contains(self.catalog(), cur, m);
                        assert(cands_names.contains(self.catalog()[m].name@));
                        assert(!names(done@).contains(self.catalog()[m].name@));
                        assert(before.to_set() =~= prior);
                    }
                    assert(pass_idle(*self, pass_no, prior, term_unit_limits@));
                }
                if idle == 3 {
                    proof {
                        if (exists|rank: spec_fn(Seq<char>) -> nat| ranked_by(*self, rank)) && prerequisites_coherent(*self)
                            && fits_somewhere(*self, term_unit_limits@) {
                            let rank = choose|rank: spec_fn(Seq<char>) -> nat| ranked_by(*self, rank);
                            assert forall|k: int| 0 <= k < 4 implies #[trigger] kind_stuck(*self, k, names(done@), term_unit_limits@[k]) by {
                                if k != cur {
                                    let j = if k == (cur + 3) % 4 { 0int } else if k == (cur + 2) % 4 { 1int } else { 2int };
                                    assert(k == (cur + 3 - j) % 4);
                                    assert(kind_stuck(*self, (cur + 3 - j) % 4, names(done@), term_unit_limits@[(cur + 3 - j) % 4]));
                                }
                            }
                            lemma_never_stuck(*self, names(done@), term_unit_limits@, rank);
                        }
                    }
                    return None;
                }
                idle = idle + 1;
                proof {
                    let nxt = current_term.spec_next().spec_index();
                    assert(nxt == (cur + 1) % 4);
                    assert forall|j: int| 0 <= j < idle implies #[trigger] kind_stuck(*self, (nxt + 3 - j) % 4, names(done@),
                        term_unit_limits@[(nxt + 3 - j) % 4]) by {
                        if j == 0 {
                            assert((nxt + 3 - j) % 4 == cur);
                        } else {
                            assert((nxt + 3 - j) % 4 == (cur + 3 - (j - 1)) % 4);
                            assert(kind_stuck(*self, (cur + 3 - (j - 1)) % 4, names(done@), term_unit_limits@[(cur + 3 - (j - 1)) % 4]));
                        }
                    }
                }
            }
            current_term = current_term.next();
            proof {
                pass_no = pass_no + 1;
            }
        }
        proof {
            if completed_terms.len() == 0 {
                assert(done@.len() == 0);
            }
            assert forall|n: Seq<char>| self.has_course(n) implies exists|k: int|
                0 <= k < completed_terms@.len() && #[trigger] completed_terms@[k].has_course(n) by {
                if !names(done@).contains(n) {
                    names(done@).unique_seq_to_set();
                    crate::catalog::lemma_names_set_len(*self);
                    let all = crate::catalog::names_of(self.catalog()).to_set();
                    assert(all.contains(n));
                    assert forall|m: Seq<char>| names(done@).to_set().contains(m) implies all.remove(n).contains(m) by {
                        assert(self.has_course(m));
                    }
                    vstd::set_lib::lemma_len_subset(names(done@).to_set(), all.remove(n));
                }
                assert(placed_before(completed_terms@, completed_terms@.len() as int).contains(n));
            }
        }
        if completed_terms.len() > 0 {
            proof {
                let w = ps;
                assert(passes_of(*self, completed_terms@, term_unit_limits@, w));
                assert(exists|p2: Seq<int>| #[trigger] passes_of(*self, completed_terms@, term_unit_limits@, p2));
            }
            let r = Some(completed_terms);
            assert(r.unwrap()@ == completed_terms@);
            r
        } else {
            None
        }
    }

    /// One pass of the planner over the candidates `cands` of one term: each
    /// candidate not yet done, whose prerequisites were all done before the
    /// pass and that fits, goes into `term` together with its whole
    /// concurrency group, which must fit as a unit.
    fn fill_term(&self, term: &mut Term, cands: &Vec<String>, done: &mut Vec<String>)
        requires
            self.wf(),
            self.partners_known(),
            old(term).wf(),
            old(term).entries().len() == 0,
            old(term).spec_units() == 0,
            forall|n: Seq<char>| #[trigger] names(cands@).contains(n) ==> offered_in(self.catalog(), old(term).spec_kind().spec_index()).contains(n),
            names(old(done)@).no_duplicates(),
            forall|n: Seq<char>| #[trigger] names(old(done)@).contains(n) ==> self.has_course(n),
            forall|x: Seq<char>, y: Seq<char>| #[trigger] names(old(done)@).contains(x) && #[trigger] reaches(self.concurs(), x, y)
                ==> names(old(done)@).contains(y),
        ensures
            final(term).spec_kind() == old(term).spec_kind(),
            final(term).spec_limit() == old(term).spec_limit(),
            self.pass_state(*final(term), final(done)@, names(old(done)@)),
            final(term).entries().len() == 0 ==> forall|i: int| 0 <= i < self.catalog().len()
                && #[trigger] names(cands@).contains(self.catalog()[i].name@) && !names(old(done)@).contains(self.catalog()[i].name@)
                ==> blocked(*self, i, names(old(done)@), old(term).spec_limit()),
            forall|m: int| 0 <= m < self.catalog().len()
                && #[trigger] names(cands@).contains(self.catalog()[m].name@) && !names(final(done)@).contains(self.catalog()[m].name@)
                ==> blocked_with(*self, m, names(old(done)@).to_set(), final(term).spec_units(), final(term).spec_limit()),
    {
        let n0 = done.len();
        let ghost snap = names(done@);
        let ghost prior = snap.to_set();
        let ghost rel = self.concurs();
        proof {
            assert(names(done@).take(n0 as int) =~= snap);
            assert forall|n: Seq<char>| !#[trigger] term.has_course(n) by {
                if term.has_course(n) {
                    let k = choose|k: int| 0 <= k < term.entries().len() && #[trigger] term.entries()[k].0 == n;
                }
            }
        }
        let mut i: usize = 0;
        while i < cands.len()
            invariant
                0 <= i <= cands.len(),
                self.wf(),
                self.partners_known(),
                rel == self.concurs(),
                n0 == snap.len(),
                prior == snap.to_set(),
                snap == names(old(done)@),
                forall|x: Seq<char>, y: Seq<char>| #[trigger] snap.contains(x) && #[trigger] reaches(rel, x, y) ==> snap.contains(y),
                term.spec_kind() == old(term).spec_kind(),
                term.spec_limit() == old(term).spec_limit(),
                forall|n: Seq<char>| #[trigger] names(cands@).contains(n) ==> offered_in(self.catalog(), term.spec_kind().spec_index()).contains(n),
                self.pass_state(*term, done@, snap),
                term.entries().len() == 0 ==> forall|m: int| 0 <= m < self.catalog().len()
                    && #[trigger] names(cands@).take(i as int).contains(self.catalog()[m].name@) && !snap.contains(self.catalog()[m].name@)
                    ==> blocked(*self, m, snap, term.spec_limit()),
                forall|m: int| 0 <= m < self.catalog().len()
                    && #[trigger] names(cands@).take(i as int).contains(self.catalog()[m].name@) && !names(done@).contains(self.catalog()[m].name@)
                    ==> blocked_with(*self, m, prior, term.spec_units(), term.spec_limit()),
            ensures
                i == cands.len() || term.spec_units() == term.spec_limit(),
            decreases cands.len() - i,
        {
            if term.is_full() {
                break;
            }
            let name = &cands[i];
            let ghost t_before = *term;
            let ghost done_before = *done;
            if !contains_name(done, name) {
                match self.find_course(name) {
                    None => {},
                    Some(pos) => {
                        let course = self.course_at(pos);
                        proof {
                            assert(names(cands@)[i as int] == name@);
                            assert(names(cands@).contains(name@));
                            let kind = term.spec_kind();
                            assert(kind_at(kind.spec_index()) == kind);
                            lemma_offered_in_has(self.catalog(), kind.spec_index(), name@);
                            let q = choose|q: int| 0 <= q < self.catalog().len() && #[trigger] self.catalog()[q].name@ == name@
                                && self.catalog()[q].spec_is_available(kind_at(kind.spec_index()));
                            crate::catalog::lemma_catalog_unique(*self, pos as int);
                            assert(q == pos);
                            assert(self.is_entry((course.name@, course.credits)));
                        }
                        if self.prerequisites_met(name, done, n0) && term.can_add_course(course) {
                            self.place_candidate(term, course, done, n0, Ghost(snap));
                        }
                    },
                }
            }
            proof {
                assert(names(cands@).take(i + 1) =~= names(cands@).take(i as int).push(name@));
                assert forall|m: int| 0 <= m < self.catalog().len()
                    && #[trigger] names(cands@).take(i + 1).contains(self.catalog()[m].name@) && !names(done@).contains(self.catalog()[m].name@)
                    implies blocked_with(*self, m, prior, term.spec_units(), term.spec_limit()) by {
                    let nm = self.catalog()[m].name@;
                    if names(cands@).take(i as int).contains(nm) {
                        assert(!names(done_before@).contains(nm)) by {
                            if names(done_before@).contains(nm) {
                                assert(snap.contains(nm) || t_before.has_course(nm));
                            }
                        }
                        assert(blocked_with(*self, m, prior, t_before.spec_units(), t_before.spec_limit()));
                    } else {
                        assert(names(cands@).take(i as int).push(name@).contains(nm));
                        if nm != name@ {
                            let k = choose|k: int| 0 <= k < i + 1 && #[trigger] names(cands@).take(i + 1)[k] == nm;
                            if k < i {
                                assert(names(cands@).take(i as int)[k] == nm);
                            }
                        }
                        assert(nm == name@);
                        lemma_catalog_has(*self, m);
                        crate::catalog::lemma_catalog_unique(*self, m);
                        assert(names(done@).take(n0 as int) == snap);
                        assert(!names(done_before@).contains(nm)) by {
                            if names(done_before@).contains(nm) {
                                assert(snap.contains(nm) || t_before.has_course(nm));
                            }
                        }
                        assert forall|d: Seq<char>| #[trigger] names(done@).take(n0 as int).contains(d) <==> prior.contains(d) by {}
                    }
                }
                if term.entries().len() == 0 {
                    assert(t_before.entries().len() == 0);
                    assert(t_before.spec_units() == 0);
                    assert forall|m: int| 0 <= m < self.catalog().len()
                        && #[trigger] names(cands@).take(i + 1).contains(self.catalog()[m].name@) && !snap.contains(self.catalog()[m].name@)
                        implies blocked(*self, m, snap, term.spec_limit()) by {
                        let nm = self.catalog()[m].name@;
                        if !names(cands@).take(i as int).contains(nm) {
                            assert(names(cands@).take(i as int).push(name@).contains(nm));
                            if nm != name@ {
                                let k = choose|k: int| 0 <= k < i + 1 && #[trigger] names(cands@).take(i + 1)[k] == nm;
                                if k < i {
                                    assert(names(cands@).take(i as int)[k] == nm);
                                }
                            }
                            assert(nm == name@);
                            lemma_catalog_has(*self, m);
                            assert(!t_before.has_course(nm)) by {
                                if t_before.has_course(nm) {
                                    let e = choose|e: int| 0 <= e < t_before.entries().len() && #[trigger] t_before.entries()[e].0 == nm;
                                }
                            }
                            crate::catalog::lemma_catalog_unique(*self, m);
                            assert(names(done@).take(n0 as int) == snap);
                        }
                    }
                }
            }
            i = i + 1;
        }
        proof {
            if i == cands.len() {
                assert(names(cands@).take(i as int) =~= names(cands@));
            }
            if term.entries().len() == 0 {
                assert(term.spec_units() == 0);
            }
        }
    }

    /// Places the candidate `course`, whose prerequisites are all among the
    /// first `n0` names of `done`, with its concurrency group when the group
    /// fits as a unit.
    fn place_candidate(&self, term: &mut Term, course: &Course, done: &mut Vec<String>, n0: usize, Ghost(snap): Ghost<Seq<Seq<char>>>)
        requires
            self.wf(),
            self.partners_known(),
            n0 == snap.len(),
            self.has_course(course.name@),
            !names(old(done)@).contains(course.name@),
            forall|d: Seq<char>| #[trigger] values_of(self.prereqs(), course.name@).contains(d) ==> snap.contains(d),
            course.credits + old(term).spec_units() <= old(term).spec_limit(),
            self.pass_state(*old(term), old(done)@, snap),
            self.offers(course.name@, old(term).spec_kind()),
            self.is_entry((course.name@, course.credits)),
        ensures
            final(term).spec_kind() == old(term).spec_kind(),
            final(term).spec_limit() == old(term).spec_limit(),
            self.pass_state(*final(term), final(done)@, snap),
            final(term).entries().len() >= old(term).entries().len(),
            final(term).spec_units() >= old(term).spec_units(),
            forall|n: Seq<char>| #[trigger] names(old(done)@).contains(n) ==> names(final(done)@).contains(n),
            final(term).entries().len() > old(term).entries().len() ==> final(term).has_course(course.name@),
            final(term).entries().len() == old(term).entries().len() ==> final(term).spec_units() == old(term).spec_units(),
            final(term).entries().len() == old(term).entries().len() ==> values_of(self.concurs(), course.name@).len() > 0
                && credits_in(self.catalog(), self.group(course.name@)) + old(term).spec_units() > old(term).spec_limit(),
    {
        proof {
            assert forall|b: Seq<char>| #[trigger] self.group(course.name@).contains(b) implies self.has_course(b) by {
                let w = choose|w: Seq<Seq<char>>| is_walk(self.concurs(), w) && w[0] == course.name@ && #[trigger] w.last() == b;
                assert(linked(self.concurs(), w[w.len() - 2], w[w.len() - 1]));
            }
        }
        match self.group_detail(&course.name) {
            Some((members, idx, total)) => {
                let room = term.unit_limit() - term.units();
                if total <= room as u128 {
                    self.place_with_group(term, course, &members, &idx, done, Ghost(snap));
                }
            },
            None => {
                self.place_alone(term, course, done, Ghost(snap));
            },
        }
    }

    /// The state of a pass that started with the names `snap` done: `done`
    /// holds them first, then exactly the courses placed in `t`.
    pub open spec fn pass_state(&self, t: Term, done: Seq<String>, snap: Seq<Seq<char>>) -> bool {
        &&& forall|x: Seq<char>, y: Seq<char>| #[trigger] snap.contains(x) && #[trigger] reaches(self.concurs(), x, y) ==> snap.contains(y)
        &&& names(done).take(snap.len() as int) == snap
        &&& t.wf()
        &&& t.spec_units() <= t.spec_limit()
        &&& names(done).no_duplicates()
        &&& forall|n: Seq<char>| #[trigger] names(done).contains(n) ==> self.has_course(n)
        &&& forall|e: (Seq<char>, u8)| #[trigger] t.entries().contains(e) ==> self.is_entry(e)
        &&& done.len() == snap.len() + t.entries().len()
        &&& forall|n: Seq<char>| #[trigger] names(done).contains(n) <==> snap.contains(n) || t.has_course(n)
        &&& forall|n: Seq<char>| #[trigger] t.has_course(n) ==> !snap.contains(n)
        &&& forall|x: Seq<char>, y: Seq<char>| #[trigger] t.has_course(x) && #[trigger] reaches(self.concurs(), x, y) ==> t.has_course(y)
        &&& forall|n: Seq<char>| #[trigger] t.has_course(n) ==> led_in(*self, t, n, snap.to_set())
    }

    /// Places `course`, which has no concurrency partner.
    fn place_alone(&self, term: &mut Term, course: &Course, done: &mut Vec<String>, Ghost(snap): Ghost<Seq<Seq<char>>>)
        requires
            self.wf(),
            self.has_course(course.name@),
            values_of(self.concurs(), course.name@).len() == 0,
            !names(old(done)@).contains(course.name@),
            forall|d: Seq<char>| #[trigger] values_of(self.prereqs(), course.name@).contains(d) ==> snap.contains(d),
            course.credits + old(term).spec_units() <= old(term).spec_limit(),
            self.pass_state(*old(term), old(done)@, snap),
            self.offers(course.name@, old(term).spec_kind()),
            self.is_entry((course.name@, course.credits)),
        ensures
            final(term).entries().len() > old(term).entries().len(),
            final(term).spec_units() >= old(term).spec_units(),
            final(term).has_course(course.name@),
            forall|n: Seq<char>| #[trigger] names(old(done)@).contains(n) ==> names(final(done)@).contains(n),
            final(term).spec_kind() == old(term).spec_kind(),
            final(term).spec_limit() == old(term).spec_limit(),
            self.pass_state(*final(term), final(done)@, snap),
    {
        let ghost rel = self.concurs();
        let ghost c = course.name@;
        let ghost prior = snap.to_set();
        let ghost t0 = *term;
        let ghost d0 = names(done@);
        let ghost n0 = snap.len() as int;
        proof {
            assert forall|y: Seq<char>| !reaches(rel, c, y) by {
                if reaches(rel, c, y) {
                    lemma_reached_is_key(rel, c, y);
                }
            }
            assert(!t0.has_course(c));
            Term::lemma_has_course_entry(t0, (c, course.credits));
        }
        term.add(course);
        done.push(course.name.clone());
        proof {
            let t1 = *term;
            Term::lemma_has_course_push(t0, t1, (c, course.credits));
            crate::term::lemma_push_contains(t0.entries(), (c, course.credits));
            assert(names(done@) =~= d0.push(c));
            assert(names(done@).take(n0) =~= d0.take(n0));
            assert forall|m: Seq<char>| #[trigger] names(done@).contains(m) <==> d0.contains(m) || m == c by {
                if names(done@).contains(m) && m != c {
                    let k = choose|k: int| 0 <= k < names(done@).len() && names(done@)[k] == m;
                    assert(d0[k] == m);
                }
                if d0.contains(m) {
                    let k = choose|k: int| 0 <= k < d0.len() && d0[k] == m;
                    assert(names(done@)[k] == m);
                }
                assert(names(done@)[d0.len() as int] == c);
            }
            assert(names(done@).no_duplicates()) by {
                assert forall|a: int, b: int| 0 <= a < b < names(done@).len() implies names(done@)[a] != names(done@)[b] by {
                    if b == d0.len() {
                        assert(d0.contains(names(done@)[a]));
                    }
                }
            }
            assert(!snap.contains(c)) by {
                if snap.contains(c) {
                    let k = choose|k: int| 0 <= k < snap.len() && snap[k] == c;
                    assert(d0.take(n0)[k] == c);
                    assert(d0[k] == c);
                }
            }
            assert forall|n: Seq<char>| #[trigger] t1.has_course(n) implies led_in(*self, t1, n, prior) by {
                if t0.has_course(n) {
                    let l = choose|l: Seq<char>| #[trigger] t0.has_course(l) && (l == n || reaches(rel, l, n))
                        && self.offers(l, t0.spec_kind()) && forall|d: Seq<char>| #[trigger] values_of(self.prereqs(), l).contains(d) ==> prior.contains(d);
                    assert(t1.has_course(l));
                } else {
                    assert forall|d: Seq<char>| #[trigger] values_of(self.prereqs(), c).contains(d) implies prior.contains(d) by {
                        assert(snap.contains(d));
                    }
                    assert(t1.has_course(c));
                }
            }
        }
    }

    /// Places `course` together with its whole concurrency group `members`,
    /// found at the catalog positions `idx`.
    fn place_with_group(
        &self,
        term: &mut Term,
        course: &Course,
        members: &Vec<String>,
        idx: &Vec<usize>,
        done: &mut Vec<String>,
        Ghost(snap): Ghost<Seq<Seq<char>>>,
    )
        requires
            self.wf(),
            self.partners_known(),
            values_of(self.concurs(), course.name@).len() > 0,
            names(members@).no_duplicates(),
            names(members@).to_set() == self.group(course.name@),
            idx@.len() == members@.len(),
            forall|k: int| 0 <= k < idx@.len() ==> #[trigger] idx@[k] < self.catalog().len()
                && self.catalog()[idx@[k] as int].name@ == names(members@)[k],
            old(term).spec_units() + idx_credits(self.catalog(), idx@) <= old(term).spec_limit(),
            !names(old(done)@).contains(course.name@),
            forall|d: Seq<char>| #[trigger] values_of(self.prereqs(), course.name@).contains(d) ==> snap.contains(d),
            self.pass_state(*old(term), old(done)@, snap),
            self.offers(course.name@, old(term).spec_kind()),
        ensures
            final(term).entries().len() > old(term).entries().len(),
            final(term).spec_units() >= old(term).spec_units(),
            final(term).has_course(course.name@),
            forall|n: Seq<char>| #[trigger] names(old(done)@).contains(n) ==> names(final(done)@).contains(n),
            final(term).spec_kind() == old(term).spec_kind(),
            final(term).spec_limit() == old(term).spec_limit(),
            self.pass_state(*final(term), final(done)@, snap),
    {
        let ghost rel = self.concurs();
        let ghost c = course.name@;
        let ghost prior = snap.to_set();
        let ghost t0 = *term;
        let ghost d0 = names(done@);
        let ghost n0 = snap.len() as int;
        proof {
            let v = values_of(rel, c)[0];
            assert(linked(rel, c, v));
            lemma_linked_reaches(rel, c, v);
            lemma_linked_symmetric(rel, c, v);
            lemma_reaches_extend(rel, c, v, c);
            assert(names(members@).to_set().contains(c));
            assert(members@.len() > 0);
            assert forall|n: Seq<char>| #[trigger] at_positions(*self, idx@, n) <==> reaches(rel, c, n) by {
                if at_positions(*self, idx@, n) {
                    let k = choose|k: int| 0 <= k < idx@.len() && #[trigger] self.catalog()[idx@[k] as int].name@ == n;
                    assert(names(members@)[k] == n);
                    assert(names(members@).to_set().contains(n));
                }
                if reaches(rel, c, n) {
                    assert(names(members@).to_set().contains(n));
                    let k = choose|k: int| 0 <= k < names(members@).len() && names(members@)[k] == n;
                    assert(self.catalog()[idx@[k] as int].name@ == n);
                }
            }
            assert forall|n: Seq<char>| #[trigger] at_positions(*self, idx@, n) implies !d0.contains(n) && !t0.has_course(n) by {
                lemma_reaches_symmetric(rel, c, n);
                if d0.contains(n) {
                    if snap.contains(n) {
                        assert(snap.contains(c));
                    } else {
                        assert(t0.has_course(c));
                    }
                }
            }
            assert forall|k1: int, k2: int| 0 <= k1 < idx@.len() && 0 <= k2 < idx@.len() && k1 != k2
                implies #[trigger] self.catalog()[idx@[k1] as int].name@ != #[trigger] self.catalog()[idx@[k2] as int].name@ by {
                assert(names(members@)[k1] != names(members@)[k2]);
            }
        }
        place_group(self, term, idx, done);
        proof {
            let t1 = *term;
            lemma_credits_prefix(*self, idx@, 0);
            assert(idx@.take(0) =~= Seq::<usize>::empty());
            assert(t1.has_course(c));
            assert forall|n: Seq<char>| #[trigger] t1.has_course(n) implies led_in(*self, t1, n, prior) by {
                if t0.has_course(n) {
                    let l = choose|l: Seq<char>| #[trigger] t0.has_course(l) && (l == n || reaches(rel, l, n))
                        && self.offers(l, t0.spec_kind()) && forall|d: Seq<char>| #[trigger] values_of(self.prereqs(), l).contains(d) ==> prior.contains(d);
                    assert(t1.has_course(l));
                } else {
                    assert(reaches(rel, c, n));
                    assert forall|d: Seq<char>| #[trigger] values_of(self.prereqs(), c).contains(d) implies prior.contains(d) by {
                        assert(snap.contains(d));
                    }
                }
            }
            assert forall|x: Seq<char>, y: Seq<char>| #[trigger] t1.has_course(x) && #[trigger] reaches(rel, x, y)
                implies t1.has_course(y) by {
                if !t0.has_course(x) {
                    assert(reaches(rel, c, x));
                    lemma_reaches_trans(rel, c, x, y);
                    assert(at_positions(*self, idx@, y));
                }
            }
            assert forall|n: Seq<char>| #[trigger] t1.has_course(n) implies !snap.contains(n) by {
                if !t0.has_course(n) {
                    assert(!d0.contains(n));
                    if snap.contains(n) {
                        let k = choose|k: int| 0 <= k < snap.len() && snap[k] == n;
                        assert(d0.take(n0)[k] == n);
                        assert(d0[k] == n);
                    }
                }
            }
            assert forall|n: Seq<char>| #[trigger] names(done@).contains(n) implies self.has_course(n) by {
                if !d0.contains(n) {
                    let k = choose|k: int| 0 <= k < idx@.len() && #[trigger] self.catalog()[idx@[k] as int].name@ == n;
                    lemma_catalog_has(*self, idx@[k] as int);
                }
            }
            assert(names(done@).take(n0) =~= d0.take(n0)) by {
                assert(names(done@).take(d0.len() as int) == d0);
                assert forall|k: int| 0 <= k < n0 implies names(done@).take(n0)[k] == d0.take(n0)[k] by {
                    assert(names(done@).take(d0.len() as int)[k] == d0[k]);
                }
            }
        }
    }
}

} // verus!
