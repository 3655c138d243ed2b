//! Laws that relate several operations of the catalog and the planner.
use vstd::prelude::*;
use crate::catalog::{Courses, appended_to, lemma_appended, lemma_reached_is_key, merged};
use crate::term::Term;
use crate::planner::{led_in, placed_before, valid_plan};
use crate::relation::{
    is_walk, lemma_linked_reaches, lemma_reaches_extend, lemma_reaches_symmetric, lemma_reaches_trans, linked,
    reaches, values_of, with_value, Relation,
};

verus! {

/// Any two members `x` and `y` of one concurrency group get the same answer
/// from `get_concurrents_for`: the same members and the same total credits.
pub proof fn lemma_closure_consistency(c: Courses, x: Seq<char>, y: Seq<char>)
    requires
        c.wf(),
        reaches(c.concurs(), x, y),
    ensures
        c.spec_concurrents(x) == c.spec_concurrents(y),
{
    let rel = c.concurs();
    lemma_reaches_symmetric(rel, x, y);
    assert forall|b: Seq<char>| reaches(rel, x, b) <==> reaches(rel, y, b) by {
        if reaches(rel, x, b) {
            lemma_reaches_trans(rel, y, x, b);
        }
        if reaches(rel, y, b) {
            lemma_reaches_trans(rel, x, y, b);
        }
    }
    assert(c.group(x) =~= c.group(y));
    lemma_reached_is_key(rel, x, y);
    lemma_reached_is_key(rel, y, x);
}

/// Every member of a concurrency group has the same prerequisites.
pub open spec fn prerequisites_coherent(c: Courses) -> bool {
    forall|x: Seq<char>, y: Seq<char>, d: Seq<char>| #[trigger] reaches(c.concurs(), x, y)
        ==> (#[trigger] values_of(c.prereqs(), x).contains(d) <==> values_of(c.prereqs(), y).contains(d))
}

/// In a plan of a catalog whose concurrency groups share their
/// prerequisites, each prerequisite of a planned course lies in a strictly
/// earlier term than the course.
pub proof fn lemma_prerequisites_ordered(c: Courses, terms: Seq<Term>, limits: Seq<u8>, k: int, n: Seq<char>, d: Seq<char>)
    requires
        valid_plan(c, terms, limits),
        prerequisites_coherent(c),
        0 <= k < terms.len(),
        terms[k].has_course(n),
        values_of(c.prereqs(), n).contains(d),
    ensures
        exists|j: int| 0 <= j < k && #[trigger] terms[j].has_course(d),
{
    assert(led_in(c, terms[k], n, placed_before(terms, k)));
    let l = choose|l: Seq<char>|
        #[trigger] terms[k].has_course(l) && (l == n || reaches(c.concurs(), l, n)) && forall|q: Seq<char>|
            #[trigger] values_of(c.prereqs(), l).contains(q) ==> placed_before(terms, k).contains(q);
    if l != n {
        assert(values_of(c.prereqs(), l).contains(d));
    }
    assert(placed_before(terms, k).contains(d));
}

/// A term of a plan holds either all of a concurrency group or none of it:
/// with any course it holds every course of that course's group.
pub proof fn lemma_groups_kept_whole(c: Courses, terms: Seq<Term>, limits: Seq<u8>, k: int, x: Seq<char>, y: Seq<char>)
    requires
        valid_plan(c, terms, limits),
        0 <= k < terms.len(),
        terms[k].has_course(x),
        c.group(x).contains(y),
    ensures
        terms[k].has_course(y),
{
    assert(reaches(c.concurs(), x, y));
}

/// `x` itself with everything it reaches.
pub open spec fn component(rel: Relation, x: Seq<char>) -> Set<Seq<char>> {
    Set::new(|y: Seq<char>| y == x || reaches(rel, x, y))
}

proof fn lemma_component_closed(rel: Relation, x: Seq<char>, z: Seq<char>, t: Seq<char>)
    requires
        component(rel, x).contains(z),
        linked(rel, z, t),
    ensures
        component(rel, x).contains(t),
{
    if z == x {
        lemma_linked_reaches(rel, x, t);
    } else {
        lemma_reaches_extend(rel, x, z, t);
    }
}

proof fn lemma_component_same(c: Courses, x: Seq<char>, z: Seq<char>, d: Seq<char>)
    requires
        c.wf(),
        prerequisites_coherent(c),
        component(c.concurs(), x).contains(z),
    ensures
        values_of(c.prereqs(), z).contains(d) == values_of(c.prereqs(), x).contains(d),
{
}

/// A walk after the link `a`-`b` is added stays in any set that holds its
/// start, is closed under the old links, and holds both ends of the new link
/// or neither.
proof fn lemma_walk_in_closed(old: Relation, new: Relation, a: Seq<char>, b: Seq<char>, w: Seq<Seq<char>>, s: Set<Seq<char>>, i: int)
    requires
        new == with_value(with_value(old, a, b), b, a),
        is_walk(new, w),
        0 <= i < w.len(),
        s.contains(w[0]),
        forall|z: Seq<char>, t: Seq<char>| s.contains(z) && #[trigger] linked(old, z, t) ==> s.contains(t),
        s.contains(a) == s.contains(b),
    ensures
        s.contains(w[i]),
    decreases i,
{
    if i > 0 {
        lemma_walk_in_closed(old, new, a, b, w, s, i - 1);
        let z = w[i - 1];
        let t = w[i];
        assert(linked(new, w[i - 1], w[i - 1 + 1]));
        let vz = values_of(old, z);
        let v1 = values_of(with_value(old, a, b), z);
        if z == a {
            assert(v1 == vz.push(b));
        } else {
            assert(v1 == vz);
        }
        if z == b {
            assert(values_of(new, z) == v1.push(a));
        } else {
            assert(values_of(new, z) == v1);
        }
        if !linked(old, z, t) {
            let k = choose|k: int| 0 <= k < values_of(new, z).len() && values_of(new, z)[k] == t;
            if z == b && k == v1.len() {
                assert(t == a);
            } else {
                assert(v1[k] == t);
                if z == a && k == vz.len() {
                    assert(t == b);
                } else {
                    assert(vz[k] == t);
                }
            }
        }
    }
}

/// Adding a prerequisite keeps every concurrency group sharing one set of
/// prerequisites.
pub proof fn lemma_add_prerequisite_keeps_coherence(before: Courses, after: Courses, a: Seq<char>, p: Seq<char>)
    requires
        before.wf(),
        prerequisites_coherent(before),
        after.concurs() == before.concurs(),
        appended_to(before.prereqs(), after.prereqs(), before.group(a).insert(a), p),
    ensures
        prerequisites_coherent(after),
{
    let rel = before.concurs();
    let t = before.group(a).insert(a);
    lemma_appended(before.prereqs(), after.prereqs(), t, p);
    assert forall|x: Seq<char>, y: Seq<char>, d: Seq<char>| #[trigger] reaches(after.concurs(), x, y)
        implies (#[trigger] values_of(after.prereqs(), x).contains(d) <==> values_of(after.prereqs(), y).contains(d)) by {
        lemma_reaches_symmetric(rel, x, y);
        if t.contains(x) {
            if x == a {
            } else {
                lemma_reaches_trans(rel, a, x, y);
            }
        }
        if t.contains(y) {
            if y == a {
            } else {
                lemma_reaches_trans(rel, a, y, x);
            }
        }
        assert(t.contains(x) == t.contains(y));
        assert(values_of(before.prereqs(), x).contains(d) == values_of(before.prereqs(), y).contains(d));
        if t.contains(x) {
            assert(values_of(after.prereqs(), x) == values_of(before.prereqs(), x).push(p));
            assert(values_of(after.prereqs(), y) == values_of(before.prereqs(), y).push(p));
        }
    }
}

/// Adding a concurrency keeps every concurrency group sharing one set of
/// prerequisites: the joined group carries the prerequisites of both sides.
pub proof fn lemma_add_concurrency_keeps_coherence(before: Courses, after: Courses, a: Seq<char>, b: Seq<char>)
    requires
        before.wf(),
        prerequisites_coherent(before),
        after.concurs() == with_value(with_value(before.concurs(), a, b), b, a),
        merged(
            before.prereqs(),
            after.prereqs(),
            values_of(before.prereqs(), a),
            values_of(before.prereqs(), b),
            before.group(a).insert(a),
            before.group(b).insert(b),
        ),
    ensures
        prerequisites_coherent(after),
{
    let rel = before.concurs();
    let pa = values_of(before.prereqs(), a);
    let pb = values_of(before.prereqs(), b);
    let ca = component(rel, a);
    let cb = component(rel, b);
    let u = ca.union(cb);
    assert(before.group(a).insert(a) =~= ca);
    assert(before.group(b).insert(b) =~= cb);
    assert forall|z: Seq<char>, t: Seq<char>| u.contains(z) && #[trigger] linked(rel, z, t) implies u.contains(t) by {
        if ca.contains(z) {
            lemma_component_closed(rel, a, z, t);
        } else {
            lemma_component_closed(rel, b, z, t);
        }
    }
    assert forall|z: Seq<char>, d: Seq<char>| u.contains(z) implies
        (#[trigger] values_of(after.prereqs(), z).contains(d) <==> pa.contains(d) || pb.contains(d)) by {
        if ca.contains(z) {
            lemma_component_same(before, a, z, d);
        } else {
            lemma_component_same(before, b, z, d);
        }
    }
    assert forall|x: Seq<char>, y: Seq<char>, d: Seq<char>| #[trigger] reaches(after.concurs(), x, y)
        implies (#[trigger] values_of(after.prereqs(), x).contains(d) <==> values_of(after.prereqs(), y).contains(d)) by {
        let w = choose|w: Seq<Seq<char>>| is_walk(after.concurs(), w) && w[0] == x && #[trigger] w.last() == y;
        if u.contains(x) {
            lemma_walk_in_closed(rel, after.concurs(), a, b, w, u, w.len() - 1);
            assert(values_of(after.prereqs(), y).contains(d) <==> pa.contains(d) || pb.contains(d));
        } else {
            let cx = component(rel, x);
            assert forall|z: Seq<char>, t: Seq<char>| cx.contains(z) && #[trigger] linked(rel, z, t) implies cx.contains(t) by {
                lemma_component_closed(rel, x, z, t);
            }
            assert(!cx.contains(a)) by {
                if cx.contains(a) && a != x {
                    lemma_reaches_symmetric(rel, x, a);
                }
            }
            assert(!cx.contains(b)) by {
                if cx.contains(b) && b != x {
                    lemma_reaches_symmetric(rel, x, b);
                }
            }
            lemma_walk_in_closed(rel, after.concurs(), a, b, w, cx, w.len() - 1);
            assert(cx.contains(y));
            assert(!u.contains(y)) by {
                if u.contains(y) && y != x {
                    lemma_reaches_symmetric(rel, x, y);
                    if ca.contains(y) {
                        if y == a {
                        } else {
                            lemma_reaches_trans(rel, a, y, x);
                        }
                    } else {
                        if y == b {
                        } else {
                            lemma_reaches_trans(rel, b, y, x);
                        }
                    }
                }
            }
            assert(values_of(after.prereqs(), x) == values_of(before.prereqs(), x));
            assert(values_of(after.prereqs(), y) == values_of(before.prereqs(), y));
            lemma_component_same(before, x, y, d);
        }
    }
}

} // verus!
