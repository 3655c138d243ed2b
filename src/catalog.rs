//! The catalog store: courses, prerequisites and concurrencies.
use vstd::prelude::*;
use crate::course::{Course, TermType};
use crate::relation::{
    contains_name, contains_name_before, is_walk, lemma_linked_reaches, lemma_occurrences_contains,
    lemma_occurrences_push, lemma_occurrences_remove, lemma_reaches_extend, lemma_without_absent,
    lemma_without_first, linked, multimap_entries, names, occurrences, position_of, reach_set, reaches,
    relation_contains_key, relation_get, relation_insert, relation_new, relation_remove_at, symmetric,
    values_of, with_value, without_value, NameMultiMap, Relation,
};

verus! {

pub open spec fn names_of(cat: Seq<Course>) -> Seq<Seq<char>> {
    cat.map_values(|c: Course| c.name@)
}

/// Names of the courses of `cat` that belong to `s`, in catalog order.
pub open spec fn members_in(cat: Seq<Course>, s: Set<Seq<char>>) -> Seq<Seq<char>>
    decreases cat.len(),
{
    if cat.len() == 0 {
        Seq::empty()
    } else if s.contains(cat.last().name@) {
        members_in(cat.drop_last(), s).push(cat.last().name@)
    } else {
        members_in(cat.drop_last(), s)
    }
}

/// Total credits of the courses of `cat` that belong to `s`.
pub open spec fn credits_in(cat: Seq<Course>, s: Set<Seq<char>>) -> int
    decreases cat.len(),
{
    if cat.len() == 0 {
        0
    } else if s.contains(cat.last().name@) {
        credits_in(cat.drop_last(), s) + cat.last().credits as int
    } else {
        credits_in(cat.drop_last(), s)
    }
}

/// Names of the courses of `cat` offered in the term kind at position `k`.
pub open spec fn offered_in(cat: Seq<Course>, k: int) -> Seq<Seq<char>>
    decreases cat.len(),
{
    if cat.len() == 0 {
        Seq::empty()
    } else if cat.last().spec_is_available(kind_at(k)) {
        offered_in(cat.drop_last(), k).push(cat.last().name@)
    } else {
        offered_in(cat.drop_last(), k)
    }
}

pub open spec fn kind_at(k: int) -> TermType {
    if k == 0 {
        TermType::Fall
    } else if k == 1 {
        TermType::Winter
    } else if k == 2 {
        TermType::Spring
    } else {
        TermType::Summer
    }
}

/// Total credits of the courses at positions `idx` of `cat`.
pub open spec fn idx_credits(cat: Seq<Course>, idx: Seq<usize>) -> int
    decreases idx.len(),
{
    if idx.len() == 0 {
        0
    } else {
        idx_credits(cat, idx.drop_last()) + cat[idx.last() as int].credits as int
    }
}

pub proof fn lemma_offered_in_has(cat: Seq<Course>, k: int, n: Seq<char>)
    requires
        offered_in(cat, k).contains(n),
    ensures
        exists|i: int| 0 <= i < cat.len() && #[trigger] cat[i].name@ == n && cat[i].spec_is_available(kind_at(k)),
    decreases cat.len(),
{
    let r = offered_in(cat.drop_last(), k);
    if cat.last().spec_is_available(kind_at(k)) && n == cat.last().name@ {
        assert(cat[cat.len() - 1].name@ == n);
    } else {
        if cat.last().spec_is_available(kind_at(k)) {
            let j = choose|j: int| 0 <= j < r.push(cat.last().name@).len() && r.push(cat.last().name@)[j] == n;
            assert(r[j] == n);
        }
        lemma_offered_in_has(cat.drop_last(), k, n);
        let i = choose|i: int| 0 <= i < cat.drop_last().len() && #[trigger] cat.drop_last()[i].name@ == n
            && cat.drop_last()[i].spec_is_available(kind_at(k));
        assert(cat[i] == cat.drop_last()[i]);
    }
}

pub proof fn lemma_credits_in_member(cat: Seq<Course>, s: Set<Seq<char>>, g: int)
    requires
        0 <= g < cat.len(),
        s.contains(cat[g].name@),
    ensures
        cat[g].credits <= credits_in(cat, s),
    decreases cat.len(),
{
    lemma_members_bounds(cat.drop_last(), s);
    if g < cat.len() - 1 {
        assert(cat.drop_last()[g] == cat[g]);
        lemma_credits_in_member(cat.drop_last(), s, g);
    }
}

pub proof fn lemma_members_bounds(cat: Seq<Course>, s: Set<Seq<char>>)
    ensures
        0 <= credits_in(cat, s) <= 255 * cat.len(),
        forall|n: Seq<char>| #[trigger] members_in(cat, s).contains(n) <==> (s.contains(n) && names_of(cat).contains(n)),
        names_of(cat).no_duplicates() ==> members_in(cat, s).no_duplicates(),
    decreases cat.len(),
{
    if cat.len() > 0 {
        let rest = cat.drop_last();
        lemma_members_bounds(rest, s);
        assert(names_of(rest) =~= names_of(cat).drop_last());
        assert forall|n: Seq<char>| #[trigger] names_of(cat).contains(n) <==> (names_of(rest).contains(n) || n == cat.last().name@) by {
            if names_of(cat).contains(n) && n != cat.last().name@ {
                let i = choose|i: int| 0 <= i < names_of(cat).len() && names_of(cat)[i] == n;
                assert(names_of(rest)[i] == n);
            }
            if names_of(rest).contains(n) {
                let i = choose|i: int| 0 <= i < names_of(rest).len() && names_of(rest)[i] == n;
                assert(names_of(cat)[i] == n);
            }
            assert(names_of(cat)[cat.len() - 1] == cat.last().name@);
        }
        let m = members_in(rest, s);
        let x = cat.last().name@;
        assert forall|n: Seq<char>| #[trigger] m.push(x).contains(n) <==> (m.contains(n) || n == x) by {
            if m.push(x).contains(n) && n != x {
                let i = choose|i: int| 0 <= i < m.push(x).len() && m.push(x)[i] == n;
                assert(m[i] == n);
            }
            if m.contains(n) {
                let i = choose|i: int| 0 <= i < m.len() && m[i] == n;
                assert(m.push(x)[i] == n);
            }
            assert(m.push(x)[m.len() as int] == x);
        }
        if names_of(cat).no_duplicates() {
            assert(names_of(rest).no_duplicates()) by {
                assert forall|i: int, j: int| 0 <= i < j < names_of(rest).len() implies names_of(rest)[i] != names_of(rest)[j] by {
                    assert(names_of(rest)[i] == names_of(cat)[i] && names_of(rest)[j] == names_of(cat)[j]);
                }
            }
            assert(!names_of(rest).contains(cat.last().name@)) by {
                if names_of(rest).contains(cat.last().name@) {
                    let i = choose|i: int| 0 <= i < names_of(rest).len() && names_of(rest)[i] == cat.last().name@;
                    assert(names_of(cat)[i] == names_of(cat)[cat.len() - 1]);
                }
            }
            if s.contains(x) {
                assert forall|i: int, j: int| 0 <= i < j < m.push(x).len() implies m.push(x)[i] != m.push(x)[j] by {
                    if j == m.len() {
                        assert(m.contains(m.push(x)[i]));
                    } else {
                        assert(m.push(x)[i] == m[i] && m.push(x)[j] == m[j]);
                    }
                }
            }
        }
    }
}

/// `after` is `before` with `p` appended to the list of each name of `targets`.
pub open spec fn appended_to(before: Relation, after: Relation, targets: Set<Seq<char>>, p: Seq<char>) -> bool {
    &&& forall|x: Seq<char>| #[trigger] after.contains_key(x) == (before.contains_key(x) || targets.contains(x))
    &&& forall|x: Seq<char>| after.contains_key(x) ==> #[trigger] after[x] == if targets.contains(x) {
        values_of(before, x).push(p)
    } else {
        before[x]
    }
}

/// Keys and prerequisite entries only grow from `before` to `after`.
pub open spec fn grows(before: Relation, after: Relation) -> bool {
    &&& forall|x: Seq<char>| before.contains_key(x) ==> #[trigger] after.contains_key(x)
    &&& forall|x: Seq<char>, q: Seq<char>| #[trigger] values_of(before, x).contains(q) ==> values_of(after, x).contains(q)
}

/// Every key that `after` has and `before` lacks holds at least one value.
pub open spec fn no_empty_key_added(before: Relation, after: Relation) -> bool {
    forall|x: Seq<char>| #[trigger] after.contains_key(x) ==> before.contains_key(x) || values_of(after, x).len() > 0
}

/// The prerequisites of `a` missing from `b` (`pa` and `pb` are their lists)
/// went to every name of `gb`, those of `b` missing from `a` to every name of
/// `ga`, and nothing else changed.
pub open spec fn merged(
    before: Relation,
    after: Relation,
    pa: Seq<Seq<char>>,
    pb: Seq<Seq<char>>,
    ga: Set<Seq<char>>,
    gb: Set<Seq<char>>,
) -> bool {
    &&& grows(before, after)
    &&& no_empty_key_added(before, after)
    &&& forall|q: Seq<char>, x: Seq<char>| pa.contains(q) && !pb.contains(q) && gb.contains(x)
        ==> #[trigger] values_of(after, x).contains(q)
    &&& forall|q: Seq<char>, x: Seq<char>| pb.contains(q) && !pa.contains(q) && ga.contains(x)
        ==> #[trigger] values_of(after, x).contains(q)
    &&& forall|x: Seq<char>, q: Seq<char>| #[trigger] values_of(after, x).contains(q) && !values_of(before, x).contains(q)
        ==> (pa.contains(q) && !pb.contains(q) && gb.contains(x)) || (pb.contains(q) && !pa.contains(q) && ga.contains(x))
    &&& forall|x: Seq<char>| !ga.contains(x) && !gb.contains(x) ==> #[trigger] values_of(after, x) == values_of(before, x)
        && after.contains_key(x) == before.contains_key(x)
}

pub proof fn lemma_appended(before: Relation, after: Relation, targets: Set<Seq<char>>, p: Seq<char>)
    requires
        appended_to(before, after, targets, p),
    ensures
        grows(before, after),
        no_empty_key_added(before, after),
        forall|x: Seq<char>| targets.contains(x) ==> #[trigger] values_of(after, x).contains(p),
        forall|x: Seq<char>, q: Seq<char>| #[trigger] values_of(after, x).contains(q) && !values_of(before, x).contains(q)
            ==> q == p && targets.contains(x),
        forall|x: Seq<char>| !targets.contains(x) ==> #[trigger] values_of(after, x) == values_of(before, x)
            && after.contains_key(x) == before.contains_key(x),
{
    assert forall|x: Seq<char>| #[trigger] after.contains_key(x) implies before.contains_key(x) || values_of(after, x).len() > 0 by {
        if targets.contains(x) {
            assert(values_of(after, x) == values_of(before, x).push(p));
        }
    }
    assert forall|x: Seq<char>, q: Seq<char>| #[trigger] values_of(after, x).contains(q) <==> (values_of(before, x).contains(q)
        || (q == p && targets.contains(x))) by {
        if targets.contains(x) {
            let s = values_of(before, x);
            assert(values_of(after, x) == s.push(p));
            if s.push(p).contains(q) && q != p {
                let k = choose|k: int| 0 <= k < s.push(p).len() && s.push(p)[k] == q;
                assert(s[k] == q);
            }
            if s.contains(q) {
                let k = choose|k: int| 0 <= k < s.len() && s[k] == q;
                assert(s.push(p)[k] == q);
            }
            assert(s.push(p)[s.len() as int] == p);
        }
    }
}

proof fn lemma_no_empty_key_trans(a: Relation, b: Relation, c: Relation)
    requires
        no_empty_key_added(a, b),
        no_empty_key_added(b, c),
        grows(b, c),
    ensures
        no_empty_key_added(a, c),
{
    assert forall|x: Seq<char>| #[trigger] c.contains_key(x) implies a.contains_key(x) || values_of(c, x).len() > 0 by {
        if b.contains_key(x) && !a.contains_key(x) {
            assert(values_of(b, x).contains(values_of(b, x)[0]));
            assert(values_of(c, x).contains(values_of(b, x)[0]));
        }
    }
}

pub struct Courses {
    master_list: Vec<Course>,
    prerequisites: NameMultiMap,
    concurrencies: NameMultiMap,
}

impl Courses {
    /// The courses, in the order they were first added.
    pub closed spec fn catalog(&self) -> Seq<Course> {
        self.master_list@
    }

    /// Each course with the names of its prerequisites.
    pub closed spec fn prereqs(&self) -> Relation {
        multimap_entries(self.prerequisites)
    }

    /// Each course with the names of its concurrency partners.
    pub closed spec fn concurs(&self) -> Relation {
        multimap_entries(self.concurrencies)
    }

    /// Course names are unique, and the concurrency relation is finite and
    /// symmetric.
    pub open spec fn wf(&self) -> bool {
        &&& names_of(self.catalog()).no_duplicates()
        &&& self.concurs().dom().finite()
        &&& symmetric(self.concurs())
    }

    /// The concurrency group reached from `x`.
    pub open spec fn group(&self, x: Seq<char>) -> Set<Seq<char>> {
        reach_set(self.concurs(), x)
    }

    pub open spec fn has_course(&self, x: Seq<char>) -> bool {
        names_of(self.catalog()).contains(x)
    }

    /// Every concurrency partner named in the relation is a course of the catalog.
    pub open spec fn partners_known(&self) -> bool {
        forall|a: Seq<char>, b: Seq<char>| #[trigger] linked(self.concurs(), a, b) ==> self.has_course(b)
    }

    /// `e` is the name and the credits of a course of the catalog.
    pub open spec fn is_entry(&self, e: (Seq<char>, u8)) -> bool {
        exists|i: int| 0 <= i < self.catalog().len() && #[trigger] self.catalog()[i].name@ == e.0
            && self.catalog()[i].credits == e.1
    }

    /// The course named `n` is offered in terms of kind `kind`.
    pub open spec fn offers(&self, n: Seq<char>, kind: TermType) -> bool {
        exists|i: int| 0 <= i < self.catalog().len() && #[trigger] self.catalog()[i].name@ == n
            && self.catalog()[i].spec_is_available(kind)
    }

    /// Every member of the concurrency group of `x` is a course of the catalog.
    pub open spec fn group_known(&self, x: Seq<char>) -> bool {
        forall|b: Seq<char>| #[trigger] self.group(x).contains(b) ==> self.has_course(b)
    }

    /// What `get_concurrents_for(x)` returns: nothing when `x` has no partner,
    /// else the catalog's members of its group and their total credits.
    pub open spec fn spec_concurrents(&self, x: Seq<char>) -> Option<(Seq<Seq<char>>, int)> {
        if values_of(self.concurs(), x).len() == 0 {
            None
        } else {
            Some((members_in(self.catalog(), self.group(x)), credits_in(self.catalog(), self.group(x))))
        }
    }

    pub fn new() -> (r: Courses)
        ensures
            r.wf(),
            r.catalog() == Seq::<Course>::empty(),
            r.prereqs() == Relation::empty(),
            r.concurs() == Relation::empty(),
    {
        let r = Courses {
            master_list: Vec::new(),
            prerequisites: relation_new(),
            concurrencies: relation_new(),
        };
        assert(names_of(r.catalog()) =~= Seq::<Seq<char>>::empty());
        r
    }

    /// Adds to `seen`, and to `stack`, each partner of `x` not seen yet.
    fn push_unseen(&self, x: &String, seen: &mut Vec<String>, stack: &mut Vec<String>)
        requires
            names(old(seen)@).no_duplicates(),
            names(old(stack)@).no_duplicates(),
            forall|n: Seq<char>| #[trigger] names(old(stack)@).contains(n) ==> names(old(seen)@).contains(n),
        ensures
            names(final(seen)@).no_duplicates(),
            names(final(stack)@).no_duplicates(),
            forall|n: Seq<char>| #[trigger] names(final(stack)@).contains(n) ==> names(final(seen)@).contains(n),
            forall|n: Seq<char>| linked(self.concurs(), x@, n) ==> #[trigger] names(final(seen)@).contains(n),
            forall|n: Seq<char>| #[trigger] names(final(seen)@).contains(n) ==> names(old(seen)@).contains(n)
                || linked(self.concurs(), x@, n),
            forall|n: Seq<char>| #[trigger] names(old(seen)@).contains(n) ==> names(final(seen)@).contains(n),
            forall|n: Seq<char>| #[trigger] names(final(stack)@).contains(n) <==> (names(old(stack)@).contains(n)
                || (names(final(seen)@).contains(n) && !names(old(seen)@).contains(n))),
            final(seen)@.len() - old(seen)@.len() == final(stack)@.len() - old(stack)@.len(),
            final(seen)@.len() >= old(seen)@.len(),
    {
        let partners = match relation_get(&self.concurrencies, x) {
            Some(v) => v,
            None => Vec::new(),
        };
        assert(names(partners@) == values_of(self.concurs(), x@));
        let ghost seen0 = names(seen@);
        let ghost stack0 = names(stack@);
        let mut i: usize = 0;
        while i < partners.len()
            invariant
                0 <= i <= partners.len(),
                names(partners@) == values_of(self.concurs(), x@),
                names(seen@).no_duplicates(),
                names(stack@).no_duplicates(),
                forall|n: Seq<char>| #[trigger] names(stack@).contains(n) ==> names(seen@).contains(n),
                forall|j: int| 0 <= j < i ==> names(seen@).contains(#[trigger] names(partners@)[j]),
                forall|n: Seq<char>| #[trigger] names(seen@).contains(n) ==> seen0.contains(n) || linked(self.concurs(), x@, n),
                forall|n: Seq<char>| #[trigger] seen0.contains(n) ==> names(seen@).contains(n),
                forall|n: Seq<char>| #[trigger] names(stack@).contains(n) <==> (stack0.contains(n)
                    || (names(seen@).contains(n) && !seen0.contains(n))),
                seen@.len() - seen0.len() == stack@.len() - stack0.len(),
                seen@.len() >= seen0.len(),
            decreases partners.len() - i,
        {
            let n = &partners[i];
            assert(names(partners@)[i as int] == n@);
            assert(linked(self.concurs(), x@, n@)) by {
                assert(values_of(self.concurs(), x@)[i as int] == n@);
            }
            if !contains_name(seen, n) {
                let ghost s_before = names(seen@);
                let ghost t_before = names(stack@);
                seen.push(n.clone());
                stack.push(n.clone());
                assert(names(seen@) =~= s_before.push(n@));
                assert(names(stack@) =~= t_before.push(n@));
                assert(!t_before.contains(n@));
                assert forall|m: Seq<char>| #[trigger] s_before.push(n@).contains(m) <==> (s_before.contains(m) || m == n@) by {
                    if s_before.push(n@).contains(m) && m != n@ {
                        let k = choose|k: int| 0 <= k < s_before.push(n@).len() && s_before.push(n@)[k] == m;
                        assert(s_before[k] == m);
                    }
                    if s_before.contains(m) {
                        let k = choose|k: int| 0 <= k < s_before.len() && s_before[k] == m;
                        assert(s_before.push(n@)[k] == m);
                    }
                    assert(s_before.push(n@)[s_before.len() as int] == n@);
                }
                assert forall|m: Seq<char>| #[trigger] t_before.push(n@).contains(m) <==> (t_before.contains(m) || m == n@) by {
                    if t_before.push(n@).contains(m) && m != n@ {
                        let k = choose|k: int| 0 <= k < t_before.push(n@).len() && t_before.push(n@)[k] == m;
                        assert(t_before[k] == m);
                    }
                    if t_before.contains(m) {
                        let k = choose|k: int| 0 <= k < t_before.len() && t_before[k] == m;
                        assert(t_before.push(n@)[k] == m);
                    }
                    assert(t_before.push(n@)[t_before.len() as int] == n@);
                }
                assert(names(seen@).no_duplicates()) by {
                    assert forall|a: int, b: int| 0 <= a < b < names(seen@).len() implies names(seen@)[a] != names(seen@)[b] by {
                        if b == s_before.len() {
                            assert(s_before.contains(names(seen@)[a]));
                        }
                    }
                }
                assert(names(stack@).no_duplicates()) by {
                    assert forall|a: int, b: int| 0 <= a < b < names(stack@).len() implies names(stack@)[a] != names(stack@)[b] by {
                        if b == t_before.len() {
                            assert(t_before.contains(names(stack@)[a]));
                        }
                    }
                }
            }
            i = i + 1;
        }
        proof {
            assert forall|n: Seq<char>| linked(self.concurs(), x@, n) implies #[trigger] names(seen@).contains(n) by {
                let j = choose|j: int| 0 <= j < names(partners@).len() && names(partners@)[j] == n;
            }
        }
    }

    /// The concurrency group reached from `start`, by a depth-first walk with an
    /// explicit stack; each name is visited once.
    fn group_members(&self, start: &String) -> (r: Vec<String>)
        requires
            self.wf(),
        ensures
            names(r@).no_duplicates(),
            forall|b: Seq<char>| #[trigger] names(r@).contains(b) <==> reaches(self.concurs(), start@, b),
    {
        let ghost rel = self.concurs();
        let mut seen: Vec<String> = Vec::new();
        let mut stack: Vec<String> = Vec::new();
        assert(names(seen@) =~= Seq::<Seq<char>>::empty());
        assert(names(stack@) =~= Seq::<Seq<char>>::empty());
        self.push_unseen(start, &mut seen, &mut stack);
        proof {
            assert forall|n: Seq<char>| #[trigger] names(seen@).contains(n) implies reaches(rel, start@, n) by {
                lemma_linked_reaches(rel, start@, n);
            }
            assert forall|n: Seq<char>| #[trigger] names(seen@).contains(n) implies rel.dom().contains(n) by {
                lemma_reached_is_key(rel, start@, n);
            }
            names(seen@).unique_seq_to_set();
            vstd::set_lib::lemma_len_subset(names(seen@).to_set(), rel.dom());
        }
        while stack.len() > 0
            invariant
                self.wf(),
                rel == self.concurs(),
                names(seen@).no_duplicates(),
                names(stack@).no_duplicates(),
                seen@.len() <= rel.dom().len(),
                forall|n: Seq<char>| #[trigger] names(stack@).contains(n) ==> names(seen@).contains(n),
                forall|n: Seq<char>| #[trigger] names(seen@).contains(n) ==> reaches(rel, start@, n),
                forall|n: Seq<char>| linked(rel, start@, n) ==> #[trigger] names(seen@).contains(n),
                forall|y: Seq<char>, n: Seq<char>| names(seen@).contains(y) && !names(stack@).contains(y)
                    && #[trigger] linked(rel, y, n) ==> names(seen@).contains(n),
            decreases 2 * (rel.dom().len() - seen@.len()) + stack@.len(),
        {
            let ghost seen_before = names(seen@);
            let ghost stack_full = names(stack@);
            let x = stack.pop().unwrap();
            assert(stack_full =~= names(stack@).push(x@));
            assert forall|n: Seq<char>| #[trigger] names(stack@).contains(n) implies stack_full.contains(n) && n != x@ by {
                {
                    let k = choose|k: int| 0 <= k < names(stack@).len() && names(stack@)[k] == n;
                    assert(stack_full[k] == n);
                    assert(stack_full[stack_full.len() - 1] == x@);
                }
            }
            assert(stack_full.contains(x@)) by {
                assert(stack_full[stack_full.len() - 1] == x@);
            }
            assert(names(stack@).no_duplicates()) by {
                assert forall|a: int, b: int| 0 <= a < b < names(stack@).len() implies names(stack@)[a] != names(stack@)[b] by {
                    assert(stack_full[a] == names(stack@)[a] && stack_full[b] == names(stack@)[b]);
                }
            }
            let ghost stack_mid = names(stack@);
            self.push_unseen(&x, &mut seen, &mut stack);
            proof {
                assert forall|n: Seq<char>| linked(rel, start@, n) implies #[trigger] names(seen@).contains(n) by {
                    assert(seen_before.contains(n));
                }
                assert forall|n: Seq<char>| #[trigger] names(seen@).contains(n) implies reaches(rel, start@, n) by {
                    if !seen_before.contains(n) {
                        lemma_reaches_extend(rel, start@, x@, n);
                    }
                }
                assert forall|y: Seq<char>, n: Seq<char>| names(seen@).contains(y) && !names(stack@).contains(y)
                    && #[trigger] linked(rel, y, n) implies names(seen@).contains(n) by {
                    if y != x@ {
                        assert(!stack_mid.contains(y));
                        assert(seen_before.contains(y));
                        if stack_full.contains(y) {
                            let k = choose|k: int| 0 <= k < stack_full.len() && stack_full[k] == y;
                            if k < stack_full.len() - 1 {
                                assert(stack_mid[k] == y);
                            }
                        }
                    }
                }
                assert forall|n: Seq<char>| #[trigger] names(seen@).contains(n) implies rel.dom().contains(n) by {
                    lemma_reached_is_key(rel, start@, n);
                }
                names(seen@).unique_seq_to_set();
                vstd::set_lib::lemma_len_subset(names(seen@).to_set(), rel.dom());
            }
        }
        proof {
            assert forall|b: Seq<char>| reaches(rel, start@, b) implies #[trigger] names(seen@).contains(b) by {
                let w = choose|w: Seq<Seq<char>>| is_walk(rel, w) && w[0] == start@ && #[trigger] w.last() == b;
                lemma_walk_stays(rel, w, names(seen@), w.len() - 1);
            }
        }
        seen
    }

    /// The catalog's members of the group of `course`, by name and by
    /// position, with their total credits.
    pub(crate) fn group_detail(&self, course: &String) -> (r: Option<(Vec<String>, Vec<usize>, u128)>)
        requires
            self.wf(),
        ensures
            r.is_none() == self.spec_concurrents(course@).is_none(),
            r.is_some() ==> self.spec_concurrents(course@) == Some(
                (names(r.unwrap().0@), r.unwrap().2 as int),
            ),
            r.is_some() ==> names(r.unwrap().0@).no_duplicates(),
            r.is_some() && self.group_known(course@) ==> names(r.unwrap().0@).to_set() == self.group(course@),
            r.is_some() ==> r.unwrap().1@.len() == r.unwrap().0@.len()
                && r.unwrap().2 as int == idx_credits(self.catalog(), r.unwrap().1@)
                && forall|k: int| 0 <= k < r.unwrap().1@.len() ==> #[trigger] r.unwrap().1@[k] < self.catalog().len()
                    && self.catalog()[r.unwrap().1@[k] as int].name@ == names(r.unwrap().0@)[k],
    {
        let members = self.group_members(course);
        if members.len() == 0 {
            proof {
                if values_of(self.concurs(), course@).len() > 0 {
                    let n = values_of(self.concurs(), course@)[0];
                    assert(linked(self.concurs(), course@, n));
                    lemma_linked_reaches(self.concurs(), course@, n);
                    assert(names(members@).contains(n));
                }
            }
            return None;
        }
        proof {
            assert(names(members@).contains(names(members@)[0]));
            lemma_reached_is_key(self.concurs(), course@, names(members@)[0]);
        }
        let ghost grp = self.group(course@);
        let mut out: Vec<String> = Vec::new();
        let mut idx: Vec<usize> = Vec::new();
        let mut total: u128 = 0;
        let mut i: usize = 0;
        while i < self.master_list.len()
            invariant
                0 <= i <= self.master_list.len(),
                grp == self.group(course@),
                forall|b: Seq<char>| #[trigger] names(members@).contains(b) <==> reaches(self.concurs(), course@, b),
                names(out@) == members_in(self.catalog().take(i as int), grp),
                total as int == credits_in(self.catalog().take(i as int), grp),
                idx@.len() == out@.len(),
                total as int == idx_credits(self.catalog(), idx@),
                forall|k: int| 0 <= k < idx@.len() ==> #[trigger] idx@[k] < i
                    && self.catalog()[idx@[k] as int].name@ == names(out@)[k],
            decreases self.master_list.len() - i,
        {
            let c = &self.master_list[i];
            let ghost cat_i = self.catalog().take(i as int);
            let ghost cat_next = self.catalog().take(i + 1);
            assert(cat_next.drop_last() =~= cat_i);
            assert(cat_next.last() == *c);
            proof {
                lemma_members_bounds(cat_i, grp);
                assert(255 * (i as int) <= 255 * (usize::MAX as int)) by (nonlinear_arith)
                    requires i <= usize::MAX;
            }
            if contains_name(&members, &c.name) {
                assert(grp.contains(c.name@));
                let ghost idx0 = idx@;
                out.push(c.name.clone());
                idx.push(i);
                total = total + c.credits as u128;
                assert(names(out@) =~= members_in(cat_i, grp).push(c.name@));
                assert(idx@.drop_last() =~= idx0);
            } else {
                assert(!grp.contains(c.name@));
            }
            i = i + 1;
        }
        proof {
            assert(self.catalog().take(i as int) =~= self.catalog());
            lemma_members_bounds(self.catalog(), grp);
            if self.group_known(course@) {
                assert forall|b: Seq<char>| #[trigger] names(out@).to_set().contains(b) <==> grp.contains(b) by {
                }
                assert(names(out@).to_set() =~= grp);
            }
        }
        Some((out, idx, total))
    }

    /// The concurrency group of `course` in catalog order, with its total
    /// credits; nothing when `course` has no partner.
    pub fn get_concurrents_for(&self, course: &String) -> (r: Option<(Vec<String>, u128)>)
        requires
            self.wf(),
            self.group_known(course@),
        ensures
            r.is_none() == self.spec_concurrents(course@).is_none(),
            r.is_some() ==> self.spec_concurrents(course@) == Some(
                (names(r.unwrap().0@), r.unwrap().1 as int),
            ),
            r.is_some() ==> names(r.unwrap().0@).no_duplicates(),
            r.is_some() ==> names(r.unwrap().0@).to_set() == self.group(course@),
    {
        match self.group_detail(course) {
            None => None,
            Some((members, _positions, total)) => Some((members, total)),
        }
    }

    /// Appends `depends_on` to the prerequisites of `course` and of every
    /// member of its concurrency group, each once.
    fn add_prerequisite_to_concurrent(&mut self, course: &String, depends_on: &String)
        requires
            old(self).wf(),
        ensures
            final(self).wf(),
            final(self).catalog() == old(self).catalog(),
            final(self).concurs() == old(self).concurs(),
            appended_to(old(self).prereqs(), final(self).prereqs(), old(self).group(course@).insert(course@), depends_on@),
    {
        let members = self.group_members(course);
        let ghost before = self.prereqs();
        relation_insert(&mut self.prerequisites, course.clone(), depends_on.clone());
        let mut i: usize = 0;
        while i < members.len()
            invariant
                0 <= i <= members.len(),
                self.wf(),
                self.catalog() == old(self).catalog(),
                self.concurs() == old(self).concurs(),
                before == old(self).prereqs(),
                names(members@).no_duplicates(),
                forall|b: Seq<char>| #[trigger] names(members@).contains(b) <==> reaches(self.concurs(), course@, b),
                appended_to(before, self.prereqs(), names(members@).take(i as int).to_set().insert(course@), depends_on@),
            decreases members.len() - i,
        {
            let ghost t0 = names(members@).take(i as int).to_set().insert(course@);
            let ghost t1 = names(members@).take(i + 1).to_set().insert(course@);
            let ghost x = names(members@)[i as int];
            assert(names(members@).take(i + 1) =~= names(members@).take(i as int).push(x));
            proof { names(members@).take(i as int).lemma_push_to_set_commute(x); }
            assert(t1 =~= t0.insert(x));
            assert(!names(members@).take(i as int).contains(x)) by {
                if names(members@).take(i as int).contains(x) {
                    let k = choose|k: int| 0 <= k < i && names(members@).take(i as int)[k] == x;
                    assert(names(members@)[k] == names(members@)[i as int]);
                }
            }
            if members[i] != *course {
                let ghost mid = self.prereqs();
                relation_insert(&mut self.prerequisites, members[i].clone(), depends_on.clone());
                assert(!t0.contains(x));
                assert(values_of(mid, x) == values_of(before, x));
            } else {
                assert(t1 =~= t0);
            }
            i = i + 1;
        }
        proof {
            assert(names(members@).take(i as int) =~= names(members@));
            assert(names(members@).to_set() =~= self.group(course@));
        }
    }

    /// Records that `depends_on` must be taken before `course`; when `course`
    /// has concurrency partners, its whole group gets the prerequisite.
    pub fn add_prerequisite(&mut self, course: &String, depends_on: &String)
        requires
            old(self).wf(),
        ensures
            final(self).wf(),
            final(self).catalog() == old(self).catalog(),
            final(self).concurs() == old(self).concurs(),
            appended_to(old(self).prereqs(), final(self).prereqs(), old(self).group(course@).insert(course@), depends_on@),
            forall|b: Seq<char>| #[trigger] old(self).group(course@).contains(b) ==> values_of(final(self).prereqs(), b).contains(depends_on@),
            values_of(final(self).prereqs(), course@).contains(depends_on@),
    {
        let ghost before = self.prereqs();
        if relation_contains_key(&self.concurrencies, course) {
            self.add_prerequisite_to_concurrent(course, depends_on);
            proof {
                lemma_appended(before, self.prereqs(), old(self).group(course@).insert(course@), depends_on@);
            }
            return;
        }
        relation_insert(&mut self.prerequisites, course.clone(), depends_on.clone());
        proof {
            assert forall|b: Seq<char>| !#[trigger] self.group(course@).contains(b) by {
                if reaches(self.concurs(), course@, b) {
                    lemma_reached_is_key(self.concurs(), course@, b);
                }
            }
            assert(old(self).group(course@).insert(course@) =~= set![course@]);
            lemma_appended(before, self.prereqs(), old(self).group(course@).insert(course@), depends_on@);
        }
    }

    /// The distinct prerequisites of `course`; nothing when it has none.
    pub fn get_prerequisites(&self, course: &String) -> (r: Option<Vec<String>>)
        ensures
            r.is_some() == (values_of(self.prereqs(), course@).len() > 0),
            r.is_some() ==> names(r.unwrap()@).no_duplicates(),
            r.is_some() ==> names(r.unwrap()@).to_set() == values_of(self.prereqs(), course@).to_set(),
    {
        match relation_get(&self.prerequisites, course) {
            None => None,
            Some(found) => {
                if found.len() == 0 {
                    None
                } else {
                    Some(distinct_names(&found))
                }
            },
        }
    }

    /// Removes the first occurrence of `depends_on` from the prerequisites of
    /// `course`, and returns it; nothing when there is none.
    pub fn remove_prerequisite(&mut self, course: &String, depends_on: &String) -> (r: Option<String>)
        requires
            old(self).wf(),
        ensures
            final(self).wf(),
            final(self).catalog() == old(self).catalog(),
            final(self).concurs() == old(self).concurs(),
            final(self).prereqs() == without_value(old(self).prereqs(), course@, depends_on@),
            r.is_some() == values_of(old(self).prereqs(), course@).contains(depends_on@),
            r.is_some() ==> r.unwrap()@ == depends_on@,
    {
        let found = match relation_get(&self.prerequisites, course) {
            None => {
                return None;
            },
            Some(v) => v,
        };
        match position_of(&found, depends_on) {
            None => None,
            Some(i) => {
                proof {
                    lemma_without_first(self.prereqs()[course@], depends_on@, i as int);
                }
                let removed = relation_remove_at(&mut self.prerequisites, course, i);
                Some(removed)
            },
        }
    }

    /// Removes one occurrence of the concurrency between `course` and
    /// `depends_on`, on both sides, and returns the pair; nothing unless both
    /// are keys of the relation and linked.
    pub fn remove_concurrency(&mut self, course: &String, depends_on: &String) -> (r: Option<(String, String)>)
        requires
            old(self).wf(),
        ensures
            final(self).wf(),
            final(self).catalog() == old(self).catalog(),
            final(self).prereqs() == old(self).prereqs(),
            r.is_some() == (old(self).concurs().contains_key(course@) && old(self).concurs().contains_key(depends_on@)
                && linked(old(self).concurs(), course@, depends_on@)),
            r.is_none() ==> final(self).concurs() == old(self).concurs(),
            r.is_some() ==> final(self).concurs() == without_value(
                without_value(old(self).concurs(), course@, depends_on@),
                depends_on@,
                course@,
            ) && r.unwrap().0@ == course@ && r.unwrap().1@ == depends_on@,
    {
        if !relation_contains_key(&self.concurrencies, course) || !relation_contains_key(&self.concurrencies, depends_on) {
            return None;
        }
        let ghost c0 = self.concurs();
        let partners = relation_get(&self.concurrencies, course).unwrap();
        let i = match position_of(&partners, depends_on) {
            None => {
                return None;
            },
            Some(i) => i,
        };
        proof {
            lemma_without_first(c0[course@], depends_on@, i as int);
        }
        relation_remove_at(&mut self.concurrencies, course, i);
        let ghost c1 = self.concurs();
        let ghost mut jj: int = -1;
        let back = relation_get(&self.concurrencies, depends_on).unwrap();
        match position_of(&back, course) {
            None => {
                proof {
                    lemma_without_absent(values_of(c1, depends_on@), course@);
                }
            },
            Some(j) => {
                proof {
                    lemma_without_first(c1[depends_on@], course@, j as int);
                    jj = j as int;
                }
                relation_remove_at(&mut self.concurrencies, depends_on, j);
            },
        }
        proof {
            let c2 = self.concurs();
            let a0 = course@;
            let b0 = depends_on@;
            assert forall|y: Seq<char>| occurrences(values_of(c1, a0), y) + (if y == b0 { 1int } else { 0int })
                == occurrences(#[trigger] values_of(c0, a0), y) by {
                lemma_occurrences_remove(c0[a0], i as int, y);
            }
            if jj >= 0 {
                assert forall|y: Seq<char>| occurrences(values_of(c2, b0), y) + (if y == a0 { 1int } else { 0int })
                    == occurrences(#[trigger] values_of(c1, b0), y) by {
                    lemma_occurrences_remove(c1[b0], jj, y);
                }
            }
            if a0 != b0 {
                lemma_occurrences_contains(values_of(c0, a0), b0);
                lemma_occurrences_contains(values_of(c0, b0), a0);
                assert(values_of(c1, b0) == values_of(c0, b0));
                assert(jj >= 0);
                assert(values_of(c2, a0) == values_of(c1, a0));
            }
            assert forall|a: Seq<char>, b: Seq<char>| a != b implies occurrences(#[trigger] values_of(c2, a), b)
                == occurrences(#[trigger] values_of(c2, b), a) by {
                assert(occurrences(values_of(c0, a), b) == occurrences(values_of(c0, b), a));
                if a != a0 && a != b0 {
                    assert(values_of(c2, a) == values_of(c0, a));
                }
                if b != a0 && b != b0 {
                    assert(values_of(c2, b) == values_of(c0, b));
                }
                if jj < 0 {
                    assert(c2 == c1);
                }
            }
        }
        Some((course.clone(), depends_on.clone()))
    }

    /// Gives each of the two courses the prerequisites of the other that it
    /// lacks, through `add_prerequisite`, so that they reach the whole group.
    fn combine_concurrent_prerequisites(&mut self, course: &String, depends_on: &String)
        requires
            old(self).wf(),
        ensures
            final(self).wf(),
            final(self).catalog() == old(self).catalog(),
            final(self).concurs() == old(self).concurs(),
            merged(
                old(self).prereqs(),
                final(self).prereqs(),
                values_of(old(self).prereqs(), course@),
                values_of(old(self).prereqs(), depends_on@),
                old(self).group(course@).insert(course@),
                old(self).group(depends_on@).insert(depends_on@),
            ),
    {
        let ghost p0 = self.prereqs();
        let ghost pa = values_of(p0, course@);
        let ghost pb = values_of(p0, depends_on@);
        let ghost ga = self.group(course@).insert(course@);
        let ghost gb = self.group(depends_on@).insert(depends_on@);
        let course_prerequisites = match self.get_prerequisites(course) {
            Some(x) => x,
            None => Vec::new(),
        };
        let dependent_prerequisites = match self.get_prerequisites(depends_on) {
            Some(x) => x,
            None => Vec::new(),
        };
        assert(names(course_prerequisites@).to_set() =~= pa.to_set());
        assert(names(dependent_prerequisites@).to_set() =~= pb.to_set());
        let mut i: usize = 0;
        while i < course_prerequisites.len()
            invariant
                0 <= i <= course_prerequisites.len(),
                self.wf(),
                self.catalog() == old(self).catalog(),
                self.concurs() == old(self).concurs(),
                p0 == old(self).prereqs(),
                ga == old(self).group(course@).insert(course@),
                gb == old(self).group(depends_on@).insert(depends_on@),
                pa == values_of(p0, course@),
                pb == values_of(p0, depends_on@),
                names(course_prerequisites@).to_set() == pa.to_set(),
                names(dependent_prerequisites@).to_set() == pb.to_set(),
                grows(p0, self.prereqs()),
                no_empty_key_added(p0, self.prereqs()),
                forall|j: int, x: Seq<char>| 0 <= j < i && !pb.contains(names(course_prerequisites@)[j]) && gb.contains(x)
                    ==> #[trigger] values_of(self.prereqs(), x).contains(names(course_prerequisites@)[j]),
                forall|x: Seq<char>, q: Seq<char>| #[trigger] values_of(self.prereqs(), x).contains(q) && !values_of(p0, x).contains(q)
                    ==> pa.contains(q) && !pb.contains(q) && gb.contains(x),
                forall|x: Seq<char>| !gb.contains(x) ==> #[trigger] values_of(self.prereqs(), x) == values_of(p0, x),
                forall|x: Seq<char>| !gb.contains(x) ==> #[trigger] self.prereqs().contains_key(x) == p0.contains_key(x),
            decreases course_prerequisites.len() - i,
        {
            let q = &course_prerequisites[i];
            assert(names(course_prerequisites@)[i as int] == q@);
            assert(pa.to_set().contains(q@));
            if !contains_name(&dependent_prerequisites, q) {
                assert(!pb.to_set().contains(q@));
                let ghost cur = self.prereqs();
                self.add_prerequisite(depends_on, q);
                proof {
                    let next = self.prereqs();
                    lemma_appended(cur, next, gb, q@);
                    lemma_no_empty_key_trans(p0, cur, next);
                    assert forall|j: int, x: Seq<char>| 0 <= j < i + 1 && !pb.contains(names(course_prerequisites@)[j])
                        && gb.contains(x) implies #[trigger] values_of(next, x).contains(names(course_prerequisites@)[j]) by {
                        if j < i {
                            assert(values_of(cur, x).contains(names(course_prerequisites@)[j]));
                        }
                    }
                    assert forall|x: Seq<char>| !gb.contains(x) implies #[trigger] values_of(next, x) == values_of(p0, x)
                        && next.contains_key(x) == p0.contains_key(x) by {
                        assert(values_of(cur, x) == values_of(p0, x));
                    }
                }
            } else {
                assert(pb.to_set().contains(q@));
                assert forall|x: Seq<char>| !gb.contains(x) implies #[trigger] values_of(self.prereqs(), x) == values_of(p0, x)
                    && self.prereqs().contains_key(x) == p0.contains_key(x) by {
                }
            }
            i = i + 1;
        }
        let ghost mid = self.prereqs();
        proof {
            assert forall|q: Seq<char>, x: Seq<char>| pa.contains(q) && !pb.contains(q) && gb.contains(x)
                implies #[trigger] values_of(mid, x).contains(q) by {
                assert(pa.to_set().contains(q));
                assert(names(course_prerequisites@).to_set().contains(q));
                let j = choose|j: int| 0 <= j < names(course_prerequisites@).len() && names(course_prerequisites@)[j] == q;
            }
        }
        let mut k: usize = 0;
        while k < dependent_prerequisites.len()
            invariant
                0 <= k <= dependent_prerequisites.len(),
                self.wf(),
                self.catalog() == old(self).catalog(),
                self.concurs() == old(self).concurs(),
                p0 == old(self).prereqs(),
                ga == old(self).group(course@).insert(course@),
                gb == old(self).group(depends_on@).insert(depends_on@),
                pa == values_of(p0, course@),
                pb == values_of(p0, depends_on@),
                names(course_prerequisites@).to_set() == pa.to_set(),
                names(dependent_prerequisites@).to_set() == pb.to_set(),
                grows(p0, mid),
                grows(mid, self.prereqs()),
                no_empty_key_added(p0, mid),
                no_empty_key_added(mid, self.prereqs()),
                forall|q: Seq<char>, x: Seq<char>| pa.contains(q) && !pb.contains(q) && gb.contains(x)
                    ==> #[trigger] values_of(mid, x).contains(q),
                forall|x: Seq<char>, q: Seq<char>| #[trigger] values_of(mid, x).contains(q) && !values_of(p0, x).contains(q)
                    ==> pa.contains(q) && !pb.contains(q) && gb.contains(x),
                forall|x: Seq<char>| !gb.contains(x) ==> #[trigger] values_of(mid, x) == values_of(p0, x)
                    && mid.contains_key(x) == p0.contains_key(x),
                forall|j: int, x: Seq<char>| 0 <= j < k && !pa.contains(names(dependent_prerequisites@)[j]) && ga.contains(x)
                    ==> #[trigger] values_of(self.prereqs(), x).contains(names(dependent_prerequisites@)[j]),
                forall|x: Seq<char>, q: Seq<char>| #[trigger] values_of(self.prereqs(), x).contains(q) && !values_of(mid, x).contains(q)
                    ==> pb.contains(q) && !pa.contains(q) && ga.contains(x),
                forall|x: Seq<char>| !ga.contains(x) ==> #[trigger] values_of(self.prereqs(), x) == values_of(mid, x),
                forall|x: Seq<char>| !ga.contains(x) ==> #[trigger] self.prereqs().contains_key(x) == mid.contains_key(x),
            decreases dependent_prerequisites.len() - k,
        {
            let q = &dependent_prerequisites[k];
            assert(names(dependent_prerequisites@)[k as int] == q@);
            assert(pb.to_set().contains(q@));
            if !contains_name(&course_prerequisites, q) {
                assert(!pa.to_set().contains(q@));
                let ghost cur = self.prereqs();
                self.add_prerequisite(course, q);
                proof {
                    let next = self.prereqs();
                    lemma_appended(cur, next, ga, q@);
                    lemma_no_empty_key_trans(mid, cur, next);
                    assert forall|j: int, x: Seq<char>| 0 <= j < k + 1 && !pa.contains(names(dependent_prerequisites@)[j])
                        && ga.contains(x) implies #[trigger] values_of(next, x).contains(names(dependent_prerequisites@)[j]) by {
                        if j < k {
                            assert(values_of(cur, x).contains(names(dependent_prerequisites@)[j]));
                        }
                    }
                    assert forall|x: Seq<char>| !ga.contains(x) implies #[trigger] values_of(next, x) == values_of(mid, x)
                        && next.contains_key(x) == mid.contains_key(x) by {
                        assert(values_of(cur, x) == values_of(mid, x));
                    }
                    assert forall|x: Seq<char>, q2: Seq<char>| #[trigger] values_of(next, x).contains(q2) && !values_of(mid, x).contains(q2)
                        implies pb.contains(q2) && !pa.contains(q2) && ga.contains(x) by {
                        if values_of(cur, x).contains(q2) {
                        }
                    }
                }
            } else {
                assert(pa.to_set().contains(q@));
            }
            k = k + 1;
        }
        proof {
            let fin = self.prereqs();
            lemma_no_empty_key_trans(p0, mid, fin);
            assert forall|q: Seq<char>, x: Seq<char>| pa.contains(q) && !pb.contains(q) && gb.contains(x)
                implies #[trigger] values_of(fin, x).contains(q) by {
                assert(pa.to_set().contains(q));
                let j = choose|j: int| 0 <= j < names(course_prerequisites@).len() && names(course_prerequisites@)[j] == q;
                assert(values_of(mid, x).contains(q));
            }
            assert forall|q: Seq<char>, x: Seq<char>| pb.contains(q) && !pa.contains(q) && ga.contains(x)
                implies #[trigger] values_of(fin, x).contains(q) by {
                assert(pb.to_set().contains(q));
                assert(names(dependent_prerequisites@).to_set().contains(q));
                let j = choose|j: int| 0 <= j < names(dependent_prerequisites@).len() && names(dependent_prerequisites@)[j] == q;
            }
            assert forall|x: Seq<char>, q: Seq<char>| #[trigger] values_of(p0, x).contains(q) implies values_of(fin, x).contains(q) by {
                assert(values_of(mid, x).contains(q));
            }
            assert forall|x: Seq<char>| p0.contains_key(x) implies #[trigger] fin.contains_key(x) by {
                assert(mid.contains_key(x));
            }
            assert forall|x: Seq<char>, q: Seq<char>| #[trigger] values_of(fin, x).contains(q) && !values_of(p0, x).contains(q)
                implies (pa.contains(q) && !pb.contains(q) && gb.contains(x)) || (pb.contains(q) && !pa.contains(q) && ga.contains(x)) by {
                if values_of(mid, x).contains(q) {
                } else {
                }
            }
            assert forall|x: Seq<char>| !ga.contains(x) && !gb.contains(x) implies #[trigger] values_of(fin, x)
                == values_of(p0, x) && fin.contains_key(x) == p0.contains_key(x) by {
                assert(values_of(mid, x) == values_of(p0, x));
                assert(values_of(fin, x) == values_of(mid, x));
                assert(mid.contains_key(x) == p0.contains_key(x));
                assert(fin.contains_key(x) == mid.contains_key(x));
            }
        }
    }

    /// Records that `course` and `depends_on` must be taken in the same term.
    /// Before the link is recorded, each side gets the prerequisites of the
    /// other that it lacks, together with its whole group.
    pub fn add_concurrency(&mut self, course: &String, depends_on: &String)
        requires
            old(self).wf(),
        ensures
            final(self).wf(),
            final(self).catalog() == old(self).catalog(),
            final(self).concurs() == with_value(with_value(old(self).concurs(), course@, depends_on@), depends_on@, course@),
            linked(final(self).concurs(), course@, depends_on@),
            linked(final(self).concurs(), depends_on@, course@),
            forall|q: Seq<char>| #![trigger values_of(old(self).prereqs(), course@).contains(q)]
                #![trigger values_of(old(self).prereqs(), depends_on@).contains(q)]
                values_of(old(self).prereqs(), course@).contains(q) || values_of(old(self).prereqs(), depends_on@).contains(q)
                ==> values_of(final(self).prereqs(), course@).contains(q) && values_of(final(self).prereqs(), depends_on@).contains(q),
            merged(
                old(self).prereqs(),
                final(self).prereqs(),
                values_of(old(self).prereqs(), course@),
                values_of(old(self).prereqs(), depends_on@),
                old(self).group(course@).insert(course@),
                old(self).group(depends_on@).insert(depends_on@),
            ),
    {
        if relation_contains_key(&self.prerequisites, course) || relation_contains_key(&self.prerequisites, depends_on) {
            self.combine_concurrent_prerequisites(course, depends_on);
        } else {
            proof {
                assert(values_of(self.prereqs(), course@) =~= Seq::<Seq<char>>::empty());
                assert(values_of(self.prereqs(), depends_on@) =~= Seq::<Seq<char>>::empty());
            }
        }
        let ghost c0 = self.concurs();
        relation_insert(&mut self.concurrencies, course.clone(), depends_on.clone());
        let ghost c1 = self.concurs();
        relation_insert(&mut self.concurrencies, depends_on.clone(), course.clone());
        proof {
            let c2 = self.concurs();
            let a0 = course@;
            let b0 = depends_on@;
            assert forall|y: Seq<char>| occurrences(#[trigger] values_of(c1, a0), y)
                == occurrences(values_of(c0, a0), y) + (if y == b0 { 1nat } else { 0nat }) by {
                lemma_occurrences_push(values_of(c0, a0), b0, y);
            }
            assert forall|y: Seq<char>| occurrences(#[trigger] values_of(c2, b0), y)
                == occurrences(values_of(c1, b0), y) + (if y == a0 { 1nat } else { 0nat }) by {
                lemma_occurrences_push(values_of(c1, b0), a0, y);
            }
            if a0 != b0 {
                assert(values_of(c2, a0) == values_of(c1, a0));
                assert(values_of(c1, b0) == values_of(c0, b0));
            }
            assert forall|a: Seq<char>, b: Seq<char>| a != b implies occurrences(#[trigger] values_of(c2, a), b)
                == occurrences(#[trigger] values_of(c2, b), a) by {
                assert(occurrences(values_of(c0, a), b) == occurrences(values_of(c0, b), a));
                if a != a0 && a != b0 {
                    assert(values_of(c2, a) == values_of(c0, a));
                }
                if b != a0 && b != b0 {
                    assert(values_of(c2, b) == values_of(c0, b));
                }
                if a0 == b0 {
                    assert(values_of(c2, a0) == values_of(c0, a0).push(b0).push(a0));
                    lemma_occurrences_push(values_of(c0, a0), b0, b);
                    lemma_occurrences_push(values_of(c0, a0), b0, a);
                }
            }
            assert(values_of(c1, a0).contains(b0)) by {
                assert(values_of(c1, a0)[values_of(c1, a0).len() - 1] == b0);
            }
            assert(values_of(c2, b0).contains(a0)) by {
                assert(values_of(c2, b0)[values_of(c2, b0).len() - 1] == a0);
            }
            if a0 != b0 {
                assert(values_of(c2, a0) == values_of(c1, a0));
            } else {
                assert(values_of(c2, a0) == values_of(c1, a0).push(a0));
                assert(values_of(c2, a0)[values_of(c1, a0).len() - 1] == b0);
            }
            let p0 = old(self).prereqs();
            let pf = self.prereqs();
            let ga = old(self).group(a0).insert(a0);
            let gb = old(self).group(b0).insert(b0);
            assert(ga.contains(a0) && gb.contains(b0));
            assert forall|q: Seq<char>| #![trigger values_of(p0, a0).contains(q)] #![trigger values_of(p0, b0).contains(q)]
                values_of(p0, a0).contains(q) || values_of(p0, b0).contains(q)
                implies values_of(pf, a0).contains(q) && values_of(pf, b0).contains(q) by {
                if values_of(p0, a0).contains(q) && !values_of(p0, b0).contains(q) {
                    assert(values_of(pf, b0).contains(q));
                }
                if values_of(p0, b0).contains(q) && !values_of(p0, a0).contains(q) {
                    assert(values_of(pf, a0).contains(q));
                }
            }
        }
    }

    /// Adds `course`; a course of the same name is replaced (last write wins),
    /// keeping its place in the catalog.
    pub fn add_course(&mut self, course: Course)
        requires
            old(self).wf(),
        ensures
            final(self).wf(),
            final(self).prereqs() == old(self).prereqs(),
            final(self).concurs() == old(self).concurs(),
            old(self).has_course(course.name@) ==> exists|i: int|
                0 <= i < old(self).catalog().len() && old(self).catalog()[i].name@ == course.name@
                && final(self).catalog() == old(self).catalog().update(i, course),
            !old(self).has_course(course.name@) ==> final(self).catalog() == old(self).catalog().push(course),
    {
        let ghost cat = self.catalog();
        let ghost n = course.name@;
        let mut i: usize = 0;
        while i < self.master_list.len()
            invariant
                0 <= i <= self.master_list.len(),
                self.wf(),
                self.catalog() == cat,
                cat == old(self).catalog(),
                self.prereqs() == old(self).prereqs(),
                self.concurs() == old(self).concurs(),
                n == course.name@,
                forall|j: int| 0 <= j < i ==> #[trigger] names_of(cat)[j] != n,
            decreases self.master_list.len() - i,
        {
            assert(names_of(cat)[i as int] == cat[i as int].name@);
            if self.master_list[i].name == course.name {
                self.master_list.set(i, course);
                proof {
                    assert(names_of(self.catalog()) =~= names_of(cat).update(i as int, n));
                    assert(names_of(self.catalog()).no_duplicates()) by {
                        assert forall|a: int, b: int| 0 <= a < b < names_of(self.catalog()).len()
                            implies names_of(self.catalog())[a] != names_of(self.catalog())[b] by {
                            assert(names_of(cat)[a] != names_of(cat)[b]);
                        }
                    }
                }
                return;
            }
            i = i + 1;
        }
        assert(!names_of(cat).contains(n)) by {
            if names_of(cat).contains(n) {
                let k = choose|k: int| 0 <= k < names_of(cat).len() && names_of(cat)[k] == n;
            }
        }
        self.master_list.push(course);
        proof {
            assert(names_of(self.catalog()) =~= names_of(cat).push(n));
            assert(names_of(self.catalog()).no_duplicates()) by {
                assert forall|a: int, b: int| 0 <= a < b < names_of(self.catalog()).len()
                    implies names_of(self.catalog())[a] != names_of(self.catalog())[b] by {
                    if b == cat.len() {
                        assert(names_of(cat)[a] == names_of(self.catalog())[a]);
                    }
                }
            }
        }
    }

    /// Takes the course named `course_name` out of the catalog; its
    /// prerequisites and concurrencies stay as they are.
    pub fn remove_course(&mut self, course_name: &String) -> (r: Option<Course>)
        requires
            old(self).wf(),
        ensures
            final(self).wf(),
            final(self).prereqs() == old(self).prereqs(),
            final(self).concurs() == old(self).concurs(),
            r.is_some() == old(self).has_course(course_name@),
            r.is_none() ==> final(self).catalog() == old(self).catalog(),
            r.is_some() ==> r.unwrap().name@ == course_name@ && exists|i: int|
                0 <= i < old(self).catalog().len() && old(self).catalog()[i] == r.unwrap()
                && final(self).catalog() == old(self).catalog().remove(i),
    {
        let ghost cat = self.catalog();
        let ghost n = course_name@;
        let mut i: usize = 0;
        while i < self.master_list.len()
            invariant
                0 <= i <= self.master_list.len(),
                self.wf(),
                self.catalog() == cat,
                cat == old(self).catalog(),
                self.prereqs() == old(self).prereqs(),
                self.concurs() == old(self).concurs(),
                n == course_name@,
                forall|j: int| 0 <= j < i ==> #[trigger] names_of(cat)[j] != n,
            decreases self.master_list.len() - i,
        {
            assert(names_of(cat)[i as int] == cat[i as int].name@);
            if self.master_list[i].name == *course_name {
                let removed = self.master_list.remove(i);
                proof {
                    assert(names_of(self.catalog()) =~= names_of(cat).remove(i as int));
                    assert(names_of(cat).contains(n));
                    assert(names_of(self.catalog()).no_duplicates()) by {
                        assert forall|a: int, b: int| 0 <= a < b < names_of(self.catalog()).len()
                            implies names_of(self.catalog())[a] != names_of(self.catalog())[b] by {
                            let a1 = if a < i { a } else { a + 1 };
                            let b1 = if b < i { b } else { b + 1 };
                            assert(names_of(cat)[a1] != names_of(cat)[b1]);
                        }
                    }
                }
                return Some(removed);
            }
            i = i + 1;
        }
        assert(!names_of(cat).contains(n)) by {
            if names_of(cat).contains(n) {
                let k = choose|k: int| 0 <= k < names_of(cat).len() && names_of(cat)[k] == n;
            }
        }
        None
    }

    /// Names of the courses offered in `term`, in catalog order.
    pub fn get_term_courses_for(&self, term: &TermType) -> (r: Vec<String>)
        ensures
            names(r@) == offered_in(self.catalog(), term.spec_index()),
    {
        let mut r: Vec<String> = Vec::new();
        let mut i: usize = 0;
        proof {
            assert(kind_at(term.spec_index()) == *term);
            assert(self.catalog().take(0) =~= Seq::<Course>::empty());
            assert(names(r@) =~= Seq::<Seq<char>>::empty());
        }
        while i < self.master_list.len()
            invariant
                0 <= i <= self.master_list.len(),
                kind_at(term.spec_index()) == *term,
                names(r@) == offered_in(self.catalog().take(i as int), term.spec_index()),
            decreases self.master_list.len() - i,
        {
            let ghost before = names(r@);
            assert(self.catalog().take(i + 1).drop_last() =~= self.catalog().take(i as int));
            if self.master_list[i].is_available(term) {
                r.push(self.master_list[i].name.clone());
                assert(names(r@) =~= before.push(self.catalog()[i as int].name@));
            }
            i = i + 1;
        }
        assert(self.catalog().take(i as int) =~= self.catalog());
        r
    }

    pub(crate) fn course_at(&self, i: usize) -> (r: &Course)
        requires
            i < self.catalog().len(),
        ensures
            *r == self.catalog()[i as int],
    {
        &self.master_list[i]
    }

    /// Position in the catalog of the course named `name`.
    pub(crate) fn find_course(&self, name: &String) -> (r: Option<usize>)
        ensures
            r.is_none() == !self.has_course(name@),
            r.is_some() ==> r.unwrap() < self.catalog().len() && self.catalog()[r.unwrap() as int].name@ == name@,
    {
        let mut i: usize = 0;
        while i < self.master_list.len()
            invariant
                0 <= i <= self.master_list.len(),
                forall|j: int| 0 <= j < i ==> #[trigger] names_of(self.catalog())[j] != name@,
            decreases self.master_list.len() - i,
        {
            assert(names_of(self.catalog())[i as int] == self.catalog()[i as int].name@);
            if self.master_list[i].name == *name {
                return Some(i);
            }
            i = i + 1;
        }
        assert(!names_of(self.catalog()).contains(name@)) by {
            if names_of(self.catalog()).contains(name@) {
                let k = choose|k: int| 0 <= k < names_of(self.catalog()).len() && names_of(self.catalog())[k] == name@;
            }
        }
        None
    }

    /// Whether every prerequisite of `name` is among the first `upto` names
    /// of `done`.
    pub(crate) fn prerequisites_met(&self, name: &String, done: &Vec<String>, upto: usize) -> (r: bool)
        requires
            upto <= done@.len(),
        ensures
            r == forall|d: Seq<char>| #[trigger] values_of(self.prereqs(), name@).contains(d)
                ==> names(done@).take(upto as int).contains(d),
    {
        let pending = match relation_get(&self.prerequisites, name) {
            None => {
                return true;
            },
            Some(v) => v,
        };
        let mut i: usize = 0;
        while i < pending.len()
            invariant
                0 <= i <= pending.len(),
                upto <= done@.len(),
                names(pending@) == values_of(self.prereqs(), name@),
                forall|j: int| 0 <= j < i ==> names(done@).take(upto as int).contains(#[trigger] names(pending@)[j]),
            decreases pending.len() - i,
        {
            assert(names(pending@)[i as int] == pending@[i as int]@);
            if !contains_name_before(done, &pending[i], upto) {
                assert(values_of(self.prereqs(), name@).contains(names(pending@)[i as int]));
                return false;
            }
            i = i + 1;
        }
        proof {
            assert forall|d: Seq<char>| #[trigger] values_of(self.prereqs(), name@).contains(d)
                implies names(done@).take(upto as int).contains(d) by {
                let j = choose|j: int| 0 <= j < names(pending@).len() && names(pending@)[j] == d;
            }
        }
        true
    }

    pub fn len(&self) -> (r: usize)
        ensures
            r == self.catalog().len(),
    {
        self.master_list.len()
    }
}

/// The names of `v`, each once, in order of first occurrence.
fn distinct_names(v: &Vec<String>) -> (r: Vec<String>)
    ensures
        names(r@).no_duplicates(),
        names(r@).to_set() == names(v@).to_set(),
{
    let mut r: Vec<String> = Vec::new();
    let mut i: usize = 0;
    assert(names(r@) =~= Seq::<Seq<char>>::empty());
    while i < v.len()
        invariant
            0 <= i <= v.len(),
            names(r@).no_duplicates(),
            names(r@).to_set() == names(v@).take(i as int).to_set(),
        decreases v.len() - i,
    {
        let ghost before = names(r@);
        assert(names(v@).take(i + 1) =~= names(v@).take(i as int).push(v@[i as int]@));
        proof { names(v@).take(i as int).lemma_push_to_set_commute(v@[i as int]@); }
        assert(names(v@).take(i + 1).to_set() =~= names(v@).take(i as int).to_set().insert(v@[i as int]@));
        if !contains_name(&r, &v[i]) {
            r.push(v[i].clone());
            assert(names(r@) =~= before.push(v@[i as int]@));
            proof { before.lemma_push_to_set_commute(v@[i as int]@); }
            assert(names(r@).to_set() =~= before.to_set().insert(v@[i as int]@));
            assert(names(r@).no_duplicates()) by {
                assert forall|a: int, b: int| 0 <= a < b < names(r@).len() implies names(r@)[a] != names(r@)[b] by {
                    if b == before.len() {
                        assert(before.contains(names(r@)[a]));
                    }
                }
            }
        } else {
            assert(before.to_set().contains(v@[i as int]@));
            assert(before.to_set() =~= before.to_set().insert(v@[i as int]@));
        }
        i = i + 1;
    }
    assert(names(v@).take(i as int) =~= names(v@));
    r
}

/// The course at position `i` of the catalog is a course of the catalog.
pub proof fn lemma_catalog_has(c: Courses, i: int)
    requires
        0 <= i < c.catalog().len(),
    ensures
        c.has_course(c.catalog()[i].name@),
{
    assert(names_of(c.catalog())[i] == c.catalog()[i].name@);
}

pub proof fn lemma_names_set_len(c: Courses)
    requires
        c.wf(),
    ensures
        names_of(c.catalog()).to_set().len() == c.catalog().len(),
        names_of(c.catalog()).to_set().finite(),
        forall|n: Seq<char>| #[trigger] names_of(c.catalog()).to_set().contains(n) == c.has_course(n),
{
    names_of(c.catalog()).unique_seq_to_set();
}

pub proof fn lemma_catalog_unique(c: Courses, i: int)
    requires
        c.wf(),
        0 <= i < c.catalog().len(),
    ensures
        forall|j: int| 0 <= j < c.catalog().len() && #[trigger] c.catalog()[j].name@ == c.catalog()[i].name@ ==> j == i,
{
    assert forall|j: int| 0 <= j < c.catalog().len() && #[trigger] c.catalog()[j].name@ == c.catalog()[i].name@ implies j == i by {
        assert(names_of(c.catalog())[j] == names_of(c.catalog())[i]);
    }
}

pub proof fn lemma_reached_is_key(rel: Relation, a: Seq<char>, b: Seq<char>)
    requires
        symmetric(rel),
        reaches(rel, a, b),
    ensures
        rel.contains_key(b),
        values_of(rel, b).len() > 0,
        values_of(rel, a).len() > 0,
{
    let w = choose|w: Seq<Seq<char>>| is_walk(rel, w) && w[0] == a && #[trigger] w.last() == b;
    let p = w[w.len() - 2];
    assert(linked(rel, w[w.len() - 2], w[w.len() - 1]));
    assert(linked(rel, w[0], w[1]));
    if p != b {
        lemma_occurrences_contains(values_of(rel, p), b);
        lemma_occurrences_contains(values_of(rel, b), p);
    }
}

/// Every step out of a set that already holds all steps out of its members
/// stays in it.
proof fn lemma_walk_stays(rel: Relation, w: Seq<Seq<char>>, s: Seq<Seq<char>>, i: int)
    requires
        is_walk(rel, w),
        1 <= i < w.len(),
        forall|n: Seq<char>| linked(rel, w[0], n) ==> s.contains(n),
        forall|x: Seq<char>, n: Seq<char>| s.contains(x) && #[trigger] linked(rel, x, n) ==> s.contains(n),
    ensures
        s.contains(w[i]),
    decreases i,
{
    assert(linked(rel, w[i - 1], w[i]));
    if i > 1 {
        lemma_walk_stays(rel, w, s, i - 1);
    }
}

} // verus!
