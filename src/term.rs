use vstd::prelude::*;
use crate::course::{Course, TermType};

verus! {

/// Total credits of a list of (name, credits) entries.
pub open spec fn credit_sum(s: Seq<(Seq<char>, u8)>) -> int
    decreases s.len(),
{
    if s.len() == 0 {
        0
    } else {
        credit_sum(s.drop_last()) + s.last().1 as int
    }
}

pub proof fn lemma_push_contains(s: Seq<(Seq<char>, u8)>, pair: (Seq<char>, u8))
    ensures
        forall|e: (Seq<char>, u8)| #[trigger] s.push(pair).contains(e) <==> s.contains(e) || e == pair,
{
    assert forall|e: (Seq<char>, u8)| #[trigger] s.push(pair).contains(e) <==> s.contains(e) || e == pair by {
        if s.push(pair).contains(e) && e != pair {
            let k = choose|k: int| 0 <= k < s.push(pair).len() && s.push(pair)[k] == e;
            assert(s[k] == e);
        }
        if s.contains(e) {
            let k = choose|k: int| 0 <= k < s.len() && s[k] == e;
            assert(s.push(pair)[k] == e);
        }
        assert(s.push(pair)[s.len() as int] == pair);
    }
}

/// One planned term: its kind, the courses placed in it, and its credit load.
#[derive(Debug, PartialEq)]
pub struct Term {
    term_type: TermType,
    courses: Vec<(String, u8)>,
    units: u8,
    unit_limit: u8,
}

impl Term {
    /// The placed courses as (name, credits) pairs, in order of placement.
    pub closed spec fn entries(&self) -> Seq<(Seq<char>, u8)> {
        self.courses@.map_values(|p: (String, u8)| (p.0@, p.1))
    }

    pub closed spec fn spec_kind(&self) -> TermType {
        self.term_type
    }

    pub closed spec fn spec_units(&self) -> u8 {
        self.units
    }

    pub closed spec fn spec_limit(&self) -> u8 {
        self.unit_limit
    }

    /// Entries are distinct and the credit load is their sum.
    pub open spec fn wf(&self) -> bool {
        self.entries().no_duplicates() && self.spec_units() as int == credit_sum(self.entries())
    }

    pub open spec fn has_course(&self, name: Seq<char>) -> bool {
        exists|i: int| 0 <= i < self.entries().len() && #[trigger] self.entries()[i].0 == name
    }

    pub proof fn lemma_has_course_push(before: Term, after: Term, pair: (Seq<char>, u8))
        requires
            after.entries() == before.entries().push(pair),
        ensures
            forall|n: Seq<char>| #[trigger] after.has_course(n) <==> before.has_course(n) || n == pair.0,
    {
        assert forall|n: Seq<char>| #[trigger] after.has_course(n) <==> before.has_course(n) || n == pair.0 by {
            if after.has_course(n) {
                let i = choose|i: int| 0 <= i < after.entries().len() && #[trigger] after.entries()[i].0 == n;
                if i < before.entries().len() {
                    assert(before.entries()[i].0 == n);
                }
            }
            if before.has_course(n) {
                let i = choose|i: int| 0 <= i < before.entries().len() && #[trigger] before.entries()[i].0 == n;
                assert(after.entries()[i].0 == n);
            }
            if n == pair.0 {
                assert(after.entries()[before.entries().len() as int].0 == n);
            }
        }
    }

    pub proof fn lemma_has_course_entry(t: Term, pair: (Seq<char>, u8))
        requires
            !t.has_course(pair.0),
        ensures
            !t.entries().contains(pair),
    {
        if t.entries().contains(pair) {
            let i = choose|i: int| 0 <= i < t.entries().len() && t.entries()[i] == pair;
            assert(t.entries()[i].0 == pair.0);
        }
    }

    pub fn new(term: &TermType, unit_limit: u8) -> (r: Term)
        ensures
            r.wf(),
            r.spec_kind() == *term,
            r.spec_limit() == unit_limit,
            r.spec_units() == 0,
            r.entries() == Seq::<(Seq<char>, u8)>::empty(),
    {
        let r = Term { term_type: *term, courses: Vec::new(), units: 0, unit_limit: unit_limit };
        assert(r.entries() =~= Seq::<(Seq<char>, u8)>::empty());
        r
    }

    pub fn is_full(&self) -> (r: bool)
        ensures
            r == (self.spec_units() == self.spec_limit()),
    {
        self.units == self.unit_limit
    }

    pub fn can_add_course(&self, course: &Course) -> (r: bool)
        ensures
            r == (course.credits + self.spec_units() <= self.spec_limit()),
    {
        self.can_add_course_units(course.credits)
    }

    pub fn can_add_course_units(&self, units: u8) -> (r: bool)
        ensures
            r == (units + self.spec_units() <= self.spec_limit()),
    {
        (units as u16) + (self.units as u16) <= (self.unit_limit as u16)
    }

    /// Places `course` in the term; placing the same (name, credits) pair twice
    /// changes nothing.
    pub fn add(&mut self, course: &Course)
        requires
            old(self).wf(),
            old(self).spec_units() + course.credits <= u8::MAX,
        ensures
            final(self).wf(),
            final(self).spec_kind() == old(self).spec_kind(),
            final(self).spec_limit() == old(self).spec_limit(),
            old(self).entries().contains((course.name@, course.credits)) ==> final(self).entries()
                == old(self).entries() && final(self).spec_units() == old(self).spec_units(),
            !old(self).entries().contains((course.name@, course.credits)) ==> final(self).entries()
                == old(self).entries().push((course.name@, course.credits))
                && final(self).spec_units() == old(self).spec_units() + course.credits,
    {
        let ghost pair = (course.name@, course.credits);
        let mut i: usize = 0;
        while i < self.courses.len()
            invariant
                0 <= i <= self.courses.len(),
                pair == (course.name@, course.credits),
                self.wf(),
                forall|j: int| 0 <= j < i ==> #[trigger] self.entries()[j] != pair,
            decreases self.courses.len() - i,
        {
            let same_credits = self.courses[i].1 == course.credits;
            let same_name = self.courses[i].0 == course.name;
            let same = same_credits && same_name;
            assert(self.entries()[i as int] == (self.courses@[i as int].0@, self.courses@[i as int].1));
            if same {
                assert(self.entries()[i as int] == pair);
                return;
            }
            i = i + 1;
        }
        let ghost before = self.entries();
        self.courses.push((course.name.clone(), course.credits));
        self.units = self.units + course.credits;
        assert(self.entries() =~= before.push(pair));
        assert(self.entries().drop_last() =~= before);
        assert forall|a: int, b: int| 0 <= a < b < self.entries().len() implies self.entries()[a]
            != self.entries()[b] by {
            if b == before.len() {
                assert(before[a] != pair);
            }
        }
    }

    pub fn is_empty(&self) -> (r: bool)
        ensures
            r == (self.entries().len() == 0),
    {
        self.courses.len() == 0
    }

    pub fn term_type(&self) -> (r: TermType)
        ensures
            r == self.spec_kind(),
    {
        self.term_type
    }

    pub fn units(&self) -> (r: u8)
        ensures
            r == self.spec_units(),
    {
        self.units
    }

    pub fn unit_limit(&self) -> (r: u8)
        ensures
            r == self.spec_limit(),
    {
        self.unit_limit
    }

    /// The placed courses as (name, credits) pairs.
    pub fn courses(&self) -> (r: Vec<(String, u8)>)
        ensures
            r@.map_values(|p: (String, u8)| (p.0@, p.1)) == self.entries(),
    {
        let mut r: Vec<(String, u8)> = Vec::new();
        let mut i: usize = 0;
        while i < self.courses.len()
            invariant
                0 <= i <= self.courses.len(),
                r@.map_values(|p: (String, u8)| (p.0@, p.1)) =~= self.entries().take(i as int),
            decreases self.courses.len() - i,
        {
            r.push((self.courses[i].0.clone(), self.courses[i].1));
            assert(self.entries().take(i + 1) =~= self.entries().take(i as int).push(self.entries()[i as int]));
            i = i + 1;
        }
        assert(self.entries().take(i as int) =~= self.entries());
        r
    }
}

} // verus!
