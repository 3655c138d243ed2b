use vstd::prelude::*;

verus! {

/// The four kinds of academic term, in their cyclic order.
#[derive(Clone, Copy, Debug, PartialEq, Eq, Structural)]
pub enum TermType {
    Fall,
    Winter,
    Spring,
    Summer,
}

impl TermType {
    /// Position of the kind in the yearly cycle.
    pub open spec fn spec_index(self) -> int {
        match self {
            TermType::Fall => 0,
            TermType::Winter => 1,
            TermType::Spring => 2,
            TermType::Summer => 3,
        }
    }

    pub open spec fn spec_next(self) -> TermType {
        match self {
            TermType::Fall => TermType::Winter,
            TermType::Winter => TermType::Spring,
            TermType::Spring => TermType::Summer,
            TermType::Summer => TermType::Fall,
        }
    }

    pub fn index(&self) -> (r: usize)
        ensures
            r as int == self.spec_index(),
            r < 4,
    {
        match self {
            TermType::Fall => 0,
            TermType::Winter => 1,
            TermType::Spring => 2,
            TermType::Summer => 3,
        }
    }

    /// The kind that follows this one; `Summer` wraps around to `Fall`.
    pub fn next(&self) -> (r: TermType)
        ensures
            r == self.spec_next(),
    {
        match self {
            TermType::Fall => TermType::Winter,
            TermType::Winter => TermType::Spring,
            TermType::Spring => TermType::Summer,
            TermType::Summer => TermType::Fall,
        }
    }
}

/// Availability policy: a course flagged for no term at all is treated as
/// unrestricted, exactly like one flagged for every term.
pub open spec fn available_in(flags: Seq<bool>, k: int) -> bool {
    (forall|i: int| 0 <= i < 4 ==> !#[trigger] flags[i]) || flags[k]
}

pub struct Course {
    pub name: String,
    pub credits: u8,
    pub availability: [bool; 4],
}

impl Course {
    pub open spec fn spec_is_available(&self, term: TermType) -> bool {
        available_in(self.availability@, term.spec_index())
    }

    /// A new course, available in every term.
    pub fn new(name: String, credits: u8) -> (r: Course)
        ensures
            r.name == name,
            r.credits == credits,
            r.availability@ == seq![false, false, false, false],
    {
        Course { name: name, credits: credits, availability: [false;4] }
    }

    /// Marks the course as offered in `term`.
    pub fn available_by<'a>(&'a mut self, term: &TermType) -> (r: &'a mut Course)
        ensures
            r.name == old(self).name,
            r.credits == old(self).credits,
            r.availability@ == old(self).availability@.update(term.spec_index(), true),
            *final(self) == *final(r),
    {
        let index = term.index();
        self.availability[index] = true;
        self
    }

    /// Marks the course as not offered in `term`.
    pub fn not_available_by<'a>(&'a mut self, term: &TermType) -> (r: &'a mut Course)
        ensures
            r.name == old(self).name,
            r.credits == old(self).credits,
            r.availability@ == old(self).availability@.update(term.spec_index(), false),
            *final(self) == *final(r),
    {
        let index = term.index();
        self.availability[index] = false;
        self
    }

    pub fn is_available(&self, term: &TermType) -> (r: bool)
        ensures
            r == self.spec_is_available(*term),
    {
        let mut i: usize = 0;
        while i < 4
            invariant
                0 <= i <= 4,
                forall|j: int| 0 <= j < i ==> !#[trigger] self.availability@[j],
            decreases 4 - i,
        {
            if self.availability[i] {
                return self.availability[term.index()];
            }
            i = i + 1;
        }
        true
    }
}

} // verus!
