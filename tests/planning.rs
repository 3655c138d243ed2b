use course_planner::catalog::Courses;
use course_planner::course::{Course, TermType};
use course_planner::term::Term;

fn names_of(term: &Term) -> Vec<String> {
    term.courses().into_iter().map(|c| c.0).collect()
}

fn catalog(entries: &[(&str, u8)]) -> Courses {
    let mut courses = Courses::new();
    for (name, credits) in entries {
        courses.add_course(Course::new(String::from(*name), *credits));
    }
    courses
}

fn s(x: &str) -> String {
    String::from(x)
}

#[test]
fn three_independent_courses_take_three_terms() {
    let courses = catalog(&[("CS 10", 4), ("CS 11", 4), ("CS 12", 4)]);
    let terms = courses.get_terms([4, 4, 4, 4]).unwrap();
    assert_eq!(terms.len(), 3);
    for term in &terms {
        assert_eq!(term.courses().len(), 1);
        assert_eq!(term.units(), 4);
    }
    assert_eq!(terms[0].term_type(), TermType::Fall);
    assert_eq!(terms[1].term_type(), TermType::Winter);
    assert_eq!(terms[2].term_type(), TermType::Spring);
}

#[test]
fn shared_prerequisite_gives_two_terms() {
    let mut courses = catalog(&[("CS 10", 4), ("CS 11", 4), ("CS 12", 4)]);
    courses.add_prerequisite(&s("CS 11"), &s("CS 10"));
    courses.add_prerequisite(&s("CS 12"), &s("CS 10"));
    let terms = courses.get_terms([8, 8, 8, 8]).unwrap();
    assert_eq!(terms.len(), 2);
    assert_eq!(names_of(&terms[0]), vec![s("CS 10")]);
    assert_eq!(terms[0].units(), 4);
    let mut second = names_of(&terms[1]);
    second.sort();
    assert_eq!(second, vec![s("CS 11"), s("CS 12")]);
    assert_eq!(terms[1].units(), 8);
    assert_eq!(terms[1].unit_limit(), 8);
}

#[test]
fn concurrency_chain_closure_is_the_whole_group() {
    let mut courses = catalog(&[("Test1", 3), ("Test2", 4), ("Test3", 5)]);
    courses.add_concurrency(&s("Test1"), &s("Test2"));
    courses.add_concurrency(&s("Test2"), &s("Test3"));
    for name in ["Test1", "Test2", "Test3"] {
        let (members, total) = courses.get_concurrents_for(&s(name)).unwrap();
        assert_eq!(members, vec![s("Test1"), s("Test2"), s("Test3")]);
        assert_eq!(total, 12);
    }
}

#[test]
fn concurrency_is_recorded_both_ways() {
    let mut courses = catalog(&[("A", 3), ("B", 4)]);
    courses.add_concurrency(&s("A"), &s("B"));
    let (from_b, _) = courses.get_concurrents_for(&s("B")).unwrap();
    assert!(from_b.contains(&s("A")));
    assert_eq!(courses.remove_concurrency(&s("B"), &s("A")), Some((s("B"), s("A"))));
    assert_eq!(courses.get_concurrents_for(&s("A")), None);
    assert_eq!(courses.get_concurrents_for(&s("B")), None);
}

#[test]
fn removing_an_unlinked_pair_finds_nothing() {
    let mut courses = catalog(&[("A", 1), ("B", 1), ("C", 1), ("D", 1)]);
    courses.add_concurrency(&s("A"), &s("B"));
    courses.add_concurrency(&s("C"), &s("D"));
    assert_eq!(courses.remove_concurrency(&s("A"), &s("C")), None);
    assert_ne!(courses.get_concurrents_for(&s("A")), None);
}

#[test]
fn new_prerequisite_reaches_the_whole_group() {
    let mut courses = catalog(&[("A", 1), ("B", 1), ("C", 1), ("P", 1)]);
    courses.add_concurrency(&s("A"), &s("B"));
    courses.add_concurrency(&s("B"), &s("C"));
    courses.add_prerequisite(&s("A"), &s("P"));
    for name in ["A", "B", "C"] {
        assert_eq!(courses.get_prerequisites(&s(name)), Some(vec![s("P")]));
    }
    assert_eq!(courses.get_prerequisites(&s("P")), None);
}

#[test]
fn joining_two_courses_merges_their_prerequisites() {
    let mut courses = catalog(&[("A", 1), ("B", 1), ("Math", 1), ("Physics", 1)]);
    courses.add_prerequisite(&s("A"), &s("Math"));
    courses.add_prerequisite(&s("B"), &s("Physics"));
    courses.add_concurrency(&s("A"), &s("B"));
    for name in ["A", "B"] {
        let mut got = courses.get_prerequisites(&s(name)).unwrap();
        got.sort();
        assert_eq!(got, vec![s("Math"), s("Physics")]);
    }
}

#[test]
fn prerequisites_are_listed_once_each() {
    let mut courses = catalog(&[("A", 1), ("P", 1)]);
    courses.add_prerequisite(&s("A"), &s("P"));
    courses.add_prerequisite(&s("A"), &s("P"));
    assert_eq!(courses.get_prerequisites(&s("A")), Some(vec![s("P")]));
}

#[test]
fn removing_a_prerequisite_takes_one_occurrence() {
    let mut courses = catalog(&[("A", 1), ("P", 1), ("Q", 1)]);
    courses.add_prerequisite(&s("A"), &s("P"));
    courses.add_prerequisite(&s("A"), &s("Q"));
    courses.add_prerequisite(&s("A"), &s("P"));
    assert_eq!(courses.remove_prerequisite(&s("A"), &s("P")), Some(s("P")));
    let mut left = courses.get_prerequisites(&s("A")).unwrap();
    left.sort();
    assert_eq!(left, vec![s("P"), s("Q")]);
    assert_eq!(courses.remove_prerequisite(&s("A"), &s("P")), Some(s("P")));
    assert_eq!(courses.get_prerequisites(&s("A")), Some(vec![s("Q")]));
    assert_eq!(courses.remove_prerequisite(&s("A"), &s("P")), None);
    assert_eq!(courses.remove_prerequisite(&s("X"), &s("P")), None);
}

#[test]
fn emptied_prerequisite_list_reads_as_none() {
    let mut courses = catalog(&[("A", 1), ("P", 1)]);
    courses.add_prerequisite(&s("A"), &s("P"));
    assert_eq!(courses.remove_prerequisite(&s("A"), &s("P")), Some(s("P")));
    assert_eq!(courses.get_prerequisites(&s("A")), None);
}

#[test]
fn concurrency_without_prerequisites_records_none() {
    let mut courses = catalog(&[("A", 1), ("B", 1), ("C", 1)]);
    courses.add_concurrency(&s("A"), &s("B"));
    courses.add_concurrency(&s("A"), &s("C"));
    for name in ["A", "B", "C"] {
        assert_eq!(courses.get_prerequisites(&s(name)), None);
    }
}

#[test]
fn a_group_is_placed_where_one_member_is_offered() {
    let mut courses = Courses::new();
    let mut a = Course::new(s("A"), 3);
    a.available_by(&TermType::Fall);
    let mut b = Course::new(s("B"), 3);
    b.available_by(&TermType::Winter);
    courses.add_course(a);
    courses.add_course(b);
    courses.add_concurrency(&s("A"), &s("B"));
    let terms = courses.get_terms([10, 1, 1, 1]).unwrap();
    assert_eq!(terms.len(), 1);
    assert_eq!(terms[0].term_type(), TermType::Fall);
    assert_eq!(terms[0].units(), 6);
}

#[test]
fn adding_a_course_twice_keeps_the_last() {
    let mut courses = catalog(&[("A", 5)]);
    courses.add_course(Course::new(s("A"), 2));
    assert_eq!(courses.len(), 1);
    let terms = courses.get_terms([10, 10, 10, 10]).unwrap();
    assert_eq!(terms.len(), 1);
    assert_eq!(terms[0].units(), 2);
}

#[test]
fn removing_courses() {
    let mut courses = catalog(&[("A", 5), ("B", 3)]);
    let removed = courses.remove_course(&s("A")).unwrap();
    assert_eq!(removed.name, s("A"));
    assert_eq!(removed.credits, 5);
    assert_eq!(courses.len(), 1);
    assert!(courses.remove_course(&s("A")).is_none());
    assert_eq!(courses.get_term_courses_for(&TermType::Fall), vec![s("B")]);
}

#[test]
fn term_lists_follow_availability() {
    let mut courses = Courses::new();
    let mut winter_only = Course::new(s("W"), 3);
    winter_only.available_by(&TermType::Winter);
    courses.add_course(winter_only);
    courses.add_course(Course::new(s("Any"), 3));
    assert_eq!(courses.get_term_courses_for(&TermType::Fall), vec![s("Any")]);
    assert_eq!(courses.get_term_courses_for(&TermType::Winter), vec![s("W"), s("Any")]);
}

#[test]
fn a_course_waits_for_its_term_kind() {
    let mut courses = Courses::new();
    let mut summer_only = Course::new(s("S"), 3);
    summer_only.available_by(&TermType::Summer);
    courses.add_course(summer_only);
    let terms = courses.get_terms([9, 9, 9, 9]).unwrap();
    assert_eq!(terms.len(), 1);
    assert_eq!(terms[0].term_type(), TermType::Summer);
}

#[test]
fn every_term_stays_within_its_limit() {
    let courses = catalog(&[("A", 3), ("B", 4), ("C", 2), ("D", 5), ("E", 1), ("F", 6)]);
    let limits = [7, 6, 8, 9];
    let terms = courses.get_terms(limits).unwrap();
    for term in &terms {
        assert!(term.units() <= term.unit_limit());
        let sum: u32 = term.courses().iter().map(|c| c.1 as u32).sum();
        assert_eq!(sum, term.units() as u32);
    }
}

#[test]
fn prerequisites_come_in_earlier_terms() {
    let mut courses = catalog(&[("C", 3), ("B", 3), ("A", 3)]);
    courses.add_prerequisite(&s("B"), &s("A"));
    courses.add_prerequisite(&s("C"), &s("B"));
    let terms = courses.get_terms([10, 10, 10, 10]).unwrap();
    assert_eq!(terms.len(), 3);
    assert_eq!(names_of(&terms[0]), vec![s("A")]);
    assert_eq!(names_of(&terms[1]), vec![s("B")]);
    assert_eq!(names_of(&terms[2]), vec![s("C")]);
}

#[test]
fn a_group_is_placed_whole() {
    let mut courses = catalog(&[("X", 4), ("Y", 4), ("Z", 2)]);
    courses.add_concurrency(&s("X"), &s("Y"));
    let terms = courses.get_terms([6, 8, 8, 8]).unwrap();
    assert_eq!(terms.len(), 2);
    assert_eq!(names_of(&terms[0]), vec![s("Z")]);
    let mut second = names_of(&terms[1]);
    second.sort();
    assert_eq!(second, vec![s("X"), s("Y")]);
    assert_eq!(terms[1].units(), 8);
}

#[test]
fn every_course_is_planned_once() {
    let mut courses = catalog(&[("A", 3), ("B", 3), ("C", 3), ("D", 3), ("E", 3)]);
    courses.add_prerequisite(&s("B"), &s("A"));
    courses.add_concurrency(&s("C"), &s("D"));
    let terms = courses.get_terms([6, 6, 6, 6]).unwrap();
    let mut all: Vec<String> = terms.iter().flat_map(|t| names_of(t)).collect();
    all.sort();
    assert_eq!(all, vec![s("A"), s("B"), s("C"), s("D"), s("E")]);
}

#[test]
fn empty_catalog_has_no_plan() {
    let courses = Courses::new();
    assert_eq!(courses.get_terms([4, 4, 4, 4]), None);
}

#[test]
fn prerequisite_cycle_has_no_plan() {
    let mut courses = catalog(&[("A", 1), ("B", 1)]);
    courses.add_prerequisite(&s("A"), &s("B"));
    courses.add_prerequisite(&s("B"), &s("A"));
    assert_eq!(courses.get_terms([4, 4, 4, 4]), None);
}

#[test]
fn missing_prerequisite_has_no_plan() {
    let mut courses = catalog(&[("A", 1)]);
    courses.add_prerequisite(&s("A"), &s("Ghost"));
    assert_eq!(courses.get_terms([4, 4, 4, 4]), None);
}

#[test]
fn oversized_group_has_no_plan() {
    let mut courses = catalog(&[("A", 3), ("B", 3)]);
    courses.add_concurrency(&s("A"), &s("B"));
    assert_eq!(courses.get_terms([5, 5, 5, 5]), None);
}

#[test]
fn term_bookkeeping() {
    let mut term = Term::new(&TermType::Spring, 6);
    assert!(term.is_empty());
    assert!(!term.is_full());
    let course = Course::new(s("A"), 4);
    assert!(term.can_add_course(&course));
    term.add(&course);
    term.add(&course);
    assert_eq!(term.units(), 4);
    assert_eq!(term.courses(), vec![(s("A"), 4)]);
    assert!(term.can_add_course_units(2));
    assert!(!term.can_add_course_units(3));
    term.add(&Course::new(s("B"), 2));
    assert!(term.is_full());
    assert!(!term.is_empty());
    assert_eq!(term.term_type(), TermType::Spring);
}

#[test]
fn term_kinds_cycle() {
    assert_eq!(TermType::Fall.next(), TermType::Winter);
    assert_eq!(TermType::Winter.next(), TermType::Spring);
    assert_eq!(TermType::Spring.next(), TermType::Summer);
    assert_eq!(TermType::Summer.next(), TermType::Fall);
    assert_eq!(TermType::Summer.index(), 3);
}

#[test]
fn withdrawing_availability() {
    let mut course = Course::new(s("A"), 2);
    course.available_by(&TermType::Fall).available_by(&TermType::Spring);
    course.not_available_by(&TermType::Fall);
    assert!(!course.is_available(&TermType::Fall));
    assert!(course.is_available(&TermType::Spring));
    course.not_available_by(&TermType::Spring);
    assert!(course.is_available(&TermType::Winter));
}

#[test]
fn uneven_group_prerequisites_follow_the_leading_course() {
    let mut courses = catalog(&[("A", 1), ("B", 1), ("C", 1)]);
    courses.add_concurrency(&s("A"), &s("B"));
    courses.add_prerequisite(&s("A"), &s("C"));
    assert_eq!(courses.get_prerequisites(&s("B")), Some(vec![s("C")]));
    assert_eq!(courses.remove_prerequisite(&s("B"), &s("C")), Some(s("C")));
    let terms = courses.get_terms([10, 10, 10, 10]).unwrap();
    assert_eq!(terms.len(), 1);
    assert_eq!(terms[0].units(), 3);
}
