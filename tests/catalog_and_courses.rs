use course_planner::catalog::Courses;
use course_planner::course::{Course, TermType};
use course_planner::term::Term;

#[test]
fn test_course_all_available() {
    let course_name: String = String::from("Test");
    let term = TermType::Fall;
    let mut my_course = Course::new(course_name, 4);

    assert!(my_course.is_available(&term));

    my_course
        .available_by(&TermType::Fall)
        .available_by(&TermType::Winter)
        .available_by(&TermType::Spring)
        .available_by(&TermType::Summer);

    assert!(my_course.is_available(&term));
}

#[test]
fn test_course_one_not_available() {
    let course_name: String = String::from("Test");
    let term = TermType::Fall;

    let mut my_course = Course::new(course_name, 4);
    my_course.available_by(&term);

    assert!(!my_course.is_available(&TermType::Winter));
}

#[test]
fn test_course_one_available() {
    let course_name: String = String::from("Test");
    let term = TermType::Fall;

    let mut my_course = Course::new(course_name, 4);
    my_course.available_by(&term);

    assert!(my_course.is_available(&term));
}

#[test]
fn test_remove_nonexistant_concurrent() {
    let mut courses: Courses = Courses::new();

    assert_eq!(
        courses.remove_concurrency(&String::from("Test1"), &String::from("Test2")),
        None
    );
}

#[test]
fn test_get_concurrents_none() {
    let courses: Courses = Courses::new();

    assert_eq!(courses.get_concurrents_for(&String::from("Test")), None);
}

#[test]
fn test_get_concurrents() {
    let mut courses: Courses = Courses::new();
    let first_course: Course = Course::new(String::from("Test1"), 3);
    let first_course_name = first_course.name.to_string();

    let second_course: Course = Course::new(String::from("Test2"), 4);
    let second_course_name = second_course.name.to_string();

    let third_course: Course = Course::new(String::from("Test3"), 5);
    let third_course_name = third_course.name.to_string();

    courses.add_course(first_course);
    courses.add_course(second_course);
    courses.add_course(third_course);

    courses.add_concurrency(&first_course_name, &second_course_name);
    courses.add_concurrency(&second_course_name, &third_course_name);

    let test1_concurrents = courses.get_concurrents_for(&first_course_name);
    assert_ne!(test1_concurrents, None);
    assert_eq!(
        test1_concurrents,
        courses.get_concurrents_for(&second_course_name)
    );
    assert_eq!(
        test1_concurrents,
        courses.get_concurrents_for(&third_course_name)
    );

    assert_eq!(test1_concurrents.unwrap().1, 12);
}

#[test]
fn test_get_term_no_prerequisites() {
    let mut courses: Courses = Courses::new();
    let first_course: Course = Course::new(String::from("CS 10"), 4);
    let second_course: Course = Course::new(String::from("CS 11"), 4);
    let third_course: Course = Course::new(String::from("CS 12"), 4);

    courses.add_course(first_course);
    courses.add_course(second_course);
    courses.add_course(third_course);

    let result: Option<Vec<Term>> = courses.get_terms([4, 4, 4, 4]);
    assert_ne!(result, None);

    let completed_terms: Vec<Term> = result.unwrap();

    for term in &completed_terms {
        println!("{:?}", term);
    }
    assert_eq!(completed_terms.len(), 3);
}

#[test]
fn test_get_term_with_prerequisites_simple() {
    let mut courses: Courses = Courses::new();
    let first_course: Course = Course::new(String::from("CS 10"), 4);
    let first_course_name = first_course.name.to_string();

    let second_course: Course = Course::new(String::from("CS 11"), 4);
    let second_course_name = second_course.name.to_string();

    let third_course: Course = Course::new(String::from("CS 12"), 4);
    let third_course_name = third_course.name.to_string();

    courses.add_course(first_course);
    courses.add_course(second_course);
    courses.add_course(third_course);

    courses.add_prerequisite(&second_course_name, &first_course_name);
    courses.add_prerequisite(&third_course_name, &first_course_name);

    let result: Option<Vec<Term>> = courses.get_terms([8, 8, 8, 8]);
    assert_ne!(result, None);

    let completed_terms: Vec<Term> = result.unwrap();

    for term in &completed_terms {
        println!("{:?}", term);
    }
    assert_eq!(completed_terms.len(), 2);
}

#[test]
fn test_concurrents_with_new_prerequisite() {
    let mut courses: Courses = Courses::new();
    let first_course: Course = Course::new(String::from("Test1"), 3);
    let first_course_name = first_course.name.to_string();

    let second_course: Course = Course::new(String::from("Test2"), 4);
    let second_course_name = second_course.name.to_string();

    let third_course: Course = Course::new(String::from("Test3"), 5);
    let third_course_name = third_course.name.to_string();

    let fourth_course: Course = Course::new(String::from("Test4"), 4);
    let fourth_course_name = fourth_course.name.to_string();

    courses.add_course(first_course);
    courses.add_course(second_course);
    courses.add_course(third_course);
    courses.add_course(fourth_course);

    courses.add_concurrency(&first_course_name, &second_course_name);
    courses.add_concurrency(&first_course_name, &third_course_name);

    let test1_concurrents_results = courses.get_concurrents_for(&first_course_name);
    assert_ne!(test1_concurrents_results, None);

    let test1_concurrents: (Vec<String>, u128) = test1_concurrents_results.unwrap();
    assert_eq!(test1_concurrents.0.len(), 3);
    assert_eq!(courses.get_prerequisites(&first_course_name), None);

    courses.add_prerequisite(&first_course_name, &fourth_course_name);
    assert_ne!(courses.get_prerequisites(&first_course_name), None);
    assert_ne!(courses.get_prerequisites(&second_course_name), None);
    assert_ne!(courses.get_prerequisites(&third_course_name), None);
}

#[test]
fn test_concurrents_with_existing_prerequisites() {
    let mut courses: Courses = Courses::new();
    let first_course: Course = Course::new(String::from("Test1"), 3);
    let first_course_name = first_course.name.to_string();

    let second_course: Course = Course::new(String::from("Test2"), 4);
    let second_course_name = second_course.name.to_string();

    let third_course: Course = Course::new(String::from("Test3"), 5);
    let third_course_name = third_course.name.to_string();

    let fourth_course: Course = Course::new(String::from("Test4"), 4);
    let fourth_course_name = fourth_course.name.to_string();

    let fifth_course: Course = Course::new(String::from("Test5"), 3);
    let fifth_course_name = fifth_course.name.to_string();

    let sixth_course: Course = Course::new(String::from("Test6"), 4);
    let sixth_course_name = sixth_course.name.to_string();

    courses.add_course(first_course);
    courses.add_course(second_course);
    courses.add_course(third_course);
    courses.add_course(fourth_course);

    courses.add_concurrency(&first_course_name, &second_course_name);
    courses.add_concurrency(&third_course_name, &fourth_course_name);
    assert_ne!(courses.get_concurrents_for(&first_course_name), None);
    assert_ne!(courses.get_concurrents_for(&third_course_name), None);

    courses.add_prerequisite(&first_course_name, &fifth_course_name);
    courses.add_prerequisite(&third_course_name, &sixth_course_name);
    assert_ne!(courses.get_prerequisites(&first_course_name), None);
    assert_ne!(courses.get_prerequisites(&third_course_name), None);

    courses.add_concurrency(&second_course_name, &fourth_course_name);

    let first_course_prerequisites_results: Option<Vec<String>> =
        courses.get_prerequisites(&first_course_name);
    assert_ne!(first_course_prerequisites_results, None);

    let first_course_prerequisites: Vec<String> = first_course_prerequisites_results.unwrap();
    assert_eq!(first_course_prerequisites.len(), 2);

    let second_course_prerequisite_results: Option<Vec<String>> =
        courses.get_prerequisites(&second_course_name);
    assert_ne!(second_course_prerequisite_results, None);

    let second_course_prerequisites: Vec<String> = second_course_prerequisite_results.unwrap();
    assert_eq!(second_course_prerequisites.len(), 2);

    let third_course_prerequisites_results: Option<Vec<String>> =
        courses.get_prerequisites(&third_course_name);
    assert_ne!(third_course_prerequisites_results, None);

    let third_course_prerequisites: Vec<String> = third_course_prerequisites_results.unwrap();
    assert_eq!(third_course_prerequisites.len(), 2);

    let fourth_course_prerequisites_results: Option<Vec<String>> =
        courses.get_prerequisites(&fourth_course_name);
    assert_ne!(fourth_course_prerequisites_results, None);

    let fourth_course_prerequisites: Vec<String> = fourth_course_prerequisites_results.unwrap();
    assert_eq!(fourth_course_prerequisites.len(), 2);
}
