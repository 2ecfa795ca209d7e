use rustilleus::algorithms::{
    binary_search, breadth_first_search, fibonacci, insertion_sort, linear_search, merge_sort,
};
use rustilleus::basics::{double, temperature_label, Direction};
use rustilleus::collections::{word_frequencies, Stack};
use rustilleus::concurrency::checked_sum;
use rustilleus::errors::{parse_positive, positive_total, PositiveNumberError};
use rustilleus::oop::{introduce, Course, Person, Student, Teacher};
use rustilleus::ownership::{add_name, first_word, longest};
use rustilleus::patterns::{
    Checkout, ExpressShipping, Report, StandardShipping, TrafficLight, UserId,
};

#[test]
fn searches_present_and_missing_values() {
    let values = [1, 3, 5, 7, 9];
    assert_eq!(linear_search(&values, &5), Some(2));
    assert_eq!(binary_search(&values, &9), Some(4));
    assert_eq!(binary_search(&values, &4), None);
}

#[test]
fn sorts_empty_duplicate_and_regular_inputs() {
    let mut empty: [i32; 0] = [];
    insertion_sort(&mut empty);
    assert_eq!(empty, []);
    assert_eq!(merge_sort(&[4, 1, 4, 2]), [1, 2, 4, 4]);
}

#[test]
fn traverses_each_reachable_node_once() {
    let graph = vec![vec![1, 2], vec![2], vec![0, 3], vec![], vec![]];
    assert_eq!(breadth_first_search(&graph, 0), [0, 1, 2, 3]);
    assert!(breadth_first_search(&graph, 99).is_empty());
}

#[test]
fn computes_fibonacci_and_detects_overflow() {
    assert_eq!(fibonacci(0), Some(0));
    assert_eq!(fibonacci(10), Some(55));
    assert_eq!(fibonacci(93), Some(12_200_160_415_121_876_738));
    assert_eq!(fibonacci(94), None);
}

#[test]
fn classifies_temperature_boundaries() {
    assert_eq!(temperature_label(0), "freezing");
    assert_eq!(temperature_label(16), "pleasant");
    assert_eq!(temperature_label(26), "hot");
}

#[test]
fn counts_words() {
    let counts = word_frequencies("red blue red");
    assert_eq!(counts.get("red"), Some(&2));
    assert_eq!(counts.get("blue"), Some(&1));
}

#[test]
fn stack_is_last_in_first_out() {
    let mut stack = Stack::new();
    stack.push(10);
    stack.push(20);
    assert_eq!(stack.peek(), Some(&20));
    assert_eq!(stack.pop(), Some(20));
    assert_eq!(stack.pop(), Some(10));
    assert!(stack.is_empty());
}

#[test]
fn custom_errors_retain_context() {
    assert_eq!(parse_positive("5"), Ok(5));
    assert_eq!(
        parse_positive("0"),
        Err(PositiveNumberError::NotPositive(0))
    );
    assert_eq!(
        parse_positive("nope"),
        Err(PositiveNumberError::NotANumber("nope".to_owned()))
    );
}

#[test]
fn methods_manage_encapsulated_state() {
    let mut student = Student::new("Ada");
    student.enroll("Rust 101");
    assert_eq!(student.course_count(), 1);
    assert_eq!(student.describe(), "Ada is a student taking 1 course(s)");
}

#[test]
fn trait_objects_hold_different_concrete_types() {
    let people: Vec<Box<dyn Person>> = vec![
        Box::new(Student::new("A")),
        Box::new(Teacher::new("B", "Rust")),
    ];
    let roles: Vec<&str> = people.iter().map(|person| person.role()).collect();
    assert_eq!(roles, ["student", "teacher"]);
}

#[test]
fn finds_the_first_word_without_allocating() {
    let sentence = String::from("safe and fast");
    assert_eq!(first_word(&sentence), "safe");
}

#[test]
fn mutates_through_one_mutable_reference() {
    let mut greeting = String::from("Hi");
    add_name(&mut greeting, "Ada");
    assert_eq!(greeting, "Hi, Ada!");
}

#[test]
fn builder_supplies_defaults_and_validates() {
    let report = Report::builder("Status").build().unwrap();
    assert_eq!(report.author, "Anonymous");
    assert!(Report::builder("  ").build().is_err());
}

#[test]
fn strategy_changes_checkout_behavior() {
    assert_eq!(Checkout::new(StandardShipping).total(20), 25);
    assert_eq!(Checkout::new(StandardShipping).total(50), 50);
    assert_eq!(Checkout::new(ExpressShipping).total(50), 65);
}

#[test]
fn enum_models_a_closed_state_machine() {
    assert_eq!(TrafficLight::Red.next().next().next(), TrafficLight::Red);
}

#[test]
fn every_light_returns_after_three_steps() {
    for light in [TrafficLight::Red, TrafficLight::Green, TrafficLight::Yellow] {
        assert_eq!(light.next().next().next(), light);
        assert_ne!(light.next(), light);
    }
}

#[test]
fn temperature_labels_cover_each_band() {
    assert_eq!(temperature_label(-40), "freezing");
    assert_eq!(temperature_label(1), "cold");
    assert_eq!(temperature_label(15), "cold");
    assert_eq!(temperature_label(25), "pleasant");
    assert_eq!(temperature_label(i32::MAX), "hot");
}

#[test]
fn doubles_and_gives_directions() {
    assert_eq!(double(21), 42);
    assert_eq!(double(-7), -14);
    assert_eq!(Direction::North.instruction(), "increase y");
    assert_eq!(Direction::East.instruction(), "increase x");
    assert_eq!(Direction::South.instruction(), "decrease y");
    assert_eq!(Direction::West.instruction(), "decrease x");
}

#[test]
fn linear_search_finds_the_first_match() {
    let values = [4, 2, 4, 8];
    assert_eq!(linear_search(&values, &4), Some(0));
    assert_eq!(linear_search(&values, &8), Some(3));
    assert_eq!(linear_search(&values, &5), None);
    let none: [u8; 0] = [];
    assert_eq!(linear_search(&none, &1), None);
}

#[test]
fn binary_search_on_edges() {
    let values = [1, 3, 5, 7, 9];
    assert_eq!(binary_search(&values, &1), Some(0));
    assert_eq!(binary_search(&values, &0), None);
    assert_eq!(binary_search(&values, &10), None);
    let none: [i32; 0] = [];
    assert_eq!(binary_search(&none, &1), None);
    assert_eq!(binary_search(&[1, 2, 2, 2, 3], &2), Some(2));
    assert_eq!(binary_search(&[1, 1, 2], &1), Some(1));
    assert_eq!(binary_search(&[1, 1, 1, 1, 1, 1, 2], &1), Some(3));
}

#[test]
fn insertion_sort_reorders_out_of_order_values() {
    let mut values = [5, -1, 3, 3, 0, 9, -7];
    insertion_sort(&mut values);
    assert_eq!(values, [-7, -1, 0, 3, 3, 5, 9]);
    let mut reversed = [3, 2, 1];
    insertion_sort(&mut reversed);
    assert_eq!(reversed, [1, 2, 3]);
}

#[test]
fn merge_sort_keeps_every_value() {
    assert_eq!(merge_sort::<i32>(&[]), Vec::<i32>::new());
    assert_eq!(merge_sort(&[9, 8, 7, 6, 5, 4, 3]), [3, 4, 5, 6, 7, 8, 9]);
    assert_eq!(merge_sort(&["pear", "apple", "fig"]), ["apple", "fig", "pear"]);
}

#[test]
fn breadth_first_search_visits_by_distance() {
    let graph = vec![vec![2, 1], vec![3], vec![3], vec![0]];
    assert_eq!(breadth_first_search(&graph, 0), [0, 2, 1, 3]);
    assert_eq!(breadth_first_search(&graph, 3), [3, 0, 2, 1]);
    let layered = vec![vec![1, 2], vec![3], vec![4], vec![], vec![]];
    assert_eq!(breadth_first_search(&layered, 0), [0, 1, 2, 3, 4]);
    let out_of_range = vec![vec![7, 1, 1], vec![0]];
    assert_eq!(breadth_first_search(&out_of_range, 0), [0, 1]);
    let lonely = vec![vec![]];
    assert_eq!(breadth_first_search(&lonely, 0), [0]);
}

#[test]
fn fibonacci_small_values() {
    assert_eq!(fibonacci(1), Some(1));
    assert_eq!(fibonacci(2), Some(1));
    assert_eq!(fibonacci(3), Some(2));
    assert_eq!(fibonacci(20), Some(6765));
    assert_eq!(fibonacci(u32::MAX), None);
}

#[test]
fn word_frequencies_of_blank_and_spaced_text() {
    assert!(word_frequencies("   ").is_empty());
    let counts = word_frequencies("  a\tb  a\na ");
    assert_eq!(counts.len(), 2);
    assert_eq!(counts.get("a"), Some(&3));
    assert_eq!(counts.get("b"), Some(&1));
    assert_eq!(counts.get("c"), None);
}

#[test]
fn stack_push_then_pop_gives_the_item_back() {
    let mut stack: Stack<&str> = Stack::default();
    assert!(stack.is_empty());
    assert_eq!(stack.peek(), None);
    assert_eq!(stack.pop(), None);
    stack.push("x");
    assert!(!stack.is_empty());
    assert_eq!(stack.pop(), Some("x"));
    assert!(stack.is_empty());
}

#[test]
fn parse_positive_errors_and_messages() {
    assert_eq!(parse_positive("-3"), Err(PositiveNumberError::NotPositive(-3)));
    assert_eq!(parse_positive("+12"), Ok(12));
    assert_eq!(parse_positive("2147483647"), Ok(2_147_483_647));
    assert_eq!(
        parse_positive("2147483648"),
        Err(PositiveNumberError::NotANumber("2147483648".to_owned()))
    );
    assert_eq!(
        parse_positive(""),
        Err(PositiveNumberError::NotANumber(String::new()))
    );
    assert_eq!(
        PositiveNumberError::EmptyInput.message(),
        "at least one value is required"
    );
    assert_eq!(
        PositiveNumberError::NotANumber("crab".to_owned()).message(),
        "`crab` is not a whole number"
    );
    assert_eq!(
        PositiveNumberError::NotPositive(-3).message(),
        "expected a positive number, got -3"
    );
    assert_eq!(
        PositiveNumberError::NotPositive(0).message(),
        "expected a positive number, got 0"
    );
}

#[test]
fn people_describe_and_introduce_themselves() {
    let teacher = Teacher::new("Grace", "Computer Science");
    assert_eq!(teacher.name(), "Grace");
    assert_eq!(teacher.subject(), "Computer Science");
    assert_eq!(teacher.describe(), "Grace is a teacher");
    assert_eq!(introduce(&teacher), "Welcome, Grace!");
    let mut student = Student::new("Linus");
    assert_eq!(student.describe(), "Linus is a student taking 0 course(s)");
    student.enroll("Systems Programming");
    student.enroll("Compilers");
    assert_eq!(student.course_count(), 2);
    assert_eq!(student.describe(), "Linus is a student taking 2 course(s)");
    let course = Course::new("Practical Rust", teacher);
    assert_eq!(course.summary(), "Practical Rust is taught by Grace");
}

#[test]
fn ownership_helpers() {
    assert_eq!(first_word("single"), "single");
    assert_eq!(first_word(""), "");
    assert_eq!(first_word(" leading"), "leading");
    assert_eq!(first_word("\t two words"), "two");
    assert_eq!(longest("short", "longer"), "longer");
    assert_eq!(longest("same", "size"), "same");
    assert_eq!(longest("é", "ab"), "é");
    assert_eq!(longest("three", "two"), "three");
}

#[test]
fn report_builder_keeps_author_and_sections() {
    let report = Report::builder("Plan")
        .author("Ferris")
        .section("one")
        .section("two")
        .build()
        .unwrap();
    assert_eq!(report.title, "Plan");
    assert_eq!(report.author, "Ferris");
    assert_eq!(report.sections, ["one", "two"]);
    assert_eq!(Report::builder("").build(), Err("report title cannot be empty"));
}

#[test]
fn shipping_boundaries_and_user_ids() {
    assert_eq!(Checkout::new(StandardShipping).total(49), 54);
    assert_eq!(Checkout::new(StandardShipping).total(0), 5);
    assert_eq!(Checkout::new(ExpressShipping).total(0), 15);
    assert_eq!(UserId::new(7).get(), 7);
    assert_ne!(UserId::new(7), UserId::new(8));
}

#[test]
fn positive_total_adds_or_reports_the_first_error() {
    assert_eq!(positive_total(&["2", "4", "6"]), Ok(12));
    assert_eq!(positive_total(&[]), Err(PositiveNumberError::EmptyInput));
    assert_eq!(
        positive_total(&["2", "-1", "6"]),
        Err(PositiveNumberError::NotPositive(-1))
    );
    assert_eq!(
        positive_total(&["2", "x", "0"]),
        Err(PositiveNumberError::NotANumber("x".to_owned()))
    );
    assert_eq!(
        positive_total(&["2147483647", "2147483647"]),
        Ok(4_294_967_294)
    );
}

#[test]
fn checked_sum_adds_from_the_left() {
    assert_eq!(checked_sum(&[]), Some(0));
    assert_eq!(checked_sum(&[1, 2, 3, 4]), Some(10));
    assert_eq!(checked_sum(&[i64::MAX, 1, -1]), None);
    assert_eq!(checked_sum(&[i64::MAX, -1, 1]), Some(i64::MAX));
    assert_eq!(checked_sum(&[i64::MIN, -1]), None);
}

/// Ordered by `key` alone, so values with equal keys compare equal.
#[derive(Debug, Clone, Copy)]
struct Keyed {
    key: u32,
    tag: char,
}

impl PartialEq for Keyed {
    fn eq(&self, other: &Self) -> bool {
        self.key == other.key
    }
}

impl Eq for Keyed {}

impl PartialOrd for Keyed {
    fn partial_cmp(&self, other: &Self) -> Option<std::cmp::Ordering> {
        Some(self.cmp(other))
    }
}

impl Ord for Keyed {
    fn cmp(&self, other: &Self) -> std::cmp::Ordering {
        self.key.cmp(&other.key)
    }
}

#[test]
fn merge_sort_is_stable() {
    let items = [
        Keyed { key: 2, tag: 'a' },
        Keyed { key: 1, tag: 'b' },
        Keyed { key: 2, tag: 'c' },
        Keyed { key: 1, tag: 'd' },
        Keyed { key: 0, tag: 'e' },
        Keyed { key: 2, tag: 'f' },
    ];
    let tags: Vec<char> = merge_sort(&items).iter().map(|item| item.tag).collect();
    assert_eq!(tags, ['e', 'b', 'd', 'a', 'c', 'f']);
}

#[test]
fn sorting_and_searching_go_by_the_comparison() {
    let mut items = [
        Keyed { key: 3, tag: 'a' },
        Keyed { key: 1, tag: 'b' },
        Keyed { key: 3, tag: 'c' },
        Keyed { key: 2, tag: 'd' },
    ];
    insertion_sort(&mut items);
    let keys: Vec<u32> = items.iter().map(|item| item.key).collect();
    assert_eq!(keys, [1, 2, 3, 3]);
    let found = binary_search(&items, &Keyed { key: 2, tag: 'z' }).unwrap();
    assert_eq!(items[found].key, 2);
    assert_eq!(binary_search(&items, &Keyed { key: 4, tag: 'z' }), None);
}
