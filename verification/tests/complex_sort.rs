use pyferuca::extract::extract_keys;
use pyferuca::extract::sort_by_extracted_keys;
use pyferuca::extract::uca_complex_sort;
use pyferuca::extract::ExtractionError;
use std::cell::Cell;

#[derive(Debug, Clone, PartialEq)]
struct Person {
    given: String,
    family: String,
}

fn person(given: &str, family: &str) -> Person {
    Person { given: given.to_string(), family: family.to_string() }
}

fn people() -> Vec<Person> {
    vec![
        person("Zo\u{eb}", "Adams"),
        person("adam", "Young"),
        person("Bea", "\u{c9}mile"),
        person("Carl", "Ernst"),
    ]
}

fn ask(record: &Person, method_name: &str, args: &Option<Vec<String>>) -> Result<String, String> {
    match (method_name, args) {
        ("given", None) => Ok(record.given.clone()),
        ("family", None) => Ok(record.family.clone()),
        ("key_for", Some(args)) if args.len() == 1 => {
            if args[0] == "family" {
                Ok(format!("{} {}", record.family, record.given))
            } else if args[0] == "given" {
                Ok(format!("{} {}", record.given, record.family))
            } else {
                Err(format!("unknown part: {}", args[0]))
            }
        }
        ("shout", _) => {
            if record.given == "Bea" {
                Err("Bea does not shout".to_string())
            } else {
                Ok(record.given.to_uppercase())
            }
        }
        _ => Err(format!("no accessor named {}", method_name)),
    }
}

#[test]
fn complex_sort_orders_records_by_their_keys() {
    let sorted = uca_complex_sort(people(), "given", None, ask).unwrap();
    assert_eq!(
        sorted,
        vec![
            person("adam", "Young"),
            person("Bea", "\u{c9}mile"),
            person("Carl", "Ernst"),
            person("Zo\u{eb}", "Adams"),
        ]
    );
    let sorted = uca_complex_sort(people(), "family", None, ask).unwrap();
    assert_eq!(
        sorted,
        vec![
            person("Zo\u{eb}", "Adams"),
            person("Bea", "\u{c9}mile"),
            person("Carl", "Ernst"),
            person("adam", "Young"),
        ]
    );
}

#[test]
fn complex_sort_hands_the_arguments_to_the_accessor() {
    let by_family =
        uca_complex_sort(people(), "key_for", Some(vec!["family".to_string()]), ask).unwrap();
    assert_eq!(
        by_family,
        vec![
            person("Zo\u{eb}", "Adams"),
            person("Bea", "\u{c9}mile"),
            person("Carl", "Ernst"),
            person("adam", "Young"),
        ]
    );
    let by_given =
        uca_complex_sort(people(), "key_for", Some(vec!["given".to_string()]), ask).unwrap();
    assert_eq!(
        by_given,
        vec![
            person("adam", "Young"),
            person("Bea", "\u{c9}mile"),
            person("Carl", "Ernst"),
            person("Zo\u{eb}", "Adams"),
        ]
    );
}

#[test]
fn complex_sort_fails_as_a_whole_when_one_record_fails() {
    let result = uca_complex_sort(people(), "shout", None, ask);
    assert_eq!(
        result,
        Err(ExtractionError { index: 2, cause: "Bea does not shout".to_string() })
    );
}

#[test]
fn complex_sort_fails_when_the_accessor_is_missing() {
    let result = uca_complex_sort(people(), "nickname", None, ask);
    assert_eq!(
        result,
        Err(ExtractionError { index: 0, cause: "no accessor named nickname".to_string() })
    );
}

#[test]
fn complex_sort_fails_on_arguments_that_the_accessor_rejects() {
    let result = uca_complex_sort(people(), "key_for", Some(vec!["age".to_string()]), ask);
    assert_eq!(result, Err(ExtractionError { index: 0, cause: "unknown part: age".to_string() }));
}

#[test]
fn complex_sort_of_nothing_asks_nobody() {
    let asked = Cell::new(0u32);
    let count = |_record: &Person, _name: &str, _args: &Option<Vec<String>>| {
        asked.set(asked.get() + 1);
        Err::<String, String>("asked".to_string())
    };
    let result = uca_complex_sort(Vec::new(), "given", None, count);
    assert_eq!(result, Ok(Vec::new()));
    assert_eq!(asked.get(), 0);
}

#[test]
fn complex_sort_asks_each_record_once() {
    let asked = Cell::new(0u32);
    let count = |record: &Person, name: &str, args: &Option<Vec<String>>| {
        asked.set(asked.get() + 1);
        ask(record, name, args)
    };
    let sorted = uca_complex_sort(people(), "family", None, count).unwrap();
    assert_eq!(sorted.len(), 4);
    assert_eq!(asked.get(), 4);
}

#[test]
fn complex_sort_stops_asking_at_the_first_failure() {
    let asked = Cell::new(0u32);
    let count = |record: &Person, name: &str, args: &Option<Vec<String>>| {
        asked.set(asked.get() + 1);
        ask(record, name, args)
    };
    let result = uca_complex_sort(people(), "shout", None, count);
    assert!(result.is_err());
    assert_eq!(asked.get(), 3);
}

#[test]
fn complex_sort_keeps_records_that_share_a_key() {
    let twins = vec![person("Ann", "Lee"), person("Bob", "Kim"), person("Cy", "Lee")];
    let sorted = uca_complex_sort(twins, "family", None, ask).unwrap();
    assert_eq!(sorted.len(), 3);
    assert_eq!(sorted[0], person("Bob", "Kim"));
    assert!(sorted[1..].contains(&person("Ann", "Lee")));
    assert!(sorted[1..].contains(&person("Cy", "Lee")));
}

#[test]
fn extract_keys_pairs_each_record_with_its_key() {
    let pairs = extract_keys(people(), "given", &None, &ask).unwrap();
    assert_eq!(
        pairs,
        vec![
            ("Zo\u{eb}".to_string(), person("Zo\u{eb}", "Adams")),
            ("adam".to_string(), person("adam", "Young")),
            ("Bea".to_string(), person("Bea", "\u{c9}mile")),
            ("Carl".to_string(), person("Carl", "Ernst")),
        ]
    );
}

#[test]
fn extract_keys_reports_the_first_failure() {
    let result = extract_keys(people(), "shout", &None, &ask);
    assert_eq!(
        result,
        Err(ExtractionError { index: 2, cause: "Bea does not shout".to_string() })
    );
}

#[test]
fn sort_by_extracted_keys_drops_the_keys() {
    let pairs = vec![("cherry".to_string(), 1), ("Apple".to_string(), 2), ("banana".to_string(), 3)];
    assert_eq!(sort_by_extracted_keys(pairs), vec![2, 3, 1]);
    assert_eq!(sort_by_extracted_keys(Vec::<(String, u8)>::new()), Vec::<u8>::new());
}
