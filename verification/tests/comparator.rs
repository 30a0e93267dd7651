use feruca::Collator;
use pyferuca::code_point::compare_code_points;
use pyferuca::collation::compare;
use pyferuca::collation::decide;
use pyferuca::collation::is_in_order;
use std::cmp::Ordering;

#[test]
fn code_points_decide_at_the_first_difference() {
    assert_eq!(compare_code_points("abc", "abd"), Ordering::Less);
    assert_eq!(compare_code_points("abd", "abc"), Ordering::Greater);
    assert_eq!(compare_code_points("b", "a"), Ordering::Greater);
    assert_eq!(compare_code_points("Z", "a"), Ordering::Less);
    assert_eq!(compare_code_points("\u{e9}", "z"), Ordering::Greater);
}

#[test]
fn code_points_put_a_prefix_first() {
    assert_eq!(compare_code_points("", "a"), Ordering::Less);
    assert_eq!(compare_code_points("a", ""), Ordering::Greater);
    assert_eq!(compare_code_points("ab", "abc"), Ordering::Less);
    assert_eq!(compare_code_points("abc", "ab"), Ordering::Greater);
}

#[test]
fn code_points_of_equal_strings_are_equal() {
    assert_eq!(compare_code_points("", ""), Ordering::Equal);
    assert_eq!(compare_code_points("abc", "abc"), Ordering::Equal);
    assert_eq!(compare_code_points("caf\u{e9}", "caf\u{e9}"), Ordering::Equal);
}

#[test]
fn code_points_beyond_the_basic_plane_come_last() {
    assert_eq!(compare_code_points("\u{ffff}", "\u{10000}"), Ordering::Less);
    assert_eq!(compare_code_points("\u{10000}", "\u{ffff}"), Ordering::Greater);
}

#[test]
fn compare_puts_base_letters_before_case() {
    assert_eq!(compare("apple", "Banana"), Ordering::Less);
    assert_eq!(compare("Banana", "apple"), Ordering::Greater);
    assert_eq!(compare("Apple", "banana"), Ordering::Less);
    assert_eq!(compare("banana", "cherry"), Ordering::Less);
}

#[test]
fn compare_puts_the_plain_letter_before_the_accented_one() {
    assert_eq!(compare("cafe", "caf\u{e9}"), Ordering::Less);
    assert_eq!(compare("caf\u{e9}", "cafe"), Ordering::Greater);
    assert_eq!(compare("caf\u{e9}", "cafz"), Ordering::Less);
    assert_eq!(compare("cafz", "caf\u{e9}"), Ordering::Greater);
}

#[test]
fn compare_puts_lower_case_before_upper_case() {
    assert_eq!(compare("a", "A"), Ordering::Less);
    assert_eq!(compare("A", "a"), Ordering::Greater);
}

#[test]
fn compare_of_a_string_with_itself_is_equal() {
    assert_eq!(compare("cherry", "cherry"), Ordering::Equal);
    assert_eq!(compare("", ""), Ordering::Equal);
    assert_eq!(compare("caf\u{e9}", "caf\u{e9}"), Ordering::Equal);
}

#[test]
fn compare_never_ties_on_canonically_equivalent_strings() {
    let composed = "\u{e9}";
    let decomposed = "e\u{301}";
    assert_eq!(compare(composed, decomposed), Ordering::Greater);
    assert_eq!(compare(decomposed, composed), Ordering::Less);
    let angstrom = "\u{212b}";
    let a_with_ring = "\u{c5}";
    assert_eq!(compare(a_with_ring, angstrom), Ordering::Less);
    assert_eq!(compare(angstrom, a_with_ring), Ordering::Greater);
}

#[test]
fn compare_mirrors_when_the_strings_are_swapped() {
    let words = ["", "a", "A", "b", "caf\u{e9}", "cafe", "e\u{301}", "\u{e9}", "z", "Z"];
    for a in words {
        for b in words {
            let forward = compare(a, b);
            let backward = compare(b, a);
            assert_eq!(forward, backward.reverse());
            assert_eq!(forward == Ordering::Equal, a == b);
        }
    }
}

#[test]
fn compare_is_transitive_on_a_sample() {
    let words = ["", "a", "A", "b", "B", "caf\u{e9}", "cafe", "cafz", "e\u{301}", "\u{e9}"];
    for a in words {
        for b in words {
            for c in words {
                if is_in_order(a, b) && is_in_order(b, c) {
                    assert!(is_in_order(a, c));
                }
            }
        }
    }
}

#[test]
fn in_order_holds_both_ways_only_for_the_same_string() {
    assert!(is_in_order("Apple", "banana"));
    assert!(!is_in_order("banana", "Apple"));
    assert!(is_in_order("banana", "banana"));
}

#[test]
fn decide_reads_the_verdict_by_the_code_point_order() {
    let less = Ordering::Less;
    let equal = Ordering::Equal;
    let greater = Ordering::Greater;
    assert_eq!(decide(equal, less), equal);
    assert_eq!(decide(equal, equal), equal);
    assert_eq!(decide(equal, greater), equal);
    assert_eq!(decide(less, less), less);
    assert_eq!(decide(less, equal), less);
    assert_eq!(decide(less, greater), greater);
    assert_eq!(decide(greater, less), greater);
    assert_eq!(decide(greater, equal), greater);
    assert_eq!(decide(greater, greater), less);
}

#[test]
fn compare_agrees_with_the_collator_on_a_sample() {
    let words = [
        "", "a", "A", "b", "B", "ab", "a b", "a-b", "caf\u{e9}", "cafe", "cafz", "e\u{301}",
        "\u{e9}", "10", "9", "\u{4e2d}\u{6587}", "\u{430}\u{431}", "\u{3b1}\u{3b2}", "Zebra",
        "zebra",
    ];
    let mut collator = Collator::default();
    for a in words {
        for b in words {
            assert_eq!(compare(a, b), collator.collate(a, b));
        }
    }
}
