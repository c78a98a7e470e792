use field_tracker::render::{counts_line, indentation, scope_header};
use field_tracker::report::{Report, ReportValues};
use field_tracker::tracker::{update_add, update_inv, update_mul, Tracker};

#[test]
fn counts_line_labels_each_count() {
    assert_eq!(counts_line("1", "22", "333", "4,444"), "add: 1, sub: 22, mul: 333, inv: 4,444");
    assert_eq!(counts_line("", "", "", ""), "add: , sub: , mul: , inv: ");
}

#[test]
fn values_group_their_digits() {
    let values = ReportValues { add: 1234567, sub: 0, mul: 999, inv: 1000 };
    assert_eq!(values.to_string(), "add: 1,234,567, sub: 0, mul: 999, inv: 1,000");
}

#[test]
fn indentation_is_two_spaces_a_level() {
    assert_eq!(indentation(0), "");
    assert_eq!(indentation(1), "  ");
    assert_eq!(indentation(3), "      ");
}

#[test]
fn header_has_a_name_line_and_a_counts_line() {
    assert_eq!(scope_header("", "name", "line"), "\nname\n line\n");
    assert_eq!(scope_header("  ", "name", "line"), "\n  name\n   line\n");
}

#[test]
fn listing_of_a_single_report() {
    let report = Report::new("alone");
    assert_eq!(report.to_string(0), "\nalone\n add: 0, sub: 0, mul: 0, inv: 0\n");
    assert_eq!(report.to_string(2), "\n    alone\n     add: 0, sub: 0, mul: 0, inv: 0\n");
}

#[test]
fn listing_indents_each_level() {
    let mut tracker = Tracker::new();
    tracker.start("gkr");
    update_add(&mut tracker);
    tracker.start("sumcheck");
    update_mul(&mut tracker);
    tracker.end();
    tracker.start("check");
    update_inv(&mut tracker);
    tracker.end();
    tracker.end();
    let expected = "\nGlobal Summary\n add: 1, sub: 0, mul: 1, inv: 1\n\
                    \n  gkr\n   add: 1, sub: 0, mul: 1, inv: 1\n\
                    \n    sumcheck\n     add: 0, sub: 0, mul: 1, inv: 0\n\
                    \n    check\n     add: 0, sub: 0, mul: 0, inv: 1\n";
    assert_eq!(tracker.summary().to_string(0), expected);
}

#[test]
fn tree_of_a_single_report() {
    let report = Report::new("alone");
    assert_eq!(report.display(), "alone\n└── add: 0, sub: 0, mul: 0, inv: 0\n");
}

#[test]
fn tree_draws_children_below_the_counts() {
    let mut tracker = Tracker::new();
    tracker.start("gkr");
    update_add(&mut tracker);
    tracker.end();
    let expected = "Global Summary\n\
                    ├── add: 1, sub: 0, mul: 0, inv: 0\n\
                    └── gkr\n    \
                    └── add: 1, sub: 0, mul: 0, inv: 0\n";
    assert_eq!(tracker.summary().display(), expected);
}

#[test]
fn tree_draws_nested_and_following_scopes() {
    let mut tracker = Tracker::new();
    tracker.start("a");
    tracker.start("c");
    update_mul(&mut tracker);
    tracker.end();
    tracker.end();
    tracker.start("b");
    tracker.end();
    let lines = [
        "Global Summary",
        "├── add: 0, sub: 0, mul: 1, inv: 0",
        "├── a",
        "|   ├── add: 0, sub: 0, mul: 1, inv: 0",
        "|   └── c",
        "|       └── add: 0, sub: 0, mul: 1, inv: 0",
        "└── b",
        "    └── add: 0, sub: 0, mul: 0, inv: 0",
    ];
    let mut expected = String::new();
    for line in lines {
        expected.push_str(line);
        expected.push('\n');
    }
    assert_eq!(tracker.summary().display(), expected);
}
