use bf::format_error_source;

#[test]
fn error_source_marks_the_failing_character() {
    // Force both rendering modes in one test, since the switch is
    // process-wide.
    colored::control::set_override(true);
    let marked = format_error_source("ab]cd", 2);
    assert_eq!(marked, "ab'\u{1b}[31m]\u{1b}[0m'cd");
    colored::control::set_override(false);
    let plain = format_error_source("ab]cd", 2);
    assert_eq!(plain, "ab']'cd");
}

#[test]
fn error_source_marks_first_and_last_positions() {
    colored::control::set_override(false);
    assert_eq!(format_error_source("]++", 0), "']'++");
    assert_eq!(format_error_source("++[", 2), "++'['");
}
