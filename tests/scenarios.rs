use needle_scan::batch::run;
use needle_scan::reader::ReadError;

fn output(input: &str) -> (String, Option<ReadError>) {
    let (out, err) = run(input.as_bytes().to_vec());
    (String::from_utf8(out).unwrap(), err)
}

#[test]
fn three_needles_all_found() {
    assert_eq!(output("3 2\n01\n10\n11\n1\n4\n0110\n"), ("1 2 3\n".to_string(), None));
}

#[test]
fn needle_absent_gives_ok() {
    assert_eq!(output("1 3\n111\n1\n4\n0000\n"), ("OK\n".to_string(), None));
}

#[test]
fn haystack_shorter_than_needles_gives_ok() {
    assert_eq!(output("1 5\n10101\n1\n3\n101\n"), ("OK\n".to_string(), None));
}

#[test]
fn duplicate_needles_report_the_later_index() {
    assert_eq!(output("2 2\n00\n00\n1\n3\n000\n"), ("2\n".to_string(), None));
    assert_eq!(output("3 2\n00\n11\n00\n2\n2\n00\n2\n11\n"), ("3\n2\n".to_string(), None));
}

#[test]
fn last_window_is_queried() {
    assert_eq!(output("2 2\n11\n00\n1\n3\n011\n"), ("1\n".to_string(), None));
    assert_eq!(output("1 3\n101\n1\n3\n101\n"), ("1\n".to_string(), None));
}

#[test]
fn each_needle_reported_once_in_ascending_order() {
    assert_eq!(
        output("4 3\n111\n010\n000\n101\n2\n9\n010101111\n4\n0001\n"),
        ("1 2 4\n3\n".to_string(), None)
    );
}

#[test]
fn wide_needles_fold_two_blocks() {
    let a = "10110011100011110000111110000011";
    let b = "00000000000000000000000000000001";
    let hay = format!("0{}{}", a, "1");
    let input = format!("2 32\n{}\n{}\n1\n{}\n{}\n", a, b, hay.len(), hay);
    assert_eq!(output(&input), ("1\n".to_string(), None));
}

#[test]
fn all_ones_needle_of_full_width() {
    let ones = "1".repeat(32);
    let hay = format!("0{}0", ones);
    let input = format!("1 32\n{}\n2\n{}\n{}\n3\n000\n", ones, hay.len(), hay);
    assert_eq!(output(&input), ("1\nOK\n".to_string(), None));
}

#[test]
fn carriage_returns_are_accepted() {
    assert_eq!(output("3 2\r\n01\r\n10\r\n11\r\n1\r\n4\r\n0110\r\n"), ("1 2 3\n".to_string(), None));
}

#[test]
fn same_input_same_output() {
    let input = "3 2\n01\n10\n11\n2\n4\n0110\n2\n00\n";
    assert_eq!(output(input), output(input));
    assert_eq!(output(input), ("1 2 3\nOK\n".to_string(), None));
}

#[test]
fn empty_input_ends_early() {
    assert_eq!(output(""), (String::new(), Some(ReadError::EndOfStream)));
}

#[test]
fn malformed_header_is_a_parse_error() {
    assert_eq!(output("3 x\n"), (String::new(), Some(ReadError::Parse)));
    assert_eq!(output("3\n"), (String::new(), Some(ReadError::Parse)));
    assert_eq!(output("1 0\n\n1\n1\n0\n"), (String::new(), Some(ReadError::Parse)));
    assert_eq!(output("1 33\n"), (String::new(), Some(ReadError::Parse)));
}

#[test]
fn missing_needle_ends_early() {
    assert_eq!(output("2 2\n01\n"), (String::new(), Some(ReadError::EndOfStream)));
}

#[test]
fn needle_of_wrong_length_is_a_parse_error() {
    assert_eq!(output("1 2\n011\n1\n2\n01\n"), (String::new(), Some(ReadError::Parse)));
}

#[test]
fn lines_before_an_error_are_kept() {
    assert_eq!(output("1 2\n01\n3\n2\n01\n5\n01\n"), ("1\n".to_string(), Some(ReadError::EndOfStream)));
    assert_eq!(output("1 2\n01\n3\n2\n01\n2\n0\n11\n"), ("1\n".to_string(), Some(ReadError::Parse)));
    assert_eq!(output("1 2\n01\n3\n2\n01\n"), ("1\n".to_string(), Some(ReadError::EndOfStream)));
}

#[test]
fn truncated_needle_line_ends_early() {
    assert_eq!(output("2 2\n01\n1"), (String::new(), Some(ReadError::EndOfStream)));
}

#[test]
fn truncated_haystack_line_ends_early() {
    assert_eq!(output("1 2\n01\n1\n4\n01"), (String::new(), Some(ReadError::EndOfStream)));
    assert_eq!(output("1 2\n01\n1\n4\n01\n"), (String::new(), Some(ReadError::EndOfStream)));
}
