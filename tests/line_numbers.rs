use colored::Colorize;
use si::line_numbers::{add_line_numbers, max_number_length, pad, render_file, to_decimal};
use si::stream::Stream;

fn render(contents: &str) -> String {
    colored::control::set_override(true);
    render_file(contents.chars().collect()).to_vec().join("")
}

fn run_on_lines(lines: Vec<&str>) -> Vec<String> {
    render(&lines.join("\n"))
        .lines()
        .map(|x| x.to_string())
        .collect::<Vec<String>>()
}

fn repeated(line: &'static str, n: usize) -> Vec<&'static str> {
    vec![line; n]
}

#[test]
fn line_numbers_shows_line_numbers() {
    assert_eq!(render("foo\nbar\nbaz\n"), "1 | foo\n2 | bar\n3 | baz\n");
}

#[test]
fn line_numbers_works_for_consecutive_newlines() {
    assert_eq!(render("foo\n\nbar\n"), "1 | foo\n2 |\n3 | bar\n");
}

#[test]
fn mod_shows_line_numbers() {
    assert_eq!(render("foo\nbar\nbaz\n"), "1 | foo\n2 | bar\n3 | baz\n");
}

#[test]
fn mod_works_for_consecutive_newlines() {
    assert_eq!(render("foo\n\nbar\n"), "1 | foo\n2 |\n3 | bar\n");
}

#[test]
fn numbers_always_take_up_the_same_number_of_characters() {
    let mut lines = repeated("foo", 12);
    lines.push("");
    let lines = run_on_lines(lines);
    assert_eq!(lines[0], " 1 | foo");
    assert_eq!(lines[11], "12 | foo");
}

#[test]
fn line_number_padding_works_for_empty_lines() {
    let mut lines = vec!["foo", ""];
    lines.extend(repeated("foo", 12));
    let lines = run_on_lines(lines);
    assert_eq!(lines[1], " 2 |");
}

#[test]
fn corner_case_1() {
    let mut lines = repeated("foo", 9);
    lines.push("");
    let lines = run_on_lines(lines);
    assert_eq!(lines.last(), Some(&"9 | foo".to_string()));
}

#[test]
fn corner_case_2() {
    let mut lines = repeated("foo", 10);
    lines.push("");
    let lines = run_on_lines(lines);
    assert_eq!(lines[8], " 9 | foo");
    assert_eq!(lines[9], "10 | foo");
}

#[test]
fn corner_case_3() {
    let mut lines = repeated("foo", 99);
    lines.push("");
    let lines = run_on_lines(lines);
    assert_eq!(lines.last(), Some(&"99 | foo".to_string()));
}

#[test]
fn corner_case_4() {
    let mut lines = repeated("foo", 100);
    lines.push("");
    let lines = run_on_lines(lines);
    assert_eq!(lines[8], "  9 | foo");
    assert_eq!(lines[9], " 10 | foo");
    assert_eq!(lines[98], " 99 | foo");
    assert_eq!(lines[99], "100 | foo");
}

#[test]
fn file_colorizes_file_contents() {
    let output = render("foo \"bar\"");
    assert!(output.ends_with(&format!("foo {}", "\"bar\"".yellow().bold())));
    assert_eq!(output, format!("1 | foo {}", "\"bar\"".yellow().bold()));
}

#[test]
fn mod_colorizes_file_contents() {
    let output = render("foo \"bar\"");
    assert!(output.ends_with(&format!("foo {}", "\"bar\"".yellow().bold())));
}

#[test]
fn cats_files() {
    assert!(render("bar").ends_with("bar"));
}

#[test]
fn field_width_is_the_digit_count_of_the_newlines() {
    let width = |s: &str| max_number_length(&s.chars().collect());
    assert_eq!(width(""), 1);
    assert_eq!(width("a"), 1);
    assert_eq!(width(&"\n".repeat(9)), 1);
    assert_eq!(width(&"\n".repeat(10)), 2);
    assert_eq!(width(&"\n".repeat(99)), 2);
    assert_eq!(width(&"\n".repeat(100)), 3);
}

#[test]
fn last_line_without_newline_may_be_wider() {
    let mut lines = repeated("foo", 10);
    lines.push("x");
    let lines = run_on_lines(lines);
    assert_eq!(lines[0], " 1 | foo");
    assert_eq!(lines[10], "11 | x");
}

#[test]
fn numbering_works_on_raw_characters() {
    let numbered = add_line_numbers(Stream::new("a\n\nb".chars().collect()), 3).to_vec();
    assert_eq!(numbered, vec!["  1 | a", "\n", "  2 |\n", "  3 | b"]);
}

#[test]
fn empty_input_has_no_lines() {
    assert_eq!(render(""), "");
}

#[test]
fn pad_and_decimal() {
    assert_eq!(to_decimal(0), "0");
    assert_eq!(to_decimal(1907), "1907");
    assert_eq!(to_decimal(usize::MAX), usize::MAX.to_string());
    assert_eq!(pad(3, 7), "  7");
    assert_eq!(pad(1, 123), "123");
    assert_eq!(pad(0, 5), "5");
}
