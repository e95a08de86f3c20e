use colored::Colorize;
use si::colorize::{colorize, Parser};
use si::stream::Stream;

fn test_colorize(input: &str) -> String {
    colored::control::set_override(true);
    let vec: Vec<char> = input.chars().collect();
    colorize(Stream::new(vec)).to_vec().join("")
}

fn strip_escapes(text: &str) -> String {
    let mut out = String::new();
    let mut in_escape = false;
    for c in text.chars() {
        if in_escape {
            if c == 'm' {
                in_escape = false;
            }
        } else if c == '\u{1b}' {
            in_escape = true;
        } else {
            out.push(c);
        }
    }
    out
}

#[test]
fn colorize_colorizes_double_quoted_strings() {
    assert_eq!(
        test_colorize("f\"o\"o"),
        format!("f{}o", "\"o\"".yellow().bold())
    );
}

#[test]
fn colorize_allows_to_escape_double_quotes() {
    assert_eq!(
        test_colorize(r#"a"b\"c\"d"e"#),
        format!("a{}e", r#""b\"c\"d""#.yellow().bold())
    );
}

#[test]
fn colorize_resets_at_newlines() {
    assert_eq!(
        test_colorize("foo\"bar\nf\"o\"o"),
        format!(
            "foo{}\nf{}o",
            "\"bar".yellow().bold(),
            "\"o\"".yellow().bold()
        )
    );
}

#[test]
fn colorize_colorizes_round_brackets() {
    assert_eq!(
        test_colorize("(foo)"),
        format!("{}foo{}", "(".cyan().bold(), ")".cyan().bold())
    );
}

#[test]
fn colorize_colorizes_curly_brackets() {
    assert_eq!(
        test_colorize("{foo}"),
        format!("{}foo{}", "{".cyan().bold(), "}".cyan().bold())
    );
}

#[test]
fn colorize_colorizes_square_brackets() {
    assert_eq!(
        test_colorize("[foo]"),
        format!("{}foo{}", "[".cyan().bold(), "]".cyan().bold())
    );
}

#[test]
fn colorize_colorizes_numbers() {
    assert_eq!(
        test_colorize("foo 42 bar"),
        format!("foo {} bar", "42".red().bold().to_string())
    );
}

#[test]
fn colorize_works_for_numbers_at_the_end_of_lines() {
    assert_eq!(
        test_colorize("23\n42"),
        format!(
            "{}\n{}",
            "23".red().bold().to_string(),
            "42".red().bold().to_string()
        )
    );
}

#[test]
fn colorize_does_not_colorize_numbers_within_identifiers() {
    assert_eq!(test_colorize("foo42bar"), format!("foo42bar"));
}

#[test]
fn colorize_does_colorize_numbers_within_identifiers_when_starting_with_a_digit() {
    assert_eq!(
        test_colorize("42foo23"),
        format!(
            "{}foo{}",
            "42".red().bold().to_string(),
            "23".red().bold().to_string()
        )
    );
}

#[test]
fn mod_colorizes_double_quoted_strings() {
    assert_eq!(
        test_colorize("f\"o\"o"),
        format!("f{}o", "\"o\"".yellow().bold())
    );
}

#[test]
fn mod_allows_to_escape_double_quotes() {
    assert_eq!(
        test_colorize(r#"a"b\"c\"d"e"#),
        format!("a{}e", r#""b\"c\"d""#.yellow().bold())
    );
}

#[test]
fn mod_resets_at_newlines() {
    assert_eq!(
        test_colorize("foo\"bar\nf\"o\"o"),
        format!(
            "foo{}\nf{}o",
            "\"bar".yellow().bold(),
            "\"o\"".yellow().bold()
        )
    );
}

#[test]
fn mod_colorizes_round_brackets() {
    assert_eq!(
        test_colorize("(foo)"),
        format!("{}foo{}", "(".cyan().bold(), ")".cyan().bold())
    );
}

#[test]
fn mod_colorizes_curly_brackets() {
    assert_eq!(
        test_colorize("{foo}"),
        format!("{}foo{}", "{".cyan().bold(), "}".cyan().bold())
    );
}

#[test]
fn mod_colorizes_square_brackets() {
    assert_eq!(
        test_colorize("[foo]"),
        format!("{}foo{}", "[".cyan().bold(), "]".cyan().bold())
    );
}

#[test]
fn mod_colorizes_numbers() {
    assert_eq!(
        test_colorize("foo 42 bar"),
        format!("foo {} bar", "42".red().bold().to_string())
    );
}

#[test]
fn mod_works_for_numbers_at_the_end_of_lines() {
    assert_eq!(
        test_colorize("23\n42"),
        format!(
            "{}\n{}",
            "23".red().bold().to_string(),
            "42".red().bold().to_string()
        )
    );
}

#[test]
fn mod_does_not_colorize_numbers_within_identifiers() {
    assert_eq!(test_colorize("foo42bar"), format!("foo42bar"));
}

#[test]
fn mod_does_colorize_numbers_within_identifiers_when_starting_with_a_digit() {
    assert_eq!(
        test_colorize("42foo23"),
        format!(
            "{}foo{}",
            "42".red().bold().to_string(),
            "23".red().bold().to_string()
        )
    );
}

#[test]
fn colorizes_single_quoted_strings() {
    assert_eq!(
        test_colorize("f'o'o"),
        format!("f{}o", "'o'".yellow().bold())
    );
}

#[test]
fn unterminated_quote_colors_to_the_end_of_input() {
    assert_eq!(test_colorize("a\"bc"), format!("a{}", "\"bc".yellow().bold()));
}

#[test]
fn unterminated_quote_ends_before_the_newline() {
    assert_eq!(
        test_colorize("a\"bc\nd"),
        format!("a{}\nd", "\"bc".yellow().bold())
    );
}

#[test]
fn escaped_newline_stays_in_the_string() {
    assert_eq!(
        test_colorize("\"a\\\nb\"c"),
        format!("{}c", "\"a\\\nb\"".yellow().bold())
    );
}

#[test]
fn lone_backslash_at_the_end_is_kept() {
    let input = "x\"ab\\";
    let output = test_colorize(input);
    assert_eq!(output, format!("x{}", "\"ab\\".yellow().bold()));
    assert_eq!(strip_escapes(&output), input);
}

#[test]
fn plain_text_is_unchanged() {
    let input = "hello, world; a-b + c_d\n\ttabs & ümlauts!";
    assert_eq!(test_colorize(input), input);
}

#[test]
fn empty_input_gives_no_chunks() {
    assert_eq!(colorize(Stream::new(vec![])).to_vec(), Vec::<String>::new());
}

#[test]
fn painting_wraps_text_in_escape_sequences() {
    let output = test_colorize("(");
    assert_eq!(output, "\u{1b}[1;36m(\u{1b}[0m");
    let output = test_colorize("\"s\"");
    assert_eq!(output, "\u{1b}[1;33m\"s\"\u{1b}[0m");
    let output = test_colorize("7");
    assert_eq!(output, "\u{1b}[1;31m7\u{1b}[0m");
}

#[test]
fn round_trip_restores_the_input() {
    let input = "fn main() { let x = \"a\\\"b\" + 'c' + 42foo7; }\n// \"open\n[1, 2]";
    assert_eq!(strip_escapes(&test_colorize(input)), input);
}

#[test]
fn number_words_are_one_chunk() {
    let mut parser = Parser::new(Stream::new("42foo23 x".chars().collect()));
    let chunk = parser.next_chunk().unwrap();
    assert_eq!(chunk.len(), 3);
    assert_eq!(chunk[0].text, "42");
    assert_eq!(chunk[1].text, "foo");
    assert_eq!(chunk[2].text, "23");
    let space = parser.next_chunk().unwrap();
    assert_eq!(space[0].text, " ");
    assert_eq!(parser.next_chunk().unwrap()[0].text, "x");
    assert!(parser.next_chunk().is_none());
}

#[test]
fn words_may_start_with_a_non_ascii_letter() {
    let mut parser = Parser::new(Stream::new("über2 ".chars().collect()));
    let chunk = parser.next_chunk().unwrap();
    assert_eq!(chunk.len(), 1);
    assert_eq!(chunk[0].text, "über2");
    assert!(chunk[0].color.is_none());
}
