use rtk::number::{decimal_of, hex_of, one_decimal_of, parse_decimal, to_double};
use rtk::order::{rank, sort_texts};
use rtk::process::{command_line, exit_code, streams, with_hint};
use rtk::style::{paint_text, render, Paint, Span};
use rtk::text::{
    chars_of, count_bytes, is_whitespace, lines_of, string_of, trimmed, words_of,
};
use rtk::utils::{strip_ansi, truncate};

fn texts(v: Vec<Vec<char>>) -> Vec<String> {
    v.iter().map(|t| t.iter().collect()).collect()
}

#[test]
fn white_space_is_that_of_std() {
    for c in '\0'..=char::MAX {
        assert_eq!(is_whitespace(c), c.is_whitespace(), "{:?}", c);
    }
}

#[test]
fn texts_are_taken_apart_as_std_does() {
    for text in [
        "", "\n", "\r\n", "a", "a\n", "a\r\nb\r", "\n\na\r\r\n", " a  b\u{3000}c ", "\t\u{a0}x\u{85}",
        "\r", "a\rb", "\u{e9}\u{1f600}\u{2003}z",
    ] {
        let lines: Vec<String> = text.lines().map(|l| l.to_string()).collect();
        assert_eq!(texts(lines_of(text)), lines);
        let words: Vec<String> = text.split_whitespace().map(|w| w.to_string()).collect();
        assert_eq!(texts(words_of(text)), words);
        assert_eq!(string_of(&trimmed(&chars_of(text))), text.trim());
        assert_eq!(count_bytes(&chars_of(text)), text.len() as u128);
        assert_eq!(string_of(&chars_of(text)), text);
    }
}

#[test]
fn numbers_are_written_as_std_does() {
    for n in [0usize, 1, 9, 10, 99, 100, 12345, usize::MAX] {
        assert_eq!(string_of(&decimal_of(n)), n.to_string());
    }
    for n in [0u64, 1, 255, 0xdead_beef, u64::MAX] {
        assert_eq!(string_of(&hex_of(n, 16)), format!("{:016x}", n));
        assert_eq!(to_double(n), n as f64 as u128);
    }
    assert_eq!(string_of(&one_decimal_of(1234, 10)), "123.4");
}

#[test]
fn numbers_are_read_as_std_does() {
    for s in ["", "+", "-1", "0", "007", "+7", "++7", "4294967295", "4294967296", "1 ", "1a"] {
        let expected = s.parse::<u32>().ok().map(|v| v as u64);
        assert_eq!(parse_decimal(&chars_of(s), u32::MAX as u64), expected, "{:?}", s);
    }
}

#[test]
fn sorting_is_that_of_strings() {
    let mut words = vec!["b", "", "a", "ab", "B", "\u{e9}", "a", "\u{1f600}", "z"];
    let sorted = texts(sort_texts(&words.iter().map(|w| chars_of(w)).collect()));
    words.sort();
    assert_eq!(sorted, words);
}

#[test]
fn ranking_is_stable() {
    assert_eq!(rank(&vec![3, 9, 3, 0, 9]), vec![1, 4, 0, 2, 3]);
    assert_eq!(rank(&vec![]), Vec::<usize>::new());
}

#[test]
fn escape_sequences_are_stripped() {
    assert_eq!(strip_ansi("\x1b[1;31mred\x1b[0m plain"), "red plain");
    assert_eq!(strip_ansi("no escapes [0m"), "no escapes [0m");
    assert_eq!(strip_ansi("\x1b[12"), "\x1b[12");
    assert_eq!(strip_ansi("\x1b[?25l"), "\x1b[?25l");
    assert_eq!(strip_ansi("\x1b[Kx\x1b"), "x\x1b");
}

#[test]
fn texts_are_cut_with_dots() {
    assert_eq!(string_of(&truncate(&chars_of("hello"), 5)), "hello");
    assert_eq!(string_of(&truncate(&chars_of("hello!"), 5)), "he...");
    assert_eq!(string_of(&truncate(&chars_of("hello"), 2)), "...");
}

#[test]
fn processes() {
    assert_eq!(streams("out", "err"), "out\nerr");
    assert_eq!(exit_code(Some(3), true), 3);
    assert_eq!(exit_code(None, true), 0);
    assert_eq!(exit_code(None, false), 1);
    let args = vec!["--fix".to_string(), "src".to_string()];
    assert_eq!(command_line("deno lint", &args), "deno lint --fix src");
    assert_eq!(command_line("deno lint", &vec![]), "deno lint ");
    assert_eq!(with_hint("text", None), "text");
    assert_eq!(with_hint("text", Some("hint")), "text\nhint");
}

#[test]
fn paints_show_as_escape_sequences() {
    colored::control::set_override(true);
    assert_eq!(paint_text("x", Paint::Plain), "x");
    assert_eq!(paint_text("x", Paint::Heading), "\x1b[1;32mx\x1b[0m");
    assert_eq!(paint_text("x", Paint::Command), "\x1b[1;96mx\x1b[0m");
    assert_eq!(paint_text("x", Paint::Tokens), "\x1b[97mx\x1b[0m");
    assert_eq!(paint_text("x", Paint::High), "\x1b[1;32mx\x1b[0m");
    assert_eq!(paint_text("x", Paint::Middling), "\x1b[1;33mx\x1b[0m");
    assert_eq!(paint_text("x", Paint::Low), "\x1b[1;31mx\x1b[0m");
    assert_eq!(paint_text("x", Paint::Neutral), "\x1b[33mx\x1b[0m");
    assert_eq!(paint_text("x", Paint::Bar), "\x1b[36mx\x1b[0m");
    assert_eq!(paint_text("x", Paint::Meter), "\x1b[32mx\x1b[0m");
    assert_eq!(
        paint_text("a\x1b[0mb", Paint::Meter),
        "\x1b[32ma\x1b[0m\x1b[32mb\x1b[0m"
    );
    let spans = vec![
        Span {
            text: chars_of("a"),
            paint: Paint::Plain,
        },
        Span {
            text: chars_of("b"),
            paint: Paint::Low,
        },
    ];
    assert_eq!(render(&spans, true), "a\x1b[1;31mb\x1b[0m");
    assert_eq!(strip_ansi(&render(&spans, true)), render(&spans, false));
    assert_eq!(render(&spans, false), "ab");
    colored::control::set_override(false);
    assert_eq!(paint_text("x", Paint::Heading), "x");
    assert_eq!(render(&spans, true), "ab");
    colored::control::unset_override();
}
