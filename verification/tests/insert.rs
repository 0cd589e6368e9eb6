//! Tests of the line inserter.

use mdbook_newday::insert_line_before_sigil;
use mdbook_newday::update_summary;
use mdbook_newday::todays_line;
use mdbook_newday::SIGIL;

#[test]
fn test_place_line_before() {
    let line = "- [First!](./first.md)";
    let line_without_sigil = "no sigil";
    let sigil = "- [";
    let text_without_sigil = "[Intro](./intro)";
    let text_with_sigil = "[Intro](./intro)\n- [Second!](./second.md)";
    let text_with_2_sigils = "[Intro](./intro)\n- [\n- [";

    // If there is no sigil, the line is added to the end of the file.
    let text = insert_line_before_sigil(line, sigil, text_without_sigil);
    assert_eq!(text, "[Intro](./intro)\n- [First!](./first.md)\n");

    // Otherwise, the line is added before the first appearance of the sigil.
    let text = insert_line_before_sigil(line, sigil, text_with_sigil);
    assert_eq!(
        text,
        "[Intro](./intro)\n- [First!](./first.md)\n- [Second!](./second.md)\n"
    );

    // Idempotent
    let text = insert_line_before_sigil(line, sigil, &text);
    assert_eq!(
        text,
        "[Intro](./intro)\n- [First!](./first.md)\n- [Second!](./second.md)\n"
    );

    // Only add the line in one place even if the sigil appears multiple times.
    let text = insert_line_before_sigil(line, sigil, text_with_2_sigils);
    assert_eq!(text, "[Intro](./intro)\n- [First!](./first.md)\n- [\n- [\n");

    // A line without a sigil is still added idempotently.
    let first_pass = insert_line_before_sigil(line_without_sigil, sigil, text_without_sigil);
    assert_eq!(first_pass, "[Intro](./intro)\nno sigil\n");
    let second_pass = insert_line_before_sigil(line_without_sigil, sigil, &first_pass);
    assert_eq!(first_pass, second_pass)
}

#[test]
fn test_gives_summary_terminal_newline() {
    let sigil = "- [";
    let without_sigil = "[Introduction](introduction.md)";
    let with_sigil = "- [a](a.md)";
    let line = "- [Thursday, Jan 01, 1970](./1970/1970-01/1970-01-01.md)";

    let expected = format!("{without_sigil}\n{line}\n{with_sigil}\n");

    // If the terminal newline is already there, we don't lose it.
    let text = format!("{without_sigil}\n{with_sigil}\n");
    let with_insert = insert_line_before_sigil(line, sigil, &text);
    assert_eq!(with_insert, expected);

    // If it was missing, we gain it.
    let text = format!("{without_sigil}\n{with_sigil}");
    let with_insert = insert_line_before_sigil(line, sigil, &text);
    assert_eq!(with_insert, expected);
}

#[test]
fn test_update_summary() {
    let original_line = "original_line";

    // The new line lands after the original one, and the text gains its
    // terminal newline.
    let contents = update_summary(original_line);
    let added_line = &todays_line();
    assert_eq!(contents, format!("{}\n{}\n", original_line, added_line));
}

#[test]
fn test_update_summary_idempotent() {
    let once = update_summary("[Intro](./intro)\n- [Second!](./second.md)");
    let twice = update_summary(&once);
    assert_eq!(once, twice);
}

#[test]
fn test_lines() {
    let lines = "a\n";
    for line in lines.lines() {
        println!("Here's the line: {line:?}")
    }
}

#[test]
fn test_empty_text_appends() {
    let text = insert_line_before_sigil("- [a](a.md)", SIGIL, "");
    assert_eq!(text, "- [a](a.md)\n");
}

#[test]
fn test_empty_line_and_empty_text() {
    // A fully empty call still produces the one (empty) line with its newline.
    let text = insert_line_before_sigil("", SIGIL, "");
    assert_eq!(text, "\n");
}

#[test]
fn test_empty_sigil_matches_first_line() {
    // With an empty sigil every line is an entry line, so the new line goes
    // to the very top.
    let text = insert_line_before_sigil("x", "", "a\nb");
    assert_eq!(text, "x\na\nb\n");
}

#[test]
fn test_self_match_first_sigil_line() {
    // The first sigil line already equals the new line: nothing is added,
    // but the trailing newline still appears.
    let text = insert_line_before_sigil("- [a](a.md)", SIGIL, "intro\n- [a](a.md)\n- [b](b.md)");
    assert_eq!(text, "intro\n- [a](a.md)\n- [b](b.md)\n");
}

#[test]
fn test_line_already_present_before_sigil() {
    // A matching line before the first sigil line also stops the insertion.
    let text = insert_line_before_sigil("note", SIGIL, "note\n- [a](a.md)");
    assert_eq!(text, "note\n- [a](a.md)\n");
}

#[test]
fn test_blank_lines_are_kept() {
    let text = insert_line_before_sigil("- [new](new.md)", SIGIL, "title\n\n- [old](old.md)\n");
    assert_eq!(text, "title\n\n- [new](new.md)\n- [old](old.md)\n");
}
