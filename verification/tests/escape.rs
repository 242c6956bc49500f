use relision::util::escape;

fn run(input: &str, border: char) -> (String, bool) {
    escape(&String::from(input), border)
}

#[test]
fn empty_input_is_unchanged_for_any_border() {
    for border in ['"', '\'', '\\', '\t', 'a', '\u{0}', '\u{1f600}', '\u{10ffff}'] {
        assert_eq!(run("", border), (String::new(), false));
    }
}

#[test]
fn plain_printable_text_is_returned_as_is() {
    let text = "Hello, World! 0123456789 (){}[]<>~ #$%&*+-./:;=?@^_`|";
    assert_eq!(run(text, '"'), (String::from(text), false));
    assert_eq!(run(text, '\''), (String::from(text), false));
}

#[test]
fn every_plain_printable_character_passes_through() {
    for code in 0x20u32..=0x7e {
        let ch = char::from_u32(code).unwrap();
        if ch == '\\' || ch == '\'' || ch == '"' {
            continue;
        }
        let text = ch.to_string();
        assert_eq!(escape(&text, '\u{1}'), (text.clone(), false));
    }
}

#[test]
fn printable_quotes_and_backslash_are_not_plain() {
    assert_eq!(run("a\\b", '"'), (String::from("a\\\\b"), true));
    assert_eq!(run("'", '"'), (String::from("\\'"), true));
    assert_eq!(run("\"", '\''), (String::from("\\\""), true));
}

#[test]
fn border_in_input_sets_flag_and_gets_backslash() {
    let (out, changed) = run("say \"hi\" twice: \"hi\"", '"');
    assert!(changed);
    assert_eq!(out, "say \\\"hi\\\" twice: \\\"hi\\\"");
    let chars: Vec<char> = out.chars().collect();
    for (i, ch) in chars.iter().enumerate() {
        if *ch == '"' {
            assert!(i > 0);
            assert_eq!(chars[i - 1], '\\');
            let run_len = chars[..i].iter().rev().take_while(|c| **c == '\\').count();
            assert_eq!(run_len % 2, 1);
        }
    }
}

#[test]
fn border_after_backslash_has_odd_backslash_run() {
    assert_eq!(run("\\'", '\''), (String::from("\\\\\\'"), true));
}

#[test]
fn ordinary_letter_as_border_is_escaped() {
    assert_eq!(run("banana", 'n'), (String::from("ba\\na\\na"), true));
    assert_eq!(run("banana", 'x'), (String::from("banana"), false));
}

#[test]
fn non_ascii_border_is_kept_verbatim_after_backslash() {
    assert_eq!(run("caf\u{e9}", '\u{e9}'), (String::from("caf\\\u{e9}"), true));
    assert_eq!(run("caf\u{e9}", '"'), (String::from("caf\\u{e9}"), true));
}

#[test]
fn input_of_borders_only() {
    assert_eq!(run("'''", '\''), (String::from("\\'\\'\\'"), true));
    assert_eq!(run("\\\\", '\\'), (String::from("\\\\\\\\"), true));
}

#[test]
fn reescaping_doubles_the_backslashes() {
    let (once, changed) = run("a\tb", '"');
    assert!(changed);
    assert_eq!(once, "a\\tb");
    let (twice, changed_again) = escape(&once, '"');
    assert!(changed_again);
    assert_eq!(twice, "a\\\\tb");
    assert_ne!(twice, once);
}

#[test]
fn reescaping_unchanged_text_is_stable() {
    let (once, changed) = run("plain text", '"');
    assert!(!changed);
    assert_eq!(escape(&once, '"'), (once.clone(), false));
}

#[test]
fn emoji_is_hex_escaped_lowercase_without_padding() {
    assert_eq!(run("\u{1f600}", '"'), (String::from("\\u{1f600}"), true));
    assert_eq!(run("a\u{1f600}b", '\''), (String::from("a\\u{1f600}b"), true));
}

#[test]
fn tab_becomes_backslash_t() {
    let (out, changed) = run("a\tb", '"');
    assert!(changed);
    assert_eq!(out.chars().collect::<Vec<char>>(), vec!['a', '\\', 't', 'b']);
}

#[test]
fn border_rule_comes_before_fixed_escapes() {
    let (out, changed) = run("\t", '\t');
    assert!(changed);
    assert_eq!(out.chars().collect::<Vec<char>>(), vec!['\\', '\t']);
    assert_eq!(run("\r", '\r'), (String::from("\\\r"), true));
    assert_eq!(run("\\", '\\'), (String::from("\\\\"), true));
}

#[test]
fn mixed_quotes_with_single_quote_border() {
    let (out, changed) = run("it's a \"test\"", '\'');
    assert!(changed);
    assert_eq!(out, "it\\'s a \\\"test\\\"");
}

#[test]
fn mixed_quotes_with_backslash_present() {
    let (out, changed) = run("it's a \\ \"test\"", '\'');
    assert!(changed);
    assert_eq!(out, "it\\'s a \\\\ \\\"test\\\"");
}

#[test]
fn fixed_escapes_each() {
    assert_eq!(run("\t", '"'), (String::from("\\t"), true));
    assert_eq!(run("\r", '"'), (String::from("\\r"), true));
    assert_eq!(run("\\", '"'), (String::from("\\\\"), true));
    assert_eq!(run("'", '"'), (String::from("\\'"), true));
    assert_eq!(run("\"", 'x'), (String::from("\\\""), true));
}

#[test]
fn control_characters_are_hex_escaped() {
    assert_eq!(run("\u{0}", '"'), (String::from("\\u{0}"), true));
    assert_eq!(run("\u{1}", '"'), (String::from("\\u{1}"), true));
    assert_eq!(run("\n", '"'), (String::from("\\u{a}"), true));
    assert_eq!(run("\u{1f}", '"'), (String::from("\\u{1f}"), true));
    assert_eq!(run("\u{7f}", '"'), (String::from("\\u{7f}"), true));
    assert_eq!(run("\u{80}", '"'), (String::from("\\u{80}"), true));
}

#[test]
fn edges_of_the_printable_range() {
    assert_eq!(run(" ", '"'), (String::from(" "), false));
    assert_eq!(run("~", '"'), (String::from("~"), false));
    assert_eq!(run("\u{1f}~ \u{7f}", '"'), (String::from("\\u{1f}~ \\u{7f}"), true));
}

#[test]
fn hex_escape_uses_every_digit() {
    assert_eq!(run("\u{1234}", '"'), (String::from("\\u{1234}"), true));
    assert_eq!(run("\u{5678}", '"'), (String::from("\\u{5678}"), true));
    assert_eq!(run("\u{9abc}", '"'), (String::from("\\u{9abc}"), true));
    assert_eq!(run("\u{fed0}", '"'), (String::from("\\u{fed0}"), true));
    assert_eq!(run("\u{100}", '"'), (String::from("\\u{100}"), true));
    assert_eq!(run("\u{10ffff}", '"'), (String::from("\\u{10ffff}"), true));
}

#[test]
fn characters_outside_basic_latin_are_hex_escaped() {
    assert_eq!(run("\u{4e2d}\u{6587}", '"'), (String::from("\\u{4e2d}\\u{6587}"), true));
    assert_eq!(run("e\u{301}", '"'), (String::from("e\\u{301}"), true));
}

#[test]
fn flag_stays_set_after_plain_characters() {
    assert_eq!(run("\tabc", '"'), (String::from("\\tabc"), true));
    assert_eq!(run("abc\t", '"'), (String::from("abc\\t"), true));
}

#[test]
fn input_is_left_untouched() {
    let input = String::from("a'b");
    let (out, changed) = escape(&input, '\'');
    assert_eq!(input, "a'b");
    assert_eq!(out, "a\\'b");
    assert!(changed);
}

#[test]
fn brace_border_inside_hex_escape_is_not_backslashed() {
    assert_eq!(run("{\u{1}", '{'), (String::from("\\{\\u{1}"), true));
}

#[test]
fn flag_tells_whether_output_differs() {
    for (text, border) in [("", '"'), ("abc", '"'), ("a\"c", '"'), ("a\nc", '"'), ("abc", 'b')] {
        let input = String::from(text);
        let (out, changed) = escape(&input, border);
        assert_eq!(changed, out != input);
        assert_eq!(changed, out.chars().count() > input.chars().count());
    }
}

#[test]
fn output_is_printable_ascii_or_border() {
    for border in ['"', '\u{e9}', '\t'] {
        let (out, _) = run("a\tb\r\n\u{0}\u{e9}\u{1f600}\\'\"~ \u{7f}", border);
        for ch in out.chars() {
            assert!((' '..='~').contains(&ch) || ch == border);
        }
    }
}

#[test]
fn longest_escape_has_ten_characters() {
    let (out, changed) = run("\u{10ffff}\u{10ffff}", '"');
    assert!(changed);
    assert_eq!(out.chars().count(), 20);
}

#[test]
fn different_texts_have_different_escapes() {
    let texts = ["", "a", "\\", "\\\\", "t", "\t", "\\t", "u{1}", "\u{1}", "\\u{1}", "}", "\u{1}}"];
    for (i, left) in texts.iter().enumerate() {
        for (j, right) in texts.iter().enumerate() {
            if i != j {
                assert_ne!(run(left, '"'), run(right, '"'));
            }
        }
    }
}

#[test]
fn escape_that_reads_as_border_collides() {
    assert_eq!(run("\t", 't').0, run("t", 't').0);
    assert_eq!(run("\r", 'r').0, run("r", 'r').0);
    assert_eq!(run("\u{1}", 'u').0, run("u{1}", 'u').0);
}

#[test]
fn border_occurrences_are_escaped_for_several_borders() {
    for border in ['"', '\'', 'x', ' ', '\t', '\u{e9}'] {
        let mut text = String::from("a\\b\tc'd\"e\u{7}f xx\\");
        text.push(border);
        text.push('\\');
        text.push(border);
        let (out, changed) = escape(&text, border);
        assert!(changed);
        let chars: Vec<char> = out.chars().collect();
        let mut escaped_here = false;
        let mut seen = 0;
        for ch in chars {
            if ch == border {
                assert!(escaped_here);
                seen += 1;
            }
            escaped_here = ch == '\\' && !escaped_here;
        }
        assert!(seen >= 2);
        assert!(!escaped_here);
    }
}
