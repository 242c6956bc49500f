//! General helpers that depend on no other module.

use vstd::prelude::*;

verus! {

/// Whether `ch` lies in the printable ASCII range, U+0020 to U+007E.
pub open spec fn is_printable_ascii(ch: char) -> bool {
    0x20 <= ch as u32 <= 0x7e
}

/// The letter that follows the backslash in the fixed two-character escape
/// of `ch`, if `ch` has one: tab, carriage return, backslash and both quotes.
pub open spec fn fixed_escape(ch: char) -> Option<char> {
    if ch == '\t' {
        Some('t')
    } else if ch == '\r' {
        Some('r')
    } else if ch == '\\' || ch == '\'' || ch == '"' {
        Some(ch)
    } else {
        None
    }
}

/// The lowercase hexadecimal digit for a value below sixteen.
pub open spec fn hex_digit(d: nat) -> char
    recommends
        d < 16,
{
    if d < 10 {
        ('0' as u32 + d) as char
    } else {
        ('a' as u32 + d - 10) as char
    }
}

/// The shortest lowercase hexadecimal numeral for `n`: no leading zeros,
/// and the single digit `0` for zero.
pub open spec fn hex_digits(n: nat) -> Seq<char>
    decreases n,
{
    if n < 16 {
        seq![hex_digit(n)]
    } else {
        hex_digits(n / 16).push(hex_digit(n % 16))
    }
}

/// The hexadecimal escape of `ch`: backslash, `u`, the code point's
/// numeral in braces.
pub open spec fn hex_escape(ch: char) -> Seq<char> {
    seq!['\\', 'u', '{'] + hex_digits(ch as nat) + seq!['}']
}

/// Whether `ch` is rewritten when the border is `border`: it is the border,
/// it has a fixed escape, or it is not printable ASCII.
pub open spec fn needs_escape(ch: char, border: char) -> bool {
    ch == border || fixed_escape(ch) is Some || !is_printable_ascii(ch)
}

/// What one character becomes. The border rule comes first, then the fixed
/// escapes, then the printable characters that stay, then the hexadecimal
/// escape for all the rest.
pub open spec fn escape_char(ch: char, border: char) -> Seq<char> {
    if ch == border {
        seq!['\\', ch]
    } else if let Some(letter) = fixed_escape(ch) {
        seq!['\\', letter]
    } else if is_printable_ascii(ch) {
        seq![ch]
    } else {
        hex_escape(ch)
    }
}

/// What a whole text becomes: the escapes of its characters, in order.
pub open spec fn escaped(text: Seq<char>, border: char) -> Seq<char>
    decreases text.len(),
{
    if text.len() == 0 {
        Seq::empty()
    } else {
        escaped(text.drop_last(), border) + escape_char(text.last(), border)
    }
}

/// Whether any character of the text is rewritten.
pub open spec fn changed(text: Seq<char>, border: char) -> bool {
    exists|i: int| 0 <= i < text.len() && needs_escape(#[trigger] text[i], border)
}

/// A text is rewritten exactly when its last character is, or the text
/// before that character is.
pub proof fn lemma_changed_last(text: Seq<char>, border: char)
    requires
        text.len() > 0,
    ensures
        changed(text, border) == (changed(text.drop_last(), border) || needs_escape(
            text.last(),
            border,
        )),
{
    let front = text.drop_last();
    if changed(text, border) {
        let i = choose|i: int| 0 <= i < text.len() && needs_escape(#[trigger] text[i], border);
        if i < front.len() {
            assert(needs_escape(front[i], border));
        }
    }
    if changed(front, border) {
        let i = choose|i: int| 0 <= i < front.len() && needs_escape(#[trigger] front[i], border);
        assert(needs_escape(text[i], border));
    }
    if needs_escape(text.last(), border) {
        assert(needs_escape(text[text.len() - 1], border));
    }
}

/// `String::push` of the standard library: the character is appended to the
/// end of the string and nothing else in it changes.
pub assume_specification[ String::push ](s: &mut String, ch: char)
    ensures
        final(s)@ == old(s)@.push(ch),
;

/// The digit character for a value below sixteen.
fn hex_digit_char(d: u32) -> (c: char)
    requires
        d < 16,
    ensures
        c == hex_digit(d as nat),
{
    if d < 10 {
        ((0x30u32 + d) as u8) as char
    } else {
        ((0x61u32 + d - 10) as u8) as char
    }
}

/// Appends the shortest lowercase hexadecimal numeral for `n`.
fn push_hex_digits(output: &mut String, n: u32)
    ensures
        final(output)@ == old(output)@ + hex_digits(n as nat),
    decreases n,
{
    if n >= 16 {
        push_hex_digits(output, n / 16);
    }
    output.push(hex_digit_char(n % 16));
}

/// Appends the escape of one character.
fn push_escaped_char(output: &mut String, ch: char, border: char) -> (rewritten: bool)
    ensures
        final(output)@ == old(output)@ + escape_char(ch, border),
        rewritten == needs_escape(ch, border),
{
    if ch == border {
        output.push('\\');
        output.push(ch);
        true
    } else if ch == '\t' {
        output.push('\\');
        output.push('t');
        true
    } else if ch == '\r' {
        output.push('\\');
        output.push('r');
        true
    } else if ch == '\\' || ch == '\'' || ch == '"' {
        output.push('\\');
        output.push(ch);
        true
    } else if ' ' <= ch && ch <= '~' {
        output.push(ch);
        false
    } else {
        output.push('\\');
        output.push('u');
        output.push('{');
        push_hex_digits(output, ch as u32);
        output.push('}');
        true
    }
}

/// Given a string and a border character, escapes what cannot stand as it is
/// inside a literal delimited by that border.
///
/// * the border character becomes a backslash followed by itself, whatever
///   else it is;
/// * tabulator (U+0009) becomes `\t`, carriage return (U+000D) becomes `\r`;
/// * backslash, single quote and double quote get a backslash in front;
/// * any other printable ASCII character (U+0020 to U+007E) is left as it is;
/// * every other character becomes `\u{..}` with the code point in lowercase
///   hexadecimal digits, without leading zeros.
///
/// The escaped string is returned together with a flag that tells whether
/// anything was escaped at all.
pub fn escape(input: &String, border: char) -> (result: (String, bool))
    ensures
        result.0@ == escaped(input@, border),
        result.1 == changed(input@, border),
{
    let mut output = String::new();
    let mut fixed = false;
    for ch in it: input.as_str().chars()
        invariant
            it.seq() == input@,
            output@ == escaped(input@.take(it.index()), border),
            fixed == changed(input@.take(it.index()), border),
    {
        let rewritten = push_escaped_char(&mut output, ch, border);
        fixed = fixed || rewritten;
        proof {
            let seen = input@.take(it.index() + 1);
            assert(seen.drop_last() =~= input@.take(it.index()));
            assert(seen.last() == ch);
            lemma_changed_last(seen, border);
        }
    }
    assert(input@.take(input@.len() as int) =~= input@);
    (output, fixed)
}

} // verus!
