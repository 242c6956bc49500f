//! Facts about the escaping model, proved once for all texts and borders.

use crate::util::{
    changed, escape_char, escaped, fixed_escape, hex_digits, hex_escape, is_printable_ascii,
    lemma_changed_last, needs_escape,
};
use vstd::prelude::*;

verus! {

/// A character that is rewritten becomes at least two characters, the first
/// of them a backslash; one that is not rewritten stays as the single
/// character it is.
pub proof fn lemma_escape_char_shape(ch: char, border: char)
    ensures
        needs_escape(ch, border) ==> escape_char(ch, border).len() >= 2 && escape_char(
            ch,
            border,
        )[0] == '\\',
        !needs_escape(ch, border) ==> escape_char(ch, border) == seq![ch],
{
}

/// Escaping never shortens a text, and lengthens it exactly when something
/// is rewritten.
pub proof fn lemma_escaped_len(text: Seq<char>, border: char)
    ensures
        escaped(text, border).len() >= text.len(),
        changed(text, border) <==> escaped(text, border).len() > text.len(),
    decreases text.len(),
{
    if text.len() > 0 {
        lemma_escaped_len(text.drop_last(), border);
        lemma_changed_last(text, border);
        lemma_escape_char_shape(text.last(), border);
    }
}

/// A text in which nothing is rewritten is its own escape.
pub proof fn lemma_unchanged_is_identity(text: Seq<char>, border: char)
    requires
        !changed(text, border),
    ensures
        escaped(text, border) == text,
    decreases text.len(),
{
    if text.len() > 0 {
        lemma_changed_last(text, border);
        lemma_unchanged_is_identity(text.drop_last(), border);
        lemma_escape_char_shape(text.last(), border);
        assert(text.drop_last() + seq![text.last()] =~= text);
    } else {
        assert(escaped(text, border) =~= text);
    }
}

/// The flag tells whether the escaped text differs from the text.
pub proof fn lemma_changed_iff_differs(text: Seq<char>, border: char)
    ensures
        changed(text, border) <==> escaped(text, border) != text,
{
    lemma_escaped_len(text, border);
    if !changed(text, border) {
        lemma_unchanged_is_identity(text, border);
    }
}

/// The empty text escapes to the empty text, unchanged, whatever the border.
pub proof fn lemma_escape_empty(border: char)
    ensures
        escaped(Seq::empty(), border) == Seq::<char>::empty(),
        !changed(Seq::empty(), border),
{
}

/// A text of printable ASCII characters, none of them the border, the
/// backslash or a quote, comes back as it is, with the flag unset.
pub proof fn lemma_plain_text_unchanged(text: Seq<char>, border: char)
    requires
        forall|i: int|
            0 <= i < text.len() ==> is_printable_ascii(#[trigger] text[i]) && text[i] != border
                && text[i] != '\\' && text[i] != '\'' && text[i] != '"',
    ensures
        escaped(text, border) == text,
        !changed(text, border),
{
    lemma_unchanged_is_identity(text, border);
}

/// A text that holds the border is rewritten.
pub proof fn lemma_border_sets_changed(text: Seq<char>, border: char)
    requires
        text.contains(border),
    ensures
        changed(text, border),
{
    let i = choose|i: int| 0 <= i < text.len() && text[i] == border;
    assert(needs_escape(text[i], border));
}

/// Whether `ch` is one of the sixteen lowercase hexadecimal digits.
pub open spec fn is_lower_hex_digit(ch: char) -> bool {
    '0' <= ch <= '9' || 'a' <= ch <= 'f'
}

/// The value of a lowercase hexadecimal digit.
pub open spec fn hex_digit_value(ch: char) -> nat
    recommends
        is_lower_hex_digit(ch),
{
    if ch <= '9' {
        (ch as int - '0' as int) as nat
    } else {
        (ch as int - 'a' as int + 10) as nat
    }
}

/// The number that a hexadecimal numeral denotes, most significant digit
/// first.
pub open spec fn hex_value(digits: Seq<char>) -> nat
    decreases digits.len(),
{
    if digits.len() == 0 {
        0
    } else {
        16 * hex_value(digits.drop_last()) + hex_digit_value(digits.last())
    }
}

/// The numeral written for a code point is a proper one: it has at least
/// one digit, only lowercase hexadecimal digits, no leading zero but for
/// zero itself, and it denotes the number it was written for.
pub proof fn lemma_hex_digits_numeral(n: nat)
    ensures
        hex_digits(n).len() >= 1,
        forall|i: int|
            0 <= i < hex_digits(n).len() ==> is_lower_hex_digit(#[trigger] hex_digits(n)[i]),
        n > 0 ==> hex_digits(n)[0] != '0',
        hex_value(hex_digits(n)) == n,
    decreases n,
{
    let digits = hex_digits(n);
    if n < 16 {
        assert(digits.drop_last() =~= Seq::<char>::empty());
        assert(hex_value(digits.drop_last()) == 0);
    } else {
        lemma_hex_digits_numeral(n / 16);
        assert(digits.drop_last() =~= hex_digits(n / 16));
        assert(digits[0] == hex_digits(n / 16)[0]);
    }
}

/// A code point takes at most six hexadecimal digits.
pub proof fn lemma_hex_digits_of_char(ch: char)
    ensures
        1 <= hex_digits(ch as nat).len() <= 6,
{
    reveal_with_fuel(hex_digits, 6);
}

/// One character becomes at most ten, each of them printable ASCII or the
/// border itself.
pub proof fn lemma_escape_char_bounds(ch: char, border: char)
    ensures
        1 <= escape_char(ch, border).len() <= 10,
        forall|j: int|
            0 <= j < escape_char(ch, border).len() ==> is_printable_ascii(
                #[trigger] escape_char(ch, border)[j],
            ) || escape_char(ch, border)[j] == border,
{
    lemma_hex_digits_of_char(ch);
    lemma_hex_digits_numeral(ch as nat);
    let token = escape_char(ch, border);
    let digits = hex_digits(ch as nat);
    assert forall|j: int| 0 <= j < token.len() implies is_printable_ascii(#[trigger] token[j])
        || token[j] == border by {
        if takes_hex_escape(ch, border) && 3 <= j < token.len() - 1 {
            assert(token[j] == digits[j - 3]);
            assert(is_lower_hex_digit(digits[j - 3]));
        }
    }
}

/// The escaped text is at most ten times as long as the text, and holds
/// nothing but printable ASCII characters and the border.
pub proof fn lemma_escaped_bounds(text: Seq<char>, border: char)
    ensures
        escaped(text, border).len() <= 10 * text.len(),
        forall|j: int|
            0 <= j < escaped(text, border).len() ==> is_printable_ascii(
                #[trigger] escaped(text, border)[j],
            ) || escaped(text, border)[j] == border,
    decreases text.len(),
{
    if text.len() > 0 {
        lemma_escaped_bounds(text.drop_last(), border);
        lemma_escape_char_bounds(text.last(), border);
        let front = escaped(text.drop_last(), border);
        let token = escape_char(text.last(), border);
        let out = escaped(text, border);
        assert forall|j: int| 0 <= j < out.len() implies is_printable_ascii(#[trigger] out[j])
            || out[j] == border by {
            if j < front.len() {
                assert(out[j] == front[j]);
            } else {
                assert(out[j] == token[j - front.len()]);
            }
        }
    }
}

/// Whether the character at `pos` of `text` is escaped: a backslash stands
/// right before it, and that backslash is not itself escaped. The position
/// just past the end counts too, for what would be written there next.
pub open spec fn is_escaped_at(text: Seq<char>, pos: int) -> bool
    decreases pos,
{
    0 < pos <= text.len() && text[pos - 1] == '\\' && !is_escaped_at(text, pos - 1)
}

/// Whether `ch` is written as a hexadecimal escape.
pub open spec fn takes_hex_escape(ch: char, border: char) -> bool {
    ch != border && fixed_escape(ch) is None && !is_printable_ascii(ch)
}

/// Whether the border occurs in no hexadecimal escape that the text gives
/// rise to, neither as a brace nor among the digits.
pub open spec fn border_clear_of_hex_escapes(text: Seq<char>, border: char) -> bool {
    forall|i: int|
        0 <= i < text.len() && takes_hex_escape(#[trigger] text[i], border) ==> border != '{'
            && border != '}' && !hex_digits(text[i] as nat).contains(border)
}

/// Whether a position is escaped depends only on what stands before it.
pub proof fn lemma_is_escaped_at_prefix(front: Seq<char>, rest: Seq<char>, pos: int)
    requires
        0 <= pos <= front.len(),
    ensures
        is_escaped_at(front + rest, pos) == is_escaped_at(front, pos),
    decreases pos,
{
    if pos > 0 {
        lemma_is_escaped_at_prefix(front, rest, pos - 1);
        assert((front + rest)[pos - 1] == front[pos - 1]);
    }
}

/// Appending the escape of one character to a text that does not end in an
/// open escape gives a text that does not either, and the border occurs in
/// what was appended only as an escaped character.
pub proof fn lemma_escape_char_keeps_border_escaped(front: Seq<char>, ch: char, border: char)
    requires
        !is_escaped_at(front, front.len() as int),
        border != '\\',
        takes_hex_escape(ch, border) ==> border != '{' && border != '}' && !hex_digits(
            ch as nat,
        ).contains(border),
    ensures
        !is_escaped_at(
            front + escape_char(ch, border),
            (front + escape_char(ch, border)).len() as int,
        ),
        forall|j: int|
            front.len() <= j < (front + escape_char(ch, border)).len() && (front + escape_char(
                ch,
                border,
            ))[j] == border ==> #[trigger] is_escaped_at(front + escape_char(ch, border), j),
{
    let token = escape_char(ch, border);
    let out = front + token;
    let start = front.len() as int;
    lemma_is_escaped_at_prefix(front, token, start);
    lemma_escape_char_shape(ch, border);
    if needs_escape(ch, border) {
        assert(out[start] == token[0]);
        assert(is_escaped_at(out, start + 1));
        assert(out[start + 1] == token[1]);
        if takes_hex_escape(ch, border) {
            let digits = hex_digits(ch as nat);
            assert(token == hex_escape(ch));
            assert(out.last() == '}');
            assert forall|j: int| start <= j < out.len() && out[j] == border implies is_escaped_at(
                out,
                j,
            ) by {
                if j >= start + 3 && j < out.len() - 1 {
                    assert(out[j] == digits[j - start - 3]);
                } else if j == start + 2 {
                    assert(out[j] == '{');
                }
            }
        } else {
            assert(token.len() == 2);
            assert(!is_escaped_at(out, start + 2));
        }
    } else {
        assert(out[start] == ch);
    }
}

/// With a border other than the backslash, and one that no hexadecimal
/// escape of the text holds, every occurrence of the border in the escaped
/// text stands right after a backslash that is not itself escaped. The
/// escaped text never ends in an open escape.
pub proof fn lemma_border_occurrences_escaped(text: Seq<char>, border: char)
    requires
        border != '\\',
        border_clear_of_hex_escapes(text, border),
    ensures
        !is_escaped_at(escaped(text, border), escaped(text, border).len() as int),
        forall|j: int|
            0 <= j < escaped(text, border).len() && escaped(text, border)[j] == border
                ==> #[trigger] is_escaped_at(escaped(text, border), j),
    decreases text.len(),
{
    if text.len() > 0 {
        let front = escaped(text.drop_last(), border);
        let token = escape_char(text.last(), border);
        let out = escaped(text, border);
        assert forall|i: int|
            0 <= i < text.drop_last().len() && takes_hex_escape(
                #[trigger] text.drop_last()[i],
                border,
            ) implies border != '{' && border != '}' && !hex_digits(
            text.drop_last()[i] as nat,
        ).contains(border) by {
            assert(text.drop_last()[i] == text[i]);
        }
        lemma_border_occurrences_escaped(text.drop_last(), border);
        assert(text.last() == text[text.len() - 1]);
        lemma_escape_char_keeps_border_escaped(front, text.last(), border);
        assert forall|j: int| 0 <= j < out.len() && out[j] == border implies #[trigger] is_escaped_at(
            out,
            j,
        ) by {
            if j < front.len() {
                lemma_is_escaped_at_prefix(front, token, j);
                assert(out[j] == front[j]);
            }
        }
    }
}

/// Whether the escape of `ch` starts like that of the border though `ch`
/// is another character: a reader that looks for the border first would
/// take it for the border.
pub open spec fn reads_as_border(ch: char, border: char) -> bool {
    ch != border && needs_escape(ch, border) && escape_char(ch, border)[1] == border
}

/// Whether no character of the text has an escape that reads as the border.
pub open spec fn clear_of_border_lookalikes(text: Seq<char>, border: char) -> bool {
    forall|i: int| 0 <= i < text.len() ==> !reads_as_border(#[trigger] text[i], border)
}

/// The escaped text starts with the escape of the first character, and the
/// escape of the remaining text follows.
pub proof fn lemma_escaped_first(text: Seq<char>, border: char)
    requires
        text.len() > 0,
    ensures
        escaped(text, border) == escape_char(text[0], border) + escaped(text.skip(1), border),
    decreases text.len(),
{
    let first = escape_char(text[0], border);
    let last = escape_char(text.last(), border);
    if text.len() == 1 {
        assert(text.drop_last() =~= text.skip(1));
        assert(escaped(text.skip(1), border) =~= Seq::<char>::empty());
        assert(escaped(text, border) =~= first + escaped(text.skip(1), border));
    } else {
        let inner = text.drop_last().skip(1);
        lemma_escaped_first(text.drop_last(), border);
        assert(text.skip(1).drop_last() =~= inner);
        assert(text.skip(1).last() == text.last());
        assert((first + escaped(inner, border)) + last =~= first + (escaped(inner, border) + last));
    }
}

/// Two numerals, each closed by a brace and followed by more text, that
/// give the same text are the same numeral followed by the same text.
proof fn lemma_closed_numerals_apart(
    left: Seq<char>,
    left_rest: Seq<char>,
    right: Seq<char>,
    right_rest: Seq<char>,
)
    requires
        !left.contains('}'),
        !right.contains('}'),
        left + seq!['}'] + left_rest == right + seq!['}'] + right_rest,
    ensures
        left == right,
        left_rest == right_rest,
{
    let whole = left + seq!['}'] + left_rest;
    let other = right + seq!['}'] + right_rest;
    if left.len() < right.len() {
        assert(whole[left.len() as int] == '}');
        assert(other[left.len() as int] == right[left.len() as int]);
        assert(right.contains('}'));
    }
    if right.len() < left.len() {
        assert(other[right.len() as int] == '}');
        assert(whole[right.len() as int] == left[right.len() as int]);
        assert(left.contains('}'));
    }
    assert forall|i: int| 0 <= i < left.len() implies left[i] == right[i] by {
        assert(whole[i] == left[i]);
        assert(other[i] == right[i]);
    }
    assert(left =~= right);
    assert(whole.len() == left.len() + 1 + left_rest.len());
    assert(other.len() == right.len() + 1 + right_rest.len());
    assert forall|i: int| 0 <= i < left_rest.len() implies left_rest[i] == right_rest[i] by {
        assert(whole[left.len() + 1 + i] == left_rest[i]);
        assert(other[right.len() + 1 + i] == right_rest[i]);
    }
    assert(left_rest =~= right_rest);
}

/// Where two escapes, each followed by more text, give the same text, and
/// neither reads as the border, they are escapes of the same character and
/// the same text follows.
pub proof fn lemma_escape_char_apart(
    x: char,
    x_rest: Seq<char>,
    y: char,
    y_rest: Seq<char>,
    border: char,
)
    requires
        !reads_as_border(x, border),
        !reads_as_border(y, border),
        escape_char(x, border) + x_rest == escape_char(y, border) + y_rest,
    ensures
        x == y,
        x_rest == y_rest,
{
    let tx = escape_char(x, border);
    let ty = escape_char(y, border);
    let whole = tx + x_rest;
    let other = ty + y_rest;
    lemma_escape_char_shape(x, border);
    lemma_escape_char_shape(y, border);
    assert(whole[0] == tx[0]);
    assert(other[0] == ty[0]);
    if needs_escape(x, border) {
        assert(whole[1] == tx[1]);
        assert(other[1] == ty[1]);
        if takes_hex_escape(x, border) {
            let dx = hex_digits(x as nat);
            let dy = hex_digits(y as nat);
            assert(takes_hex_escape(y, border));
            lemma_hex_digits_numeral(x as nat);
            lemma_hex_digits_numeral(y as nat);
            assert(!dx.contains('}')) by {
                if dx.contains('}') {
                    let i = choose|i: int| 0 <= i < dx.len() && dx[i] == '}';
                    assert(is_lower_hex_digit(dx[i]));
                }
            }
            assert(!dy.contains('}')) by {
                if dy.contains('}') {
                    let i = choose|i: int| 0 <= i < dy.len() && dy[i] == '}';
                    assert(is_lower_hex_digit(dy[i]));
                }
            }
            let lead = seq!['\\', 'u', '{'];
            assert(whole =~= lead + (dx + seq!['}'] + x_rest));
            assert(other =~= lead + (dy + seq!['}'] + y_rest));
            assert((lead + (dx + seq!['}'] + x_rest)).skip(3) =~= dx + seq!['}'] + x_rest);
            assert((lead + (dy + seq!['}'] + y_rest)).skip(3) =~= dy + seq!['}'] + y_rest);
            lemma_closed_numerals_apart(dx, x_rest, dy, y_rest);
            assert(x as nat == y as nat);
        } else {
            assert(tx.len() == 2);
            assert(ty.len() == 2);
            assert(x == y);
            assert(x_rest =~= whole.skip(2));
            assert(y_rest =~= other.skip(2));
        }
    } else {
        assert(x == y);
        assert(x_rest =~= whole.skip(1));
        assert(y_rest =~= other.skip(1));
    }
}

/// Escaping loses nothing: two texts with the same escape are the same
/// text, as long as neither holds a character whose escape reads as the
/// border.
pub proof fn lemma_escaped_injective(left: Seq<char>, right: Seq<char>, border: char)
    requires
        clear_of_border_lookalikes(left, border),
        clear_of_border_lookalikes(right, border),
        escaped(left, border) == escaped(right, border),
    ensures
        left == right,
    decreases left.len(),
{
    lemma_escaped_len(left, border);
    lemma_escaped_len(right, border);
    if left.len() == 0 || right.len() == 0 {
        assert(left =~= right);
    } else {
        lemma_escaped_first(left, border);
        lemma_escaped_first(right, border);
        lemma_escape_char_apart(
            left[0],
            escaped(left.skip(1), border),
            right[0],
            escaped(right.skip(1), border),
            border,
        );
        assert forall|i: int| 0 <= i < left.skip(1).len() implies !reads_as_border(
            #[trigger] left.skip(1)[i],
            border,
        ) by {
            assert(left.skip(1)[i] == left[i + 1]);
        }
        assert forall|i: int| 0 <= i < right.skip(1).len() implies !reads_as_border(
            #[trigger] right.skip(1)[i],
            border,
        ) by {
            assert(right.skip(1)[i] == right[i + 1]);
        }
        lemma_escaped_injective(left.skip(1), right.skip(1), border);
        assert(left =~= seq![left[0]] + left.skip(1));
        assert(right =~= seq![right[0]] + right.skip(1));
    }
}

/// Whenever something is rewritten, the escaped text holds a backslash.
pub proof fn lemma_changed_has_backslash(text: Seq<char>, border: char)
    requires
        changed(text, border),
    ensures
        escaped(text, border).contains('\\'),
    decreases text.len(),
{
    let front = escaped(text.drop_last(), border);
    let out = escaped(text, border);
    lemma_changed_last(text, border);
    if needs_escape(text.last(), border) {
        lemma_escape_char_shape(text.last(), border);
        assert(out[front.len() as int] == '\\');
    } else {
        lemma_changed_has_backslash(text.drop_last(), border);
        let j = choose|j: int| 0 <= j < front.len() && front[j] == '\\';
        assert(out[j] == '\\');
    }
}

/// Escaping is not idempotent: escaping an escaped text gives that text
/// again only where the first escaping rewrote nothing.
pub proof fn lemma_reescape(text: Seq<char>, border: char)
    ensures
        escaped(escaped(text, border), border) == escaped(text, border) <==> !changed(
            text,
            border,
        ),
{
    let once = escaped(text, border);
    if changed(text, border) {
        lemma_changed_has_backslash(text, border);
        let j = choose|j: int| 0 <= j < once.len() && once[j] == '\\';
        assert(needs_escape(once[j], border));
        lemma_escaped_len(once, border);
    } else {
        lemma_unchanged_is_identity(text, border);
    }
}

} // verus!
