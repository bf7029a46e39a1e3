//! What the texts of the protocol say: how a text is cut, how numbers and
//! reserved characters are written and read, which header counts, and what an
//! error answer holds.

use crate::error::{self, Failure};
use crate::json::{self, Json};
use crate::message::{self, Answer};
use crate::number;
use crate::properties;
use crate::rest;
use crate::text;
use crate::xml;
use vstd::arithmetic::div_mod::*;
use vstd::arithmetic::power::*;
use vstd::prelude::*;
use vstd::utf8::*;

verus! {

/// A text that is split at the first of a pattern is what stands before it, the
/// pattern and what stands after it, and the pattern stands nowhere before
/// that. It is not split exactly where the pattern stands nowhere.
pub proof fn a_text_is_split_at_the_first(text: Seq<char>, pattern: Seq<char>)
    ensures
        match text::split_once_spec(text, pattern) {
            Some((left, right)) => text == left + pattern + right && forall|j: int|
                0 <= j < left.len() ==> #[trigger] text.subrange(j, j + pattern.len()) != pattern,
            None => forall|j: int|
                0 <= j <= text.len() - pattern.len() ==> #[trigger] text.subrange(
                    j,
                    j + pattern.len(),
                ) != pattern,
        },
{
    let holds = text::occurrences(text, pattern);
    text::lemma_least_holds(text.len() + 1, holds);
    match text::find(text, pattern) {
        Some(at) => {
            assert(holds(at));
            let (left, right) = text::split_once_spec(text, pattern)->0;
            assert(text =~= left + pattern + right) by {
                assert(text =~= text.take(at) + text.subrange(at, at + pattern.len()) + text.skip(
                    at + pattern.len(),
                ));
            }
            assert forall|j: int| 0 <= j < left.len() implies #[trigger] text.subrange(
                j,
                j + pattern.len(),
            ) != pattern by {
                assert(!holds(j));
            }
        },
        None => {
            assert forall|j: int|
                0 <= j <= text.len() - pattern.len() implies #[trigger] text.subrange(
                j,
                j + pattern.len(),
            ) != pattern by {
                if text.subrange(j, j + pattern.len()) == pattern {
                    assert(holds(j));
                    text::lemma_least_exists(text.len() + 1, holds, j);
                }
            }
        },
    }
}

/// A text that is split at the last of a pattern is what stands before it, the
/// pattern and what stands after it, and the pattern stands nowhere behind
/// that. It is not split exactly where the pattern stands nowhere.
pub proof fn a_text_is_split_at_the_last(text: Seq<char>, pattern: Seq<char>)
    ensures
        match text::rsplit_once_spec(text, pattern) {
            Some((left, right)) => text == left + pattern + right && forall|j: int|
                left.len() < j <= text.len() - pattern.len() ==> #[trigger] text.subrange(
                    j,
                    j + pattern.len(),
                ) != pattern,
            None => forall|j: int|
                0 <= j <= text.len() - pattern.len() ==> #[trigger] text.subrange(
                    j,
                    j + pattern.len(),
                ) != pattern,
        },
{
    match text::rfind(text, pattern) {
        Some(at) => {
            let chosen = choose|i: int| text::is_last(text, pattern, i);
            assert(text::is_last(text, pattern, chosen));
            assert(text =~= text.take(at) + text.subrange(at, at + pattern.len()) + text.skip(
                at + pattern.len(),
            ));
            assert forall|j: int|
                at < j <= text.len() - pattern.len() implies #[trigger] text.subrange(
                j,
                j + pattern.len(),
            ) != pattern by {
                assert(!text::occurs_at(text, pattern, j));
            }
        },
        None => {
            assert forall|j: int|
                0 <= j <= text.len() - pattern.len() implies #[trigger] text.subrange(
                j,
                j + pattern.len(),
            ) != pattern by {
                if text.subrange(j, j + pattern.len()) == pattern {
                    text::lemma_rfind_exists(text, pattern, j);
                }
            }
        },
    }
}

/// A prefix is taken off a text exactly where the text is that prefix and a
/// rest, and what is left is the rest.
pub proof fn a_prefix_is_taken_off(text: Seq<char>, prefix: Seq<char>, rest: Seq<char>)
    ensures
        text::strip_prefix_spec(prefix + rest, prefix) == Some(rest),
        text::strip_prefix_spec(text, prefix) matches Some(found) ==> text == prefix + found,
{
    let whole = prefix + rest;
    assert(whole.subrange(0, prefix.len() as int) =~= prefix);
    assert(whole.skip(prefix.len() as int) =~= rest);
    if let Some(found) = text::strip_prefix_spec(text, prefix) {
        assert(text =~= text.subrange(0, prefix.len() as int) + text.skip(prefix.len() as int));
    }
}

/// Where a text is kept once the white space that it starts with is gone.
proof fn lemma_trim_start(text: Seq<char>) -> (start: int)
    ensures
        0 <= start <= text.len(),
        text::trim_start_spec(text) == text.skip(start),
        forall|i: int| 0 <= i < start ==> text::is_space(#[trigger] text[i]),
        start < text.len() ==> !text::is_space(text[start]),
    decreases text.len(),
{
    if text.len() > 0 && text::is_space(text[0]) {
        let rest = lemma_trim_start(text.skip(1));
        assert(text.skip(1).skip(rest) =~= text.skip(rest + 1));
        assert forall|i: int| 0 <= i < rest + 1 implies text::is_space(#[trigger] text[i]) by {
            if i > 0 {
                assert(text.skip(1)[i - 1] == text[i]);
            }
        }
        rest + 1
    } else {
        assert(text.skip(0) =~= text);
        0
    }
}

/// Where a text is kept once the white space that it ends with is gone.
proof fn lemma_trim_end(text: Seq<char>) -> (end: int)
    ensures
        0 <= end <= text.len(),
        text::trim_end_spec(text) == text.take(end),
        forall|i: int| end <= i < text.len() ==> text::is_space(#[trigger] text[i]),
        end > 0 ==> !text::is_space(text[end - 1]),
    decreases text.len(),
{
    if text.len() > 0 && text::is_space(text.last()) {
        let end = lemma_trim_end(text.drop_last());
        assert(text.drop_last().take(end) =~= text.take(end));
        assert forall|i: int| end <= i < text.len() implies text::is_space(#[trigger] text[i]) by {
            if i < text.len() - 1 {
                assert(text.drop_last()[i] == text[i]);
            }
        }
        end
    } else {
        assert(text.take(text.len() as int) =~= text);
        text.len() as int
    }
}

/// Trimming keeps one stretch of a text: all that it drops on either side is
/// white space, and what it keeps neither starts nor ends with any.
pub proof fn trimming_drops_white_space_alone(text: Seq<char>)
    ensures
        exists|start: int, end: int|
            #![trigger text.subrange(start, end)]
            {
                &&& 0 <= start <= end <= text.len()
                &&& text::trim_spec(text) == text.subrange(start, end)
                &&& forall|i: int|
                    0 <= i < start || end <= i < text.len() ==> text::is_space(#[trigger] text[i])
                &&& start < end ==> !text::is_space(text[start]) && !text::is_space(text[end - 1])
            },
{
    let start = lemma_trim_start(text);
    let kept = text.skip(start);
    let end = lemma_trim_end(kept);
    assert(kept.take(end) =~= text.subrange(start, start + end));
    assert forall|i: int|
        0 <= i < start || start + end <= i < text.len() implies text::is_space(
        #[trigger] text[i],
    ) by {
        if i >= start {
            assert(kept[i - start] == text[i]);
        }
    }
    if end > 0 {
        assert(kept[end - 1] == text[start + end - 1]);
        assert(kept[0] == text[start]);
    }
}

/// Characters taken off the end of a text are all that character, and what is
/// left does not end with it.
pub proof fn an_end_is_taken_off(text: Seq<char>, c: char)
    ensures
        ({
            let kept = text::trim_end_matches_spec(text, c);
            &&& kept.len() <= text.len()
            &&& kept == text.take(kept.len() as int)
            &&& forall|i: int| kept.len() <= i < text.len() ==> #[trigger] text[i] == c
            &&& kept.len() > 0 ==> kept.last() != c
        }),
    decreases text.len(),
{
    if text.len() > 0 && text.last() == c {
        let shorter = text.drop_last();
        an_end_is_taken_off(shorter, c);
        let kept = text::trim_end_matches_spec(text, c);
        assert(shorter.take(kept.len() as int) =~= text.take(kept.len() as int));
        assert forall|i: int| kept.len() <= i < text.len() implies #[trigger] text[i] == c by {
            if i < text.len() - 1 {
                assert(shorter[i] == text[i]);
            }
        }
    } else {
        assert(text.take(text.len() as int) =~= text);
    }
}

/// Two names are the same but for case where they are as long as each other and
/// every two characters are the same, or one letter from `A` to `Z` large and
/// small.
pub proof fn names_are_the_same_but_for_case(left: Seq<char>, right: Seq<char>)
    ensures
        text::same_but_case_spec(left, right) <==> left.len() == right.len() && forall|i: int|
            #![trigger left[i]]
            #![trigger right[i]]
            0 <= i < left.len() ==> left[i] == right[i] || ('A' <= left[i] <= 'Z' && right[i] as int
                == left[i] as int + 32) || ('A' <= right[i] <= 'Z' && left[i] as int
                == right[i] as int + 32),
{
    if left.len() == right.len() {
        assert forall|i: int| 0 <= i < left.len() implies (text::small_spec(#[trigger] left[i])
            == text::small_spec(right[i])) == (left[i] == right[i] || ('A' <= left[i] <= 'Z'
            && right[i] as int == left[i] as int + 32) || ('A' <= right[i] <= 'Z' && left[i] as int
            == right[i] as int + 32)) by {}
    }
}

/// A text comes before another where it is the start of it, or where the first
/// character in which they differ is the lesser.
pub proof fn texts_are_ordered_by_their_first_difference(left: Seq<char>, right: Seq<char>, at: int)
    requires
        0 <= at <= left.len(),
        at <= right.len(),
        forall|i: int| 0 <= i < at ==> #[trigger] left[i] == right[i],
        at < left.len() && at < right.len() ==> left[at] != right[at],
    ensures
        at == left.len() ==> text::before(left, right) == (left.len() < right.len()),
        at < left.len() && at == right.len() ==> !text::before(left, right),
        at < left.len() && at < right.len() ==> text::before(left, right) == (left[at] < right[at]),
    decreases at,
{
    if at > 0 {
        assert(left[0] == right[0]);
        assert forall|i: int| 0 <= i < at - 1 implies #[trigger] left.skip(1)[i] == right.skip(
            1,
        )[i] by {
            assert(left[i + 1] == right[i + 1]);
        }
        texts_are_ordered_by_their_first_difference(left.skip(1), right.skip(1), at - 1);
    }
}

/// Whether a character is the digit for a number below sixteen: `0` to `9`, then
/// `a` to `f`.
pub open spec fn is_digit_for(c: char, d: int) -> bool {
    c as int == if d < 10 {
        '0' as int + d
    } else {
        'a' as int + d - 10
    }
}

/// Each digit stands for what its place holds of the number, and there are no
/// more of them than the number takes.
proof fn lemma_digits_by_place(n: nat, base: nat)
    requires
        2 <= base <= 16,
    ensures
        ({
            let made = number::digits(n, base);
            &&& made.len() > 0
            &&& n < pow(base as int, made.len())
            &&& made.len() > 1 ==> pow(base as int, (made.len() - 1) as nat) <= n
            &&& forall|i: int|
                0 <= i < made.len() ==> is_digit_for(
                    #[trigger] made[i],
                    (n as int / pow(base as int, (made.len() - 1 - i) as nat)) % (base as int),
                )
        }),
    decreases n,
{
    let made = number::digits(n, base);
    let b = base as int;
    lemma_pow0(b);
    lemma_pow1(b);
    if n < base {
        lemma_small_mod(n, base);
        assert(n as int / 1 == n);
    } else {
        lemma_div_decreases(n as int, b);
        let head = number::digits(n / base, base);
        let q = n as int / b;
        lemma_digits_by_place(n / base, base);
        lemma_fundamental_div_mod(n as int, b);
        lemma_mod_bound(n as int, b);
        lemma_pow_adds(b, head.len(), 1);
        lemma_pow_adds(b, (head.len() - 1) as nat, 1);
        assert(q >= 1) by (nonlinear_arith)
            requires
                n == b * q + n as int % b,
                n as int % b < b,
                n >= b,
                b > 0,
        ;
        let high = pow(b, head.len());
        let low = pow(b, (head.len() - 1) as nat);
        assert(pow(b, made.len()) == high * b);
        assert(pow(b, head.len()) == low * b);
        assert(n < high * b) by (nonlinear_arith)
            requires
                n == b * q + n as int % b,
                0 <= n as int % b < b,
                q < high,
                b > 0,
        ;
        assert(high <= n) by (nonlinear_arith)
            requires
                n == b * q + n as int % b,
                0 <= n as int % b,
                head.len() > 1 ==> low <= q,
                head.len() == 1 ==> low == 1,
                q >= 1,
                high == low * b,
                head.len() >= 1,
                b > 0,
        ;
        assert forall|i: int| 0 <= i < made.len() implies is_digit_for(
            #[trigger] made[i],
            (n as int / pow(b, (made.len() - 1 - i) as nat)) % b,
        ) by {
            let place = (made.len() - 1 - i) as nat;
            if i < made.len() - 1 {
                assert(made[i] == head[i]);
                let less = (place - 1) as nat;
                lemma_pow_adds(b, 1, less);
                lemma_pow_positive(b, less);
                lemma_div_denominator(n as int, b, pow(b, less));
            } else {
                assert(n as int / 1 == n);
            }
        }
    }
}

/// A number in decimal: the digit at each place is what that place holds of the
/// number, and no zero stands at the start of more digits than one.
pub proof fn a_number_is_written_in_decimal(n: nat)
    ensures
        ({
            let made = number::decimal_spec(n);
            &&& made.len() > 0
            &&& n < pow(10, made.len())
            &&& made.len() > 1 ==> pow(10, (made.len() - 1) as nat) <= n
            &&& forall|i: int|
                0 <= i < made.len() ==> (#[trigger] made[i]) as int == '0' as int + (n as int / pow(
                    10,
                    (made.len() - 1 - i) as nat,
                )) % 10
        }),
{
    lemma_digits_by_place(n, 10);
    let made = number::decimal_spec(n);
    assert forall|i: int| 0 <= i < made.len() implies (#[trigger] made[i]) as int == '0' as int + (
    n as int / pow(10, (made.len() - 1 - i) as nat)) % 10 by {
        assert(is_digit_for(made[i], (n as int / pow(10, (made.len() - 1 - i) as nat)) % 10));
    }
}

/// A number in hexadecimal: the digit at each place, small, is what that place
/// holds of the number, and there are eight of them, or as many more as the
/// number takes.
pub proof fn a_number_is_written_in_hexadecimal(n: nat)
    ensures
        ({
            let made = number::hex_spec(n);
            &&& made.len() >= 8
            &&& n < pow(16, made.len())
            &&& made.len() > 8 ==> pow(16, (made.len() - 1) as nat) <= n
            &&& forall|i: int|
                0 <= i < made.len() ==> is_digit_for(
                    #[trigger] made[i],
                    (n as int / pow(16, (made.len() - 1 - i) as nat)) % 16,
                )
        }),
{
    lemma_digits_by_place(n, 16);
    let tail = number::digits(n, 16);
    let made = number::hex_spec(n);
    let gap = made.len() - tail.len();
    lemma_pow_increases(16, tail.len(), made.len());
    assert forall|i: int| 0 <= i < made.len() implies is_digit_for(
        #[trigger] made[i],
        (n as int / pow(16, (made.len() - 1 - i) as nat)) % 16,
    ) by {
        let place = (made.len() - 1 - i) as nat;
        if i >= gap {
            assert(made[i] == tail[i - gap]);
        } else {
            lemma_pow_increases(16, tail.len(), place);
            lemma_basic_div(n as int, pow(16, place));
            assert(0int % 16 == 0);
        }
    }
}

/// Whether a text is decimal digits, at least one.
pub open spec fn is_decimal(text: Seq<char>) -> bool {
    text.len() > 0 && forall|i: int| 0 <= i < text.len() ==> '0' <= #[trigger] text[i] <= '9'
}

/// A text that is read as a number below 256 is decimal digits, after a plus
/// sign or none. One digit reads as itself, one more digit makes ten of what was
/// read and the digit, and what would be over 255 is not read, nor is any text
/// that is not such digits.
pub proof fn a_small_number_is_read(text: Seq<char>, c: char)
    ensures
        is_decimal(text) ==> number::parse_u8_spec("+"@ + text) == number::parse_u8_spec(text),
        !is_decimal(text) && !(text.len() > 0 && text[0] == '+' && is_decimal(text.skip(1)))
            ==> number::parse_u8_spec(text) is None,
        '0' <= c <= '9' ==> number::parse_u8_spec(seq![c]) == Some((c as int - '0' as int) as u8),
        is_decimal(text) && '0' <= c <= '9' ==> number::parse_u8_spec(text.push(c)) == match (
        number::parse_u8_spec(text)) {
            Some(n) => if n * 10 + (c as int - '0' as int) <= 255 {
                Some((n * 10 + (c as int - '0' as int)) as u8)
            } else {
                None
            },
            None => None,
        },
{
    reveal_strlit("+");
    assert(("+"@ + text).skip(1) =~= text);
    if '0' <= c <= '9' {
        assert(seq![c].drop_last() =~= Seq::empty());
        assert(number::number(seq![c].drop_last(), 10) == 0);
        if is_decimal(text) {
            let more = text.push(c);
            assert(more.drop_last() =~= text);
            assert forall|i: int| 0 <= i < more.len() implies '0' <= #[trigger] more[i] <= '9' by {
                if i < text.len() {
                    assert(more[i] == text[i]);
                }
            }
            assert(text[0] != '+' && more[0] == text[0]);
            number::lemma_number_grows(text, 0);
            assert(text.take(0) =~= Seq::empty());
        }
    }
}

/// A text is written for an element character by character, the five reserved
/// ones as their references.
pub proof fn a_text_is_escaped_character_by_character(text: Seq<char>, c: char)
    ensures
        xml::escape_spec(Seq::empty()) == Seq::<char>::empty(),
        xml::escape_spec(text.push(c)) == xml::escape_spec(text) + (if c == '&' {
            "&amp;"@
        } else if c == '<' {
            "&lt;"@
        } else if c == '>' {
            "&gt;"@
        } else if c == '"' {
            "&quot;"@
        } else if c == '\'' {
            "&apos;"@
        } else {
            seq![c]
        }),
    decreases text.len(),
{
    let whole = text.push(c);
    if text.len() > 0 {
        assert(whole.skip(1) =~= text.skip(1).push(c));
        a_text_is_escaped_character_by_character(text.skip(1), c);
    } else {
        assert(whole.skip(1) =~= Seq::empty());
        assert(xml::escape_spec(whole.skip(1)) =~= Seq::empty());
    }
}

/// The text of an element is read from its start: a reference to one of the
/// five reserved characters as that character, and anything else as it is.
pub proof fn an_element_is_read_from_its_start(rest: Seq<char>, c: char)
    ensures
        xml::unescape_spec(Seq::empty()) == Seq::<char>::empty(),
        xml::unescape_spec("&amp;"@ + rest) == seq!['&'] + xml::unescape_spec(rest),
        xml::unescape_spec("&lt;"@ + rest) == seq!['<'] + xml::unescape_spec(rest),
        xml::unescape_spec("&gt;"@ + rest) == seq!['>'] + xml::unescape_spec(rest),
        xml::unescape_spec("&quot;"@ + rest) == seq!['"'] + xml::unescape_spec(rest),
        xml::unescape_spec("&apos;"@ + rest) == seq!['\''] + xml::unescape_spec(rest),
        !starts_a_reference(seq![c] + rest) ==> xml::unescape_spec(seq![c] + rest) == seq![c]
            + xml::unescape_spec(rest),
{
    lemma_reference_is_read('&', rest);
    lemma_reference_is_read('<', rest);
    lemma_reference_is_read('>', rest);
    lemma_reference_is_read('"', rest);
    lemma_reference_is_read('\'', rest);
    let whole = seq![c] + rest;
    xml::lemma_read_first(whole);
    assert(whole.skip(1) =~= rest);
}

/// Whether a text starts with a reference to a reserved character.
pub open spec fn starts_a_reference(text: Seq<char>) -> bool {
    ||| text::occurs_at(text, "&amp;"@, 0)
    ||| text::occurs_at(text, "&lt;"@, 0)
    ||| text::occurs_at(text, "&gt;"@, 0)
    ||| text::occurs_at(text, "&quot;"@, 0)
    ||| text::occurs_at(text, "&apos;"@, 0)
}

/// A reference is read as what it refers to.
proof fn lemma_reference_is_read(c: char, rest: Seq<char>)
    requires
        c == '&' || c == '<' || c == '>' || c == '"' || c == '\'',
    ensures
        xml::unescape_spec(xml::reference_to(c) + rest) == seq![c] + xml::unescape_spec(rest),
{
    reveal_strlit("&amp;");
    reveal_strlit("&lt;");
    reveal_strlit("&gt;");
    reveal_strlit("&quot;");
    reveal_strlit("&apos;");
    let whole = xml::reference_to(c) + rest;
    xml::lemma_read_first(whole);
    if c == '&' {
        assert(whole.subrange(0, 5) =~= "&amp;"@);
    } else if c == '<' {
        assert(whole.subrange(0, 4) =~= "&lt;"@);
        text::lemma_no_occurrence(whole, "&amp;"@, 0, 1);
    } else if c == '>' {
        assert(whole.subrange(0, 4) =~= "&gt;"@);
        text::lemma_no_occurrence(whole, "&amp;"@, 0, 1);
        text::lemma_no_occurrence(whole, "&lt;"@, 0, 1);
    } else if c == '"' {
        assert(whole.subrange(0, 6) =~= "&quot;"@);
        text::lemma_no_occurrence(whole, "&amp;"@, 0, 1);
        text::lemma_no_occurrence(whole, "&lt;"@, 0, 1);
        text::lemma_no_occurrence(whole, "&gt;"@, 0, 1);
    } else {
        assert(whole.subrange(0, 6) =~= "&apos;"@);
        text::lemma_no_occurrence(whole, "&amp;"@, 0, 2);
        text::lemma_no_occurrence(whole, "&lt;"@, 0, 1);
        text::lemma_no_occurrence(whole, "&gt;"@, 0, 1);
        text::lemma_no_occurrence(whole, "&quot;"@, 0, 1);
    }
    let (read, width) = xml::read_first(whole);
    assert(whole.skip(width) =~= rest);
}

/// Whether a pattern stands in a text.
pub open spec fn holds_text(text: Seq<char>, pattern: Seq<char>) -> bool {
    exists|j: int| 0 <= j <= text.len() - pattern.len() && #[trigger] text.subrange(
        j,
        j + pattern.len(),
    ) == pattern
}

/// What the first element of a tag says is what stands between its opening and
/// the first closing behind that, with its references read.
pub proof fn the_first_element_is_read(
    before: Seq<char>,
    tag: Seq<char>,
    inside: Seq<char>,
    rest: Seq<char>,
)
    requires
        forall|j: int|
            0 <= j < before.len() ==> !text::occurs_at(
                before + ("<"@ + tag + ">"@) + inside + ("</"@ + tag + ">"@) + rest,
                "<"@ + tag + ">"@,
                j,
            ),
        forall|j: int|
            0 <= j < inside.len() ==> !text::occurs_at(
                inside + ("</"@ + tag + ">"@) + rest,
                "</"@ + tag + ">"@,
                j,
            ),
    ensures
        xml::first_spec(
            before + ("<"@ + tag + ">"@) + inside + ("</"@ + tag + ">"@) + rest,
            tag,
        ) == Some(xml::unescape_spec(inside)),
{
    let opening = "<"@ + tag + ">"@;
    let closing = "</"@ + tag + ">"@;
    let whole = before + opening + inside + closing + rest;
    let tail = inside + closing + rest;
    let at = before.len() as int;
    assert(whole.subrange(at, at + opening.len()) =~= opening);
    let holds = text::occurrences(whole, opening);
    assert forall|j: int| 0 <= j < at implies !(#[trigger] holds(j)) by {
        assert(!text::occurs_at(whole, opening, j));
    }
    text::lemma_least_is(whole.len() + 1, holds, at);
    assert(whole.skip(at + opening.len()) =~= tail);
    let end = inside.len() as int;
    assert(tail.subrange(end, end + closing.len()) =~= closing);
    let ends = text::occurrences(tail, closing);
    assert forall|j: int| 0 <= j < end implies !(#[trigger] ends(j)) by {
        assert(!text::occurs_at(tail, closing, j));
    }
    text::lemma_least_is(tail.len() + 1, ends, end);
    assert(tail.take(end) =~= inside);
}

/// What is read of a tag stands in the text: behind the first opening, up to
/// the first closing behind that, with its references read. Nothing is read
/// exactly where there is no opening, or no closing behind the first.
pub proof fn what_is_read_stands_in_an_element(text: Seq<char>, tag: Seq<char>)
    ensures
        match text::split_once_spec(text, "<"@ + tag + ">"@) {
            Some((_, behind)) => match text::split_once_spec(behind, "</"@ + tag + ">"@) {
                Some((inside, _)) => xml::first_spec(text, tag) == Some(xml::unescape_spec(inside)),
                None => xml::first_spec(text, tag) is None,
            },
            None => xml::first_spec(text, tag) is None,
        },
{
}

/// A text without an opening tag, or without a closing one, says nothing of that
/// tag.
pub proof fn a_text_without_the_element_says_nothing(text: Seq<char>, tag: Seq<char>)
    ensures
        !holds_text(text, "<"@ + tag + ">"@) || !holds_text(text, "</"@ + tag + ">"@)
            ==> xml::first_spec(text, tag) is None,
{
    let opening = "<"@ + tag + ">"@;
    let closing = "</"@ + tag + ">"@;
    a_text_is_split_at_the_first(text, opening);
    if let Some((left, right)) = text::split_once_spec(text, opening) {
        assert(text.subrange(left.len() as int, left.len() as int + opening.len()) =~= opening);
        a_text_is_split_at_the_first(right, closing);
        if let Some((inside, rest)) = text::split_once_spec(right, closing) {
            let at = left.len() as int + opening.len() as int + inside.len() as int;
            assert(text.subrange(at, at + closing.len()) =~= closing);
        }
    }
}

/// The header that counts is the first of its name, in whatever case the name
/// is written; there is none exactly where no header has that name.
pub proof fn the_first_header_of_a_name_counts(
    headers: Seq<(Seq<char>, Seq<char>)>,
    name: Seq<char>,
)
    ensures
        match message::header_named(headers, name) {
            Some(value) => exists|at: int|
                0 <= at < headers.len() && text::same_but_case_spec(
                    (#[trigger] headers[at]).0,
                    name,
                ) && headers[at].1 == value && forall|i: int|
                    0 <= i < at ==> !text::same_but_case_spec((#[trigger] headers[i]).0, name),
            None => forall|i: int|
                0 <= i < headers.len() ==> !text::same_but_case_spec(
                    (#[trigger] headers[i]).0,
                    name,
                ),
        },
    decreases headers.len(),
{
    if headers.len() > 0 {
        let rest = headers.skip(1);
        the_first_header_of_a_name_counts(rest, name);
        if text::same_but_case_spec(headers[0].0, name) {
            assert(headers[0].1 == message::header_named(headers, name)->0);
        } else {
            match message::header_named(rest, name) {
                Some(value) => {
                    let at = choose|at: int|
                        0 <= at < rest.len() && text::same_but_case_spec(
                            (#[trigger] rest[at]).0,
                            name,
                        ) && rest[at].1 == value && forall|i: int|
                            0 <= i < at ==> !text::same_but_case_spec((#[trigger] rest[i]).0, name);
                    assert(headers[at + 1] == rest[at]);
                    assert forall|i: int| 0 <= i < at + 1 implies !text::same_but_case_spec(
                        (#[trigger] headers[i]).0,
                        name,
                    ) by {
                        if i > 0 {
                            assert(rest[i - 1] == headers[i]);
                        }
                    }
                },
                None => {
                    assert forall|i: int| 0 <= i < headers.len() implies !text::same_but_case_spec(
                        (#[trigger] headers[i]).0,
                        name,
                    ) by {
                        if i > 0 {
                            assert(rest[i - 1] == headers[i]);
                        }
                    }
                },
            }
        }
    }
}

/// The parameter that counts is the first of its name, letter for letter; there
/// is none exactly where no parameter has that name.
pub proof fn the_first_parameter_of_a_name_counts(
    parameters: Seq<(Seq<char>, Seq<char>)>,
    name: Seq<char>,
)
    ensures
        match message::parameter_named(parameters, name) {
            Some(value) => exists|at: int|
                0 <= at < parameters.len() && #[trigger] parameters[at] == (name, value)
                    && forall|i: int| 0 <= i < at ==> (#[trigger] parameters[i]).0 != name,
            None => forall|i: int|
                0 <= i < parameters.len() ==> (#[trigger] parameters[i]).0 != name,
        },
    decreases parameters.len(),
{
    if parameters.len() > 0 {
        let rest = parameters.skip(1);
        the_first_parameter_of_a_name_counts(rest, name);
        if parameters[0].0 == name {
            assert(parameters[0] == (name, message::parameter_named(parameters, name)->0));
        } else {
            match message::parameter_named(rest, name) {
                Some(value) => {
                    let at = choose|at: int|
                        0 <= at < rest.len() && #[trigger] rest[at] == (name, value)
                            && forall|i: int| 0 <= i < at ==> (#[trigger] rest[i]).0 != name;
                    assert(parameters[at + 1] == rest[at]);
                    assert forall|i: int| 0 <= i < at + 1 implies (#[trigger] parameters[i]).0
                        != name by {
                        if i > 0 {
                            assert(rest[i - 1] == parameters[i]);
                        }
                    }
                },
                None => {
                    assert forall|i: int| 0 <= i < parameters.len() implies (
                    #[trigger] parameters[i]).0 != name by {
                        if i > 0 {
                            assert(rest[i - 1] == parameters[i]);
                        }
                    }
                },
            }
        }
    }
}

/// The properties among headers are what the first `BrokerProperties` header
/// reads as, where that is an object; an object without members where there is
/// no such header; and otherwise a failure that lasts and says which of the two
/// it is.
pub proof fn properties_are_an_object_or_refused(headers: Seq<(Seq<char>, Seq<char>)>)
    ensures
        match (
            message::header_named(headers, "BrokerProperties"@),
            properties::properties_among(headers),
        ) {
            (None, Ok(found)) => found == Json::Object(Map::empty()),
            (None, Err(_)) => false,
            (Some(header), Ok(found)) => found is Object && json::read(header) == Ok::<
                Json,
                Seq<char>,
            >(found),
            (Some(header), Err(failure)) => !failure.retryable && match json::read(header) {
                Ok(found) => !(found is Object) && failure.message
                    == "BrokerProperties that are not an object"@,
                Err(said) => failure.message == "BrokerProperties that are not JSON: "@ + said,
            },
        },
{
}

/// The subcode of a detail is what stands before its first colon, or the whole
/// of it where it has none, without white space on either side.
pub proof fn a_subcode_is_what_stands_before_the_first_colon(detail: Seq<char>, at: int)
    requires
        0 <= at <= detail.len(),
        forall|i: int| 0 <= i < at ==> #[trigger] detail[i] != ':',
        at < detail.len() ==> detail[at] == ':',
    ensures
        rest::subcode_spec(detail) == text::trim_spec(detail.take(at)),
{
    reveal_strlit(":");
    let holds = text::occurrences(detail, ":"@);
    assert forall|j: int| 0 <= j < at implies !(#[trigger] holds(j)) by {
        text::lemma_no_occurrence(detail, ":"@, j, 0);
    }
    if at < detail.len() {
        assert(detail.subrange(at, at + 1) =~= ":"@);
        assert(holds(at));
        text::lemma_least_is(detail.len() + 1, holds, at);
    } else {
        text::lemma_least_is_none(detail.len() + 1, holds);
        assert(detail.take(at) =~= detail);
    }
}

/// An error answer has its status, says that it is XML in UTF-8, and its body is
/// an `Error` with the status for its code and the detail, escaped.
pub proof fn an_error_answer_is_this(status: u16, detail: Seq<char>)
    ensures
        rest::error_answer(status, detail).status == status,
        rest::error_answer(status, detail).headers == seq![
            ("Content-Type"@, "application/xml; charset=utf-8"@),
        ],
        rest::error_answer(status, detail).body == encode_utf8(
            "<Error><Code>"@ + number::decimal_spec(status as nat) + "</Code><Detail>"@
                + xml::escape_spec(detail) + "</Detail></Error>"@,
        ),
{
}

/// Bytes that are a text in UTF-8 say that text.
pub proof fn bytes_say_the_text_that_they_encode(text: Seq<char>)
    ensures
        message::said(encode_utf8(text)) == text,
{
    encode_utf8_valid_utf8(text);
    encode_utf8_decode_utf8(text);
}

/// An answer is a success exactly where its status is from 200 to 299, and is
/// handed on as it is. Any other is a failure that names the service, the status
/// and the detail in the body; it is worth repeating exactly where the status is
/// 500 or above, 408 or 429, or the detail starts with `50002`.
pub proof fn an_answer_is_judged_by_its_status(service: Seq<char>, answer: Answer)
    ensures
        match rest::judge_spec(service, answer) {
            Ok(same) => 200 <= answer.status <= 299 && same == answer,
            Err(failure) => {
                let detail = detail_of(answer);
                &&& answer.status < 200 || answer.status > 299
                &&& failure.message == service + " answered "@ + number::decimal_spec(
                    answer.status as nat,
                ) + " "@ + detail
                &&& failure.retryable <==> answer.status >= 500 || answer.status == 408
                    || answer.status == 429 || (detail.len() >= 5 && detail.take(5) == "50002"@)
            },
        },
{
    reveal_strlit("50002");
    let detail = detail_of(answer);
    if detail.len() >= 5 {
        assert(detail.subrange(0, 5) =~= detail.take(5));
    }
}

/// The detail in the body of an answer: what its first `Detail` says, or
/// nothing.
pub open spec fn detail_of(answer: Answer) -> Seq<char> {
    match xml::first_spec(message::said(answer.body), "Detail"@) {
        Some(detail) => detail,
        None => Seq::empty(),
    }
}

/// A failure that lasts says what it says, and is not worth repeating.
pub proof fn a_lasting_failure_is_not_worth_repeating(message: Seq<char>)
    ensures
        error::lasting(message) == (Failure { message, retryable: false }),
{
}

} // verus!
