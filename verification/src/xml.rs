//! The little XML that an error answer is made of: text inside one element,
//! with the five reserved characters written as references.

use crate::text;
use vstd::prelude::*;
use vstd::string::*;

verus! {

/// A character as the text of an element holds it.
pub open spec fn reference_to(c: char) -> Seq<char> {
    if c == '&' {
        "&amp;"@
    } else if c == '<' {
        "&lt;"@
    } else if c == '>' {
        "&gt;"@
    } else if c == '"' {
        "&quot;"@
    } else if c == '\'' {
        "&apos;"@
    } else {
        seq![c]
    }
}

/// A text as an element holds it.
pub open spec fn escape_spec(text: Seq<char>) -> Seq<char>
    decreases text.len(),
{
    if text.len() == 0 {
        Seq::empty()
    } else {
        reference_to(text[0]) + escape_spec(text.skip(1))
    }
}

/// The character that `text` starts with, once a reference is read, and how
/// many characters of `text` stand for it.
pub open spec fn read_first(text: Seq<char>) -> (char, int) {
    if text::occurs_at(text, "&amp;"@, 0) {
        ('&', 5)
    } else if text::occurs_at(text, "&lt;"@, 0) {
        ('<', 4)
    } else if text::occurs_at(text, "&gt;"@, 0) {
        ('>', 4)
    } else if text::occurs_at(text, "&quot;"@, 0) {
        ('"', 6)
    } else if text::occurs_at(text, "&apos;"@, 0) {
        ('\'', 6)
    } else {
        (text[0], 1)
    }
}

/// A reading takes at least one character and no more than there are, and
/// only an ampersand starts a reference.
pub proof fn lemma_read_first(text: Seq<char>)
    requires
        text.len() > 0,
    ensures
        0 < read_first(text).1 <= text.len(),
        text[0] != '&' ==> read_first(text) == (text[0], 1int),
{
    reveal_strlit("&amp;");
    reveal_strlit("&lt;");
    reveal_strlit("&gt;");
    reveal_strlit("&quot;");
    reveal_strlit("&apos;");
    if text[0] != '&' {
        text::lemma_no_occurrence(text, "&amp;"@, 0, 0);
        text::lemma_no_occurrence(text, "&lt;"@, 0, 0);
        text::lemma_no_occurrence(text, "&gt;"@, 0, 0);
        text::lemma_no_occurrence(text, "&quot;"@, 0, 0);
        text::lemma_no_occurrence(text, "&apos;"@, 0, 0);
    }
}

/// What the text of an element says: each reference read, and every other
/// character as it is.
pub open spec fn unescape_spec(text: Seq<char>) -> Seq<char>
    decreases text.len(),
{
    if text.len() == 0 {
        Seq::empty()
    } else {
        let (c, width) = read_first(text);
        proof {
            lemma_read_first(text);
        }
        seq![c] + unescape_spec(text.skip(width))
    }
}

/// What the first element named `tag` in `text` says, where there is one.
pub open spec fn first_spec(text: Seq<char>, tag: Seq<char>) -> Option<Seq<char>> {
    match text::split_once_spec(text, "<"@ + tag + ">"@) {
        Some((_, rest)) => match text::split_once_spec(rest, "</"@ + tag + ">"@) {
            Some((inside, _)) => Some(unescape_spec(inside)),
            None => None,
        },
        None => None,
    }
}

/// `text` as an element holds it.
pub fn escape(text: &str) -> (escaped: String)
    ensures
        escaped@ == escape_spec(text@),
{
    let chars = text::chars_of(text);
    let mut escaped = String::new();
    assert(text@.skip(0) == text@);
    for i in 0..chars.len()
        invariant
            chars@ == text@,
            escaped@ + escape_spec(text@.skip(i as int)) == escape_spec(text@),
    {
        let c = chars[i];
        assert(text@.skip(i as int).skip(1) == text@.skip(i + 1));
        let ghost sofar = escaped@;
        if c == '&' {
            escaped.append("&amp;");
        } else if c == '<' {
            escaped.append("&lt;");
        } else if c == '>' {
            escaped.append("&gt;");
        } else if c == '"' {
            escaped.append("&quot;");
        } else if c == '\'' {
            escaped.append("&apos;");
        } else {
            escaped.push(c);
        }
        assert(escaped@ == sofar + reference_to(c));
    }
    escaped
}

/// The character that `text`, which starts with an ampersand, stands for
/// first, and how many characters stand for it.
fn read_reference(text: &str) -> (read: (char, usize))
    requires
        text@.len() > 0,
        text@[0] == '&',
    ensures
        (read.0, read.1 as int) == read_first(text@),
{
    if text::starts_with(text, "&amp;") {
        ('&', 5)
    } else if text::starts_with(text, "&lt;") {
        ('<', 4)
    } else if text::starts_with(text, "&gt;") {
        ('>', 4)
    } else if text::starts_with(text, "&quot;") {
        ('"', 6)
    } else if text::starts_with(text, "&apos;") {
        ('\'', 6)
    } else {
        ('&', 1)
    }
}

/// What `text` says once its references are read.
pub fn unescape(text: &str) -> (said: String)
    ensures
        said@ == unescape_spec(text@),
{
    let chars = text::chars_of(text);
    let mut said = String::new();
    let mut i: usize = 0;
    assert(text@.skip(0) == text@);
    while i < chars.len()
        invariant
            i <= chars.len(),
            chars@ == text@,
            said@ + unescape_spec(text@.skip(i as int)) == unescape_spec(text@),
        decreases chars.len() - i,
    {
        let ghost sofar = said@;
        let ghost rest = text@.skip(i as int);
        proof {
            lemma_read_first(rest);
        }
        let (c, width): (char, usize) = if chars[i] == '&' {
            read_reference(text.substring_char(i, chars.len()))
        } else {
            (chars[i], 1)
        };
        said.push(c);
        assert(said@ == sofar + seq![c]);
        assert(rest.skip(width as int) == text@.skip(i + width));
        i += width;
    }
    said
}

/// What the first element named `tag` in `text` says, where there is one.
pub fn first(text: &str, tag: &str) -> (said: Option<String>)
    ensures
        text::owned(said) == first_spec(text@, tag@),
{
    let opening = String::from_str("<").concat(tag).concat(">");
    let closing = String::from_str("</").concat(tag).concat(">");
    match text::split_once(text, opening.as_str()) {
        Some((_, rest)) => match text::split_once(rest, closing.as_str()) {
            Some((inside, _)) => Some(unescape(inside)),
            None => None,
        },
        None => None,
    }
}

/// Reading what was written gives the text back.
pub proof fn lemma_escape_reads_back(text: Seq<char>)
    ensures
        unescape_spec(escape_spec(text)) == text,
    decreases text.len(),
{
    if text.len() > 0 {
        let c = text[0];
        let rest = escape_spec(text.skip(1));
        let whole = escape_spec(text);
        lemma_escape_reads_back(text.skip(1));
        reveal_strlit("&amp;");
        reveal_strlit("&lt;");
        reveal_strlit("&gt;");
        reveal_strlit("&quot;");
        reveal_strlit("&apos;");
        assert(whole == reference_to(c) + rest);
        lemma_read_first(whole);
        if c == '&' {
            assert(whole.subrange(0, 5) =~= "&amp;"@);
        } else if c == '<' {
            assert(whole.subrange(0, 4) =~= "&lt;"@);
            assert(whole[1] == 'l');
            text::lemma_no_occurrence(whole, "&amp;"@, 0, 1);
        } else if c == '>' {
            assert(whole.subrange(0, 4) =~= "&gt;"@);
            assert(whole[1] == 'g');
            text::lemma_no_occurrence(whole, "&amp;"@, 0, 1);
            text::lemma_no_occurrence(whole, "&lt;"@, 0, 1);
        } else if c == '"' {
            assert(whole.subrange(0, 6) =~= "&quot;"@);
            assert(whole[1] == 'q');
            text::lemma_no_occurrence(whole, "&amp;"@, 0, 1);
            text::lemma_no_occurrence(whole, "&lt;"@, 0, 1);
            text::lemma_no_occurrence(whole, "&gt;"@, 0, 1);
        } else if c == '\'' {
            assert(whole.subrange(0, 6) =~= "&apos;"@);
            assert(whole[1] == 'a' && whole[2] == 'p');
            text::lemma_no_occurrence(whole, "&amp;"@, 0, 2);
            text::lemma_no_occurrence(whole, "&lt;"@, 0, 1);
            text::lemma_no_occurrence(whole, "&gt;"@, 0, 1);
            text::lemma_no_occurrence(whole, "&quot;"@, 0, 1);
        }
        let (read, width) = read_first(whole);
        assert(read == c);
        assert(whole.skip(width) =~= rest);
        assert(seq![c] + text.skip(1) =~= text);
    }
}

/// A written text opens no element.
pub proof fn lemma_escape_opens_nothing(text: Seq<char>)
    ensures
        forall|i: int| 0 <= i < escape_spec(text).len() ==> #[trigger] escape_spec(text)[i] != '<',
    decreases text.len(),
{
    if text.len() > 0 {
        let rest = escape_spec(text.skip(1));
        let start = reference_to(text[0]);
        lemma_escape_opens_nothing(text.skip(1));
        reveal_strlit("&amp;");
        reveal_strlit("&lt;");
        reveal_strlit("&gt;");
        reveal_strlit("&quot;");
        reveal_strlit("&apos;");
        assert forall|i: int| 0 <= i < escape_spec(text).len() implies #[trigger] escape_spec(
            text,
        )[i] != '<' by {
            if i >= start.len() {
                assert(escape_spec(text)[i] == rest[i - start.len()]);
            } else {
                assert(escape_spec(text)[i] == start[i]);
            }
        }
    }
}

} // verus!
