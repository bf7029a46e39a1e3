//! Text as the transport reads it: searching, splitting and trimming, and the
//! order of names.
//!
//! A text is modelled by the sequence of its characters.

use vstd::prelude::*;
use vstd::string::*;

verus! {

/// `String::push` appends one character to the end of the string.
pub assume_specification[ String::push ](string: &mut String, c: char)
    ensures
        final(string)@ == old(string)@.push(c),
;

/// The characters of an optional text.
pub open spec fn viewed(text: Option<&str>) -> Option<Seq<char>> {
    match text {
        Some(text) => Some(text@),
        None => None,
    }
}

/// The characters of an optional owned text.
pub open spec fn owned(text: Option<String>) -> Option<Seq<char>> {
    match text {
        Some(text) => Some(text@),
        None => None,
    }
}

/// The least index below `bound` at which `holds` holds, where there is one.
pub open spec fn is_least(bound: nat, holds: spec_fn(int) -> bool, at: int) -> bool {
    &&& 0 <= at < bound
    &&& holds(at)
    &&& forall|j: int| 0 <= j < at ==> !(#[trigger] holds(j))
}

/// The least index below `bound` at which `holds` holds.
pub open spec fn least(bound: nat, holds: spec_fn(int) -> bool) -> Option<int> {
    if exists|at: int| is_least(bound, holds, at) {
        Some(choose|at: int| is_least(bound, holds, at))
    } else {
        None
    }
}

/// There is at most one least index.
pub proof fn lemma_least_is(bound: nat, holds: spec_fn(int) -> bool, at: int)
    requires
        is_least(bound, holds, at),
    ensures
        least(bound, holds) == Some(at),
{
    let chosen = choose|i: int| is_least(bound, holds, i);
    assert(is_least(bound, holds, chosen));
    assert(chosen == at);
}

/// Where there is a least index, it is one.
pub proof fn lemma_least_holds(bound: nat, holds: spec_fn(int) -> bool)
    ensures
        least(bound, holds) matches Some(at) ==> is_least(bound, holds, at),
{
    if least(bound, holds) is Some {
        let at = choose|at: int| is_least(bound, holds, at);
        assert(is_least(bound, holds, at));
    }
}

/// Where the condition holds nowhere there is no least index.
pub proof fn lemma_least_is_none(bound: nat, holds: spec_fn(int) -> bool)
    requires
        forall|j: int| 0 <= j < bound ==> !(#[trigger] holds(j)),
    ensures
        least(bound, holds) is None,
{
}

/// Where the condition holds somewhere there is a least index.
pub proof fn lemma_least_exists(bound: nat, holds: spec_fn(int) -> bool, at: int)
    requires
        0 <= at < bound,
        holds(at),
    ensures
        least(bound, holds) is Some,
        is_least(bound, holds, least(bound, holds)->0),
        least(bound, holds)->0 <= at,
    decreases at,
{
    if forall|j: int| 0 <= j < at ==> !(#[trigger] holds(j)) {
        assert(is_least(bound, holds, at));
        lemma_least_is(bound, holds, at);
    } else {
        let earlier = choose|j: int| 0 <= j < at && #[trigger] holds(j);
        lemma_least_exists(bound, holds, earlier);
    }
}

/// Whether `pattern` stands in `text` at index `at`.
pub open spec fn occurs_at(text: Seq<char>, pattern: Seq<char>, at: int) -> bool {
    &&& 0 <= at <= text.len() - pattern.len()
    &&& text.subrange(at, at + pattern.len()) == pattern
}

/// Where one character differs the pattern does not stand.
pub proof fn lemma_no_occurrence(text: Seq<char>, pattern: Seq<char>, at: int, i: int)
    requires
        0 <= i < pattern.len(),
        text[at + i] != pattern[i],
    ensures
        !occurs_at(text, pattern, at),
{
    if occurs_at(text, pattern, at) {
        assert(text.subrange(at, at + pattern.len())[i] == text[at + i]);
    }
}

/// The indices at which `pattern` stands in `text`.
pub open spec fn occurrences(text: Seq<char>, pattern: Seq<char>) -> spec_fn(int) -> bool {
    |at: int| occurs_at(text, pattern, at)
}

/// Where `pattern` first stands in `text`.
pub open spec fn find(text: Seq<char>, pattern: Seq<char>) -> Option<int> {
    least(text.len() + 1, occurrences(text, pattern))
}

/// Whether `at` is where `pattern` last stands in `text`.
pub open spec fn is_last(text: Seq<char>, pattern: Seq<char>, at: int) -> bool {
    &&& occurs_at(text, pattern, at)
    &&& forall|j: int| at < j ==> !occurs_at(text, pattern, j)
}

/// Where `pattern` last stands in `text`.
pub open spec fn rfind(text: Seq<char>, pattern: Seq<char>) -> Option<int> {
    if exists|at: int| is_last(text, pattern, at) {
        Some(choose|at: int| is_last(text, pattern, at))
    } else {
        None
    }
}

/// There is at most one last occurrence.
pub proof fn lemma_rfind_is(text: Seq<char>, pattern: Seq<char>, at: int)
    requires
        is_last(text, pattern, at),
    ensures
        rfind(text, pattern) == Some(at),
{
    let chosen = choose|i: int| is_last(text, pattern, i);
    assert(is_last(text, pattern, chosen));
    assert(chosen == at);
}

/// Where a pattern stands somewhere, it stands somewhere last.
pub proof fn lemma_rfind_exists(text: Seq<char>, pattern: Seq<char>, at: int)
    requires
        occurs_at(text, pattern, at),
    ensures
        rfind(text, pattern) matches Some(last) && at <= last && is_last(text, pattern, last),
    decreases text.len() - at,
{
    if is_last(text, pattern, at) {
        lemma_rfind_is(text, pattern, at);
    } else {
        let later = choose|j: int| at < j && occurs_at(text, pattern, j);
        lemma_rfind_exists(text, pattern, later);
    }
}

/// What stands before and after index `at` where `width` characters are cut
/// out of `text`.
pub open spec fn cut(text: Seq<char>, at: Option<int>, width: nat) -> Option<(
    Seq<char>,
    Seq<char>,
)> {
    match at {
        Some(at) => Some((text.take(at), text.skip(at + width))),
        None => None,
    }
}

/// What stands before and after the first `pattern`.
pub open spec fn split_once_spec(text: Seq<char>, pattern: Seq<char>) -> Option<(
    Seq<char>,
    Seq<char>,
)> {
    cut(text, find(text, pattern), pattern.len())
}

/// What stands before and after the last `pattern`.
pub open spec fn rsplit_once_spec(text: Seq<char>, pattern: Seq<char>) -> Option<(
    Seq<char>,
    Seq<char>,
)> {
    cut(text, rfind(text, pattern), pattern.len())
}

/// What follows `prefix`, where the text starts with it.
pub open spec fn strip_prefix_spec(text: Seq<char>, prefix: Seq<char>) -> Option<Seq<char>> {
    if occurs_at(text, prefix, 0) {
        Some(text.skip(prefix.len() as int))
    } else {
        None
    }
}

/// Two texts side by side, as `split_once` hands them out.
pub open spec fn viewed_pair(pair: Option<(&str, &str)>) -> Option<(Seq<char>, Seq<char>)> {
    match pair {
        Some(pair) => Some((pair.0@, pair.1@)),
        None => None,
    }
}

/// The characters of `text`.
pub fn chars_of(text: &str) -> (chars: Vec<char>)
    ensures
        chars@ == text@,
{
    let mut chars: Vec<char> = Vec::new();
    for c in iter: text.chars()
        invariant
            iter.seq() == text@,
            chars@ == text@.take(iter.index() as int),
    {
        chars.push(c);
    }
    chars
}

/// The text of `chars`.
pub fn text_of(chars: &Vec<char>) -> (text: String)
    ensures
        text@ == chars@,
{
    let mut text = String::new();
    for at in 0..chars.len()
        invariant
            text@ == chars@.take(at as int),
    {
        text.push(chars[at]);
    }
    assert(chars@.take(chars.len() as int) == chars@);
    text
}

/// Whether two texts hold the same characters.
pub fn same(left: &str, right: &str) -> (yes: bool)
    ensures
        yes == (left@ == right@),
{
    left.to_owned() == right.to_owned()
}

/// Whether `pattern` stands in `text` at index `at`.
fn stands_at(text: &Vec<char>, pattern: &Vec<char>, at: usize) -> (yes: bool)
    ensures
        yes == occurs_at(text@, pattern@, at as int),
{
    if pattern.len() > text.len() || at > text.len() - pattern.len() {
        return false;
    }
    for i in 0..pattern.len()
        invariant
            at + pattern.len() <= text.len(),
            forall|j: int| 0 <= j < i ==> text[at + j] == pattern[j],
    {
        if text[at + i] != pattern[i] {
            assert(text@.subrange(at as int, at + pattern.len())[i as int] != pattern@[i as int]);
            return false;
        }
    }
    assert(text@.subrange(at as int, at + pattern.len()) =~= pattern@);
    true
}

/// Where `pattern` first stands in `text`.
pub fn position(text: &Vec<char>, pattern: &Vec<char>) -> (at: Option<usize>)
    ensures
        match at {
            Some(at) => find(text@, pattern@) == Some(at as int) && occurs_at(
                text@,
                pattern@,
                at as int,
            ),
            None => find(text@, pattern@) is None,
        },
{
    let ghost holds = occurrences(text@, pattern@);
    for at in 0..text.len()
        invariant
            holds == occurrences(text@, pattern@),
            forall|j: int| 0 <= j < at ==> !(#[trigger] holds(j)),
    {
        if stands_at(text, pattern, at) {
            proof {
                lemma_least_is(text@.len() + 1, holds, at as int);
            }
            return Some(at);
        }
    }
    if stands_at(text, pattern, text.len()) {
        proof {
            lemma_least_is(text@.len() + 1, holds, text@.len() as int);
        }
        return Some(text.len());
    }
    proof {
        lemma_least_is_none(text@.len() + 1, holds);
    }
    None
}

/// Where `pattern` last stands in `text`.
pub fn rposition(text: &Vec<char>, pattern: &Vec<char>) -> (at: Option<usize>)
    ensures
        match at {
            Some(at) => rfind(text@, pattern@) == Some(at as int) && occurs_at(
                text@,
                pattern@,
                at as int,
            ),
            None => rfind(text@, pattern@) is None,
        },
{
    let mut at: usize = text.len();
    loop
        invariant
            at <= text.len(),
            forall|j: int| at < j ==> !occurs_at(text@, pattern@, j),
        decreases at,
    {
        if stands_at(text, pattern, at) {
            proof {
                assert(is_last(text@, pattern@, at as int));
                lemma_rfind_is(text@, pattern@, at as int);
            }
            return Some(at);
        }
        if at == 0 {
            assert(forall|j: int| !occurs_at(text@, pattern@, j));
            return None;
        }
        at -= 1;
    }
}

/// What stands before and after the first `pattern` in `text`.
pub fn split_once<'a>(text: &'a str, pattern: &str) -> (parts: Option<(&'a str, &'a str)>)
    ensures
        viewed_pair(parts) == split_once_spec(text@, pattern@),
{
    let chars = chars_of(text);
    let sought = chars_of(pattern);
    let end: usize = chars.len();
    match position(&chars, &sought) {
        Some(at) => Some(
            (
                text.substring_char(0, at),
                text.substring_char(at + sought.len(), end),
            ),
        ),
        None => None,
    }
}

/// What stands before and after the last `pattern` in `text`.
pub fn rsplit_once<'a>(text: &'a str, pattern: &str) -> (parts: Option<(&'a str, &'a str)>)
    ensures
        viewed_pair(parts) == rsplit_once_spec(text@, pattern@),
{
    let chars = chars_of(text);
    let sought = chars_of(pattern);
    let end: usize = chars.len();
    match rposition(&chars, &sought) {
        Some(at) => Some(
            (
                text.substring_char(0, at),
                text.substring_char(at + sought.len(), end),
            ),
        ),
        None => None,
    }
}

/// Whether `text` starts with `prefix`.
pub fn starts_with(text: &str, prefix: &str) -> (yes: bool)
    ensures
        yes == occurs_at(text@, prefix@, 0),
{
    stands_at(&chars_of(text), &chars_of(prefix), 0)
}

/// What follows `prefix`, where `text` starts with it.
pub fn strip_prefix<'a>(text: &'a str, prefix: &str) -> (rest: Option<&'a str>)
    ensures
        viewed(rest) == strip_prefix_spec(text@, prefix@),
{
    let chars = chars_of(text);
    let sought = chars_of(prefix);
    if stands_at(&chars, &sought, 0) {
        Some(text.substring_char(sought.len(), chars.len()))
    } else {
        None
    }
}

/// The characters that Unicode gives the White_Space property.
pub open spec fn is_space_spec(c: char) -> bool {
    ||| 0x09 <= c as u32 <= 0x0d
    ||| c as u32 == 0x20
    ||| c as u32 == 0x85
    ||| c as u32 == 0xa0
    ||| c as u32 == 0x1680
    ||| 0x2000 <= c as u32 <= 0x200a
    ||| c as u32 == 0x2028
    ||| c as u32 == 0x2029
    ||| c as u32 == 0x202f
    ||| c as u32 == 0x205f
    ||| c as u32 == 0x3000
}

/// Whether Unicode gives `c` the White_Space property.
#[verifier::when_used_as_spec(is_space_spec)]
pub fn is_space(c: char) -> (yes: bool)
    ensures
        yes == is_space_spec(c),
{
    let point: u32 = c as u32;
    (0x09 <= point && point <= 0x0d) || point == 0x20 || point == 0x85 || point == 0xa0 || point
        == 0x1680 || (0x2000 <= point && point <= 0x200a) || point == 0x2028 || point == 0x2029
        || point == 0x202f || point == 0x205f || point == 0x3000
}

/// `text` without the white space that it starts with.
pub open spec fn trim_start_spec(text: Seq<char>) -> Seq<char>
    decreases text.len(),
{
    if text.len() > 0 && is_space(text[0]) {
        trim_start_spec(text.skip(1))
    } else {
        text
    }
}

/// `text` without the white space that it ends with.
pub open spec fn trim_end_spec(text: Seq<char>) -> Seq<char>
    decreases text.len(),
{
    if text.len() > 0 && is_space(text.last()) {
        trim_end_spec(text.drop_last())
    } else {
        text
    }
}

/// `text` without the white space on either side.
pub open spec fn trim_spec(text: Seq<char>) -> Seq<char> {
    trim_end_spec(trim_start_spec(text))
}

/// `text` without the white space on either side.
pub fn trim(text: &str) -> (trimmed: &str)
    ensures
        trimmed@ == trim_spec(text@),
{
    let chars = chars_of(text);
    let mut start: usize = 0;
    assert(text@.skip(0) == text@);
    while start < chars.len() && is_space(chars[start])
        invariant
            start <= chars.len(),
            chars@ == text@,
            trim_start_spec(text@) == trim_start_spec(text@.skip(start as int)),
        decreases chars.len() - start,
    {
        assert(text@.skip(start as int).skip(1) == text@.skip(start + 1));
        start += 1;
    }
    let ghost kept = text@.skip(start as int);
    assert(trim_start_spec(text@) == kept);
    let mut end: usize = chars.len();
    assert(kept == text@.subrange(start as int, end as int));
    while start < end && is_space(chars[end - 1])
        invariant
            start <= end <= chars.len(),
            chars@ == text@,
            trim_end_spec(kept) == trim_end_spec(text@.subrange(start as int, end as int)),
        decreases end,
    {
        assert(text@.subrange(start as int, end as int).drop_last() == text@.subrange(
            start as int,
            end - 1,
        ));
        end -= 1;
    }
    text.substring_char(start, end)
}

/// `text` without the `c`s that it ends with.
pub open spec fn trim_end_matches_spec(text: Seq<char>, c: char) -> Seq<char>
    decreases text.len(),
{
    if text.len() > 0 && text.last() == c {
        trim_end_matches_spec(text.drop_last(), c)
    } else {
        text
    }
}

/// `text` without the `c`s that it ends with.
pub fn trim_end_matches(text: &str, c: char) -> (trimmed: &str)
    ensures
        trimmed@ == trim_end_matches_spec(text@, c),
{
    let chars = chars_of(text);
    let mut end: usize = chars.len();
    assert(text@.take(end as int) == text@);
    while 0 < end && chars[end - 1] == c
        invariant
            end <= chars.len(),
            chars@ == text@,
            trim_end_matches_spec(text@, c) == trim_end_matches_spec(text@.take(end as int), c),
        decreases end,
    {
        assert(text@.take(end as int).drop_last() == text@.take(end - 1));
        end -= 1;
    }
    text.substring_char(0, end)
}

/// A character with the capitals of ASCII made small.
pub open spec fn small_spec(c: char) -> char {
    if 'A' <= c <= 'Z' {
        (c as u32 + 32) as char
    } else {
        c
    }
}

/// Whether two texts differ at most in the case of ASCII letters.
pub open spec fn same_but_case_spec(left: Seq<char>, right: Seq<char>) -> bool {
    &&& left.len() == right.len()
    &&& forall|i: int|
        0 <= i < left.len() ==> small_spec(#[trigger] left[i]) == small_spec(#[trigger] right[i])
}

/// `c` with the capitals of ASCII made small.
fn small(c: char) -> (made: char)
    ensures
        made == small_spec(c),
{
    if 'A' <= c && c <= 'Z' {
        ((c as u8) + 32) as char
    } else {
        c
    }
}

/// Whether two texts differ at most in the case of ASCII letters.
pub fn same_but_case(left: &str, right: &str) -> (yes: bool)
    ensures
        yes == same_but_case_spec(left@, right@),
{
    let lefts = chars_of(left);
    let rights = chars_of(right);
    if lefts.len() != rights.len() {
        return false;
    }
    for i in 0..lefts.len()
        invariant
            lefts@ == left@,
            rights@ == right@,
            lefts.len() == rights.len(),
            forall|j: int|
                0 <= j < i ==> small_spec(#[trigger] lefts@[j]) == small_spec(
                    #[trigger] rights@[j],
                ),
    {
        if small(lefts[i]) != small(rights[i]) {
            return false;
        }
    }
    true
}

/// Whether `left` comes before `right` in the order of their code points.
pub open spec fn before(left: Seq<char>, right: Seq<char>) -> bool
    decreases left.len(),
{
    if right.len() == 0 {
        false
    } else if left.len() == 0 {
        true
    } else if left[0] != right[0] {
        left[0] < right[0]
    } else {
        before(left.skip(1), right.skip(1))
    }
}

/// No text comes before itself, and of two texts one comes before the other
/// exactly where they differ and the other does not come before it.
pub proof fn lemma_before_is_total(left: Seq<char>, right: Seq<char>)
    ensures
        left == right ==> !before(left, right),
        left != right ==> before(left, right) != before(right, left),
    decreases left.len(),
{
    if left.len() > 0 && right.len() > 0 && left[0] == right[0] {
        lemma_before_is_total(left.skip(1), right.skip(1));
        if left.skip(1) == right.skip(1) {
            assert(left =~= seq![left[0]] + left.skip(1));
            assert(right =~= seq![right[0]] + right.skip(1));
        }
    } else if left.len() == 0 && right.len() == 0 {
        assert(left =~= right);
    }
}

/// What comes before a text comes before all that follows it.
pub proof fn lemma_before_is_transitive(first: Seq<char>, second: Seq<char>, third: Seq<char>)
    requires
        before(first, second),
        before(second, third),
    ensures
        before(first, third),
    decreases first.len(),
{
    if first.len() > 0 && second.len() > 0 && third.len() > 0 && first[0] == second[0] && second[0]
        == third[0] {
        lemma_before_is_transitive(first.skip(1), second.skip(1), third.skip(1));
    }
}

/// Whether `left` comes before `right` in the order of their code points.
pub fn comes_before(left: &str, right: &str) -> (yes: bool)
    ensures
        yes == before(left@, right@),
{
    let lefts = chars_of(left);
    let rights = chars_of(right);
    let mut i: usize = 0;
    assert(left@.skip(0) == left@);
    assert(right@.skip(0) == right@);
    while i < lefts.len() && i < rights.len()
        invariant
            lefts@ == left@,
            rights@ == right@,
            i <= lefts.len(),
            i <= rights.len(),
            before(left@, right@) == before(left@.skip(i as int), right@.skip(i as int)),
        decreases lefts.len() - i,
    {
        if lefts[i] != rights[i] {
            return lefts[i] < rights[i];
        }
        assert(left@.skip(i as int).skip(1) == left@.skip(i + 1));
        assert(right@.skip(i as int).skip(1) == right@.skip(i + 1));
        i += 1;
    }
    i < rights.len()
}

} // verus!
