//! The Service Bus REST API's shapes that both ends share: the error answer,
//! and the judgement of an answer.
//!
//! An error is an XML `Error` with a `Code` that repeats the status and a
//! `Detail` that says what went wrong, its leading subcode the part worth
//! reading: `40103` is a bad signature.

use crate::error::{self, Failure, TransportError};
use crate::message::{self, Answer, Response};
use crate::number;
use crate::text;
use crate::xml;
use vstd::prelude::*;
use vstd::string::*;
use vstd::utf8::*;

pub use crate::properties::{properties_in, properties_of, property, BROKER_PROPERTIES};

verus! {

/// The body of an error answer.
pub open spec fn error_text(status: u16, detail: Seq<char>) -> Seq<char> {
    "<Error><Code>"@ + number::decimal_spec(status as nat) + "</Code><Detail>"@ + xml::escape_spec(
        detail,
    ) + "</Detail></Error>"@
}

/// The answer that is not a result: an `Error` with `status` for its code and
/// `detail` for what went wrong.
pub open spec fn error_answer(status: u16, detail: Seq<char>) -> Answer {
    Answer {
        status,
        headers: seq![("Content-Type"@, "application/xml; charset=utf-8"@)],
        body: encode_utf8(error_text(status, detail)),
    }
}

/// The subcode that a detail opens with, or the whole detail where it opens
/// with none.
pub open spec fn subcode_spec(detail: Seq<char>) -> Seq<char> {
    match text::split_once_spec(detail, ":"@) {
        Some((code, _)) => text::trim_spec(code),
        None => text::trim_spec(detail),
    }
}

/// Whether a status says that all went well.
pub open spec fn is_success(status: u16) -> bool {
    200 <= status < 300
}

/// Whether an answer says come back: a server fault, a timeout, a throttle, a
/// namespace that is busy.
pub open spec fn says_come_back(status: u16, detail: Seq<char>) -> bool {
    ||| status >= 500
    ||| status == 408
    ||| status == 429
    ||| text::occurs_at(detail, "50002"@, 0)
}

/// The failure that an answer of `status` with `detail` is.
pub open spec fn answered(service: Seq<char>, status: u16, detail: Seq<char>) -> Failure {
    Failure {
        message: service + " answered "@ + number::decimal_spec(status as nat) + " "@ + detail,
        retryable: says_come_back(status, detail),
    }
}

/// What the service put in the body as the detail of an error; nothing where
/// the body holds none.
pub open spec fn detail_in(body: Seq<u8>) -> Seq<char> {
    match xml::first_spec(message::said(body), "Detail"@) {
        Some(detail) => detail,
        None => Seq::empty(),
    }
}

/// A success as it is; anything else as a failure.
pub open spec fn judge_spec(service: Seq<char>, answer: Answer) -> Result<
    Answer,
    Failure,
> {
    if is_success(answer.status) {
        Ok(answer)
    } else {
        Err(answered(service, answer.status, detail_in(answer.body)))
    }
}

/// The far end's answer that is not a result: an `Error` with `status` for
/// its code and `detail` for what went wrong, `40103: Invalid authorization
/// token signature` style.
#[must_use]
pub fn error(status: u16, detail: &str) -> (response: Response)
    ensures
        response@ == error_answer(status, detail@),
{
    let mut body = "<Error><Code>".to_owned();
    body.append(number::decimal(status as u64).as_str());
    body.append("</Code><Detail>");
    body.append(xml::escape(detail).as_str());
    body.append("</Detail></Error>");
    Response::new(status).header("Content-Type", "application/xml; charset=utf-8").body(
        body.as_str().as_bytes(),
    )
}

/// The subcode an error's detail opens with, `40103`, or the whole detail
/// where it opens with none.
#[must_use]
pub fn subcode(detail: &str) -> (code: String)
    ensures
        code@ == subcode_spec(detail@),
{
    match text::split_once(detail, ":") {
        Some((code, _)) => text::trim(code).to_owned(),
        None => text::trim(detail).to_owned(),
    }
}

/// The failure that an answer of `status` is, whose body says `detail`.
pub fn failure(service: &str, status: u16, detail: &str) -> (failure: TransportError)
    ensures
        failure@ == answered(service@, status, detail@),
{
    let retryable = status >= 500 || status == 408 || status == 429 || text::starts_with(
        detail,
        "50002",
    );
    let mut message = service.to_owned();
    message.append(" answered ");
    message.append(number::decimal(status as u64).as_str());
    message.append(" ");
    message.append(detail);
    TransportError { message, retryable }
}

/// A 2xx answer as it is; anything else as a failure naming the status and
/// the detail the service put in the body, retryable where it says come back:
/// a server fault, a timeout, a throttle, a namespace that is busy.
pub fn judge(service: &str, response: Response) -> (result: Result<Response, TransportError>)
    ensures
        error::outcome(result) == judge_spec(service@, response@),
        result matches Ok(same) ==> same == response,
{
    if 200 <= response.status && response.status < 300 {
        return Ok(response);
    }
    let detail = match xml::first(response.text().as_str(), "Detail") {
        Some(detail) => detail,
        None => String::new(),
    };
    Err(failure(service, response.status, detail.as_str()))
}

/// The text of an error answer says its detail once, and nothing in the
/// detail can end it early.
proof fn lemma_detail_of_error_text(status: u16, detail: Seq<char>)
    ensures
        xml::first_spec(error_text(status, detail), "Detail"@) == Some(detail),
{
    let whole = error_text(status, detail);
    let code = number::decimal_spec(status as nat);
    let inside = xml::escape_spec(detail);
    let opening = "<"@ + "Detail"@ + ">"@;
    let closing = "</"@ + "Detail"@ + ">"@;
    reveal_strlit("<Error><Code>");
    reveal_strlit("</Code><Detail>");
    reveal_strlit("</Detail></Error>");
    reveal_strlit("<");
    reveal_strlit("</");
    reveal_strlit("Detail");
    reveal_strlit(">");
    number::lemma_decimal_reads_back(status as nat);
    xml::lemma_escape_opens_nothing(detail);
    xml::lemma_escape_reads_back(detail);

    let at: int = 13 + code.len() as int + 7;
    assert(whole.subrange(at, at + 8) =~= opening);
    assert(text::occurs_at(whole, opening, at));
    let holds = text::occurrences(whole, opening);
    assert forall|j: int| 0 <= j < at implies !(#[trigger] holds(j)) by {
        if j == 0 || j == 7 || j == 13 + code.len() {
            text::lemma_no_occurrence(whole, opening, j, 1);
        } else {
            if 13 <= j < 13 + code.len() {
                assert(whole[j] == code[j - 13]);
            }
            text::lemma_no_occurrence(whole, opening, j, 0);
        }
    }
    text::lemma_least_is(whole.len() + 1, holds, at);

    let rest = inside + "</Detail></Error>"@;
    assert(whole.skip(at + 8) =~= rest);
    assert(rest.subrange(inside.len() as int, inside.len() as int + 9) =~= closing);
    let ends = text::occurrences(rest, closing);
    assert forall|j: int| 0 <= j < inside.len() implies !(#[trigger] ends(j)) by {
        assert(rest[j] == inside[j]);
        text::lemma_no_occurrence(rest, closing, j, 0);
    }
    text::lemma_least_is(rest.len() + 1, ends, inside.len() as int);
    assert(rest.take(inside.len() as int) =~= inside);
}

/// An error answer is judged as the failure that it says: whatever status and
/// detail the far end refuses with, short of a success, the near end reports
/// that status and that detail, and repeats the call exactly where they say
/// come back.
pub proof fn an_error_is_judged_as_it_says(service: Seq<char>, status: u16, detail: Seq<char>)
    requires
        !is_success(status),
    ensures
        judge_spec(service, error_answer(status, detail)) == Err::<Answer, Failure>(
            answered(service, status, detail),
        ),
{
    let whole = error_text(status, detail);
    encode_utf8_valid_utf8(whole);
    encode_utf8_decode_utf8(whole);
    lemma_detail_of_error_text(status, detail);
}

/// The subcode of a detail written as a code without a colon or white space,
/// then a colon, is that code.
pub proof fn a_detail_opens_with_its_subcode(code: Seq<char>, rest: Seq<char>)
    requires
        forall|i: int|
            0 <= i < code.len() ==> #[trigger] code[i] != ':' && !text::is_space(code[i]),
    ensures
        subcode_spec(code + ":"@ + rest) == code,
{
    let whole = code + ":"@ + rest;
    reveal_strlit(":");
    let holds = text::occurrences(whole, ":"@);
    assert(whole.subrange(code.len() as int, code.len() as int + 1) =~= ":"@);
    assert forall|j: int| 0 <= j < code.len() implies !(#[trigger] holds(j)) by {
        assert(whole[j] == code[j]);
        text::lemma_no_occurrence(whole, ":"@, j, 0);
    }
    text::lemma_least_is(whole.len() + 1, holds, code.len() as int);
    assert(whole.take(code.len() as int) =~= code);
}

} // verus!
