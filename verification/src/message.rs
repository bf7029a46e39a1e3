//! Requests and answers as HTTP carries them: what is asked of a queue, and
//! what a namespace says.

use crate::text;
use vstd::prelude::*;
use vstd::slice::slice_to_vec;
use vstd::string::*;
use vstd::utf8::*;

verus! {

/// A named value: one header, or one parameter of a query.
#[derive(Clone, Debug, PartialEq, Eq)]
pub struct Field {
    pub name: String,
    pub value: String,
}

impl View for Field {
    type V = (Seq<char>, Seq<char>);

    open spec fn view(&self) -> (Seq<char>, Seq<char>) {
        (self.name@, self.value@)
    }
}

/// Fields by their names and values.
pub open spec fn fields(fields: Seq<Field>) -> Seq<(Seq<char>, Seq<char>)> {
    Seq::new(fields.len(), |i: int| fields[i]@)
}

/// A request.
#[derive(Clone, Debug, PartialEq, Eq)]
pub struct Request {
    pub method: String,
    pub path: String,
    pub parameters: Vec<Field>,
    pub headers: Vec<Field>,
    pub body: Vec<u8>,
}

/// The model of a [`Request`].
#[verifier::ext_equal]
pub struct Asked {
    pub method: Seq<char>,
    pub path: Seq<char>,
    pub parameters: Seq<(Seq<char>, Seq<char>)>,
    pub headers: Seq<(Seq<char>, Seq<char>)>,
    pub body: Seq<u8>,
}

impl View for Request {
    type V = Asked;

    open spec fn view(&self) -> Asked {
        Asked {
            method: self.method@,
            path: self.path@,
            parameters: fields(self.parameters@),
            headers: fields(self.headers@),
            body: self.body@,
        }
    }
}

/// An answer.
#[derive(Clone, Debug, PartialEq, Eq)]
pub struct Response {
    pub status: u16,
    pub headers: Vec<Field>,
    pub body: Vec<u8>,
}

/// The model of a [`Response`].
#[verifier::ext_equal]
pub struct Answer {
    pub status: u16,
    pub headers: Seq<(Seq<char>, Seq<char>)>,
    pub body: Seq<u8>,
}

impl View for Response {
    type V = Answer;

    open spec fn view(&self) -> Answer {
        Answer { status: self.status, headers: fields(self.headers@), body: self.body@ }
    }
}

/// The value of the first header with a name, in whatever case the name is
/// written.
pub open spec fn header_named(headers: Seq<(Seq<char>, Seq<char>)>, name: Seq<char>) -> Option<
    Seq<char>,
>
    decreases headers.len(),
{
    if headers.len() == 0 {
        None
    } else if text::same_but_case_spec(headers[0].0, name) {
        Some(headers[0].1)
    } else {
        header_named(headers.skip(1), name)
    }
}

/// The value of the first parameter with a name.
pub open spec fn parameter_named(
    parameters: Seq<(Seq<char>, Seq<char>)>,
    name: Seq<char>,
) -> Option<Seq<char>>
    decreases parameters.len(),
{
    if parameters.len() == 0 {
        None
    } else if parameters[0].0 == name {
        Some(parameters[0].1)
    } else {
        parameter_named(parameters.skip(1), name)
    }
}

/// What `String::from_utf8_lossy` makes of bytes that are not UTF-8.
pub uninterp spec fn replaced(bytes: Seq<u8>) -> Seq<char>;

/// Bytes as text: what they say where they are UTF-8, and otherwise what is
/// left of them with the rest replaced.
pub open spec fn said(bytes: Seq<u8>) -> Seq<char> {
    if valid_utf8(bytes) {
        decode_utf8(bytes)
    } else {
        replaced(bytes)
    }
}

/// `String::from_utf8_lossy`, as an owned string: bytes that are UTF-8 give
/// the text that they encode; the same bytes always give the same text.
#[verifier::external_body]
fn from_utf8_lossy(bytes: &[u8]) -> (text: String)
    ensures
        text@ == (if valid_utf8(bytes@) {
            decode_utf8(bytes@)
        } else {
            replaced(bytes@)
        }),
{
    String::from_utf8_lossy(bytes).into_owned()
}

/// The value of the first of `headers` named `name`, in whatever case.
fn header_in<'a>(headers: &'a Vec<Field>, name: &str) -> (value: Option<&'a str>)
    ensures
        text::viewed(value) == header_named(fields(headers@), name@),
{
    assert(fields(headers@).skip(0) == fields(headers@));
    for i in 0..headers.len()
        invariant
            header_named(fields(headers@), name@) == header_named(
                fields(headers@).skip(i as int),
                name@,
            ),
    {
        if text::same_but_case(headers[i].name.as_str(), name) {
            return Some(headers[i].value.as_str());
        }
        assert(fields(headers@).skip(i as int).skip(1) == fields(headers@).skip(i + 1));
    }
    None
}

impl Request {
    /// A request for `path` by `method`, with nothing else.
    pub fn new(method: &str, path: &str) -> (request: Self)
        ensures
            request@ == (Asked {
                method: method@,
                path: path@,
                parameters: Seq::empty(),
                headers: Seq::empty(),
                body: Seq::empty(),
            }),
    {
        Request {
            method: method.to_owned(),
            path: path.to_owned(),
            parameters: Vec::new(),
            headers: Vec::new(),
            body: Vec::new(),
        }
    }

    /// The request with one more header.
    pub fn header(self, name: &str, value: &str) -> (request: Self)
        ensures
            request@ == (Asked { headers: self@.headers.push((name@, value@)), ..self@ }),
    {
        let mut headers = self.headers;
        headers.push(Field { name: name.to_owned(), value: value.to_owned() });
        let request = Request { headers, ..self };
        assert(request@.headers == self@.headers.push((name@, value@)));
        request
    }

    /// The request with one more parameter in its query.
    pub fn query(self, name: &str, value: &str) -> (request: Self)
        ensures
            request@ == (Asked { parameters: self@.parameters.push((name@, value@)), ..self@ }),
    {
        let mut parameters = self.parameters;
        parameters.push(Field { name: name.to_owned(), value: value.to_owned() });
        let request = Request { parameters, ..self };
        assert(request@.parameters == self@.parameters.push((name@, value@)));
        request
    }

    /// The request with `bytes` for its body.
    pub fn body(self, bytes: &[u8]) -> (request: Self)
        ensures
            request@ == (Asked { body: bytes@, ..self@ }),
    {
        Request { body: slice_to_vec(bytes), ..self }
    }

    /// The value of the first header named `name`, in whatever case.
    pub fn header_value(&self, name: &str) -> (value: Option<&str>)
        ensures
            text::viewed(value) == header_named(self@.headers, name@),
    {
        header_in(&self.headers, name)
    }

    /// The value of the first parameter named `name`.
    pub fn query_value(&self, name: &str) -> (value: Option<&str>)
        ensures
            text::viewed(value) == parameter_named(self@.parameters, name@),
    {
        assert(self@.parameters.skip(0) == self@.parameters);
        for i in 0..self.parameters.len()
            invariant
                parameter_named(self@.parameters, name@) == parameter_named(
                    self@.parameters.skip(i as int),
                    name@,
                ),
        {
            if text::same(self.parameters[i].name.as_str(), name) {
                return Some(self.parameters[i].value.as_str());
            }
            assert(self@.parameters.skip(i as int).skip(1) == self@.parameters.skip(i + 1));
        }
        None
    }
}

impl Response {
    /// An answer of `status`, with nothing else.
    pub fn new(status: u16) -> (response: Self)
        ensures
            response@ == (Answer { status, headers: Seq::empty(), body: Seq::empty() }),
    {
        Response { status, headers: Vec::new(), body: Vec::new() }
    }

    /// The answer with one more header.
    pub fn header(self, name: &str, value: &str) -> (response: Self)
        ensures
            response@ == (Answer { headers: self@.headers.push((name@, value@)), ..self@ }),
    {
        let mut headers = self.headers;
        headers.push(Field { name: name.to_owned(), value: value.to_owned() });
        let response = Response { headers, ..self };
        assert(response@.headers == self@.headers.push((name@, value@)));
        response
    }

    /// The answer with `bytes` for its body.
    pub fn body(self, bytes: &[u8]) -> (response: Self)
        ensures
            response@ == (Answer { body: bytes@, ..self@ }),
    {
        Response { body: slice_to_vec(bytes), ..self }
    }

    /// The value of the first header named `name`, in whatever case.
    pub fn header_value(&self, name: &str) -> (value: Option<&str>)
        ensures
            text::viewed(value) == header_named(self@.headers, name@),
    {
        header_in(&self.headers, name)
    }

    /// The body as text.
    pub fn text(&self) -> (text: String)
        ensures
            text@ == said(self@.body),
    {
        from_utf8_lossy(self.body.as_slice())
    }
}

} // verus!
