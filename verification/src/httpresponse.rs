//! Responses: how one is built, and the text that goes on the wire for it.

use crate::headers::{holds_key, index_of_key, keys_unique, with_entry, Entries, Headers};
use crate::httprequest::{fields_of, lemma_header_field};
use crate::text::{
    decimal, is_word, joined, lemma_decimal, lemma_joined_push, lemma_lines_of_joined,
    lemma_tokens_after_word, lines, push_decimal, str_eq, tokens,
};
use vstd::prelude::*;
use vstd::std_specs::cmp::PartialEqSpecImpl;
use vstd::std_specs::convert::FromSpecImpl;
use vstd::string::StringExecFns;
use vstd::utf8::encode_utf8;

verus! {

/// A response as mathematics.
pub struct ResponseView {
    pub version: Seq<char>,
    pub status_code: Seq<char>,
    pub status_text: Seq<char>,
    pub headers: Option<Entries>,
    pub body: Option<Seq<char>>,
}

/// The reason phrase that goes with a status code. A code that the table
/// does not hold gets the phrase of 404.
pub open spec fn status_text_of(code: Seq<char>) -> Seq<char> {
    if code == "200"@ {
        "OK"@
    } else if code == "400"@ {
        "Bad Request"@
    } else if code == "404"@ {
        "Not Found"@
    } else if code == "500"@ {
        "Internal Server Error"@
    } else {
        "Not Found"@
    }
}

/// Each code of the table has its phrase, and every other code has the
/// phrase of 404.
pub proof fn lemma_status_text_of()
    ensures
        status_text_of("200"@) == "OK"@,
        status_text_of("400"@) == "Bad Request"@,
        status_text_of("404"@) == "Not Found"@,
        status_text_of("500"@) == "Internal Server Error"@,
        forall|code: Seq<char>|
            code != "200"@ && code != "400"@ && code != "404"@ && code != "500"@
                ==> #[trigger] status_text_of(code) == "Not Found"@,
{
    reveal_strlit("200");
    reveal_strlit("400");
    reveal_strlit("404");
    reveal_strlit("500");
    assert("400"@[0] != "200"@[0]);
    assert("404"@[0] != "200"@[0]);
    assert("404"@[2] != "400"@[2]);
    assert("500"@[0] != "200"@[0]);
    assert("500"@[0] != "400"@[0]);
}

/// The header fields of a response that was given none.
pub open spec fn default_headers() -> Entries {
    seq![("Content-Type"@, "text/html"@)]
}

/// The response that `new` builds from its arguments.
pub open spec fn built(
    version: Seq<char>,
    status_code: Seq<char>,
    headers: Option<Entries>,
    body: Option<Seq<char>>,
) -> ResponseView {
    ResponseView {
        version,
        status_code,
        status_text: status_text_of(status_code),
        headers: Some(
            match headers {
                Some(given) => given,
                None => default_headers(),
            },
        ),
        body,
    }
}

/// The header lines of a response: for each entry, in order, its name, a
/// colon, its value and a line end.
pub open spec fn header_lines(e: Entries) -> Seq<char>
    decreases e.len(),
{
    if e.len() == 0 {
        Seq::empty()
    } else {
        header_lines(e.drop_last()) + e.last().0 + ":"@ + e.last().1 + "\r\n"@
    }
}

/// The header lines of header fields that may be absent: absent fields
/// give no line.
pub open spec fn header_block(headers: Option<Entries>) -> Seq<char> {
    match headers {
        Some(e) => header_lines(e),
        None => Seq::empty(),
    }
}

/// The body of a response as it is sent: an absent body is sent as an
/// empty one.
pub open spec fn body_text(body: Option<Seq<char>>) -> Seq<char> {
    match body {
        Some(b) => b,
        None => Seq::empty(),
    }
}

/// The status line of a response, without its line end.
pub open spec fn status_line(r: ResponseView) -> Seq<char> {
    r.version + " "@ + r.status_code + " "@ + r.status_text
}

/// The line that states the length of the body, without its line end.
pub open spec fn length_line(r: ResponseView) -> Seq<char> {
    "Content-Length: "@ + decimal(encode_utf8(body_text(r.body)).len())
}

/// The text that goes on the wire for a response: the status line, the
/// header lines, the length of the body in bytes, an empty line, the body.
pub open spec fn wire_text(r: ResponseView) -> Seq<char> {
    status_line(r) + "\r\n"@ + header_block(r.headers) + length_line(r) + "\r\n\r\n"@ + body_text(
        r.body,
    )
}

/// What an optional set of header fields holds.
pub open spec fn entries_of(headers: Option<Headers>) -> Option<Entries> {
    match headers {
        Some(h) => Some(h.entries()),
        None => None,
    }
}

/// What an optional string holds.
pub open spec fn chars_of(text: Option<String>) -> Option<Seq<char>> {
    match text {
        Some(t) => Some(t@),
        None => None,
    }
}

/// A response.
#[derive(Debug)]
pub struct HttpResponse<'a> {
    pub version: &'a str,
    pub status_code: &'a str,
    pub status_text: &'a str,
    pub headers: Option<Headers>,
    pub body: Option<String>,
}

impl<'a> View for HttpResponse<'a> {
    type V = ResponseView;

    open spec fn view(&self) -> ResponseView {
        ResponseView {
            version: self.version@,
            status_code: self.status_code@,
            status_text: self.status_text@,
            headers: entries_of(self.headers),
            body: chars_of(self.body),
        }
    }
}

impl<'a> HttpResponse<'a> {
    /// Builds a response. The reason phrase follows from the status code;
    /// where no header fields are given, the response gets
    /// `Content-Type: text/html`; given ones are taken as they are.
    pub fn new(
        version: &'a str,
        status_code: &'a str,
        headers: Option<Headers>,
        body: Option<String>,
    ) -> (response: HttpResponse<'a>)
        ensures
            response@ == built(version@, status_code@, entries_of(headers), chars_of(body)),
    {
        let status_text: &'a str = if str_eq(status_code, "200") {
            "OK"
        } else if str_eq(status_code, "400") {
            "Bad Request"
        } else if str_eq(status_code, "404") {
            "Not Found"
        } else if str_eq(status_code, "500") {
            "Internal Server Error"
        } else {
            "Not Found"
        };
        let headers = match headers {
            Some(given) => given,
            None => {
                let mut fields = Headers::new();
                fields.insert("Content-Type", "text/html");
                assert(fields.entries() == default_headers());
                fields
            },
        };
        HttpResponse { version, status_code, status_text, headers: Some(headers), body }
    }

    /// The protocol version.
    pub fn version(&self) -> (version: &str)
        ensures
            version@ == self@.version,
    {
        self.version
    }

    /// The status code.
    pub fn status_code(&self) -> (code: &str)
        ensures
            code@ == self@.status_code,
    {
        self.status_code
    }

    /// The reason phrase.
    pub fn status_text(&self) -> (phrase: &str)
        ensures
            phrase@ == self@.status_text,
    {
        self.status_text
    }

    /// The header lines as they are sent.
    pub fn headers(&self) -> (block: String)
        ensures
            block@ == header_block(self@.headers),
    {
        let mut block = String::new();
        match &self.headers {
            Some(fields) => {
                let n = fields.len();
                let mut i: usize = 0;
                assert(fields.entries().take(0) == Entries::empty());
                while i < n
                    invariant
                        i <= n == fields.entries().len(),
                        block@ == header_lines(fields.entries().take(i as int)),
                    decreases n - i,
                {
                    let pair = fields.entry(i);
                    proof {
                        let done = fields.entries().take(i + 1);
                        assert(done.drop_last() == fields.entries().take(i as int));
                        assert(done.last() == fields.entries()[i as int]);
                    }
                    block.append(pair.0);
                    block.append(":");
                    block.append(pair.1);
                    block.append("\r\n");
                    i = i + 1;
                }
                assert(fields.entries().take(n as int) == fields.entries());
            },
            None => {},
        }
        block
    }

    /// The body as it is sent: empty where the response has none.
    pub fn body(&self) -> (body: &str)
        ensures
            body@ == body_text(self@.body),
    {
        match &self.body {
            Some(b) => b.as_str(),
            None => {
                proof {
                    reveal_strlit("");
                }
                assert(""@ == Seq::<char>::empty());
                ""
            },
        }
    }

    /// The text that goes on the wire for this response.
    pub fn serialize(&self) -> (text: String)
        ensures
            text@ == wire_text(self@),
    {
        let body = self.body();
        let mut text = String::from_str(self.version);
        text.append(" ");
        text.append(self.status_code);
        text.append(" ");
        text.append(self.status_text);
        text.append("\r\n");
        text.append(self.headers().as_str());
        text.append("Content-Length: ");
        push_decimal(&mut text, body.as_bytes().len());
        text.append("\r\n\r\n");
        text.append(body);
        assert(text@ == wire_text(self@));
        text
    }
}

impl<'a> From<HttpResponse<'a>> for String {
    /// The text that goes on the wire for `value`, as `serialize` gives it.
    fn from(value: HttpResponse<'a>) -> (text: String)
        ensures
            text@ == wire_text(value@),
    {
        value.serialize()
    }
}

impl<'a> FromSpecImpl<HttpResponse<'a>> for String {
    /// Two strings with the same characters need not be one value, so the
    /// conversion is stated over views, on `from` itself.
    open spec fn obeys_from_spec() -> bool {
        false
    }

    open spec fn from_spec(value: HttpResponse<'a>) -> String {
        arbitrary()
    }
}

impl<'a> Clone for HttpResponse<'a> {
    /// A copy with the same fields, the header fields in the same order.
    fn clone(&self) -> (copy: HttpResponse<'a>)
        ensures
            copy@ == self@,
    {
        HttpResponse {
            version: self.version,
            status_code: self.status_code,
            status_text: self.status_text,
            headers: match &self.headers {
                Some(fields) => Some(fields.clone()),
                None => None,
            },
            body: match &self.body {
                Some(text) => Some(text.clone()),
                None => None,
            },
        }
    }
}

impl<'a> Default for HttpResponse<'a> {
    /// A response with empty status line, no header fields and no body.
    fn default() -> (response: HttpResponse<'a>)
        ensures
            response@ == (ResponseView {
                version: Seq::empty(),
                status_code: Seq::empty(),
                status_text: Seq::empty(),
                headers: None,
                body: None,
            }),
    {
        proof {
            reveal_strlit("");
        }
        assert(""@ == Seq::<char>::empty());
        HttpResponse { version: "", status_code: "", status_text: "", headers: None, body: None }
    }
}

/// Whether two optional sets of header fields stand for the same mapping.
pub open spec fn same_fields(a: Option<Headers>, b: Option<Headers>) -> bool {
    match (a, b) {
        (Some(x), Some(y)) => x@ == y@,
        (None, None) => true,
        _ => false,
    }
}

impl<'a> PartialEq for HttpResponse<'a> {
    /// Whether both are the same response, whatever the order of their
    /// header fields.
    fn eq(&self, other: &HttpResponse<'a>) -> (same: bool) {
        let fields = match (&self.headers, &other.headers) {
            (Some(x), Some(y)) => x == y,
            (None, None) => true,
            _ => false,
        };
        let body = match (&self.body, &other.body) {
            (Some(x), Some(y)) => str_eq(x.as_str(), y.as_str()),
            (None, None) => true,
            _ => false,
        };
        fields && body && str_eq(self.version, other.version) && str_eq(
            self.status_code,
            other.status_code,
        ) && str_eq(self.status_text, other.status_text)
    }
}

impl<'a> PartialEqSpecImpl for HttpResponse<'a> {
    open spec fn obeys_eq_spec() -> bool {
        true
    }

    open spec fn eq_spec(&self, other: &HttpResponse<'a>) -> bool {
        &&& self.version@ == other.version@
        &&& self.status_code@ == other.status_code@
        &&& self.status_text@ == other.status_text@
        &&& same_fields(self.headers, other.headers)
        &&& chars_of(self.body) == chars_of(other.body)
    }
}

/// A response is sent as the same text every time: two calls of
/// `serialize` on one response give the same characters.
pub proof fn lemma_serialize_repeatable(response: HttpResponse, first: String, second: String)
    requires
        call_ensures(HttpResponse::serialize, (&response,), first),
        call_ensures(HttpResponse::serialize, (&response,), second),
    ensures
        first@ == second@,
{
}

/// A response with an empty body, or with none, ends with a length of
/// zero and the empty line: nothing follows.
pub proof fn lemma_empty_body(r: ResponseView)
    requires
        body_text(r.body).len() == 0,
    ensures
        wire_text(r) == status_line(r) + "\r\n"@ + header_block(r.headers)
            + "Content-Length: 0\r\n\r\n"@,
{
    reveal_strlit("Content-Length: ");
    reveal_strlit("\r\n\r\n");
    reveal_strlit("Content-Length: 0\r\n\r\n");
    assert(body_text(r.body) == Seq::<char>::empty());
    assert(encode_utf8(body_text(r.body)).len() == 0);
    assert(decimal(0) == seq!['0']);
    assert(length_line(r) + "\r\n\r\n"@ == "Content-Length: 0\r\n\r\n"@);
    let head = status_line(r) + "\r\n"@ + header_block(r.headers);
    assert(wire_text(r) == head + (length_line(r) + "\r\n\r\n"@));
}

/// The header line of each entry, in order, without its line end.
pub open spec fn header_line_list(e: Entries) -> Seq<Seq<char>> {
    Seq::new(e.len(), |i: int| e[i].0 + ":"@ + e[i].1)
}

/// The lines that stand before the body: the status line, the header
/// lines, the length line and the empty line.
pub open spec fn head_lines(r: ResponseView) -> Seq<Seq<char>> {
    seq![status_line(r)] + header_line_list(
        match r.headers {
            Some(e) => e,
            None => Seq::empty(),
        },
    ) + seq![length_line(r), Seq::empty()]
}

/// The header lines of a response are its entries' lines, joined.
pub proof fn lemma_header_lines_joined(e: Entries)
    ensures
        header_lines(e) == joined(header_line_list(e)),
    decreases e.len(),
{
    reveal_strlit("\r\n");
    assert("\r\n"@ == seq!['\r', '\n']);
    if e.len() > 0 {
        let front = e.drop_last();
        lemma_header_lines_joined(front);
        let line = e.last().0 + ":"@ + e.last().1;
        lemma_joined_push(header_line_list(front), line);
        assert(header_line_list(e) == header_line_list(front).push(line));
        assert(header_lines(e) == header_lines(front) + line + "\r\n"@);
    }
}

/// The wire text is the lines before the body, each with its line end,
/// and then the body.
pub proof fn lemma_wire_text_joined(r: ResponseView)
    ensures
        wire_text(r) == joined(head_lines(r)) + body_text(r.body),
{
    reveal_strlit("\r\n");
    reveal_strlit("\r\n\r\n");
    let crlf = seq!['\r', '\n'];
    assert("\r\n"@ == crlf);
    assert("\r\n\r\n"@ == crlf + crlf);
    let e = match r.headers {
        Some(e) => e,
        None => Seq::empty(),
    };
    lemma_header_lines_joined(e);
    assert(header_block(r.headers) == joined(header_line_list(e)));
    let a = seq![status_line(r)] + header_line_list(e);
    lemma_joined_push(a, length_line(r));
    lemma_joined_push(a.push(length_line(r)), Seq::empty());
    assert(head_lines(r) == a.push(length_line(r)).push(Seq::empty()));
    assert(a.drop_first() == header_line_list(e));
    assert(joined(a) == status_line(r) + crlf + joined(header_line_list(e)));
    assert(wire_text(r) == joined(a) + length_line(r) + crlf + Seq::<char>::empty() + crlf
        + body_text(r.body));
}

/// Whether no part of the response but the body holds a line feed.
pub open spec fn head_is_clean(r: ResponseView) -> bool {
    &&& !r.version.contains('\n')
    &&& !r.status_code.contains('\n')
    &&& !r.status_text.contains('\n')
    &&& r.headers matches Some(e) ==> forall|i: int|
        0 <= i < e.len() ==> !(#[trigger] e[i]).0.contains('\n') && !e[i].1.contains('\n')
}

/// The wire text reads back line by line: its lines are the status line,
/// the header lines, the length line and the empty line as they were
/// written, and then the lines of the body.
pub proof fn lemma_wire_text_lines(r: ResponseView)
    requires
        head_is_clean(r),
    ensures
        lines(wire_text(r)) == head_lines(r) + lines(body_text(r.body)),
{
    reveal_strlit(" ");
    reveal_strlit(":");
    reveal_strlit("Content-Length: ");
    lemma_wire_text_joined(r);
    lemma_decimal(encode_utf8(body_text(r.body)).len());
    let ls = head_lines(r);
    let e = match r.headers {
        Some(e) => e,
        None => Seq::empty(),
    };
    assert forall|i: int| 0 <= i < ls.len() implies !(#[trigger] ls[i]).contains('\n') by {
        let line = ls[i];
        if line.contains('\n') {
            let k = choose|k: int| 0 <= k < line.len() && line[k] == '\n';
            if i == 0 {
                let v = r.version.len();
                let c = r.status_code.len();
                if k < v {
                    assert(r.version.contains(r.version[k]));
                } else if k == v {
                } else if k < v + 1 + c {
                    assert(r.status_code.contains(r.status_code[k - v - 1]));
                } else if k == v + 1 + c {
                } else {
                    assert(r.status_text.contains(r.status_text[k - v - c - 2]));
                }
            } else if i <= e.len() {
                let entry = e[i - 1];
                assert(line == entry.0 + ":"@ + entry.1);
                let n = entry.0.len();
                if k < n {
                    assert(entry.0.contains(entry.0[k]));
                } else if k == n {
                } else {
                    assert(entry.1.contains(entry.1[k - n - 1]));
                }
            } else if i == e.len() + 1 {
                assert(line == length_line(r));
                let digits = decimal(encode_utf8(body_text(r.body)).len());
                if k >= 16 {
                    assert(line[k] == digits[k - 16]);
                }
            } else {
                assert(line == Seq::<char>::empty());
            }
        }
    }
    lemma_lines_of_joined(ls, body_text(r.body));
}

/// The status line reads back token by token: where the version and the
/// status code are words, they are its first two tokens, and the tokens of
/// the reason phrase follow.
pub proof fn lemma_status_line_tokens(r: ResponseView)
    requires
        is_word(r.version),
        is_word(r.status_code),
    ensures
        tokens(status_line(r)) == seq![r.version, r.status_code] + tokens(r.status_text),
{
    reveal_strlit(" ");
    assert(" "@ == seq![' ']);
    lemma_tokens_after_word(r.status_code, ' ', r.status_text);
    lemma_tokens_after_word(r.version, ' ', r.status_code + seq![' '] + r.status_text);
    assert(status_line(r) == r.version + seq![' '] + (r.status_code + seq![' '] + r.status_text));
    assert(seq![r.version] + (seq![r.status_code] + tokens(r.status_text)) == seq![
        r.version,
        r.status_code,
    ] + tokens(r.status_text));
}

/// Header lines read back as the entries that wrote them, where no name
/// holds a colon.
pub proof fn lemma_header_lines_read_back(e: Entries)
    requires
        keys_unique(e),
        forall|i: int| 0 <= i < e.len() ==> !(#[trigger] e[i]).0.contains(':'),
    ensures
        fields_of(header_line_list(e)) == e,
    decreases e.len(),
{
    reveal_strlit(":");
    assert(":"@ == seq![':']);
    let ls = header_line_list(e);
    if e.len() > 0 {
        let front = e.drop_last();
        assert(ls.drop_last() == header_line_list(front));
        lemma_header_lines_read_back(front);
        let last = e.last();
        assert(ls.last() == last.0 + seq![':'] + last.1);
        lemma_header_field(last.0, last.1);
        assert(!holds_key(front, last.0)) by {
            if holds_key(front, last.0) {
                let i = index_of_key(front, last.0);
                assert(e[i].0 == e[e.len() - 1].0);
            }
        }
        assert(fields_of(ls) == with_entry(front, last.0, last.1));
        assert(front.push((last.0, last.1)) == e);
    } else {
        assert(fields_of(ls) == e);
    }
}

} // verus!
