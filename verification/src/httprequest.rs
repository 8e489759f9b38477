//! Requests: the method, target, version, header fields and body that a
//! request text states, line by line.

use crate::headers::{
    as_map, keys_unique, lemma_with_entry_map, lemma_with_entry_unique, with_entry, Entries, Headers,
};
use crate::text::{
    contains, contains_seq, find_char, first_index, from_chars, is_word, joined,
    lemma_first_index, lemma_first_index_is, lemma_lines_of_joined, lemma_lines_of_line,
    lemma_tokens_after_word, lemma_tokens_of_word, lines, slice_views, split_lines,
    split_whitespace, str_eq, to_chars, tokens,
};
use vstd::prelude::*;
use vstd::slice::slice_subrange;
use vstd::std_specs::cmp::PartialEqSpecImpl;
use vstd::std_specs::convert::FromSpecImpl;

verus! {

/// The request methods that are told apart.
#[derive(Debug, Clone, Copy, PartialEq, Eq, Structural)]
pub enum Method {
    GET,
    POST,
    PUT,
    DELETE,
    /// No method was read, or one that is not told apart.
    Uninitialized,
}

/// The method that a token names. Only the exact upper-case names count.
pub open spec fn method_of(token: Seq<char>) -> Method {
    if token == "GET"@ {
        Method::GET
    } else if token == "POST"@ {
        Method::POST
    } else if token == "PUT"@ {
        Method::PUT
    } else if token == "DELETE"@ {
        Method::DELETE
    } else {
        Method::Uninitialized
    }
}

impl<'a> From<&'a str> for Method {
    /// The method that `value` names.
    fn from(value: &'a str) -> (method: Method)
        ensures
            method == method_of(value@),
    {
        if str_eq(value, "GET") {
            Method::GET
        } else if str_eq(value, "POST") {
            Method::POST
        } else if str_eq(value, "PUT") {
            Method::PUT
        } else if str_eq(value, "DELETE") {
            Method::DELETE
        } else {
            Method::Uninitialized
        }
    }
}

impl<'a> FromSpecImpl<&'a str> for Method {
    open spec fn obeys_from_spec() -> bool {
        true
    }

    open spec fn from_spec(value: &'a str) -> Method {
        method_of(value@)
    }
}

/// Each of the four names gives its own method, and every other token
/// gives `Uninitialized`.
pub proof fn lemma_method_of()
    ensures
        method_of("GET"@) == Method::GET,
        method_of("POST"@) == Method::POST,
        method_of("PUT"@) == Method::PUT,
        method_of("DELETE"@) == Method::DELETE,
        forall|token: Seq<char>|
            token != "GET"@ && token != "POST"@ && token != "PUT"@ && token != "DELETE"@
                ==> #[trigger] method_of(token) == Method::Uninitialized,
{
    reveal_strlit("GET");
    reveal_strlit("POST");
    reveal_strlit("PUT");
    reveal_strlit("DELETE");
    assert("POST"@[0] != "GET"@[0]);
    assert("PUT"@[0] != "GET"@[0]);
    assert("PUT"@[1] != "POST"@[1]);
    assert("DELETE"@[0] != "GET"@[0]);
    assert("DELETE"@[0] != "POST"@[0]);
}

/// What a request asks for.
#[derive(Debug)]
pub enum Resource {
    /// The target as it stood in the request line, undecoded.
    Path(String),
}

impl View for Resource {
    type V = Seq<char>;

    /// The characters of the path.
    open spec fn view(&self) -> Seq<char> {
        match self {
            Resource::Path(path) => path@,
        }
    }
}

impl PartialEq for Resource {
    /// Whether both hold the same path.
    fn eq(&self, other: &Resource) -> (same: bool) {
        match (self, other) {
            (Resource::Path(a), Resource::Path(b)) => str_eq(a.as_str(), b.as_str()),
        }
    }
}

impl PartialEqSpecImpl for Resource {
    open spec fn obeys_eq_spec() -> bool {
        true
    }

    open spec fn eq_spec(&self, other: &Resource) -> bool {
        self@ == other@
    }
}

/// The protocol versions that are told apart.
#[derive(Debug, Clone, Copy, PartialEq, Eq, Structural)]
pub enum Version {
    V1_1,
    V2_0,
    V3_0,
    /// No version was read, or one that is not told apart.
    Uninitialized,
}

/// The version that a token names. Only the exact strings count.
pub open spec fn version_of(token: Seq<char>) -> Version {
    if token == "HTTP/1.1"@ {
        Version::V1_1
    } else if token == "HTTP/2"@ {
        Version::V2_0
    } else if token == "HTTP/3"@ {
        Version::V3_0
    } else {
        Version::Uninitialized
    }
}

impl<'a> From<&'a str> for Version {
    /// The version that `value` names.
    fn from(value: &'a str) -> (version: Version)
        ensures
            version == version_of(value@),
    {
        if str_eq(value, "HTTP/1.1") {
            Version::V1_1
        } else if str_eq(value, "HTTP/2") {
            Version::V2_0
        } else if str_eq(value, "HTTP/3") {
            Version::V3_0
        } else {
            Version::Uninitialized
        }
    }
}

impl<'a> FromSpecImpl<&'a str> for Version {
    open spec fn obeys_from_spec() -> bool {
        true
    }

    open spec fn from_spec(value: &'a str) -> Version {
        version_of(value@)
    }
}

/// Each of the three strings gives its own version, and every other token
/// gives `Uninitialized`.
pub proof fn lemma_version_of()
    ensures
        version_of("HTTP/1.1"@) == Version::V1_1,
        version_of("HTTP/2"@) == Version::V2_0,
        version_of("HTTP/3"@) == Version::V3_0,
        forall|token: Seq<char>|
            token != "HTTP/1.1"@ && token != "HTTP/2"@ && token != "HTTP/3"@
                ==> #[trigger] version_of(token) == Version::Uninitialized,
{
    reveal_strlit("HTTP/1.1");
    reveal_strlit("HTTP/2");
    reveal_strlit("HTTP/3");
    assert("HTTP/2"@.len() != "HTTP/1.1"@.len());
    assert("HTTP/3"@.len() != "HTTP/1.1"@.len());
    assert("HTTP/3"@[5] != "HTTP/2"@[5]);
}

/// A request as mathematics.
pub struct RequestView {
    pub method: Method,
    pub path: Seq<char>,
    pub version: Version,
    pub headers: Entries,
    pub body: Seq<char>,
}

/// What is known of a request before any line was read.
pub open spec fn blank_request() -> RequestView {
    RequestView {
        method: Method::Uninitialized,
        path: Seq::empty(),
        version: Version::Uninitialized,
        headers: Seq::empty(),
        body: Seq::empty(),
    }
}

/// The method, path and version that a request line states: its first
/// three tokens. A token that is missing leaves its field blank.
pub open spec fn request_line(line: Seq<char>) -> (Method, Seq<char>, Version) {
    let t = tokens(line);
    (
        if t.len() > 0 {
            method_of(t[0])
        } else {
            Method::Uninitialized
        },
        if t.len() > 1 {
            t[1]
        } else {
            Seq::empty()
        },
        if t.len() > 2 {
            version_of(t[2])
        } else {
            Version::Uninitialized
        },
    )
}

/// The name and the value of a header line: what stands before its first
/// colon, and all that follows it. A line without a colon is all name.
pub open spec fn header_field(line: Seq<char>) -> (Seq<char>, Seq<char>) {
    let at = first_index(line, ':');
    if at < line.len() {
        (line.take(at), line.skip(at + 1))
    } else {
        (line, Seq::empty())
    }
}

/// What is known of a request after one more line was read. A line that
/// holds `HTTP` is a request line and gives method, path and version anew.
/// Any other line that holds a colon is a header line and writes one header
/// field. An empty line changes nothing. Every other line becomes the body,
/// in place of the one before.
pub open spec fn apply_line(state: RequestView, line: Seq<char>) -> RequestView {
    if contains_seq(line, "HTTP"@) {
        let (method, path, version) = request_line(line);
        RequestView { method, path, version, ..state }
    } else if line.contains(':') {
        let (name, value) = header_field(line);
        RequestView { headers: with_entry(state.headers, name, value), ..state }
    } else if line.len() == 0 {
        state
    } else {
        RequestView { body: line, ..state }
    }
}

/// What is known of a request after `ls` were read, in order.
pub open spec fn fold_lines(ls: Seq<Seq<char>>) -> RequestView
    decreases ls.len(),
{
    if ls.len() == 0 {
        blank_request()
    } else {
        apply_line(fold_lines(ls.drop_last()), ls.last())
    }
}

/// The request that a text states.
pub open spec fn parse_request(text: Seq<char>) -> RequestView {
    fold_lines(lines(text))
}

/// A request.
#[derive(Debug)]
pub struct HttpRequest {
    pub method: Method,
    pub resource: Resource,
    pub version: Version,
    pub headers: Headers,
    pub body: String,
}

impl View for HttpRequest {
    type V = RequestView;

    open spec fn view(&self) -> RequestView {
        RequestView {
            method: self.method,
            path: self.resource@,
            version: self.version,
            headers: self.headers.entries(),
            body: self.body@,
        }
    }
}

/// Reads the method, path and version off a request line.
pub fn parse_request_line(line: &[char]) -> (fields: (Method, String, Version))
    ensures
        (fields.0, fields.1@, fields.2) == request_line(line@),
{
    let parts = split_whitespace(line);
    assert(forall|i: int| 0 <= i < parts@.len() ==> slice_views(parts@)[i] == parts@[i]@);
    let method = if parts.len() > 0 {
        Method::from(from_chars(parts[0]).as_str())
    } else {
        Method::Uninitialized
    };
    let path = if parts.len() > 1 {
        from_chars(parts[1])
    } else {
        String::new()
    };
    let version = if parts.len() > 2 {
        Version::from(from_chars(parts[2]).as_str())
    } else {
        Version::Uninitialized
    };
    (method, path, version)
}

/// Reads the name and the value off a header line.
pub fn parse_header_field(line: &[char]) -> (field: (String, String))
    ensures
        (field.0@, field.1@) == header_field(line@),
{
    let n: usize = line.len();
    let at = find_char(line, ':');
    proof {
        lemma_first_index(line@, ':');
    }
    if at < n {
        let name = from_chars(slice_subrange(line, 0, at));
        let value = from_chars(slice_subrange(line, at + 1, n));
        (name, value)
    } else {
        (from_chars(line), String::new())
    }
}

impl HttpRequest {
    /// Reads a request off its text. Every text gives a request: what the
    /// text does not state stays blank.
    pub fn parse(text: &str) -> (request: HttpRequest)
        ensures
            request@ == parse_request(text@),
    {
        let chars = to_chars(text);
        let marker = to_chars("HTTP");
        let all = split_lines(chars.as_slice());
        let mut method = Method::Uninitialized;
        let mut path = String::new();
        let mut version = Version::Uninitialized;
        let mut headers = Headers::new();
        let mut body: &[char] = slice_subrange(chars.as_slice(), 0, 0);
        let mut i: usize = 0;
        assert(lines(text@).take(0) == Seq::<Seq<char>>::empty());
        assert(body@ == Seq::<char>::empty());
        while i < all.len()
            invariant
                i <= all@.len(),
                marker@ == "HTTP"@,
                slice_views(all@) == lines(text@),
                (RequestView {
                    method,
                    path: path@,
                    version,
                    headers: headers.entries(),
                    body: body@,
                }) == fold_lines(lines(text@).take(i as int)),
            decreases all@.len() - i,
        {
            let line = all[i];
            proof {
                let done = lines(text@).take(i + 1);
                assert(done.drop_last() == lines(text@).take(i as int));
                assert(done.last() == line@);
                lemma_first_index(line@, ':');
            }
            if contains(line, marker.as_slice()) {
                let fields = parse_request_line(line);
                method = fields.0;
                path = fields.1;
                version = fields.2;
            } else if find_char(line, ':') < line.len() {
                let field = parse_header_field(line);
                headers.insert_owned(field.0, field.1);
            } else if line.len() == 0 {
            } else {
                body = line;
            }
            i = i + 1;
        }
        assert(lines(text@).take(i as int) == lines(text@));
        HttpRequest { method, resource: Resource::Path(path), version, headers, body: from_chars(body) }
    }
}

impl From<String> for HttpRequest {
    /// Reads a request off its text, as `parse` does.
    fn from(req: String) -> (request: HttpRequest)
        ensures
            request@ == parse_request(req@),
    {
        HttpRequest::parse(req.as_str())
    }
}

impl FromSpecImpl<String> for HttpRequest {
    /// Two requests with the same fields need not be one value, so the
    /// conversion is stated over views, on `from` itself.
    open spec fn obeys_from_spec() -> bool {
        false
    }

    open spec fn from_spec(req: String) -> HttpRequest {
        arbitrary()
    }
}

impl PartialEq for HttpRequest {
    /// Whether both state the same request, whatever the order of their
    /// header fields.
    fn eq(&self, other: &HttpRequest) -> (same: bool) {
        self.method == other.method && self.resource == other.resource && self.version
            == other.version && self.headers == other.headers && str_eq(
            self.body.as_str(),
            other.body.as_str(),
        )
    }
}

impl PartialEqSpecImpl for HttpRequest {
    open spec fn obeys_eq_spec() -> bool {
        true
    }

    open spec fn eq_spec(&self, other: &HttpRequest) -> bool {
        &&& self.method == other.method
        &&& self.resource@ == other.resource@
        &&& self.version == other.version
        &&& self.headers@ == other.headers@
        &&& self.body@ == other.body@
    }
}

/// A header line is split at its first colon only: the name is what stands
/// before it, and the value is all that follows, a blank after the colon
/// and later colons included.
pub proof fn lemma_header_field(name: Seq<char>, value: Seq<char>)
    requires
        !name.contains(':'),
    ensures
        (name + seq![':'] + value).contains(':'),
        header_field(name + seq![':'] + value) == (name, value),
{
    let line = name + seq![':'] + value;
    let at = name.len() as int;
    assert(line[at] == ':');
    assert forall|j: int| 0 <= j < at implies line[j] != ':' by {
        assert(line[j] == name[j]);
        assert(name.contains(name[j]));
    }
    lemma_first_index_is(line, ':', at);
    assert(line.take(at) == name);
    assert(line.skip(at + 1) == value);
}

/// A request line of three words with a blank between them states the
/// method that the first names, the second as the path, and the version
/// that the third names.
pub proof fn lemma_request_line(method: Seq<char>, path: Seq<char>, version: Seq<char>)
    requires
        is_word(method),
        is_word(path),
        is_word(version),
    ensures
        request_line(method + seq![' '] + path + seq![' '] + version) == (
            method_of(method),
            path,
            version_of(version),
        ),
{
    let line = method + seq![' '] + path + seq![' '] + version;
    lemma_tokens_of_word(version);
    lemma_tokens_after_word(path, ' ', version);
    lemma_tokens_after_word(method, ' ', path + seq![' '] + version);
    assert(line == method + seq![' '] + (path + seq![' '] + version));
    assert(tokens(line) == seq![method, path, version]);
}

/// The header fields that header lines state, read in order.
pub open spec fn fields_of(header_lines: Seq<Seq<char>>) -> Entries
    decreases header_lines.len(),
{
    if header_lines.len() == 0 {
        Seq::empty()
    } else {
        let (name, value) = header_field(header_lines.last());
        with_entry(fields_of(header_lines.drop_last()), name, value)
    }
}

/// Header lines are read so that no name stands twice and the last line
/// of a name gives its value.
pub proof fn lemma_fields_of(header_lines: Seq<Seq<char>>)
    ensures
        keys_unique(fields_of(header_lines)),
        header_lines.len() > 0 ==> as_map(fields_of(header_lines)) == as_map(
            fields_of(header_lines.drop_last()),
        ).insert(header_field(header_lines.last()).0, header_field(header_lines.last()).1),
    decreases header_lines.len(),
{
    if header_lines.len() > 0 {
        let front = header_lines.drop_last();
        let (name, value) = header_field(header_lines.last());
        lemma_fields_of(front);
        lemma_with_entry_unique(fields_of(front), name, value);
        lemma_with_entry_map(fields_of(front), name, value);
    }
}

/// Whatever lines were read, no header name stands twice.
pub proof fn lemma_fold_lines_unique(ls: Seq<Seq<char>>)
    ensures
        keys_unique(fold_lines(ls).headers),
    decreases ls.len(),
{
    if ls.len() > 0 {
        lemma_fold_lines_unique(ls.drop_last());
        let state = fold_lines(ls.drop_last());
        let (name, value) = header_field(ls.last());
        lemma_with_entry_unique(state.headers, name, value);
    }
}

/// The text of a message: a request line, header lines and an empty line,
/// each ended by a carriage return and a line feed, and then the body.
pub open spec fn message_text(start: Seq<char>, header_lines: Seq<Seq<char>>, body: Seq<char>) -> Seq<
    char,
> {
    joined(seq![start] + header_lines + seq![Seq::<char>::empty()]) + body
}

/// Whether `line` is read as a header line.
pub open spec fn is_header_line(line: Seq<char>) -> bool {
    line.contains(':') && !contains_seq(line, "HTTP"@) && !line.contains('\n')
}

/// Whether `line` is read as a body line, or is empty.
pub open spec fn is_body_line(line: Seq<char>) -> bool {
    !line.contains(':') && !contains_seq(line, "HTTP"@) && !line.contains('\n')
}

/// Reading the lines `[start] + header_lines` gives what the request line
/// states and the header fields of the header lines.
proof fn lemma_fold_head(start: Seq<char>, header_lines: Seq<Seq<char>>)
    requires
        contains_seq(start, "HTTP"@),
        forall|i: int| 0 <= i < header_lines.len() ==> is_header_line(#[trigger] header_lines[i]),
    ensures
        fold_lines(seq![start] + header_lines) == (RequestView {
            method: request_line(start).0,
            path: request_line(start).1,
            version: request_line(start).2,
            headers: fields_of(header_lines),
            body: Seq::empty(),
        }),
    decreases header_lines.len(),
{
    let all = seq![start] + header_lines;
    if header_lines.len() == 0 {
        assert(all.drop_last() == Seq::<Seq<char>>::empty());
        assert(all.last() == start);
        assert(fold_lines(all.drop_last()) == blank_request());
        assert(fold_lines(all) == apply_line(blank_request(), start));
    } else {
        let front = header_lines.drop_last();
        assert forall|i: int| 0 <= i < front.len() implies is_header_line(#[trigger] front[i]) by {
            assert(front[i] == header_lines[i]);
        }
        lemma_fold_head(start, front);
        assert(all.drop_last() == seq![start] + front);
        assert(all.last() == header_lines.last());
        assert(is_header_line(header_lines[header_lines.len() - 1]));
        assert(fold_lines(all) == apply_line(fold_lines(seq![start] + front), header_lines.last()));
    }
}

/// A message is read back as it was written: the request is what the
/// request line states, the header fields of the header lines in order, and
/// the body line.
pub proof fn lemma_parse_message(start: Seq<char>, header_lines: Seq<Seq<char>>, body: Seq<char>)
    requires
        contains_seq(start, "HTTP"@),
        !start.contains('\n'),
        forall|i: int| 0 <= i < header_lines.len() ==> is_header_line(#[trigger] header_lines[i]),
        is_body_line(body),
    ensures
        parse_request(message_text(start, header_lines, body)) == (RequestView {
            method: request_line(start).0,
            path: request_line(start).1,
            version: request_line(start).2,
            headers: fields_of(header_lines),
            body,
        }),
{
    let blank = Seq::<char>::empty();
    let head = seq![start] + header_lines;
    let ls = head + seq![blank];
    reveal_strlit("HTTP");
    assert(!blank.contains(':') && !blank.contains('\n'));
    assert(!contains_seq(blank, "HTTP"@));
    assert forall|i: int| 0 <= i < ls.len() implies !(#[trigger] ls[i]).contains('\n') by {
        if 0 < i < ls.len() - 1 {
            assert(ls[i] == header_lines[i - 1]);
        }
    }
    lemma_lines_of_joined(ls, body);
    lemma_fold_head(start, header_lines);
    assert(ls.drop_last() == head);
    assert(ls.last() == blank);
    assert(fold_lines(ls) == apply_line(fold_lines(head), blank));
    assert(apply_line(fold_lines(head), blank) == fold_lines(head));
    if body.len() == 0 {
        assert(body == blank);
        assert(ls + lines(body) == ls);
    } else {
        lemma_lines_of_line(body);
        let all = ls + seq![body];
        assert(all.drop_last() == ls);
        assert(all.last() == body);
        assert(fold_lines(all) == apply_line(fold_lines(ls), body));
        assert(lines(message_text(start, header_lines, body)) == all);
    }
}

} // verus!
