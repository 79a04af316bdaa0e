//! The request model and the parser that builds it from raw request text.
use vstd::prelude::*;
use vstd::slice::slice_subrange;
use vstd::string::*;
use crate::text::{
    chars_of, find, find_from, find_token_end, first_at, lemma_first_occurrence, lower_of, lowercase,
    occurs_at, skip_ascii_space, skip_ascii_spaces, token_end, trim, trim_bounds,
};
use crate::text_map::TextMap;

verus! {

/// The request methods this parser accepts.
#[derive(Debug, PartialEq, Eq, Structural, Clone, Copy)]
pub enum Method {
    GET,
    POST,
    OPTIONS,
}

/// Why a request could not be parsed.
#[derive(Debug, PartialEq, Eq, Structural, Clone, Copy)]
pub enum ParseError {
    /// The head of the request holds no line.
    EmptyRequest,
    /// The request line has no first token, or (`unsupported`) its first
    /// token names no supported method.
    MissingMethod { unsupported: bool },
    /// A token names no supported method.
    UnsupportedMethod,
    /// The request line has no second token.
    MissingPath,
}

/// The token that names `m`.
pub open spec fn method_name(m: Method) -> Seq<char> {
    match m {
        Method::GET => "GET"@,
        Method::POST => "POST"@,
        Method::OPTIONS => "OPTIONS"@,
    }
}

/// The method that `token` names, matched exactly and case-sensitively.
pub open spec fn method_of(token: Seq<char>) -> Option<Method> {
    if token == "GET"@ {
        Some(Method::GET)
    } else if token == "POST"@ {
        Some(Method::POST)
    } else if token == "OPTIONS"@ {
        Some(Method::OPTIONS)
    } else {
        None
    }
}

/// Whether `a` and `b` hold the same characters.
fn same_text(a: &str, b: &str) -> (r: bool)
    ensures
        r == (a@ == b@),
{
    let x = a.to_owned();
    let y = b.to_owned();
    x == y
}

impl<'a> TryFrom<&'a str> for Method {
    type Error = ParseError;

    /// Recognises `GET`, `POST` and `OPTIONS`; any other token is an
    /// `UnsupportedMethod` error.
    fn try_from(value: &'a str) -> (r: Result<Method, ParseError>)
        ensures
            r == (match method_of(value@) {
                Some(m) => Ok(m),
                None => Err(ParseError::UnsupportedMethod),
            }),
    {
        if same_text(value, "GET") {
            Ok(Method::GET)
        } else if same_text(value, "POST") {
            Ok(Method::POST)
        } else if same_text(value, "OPTIONS") {
            Ok(Method::OPTIONS)
        } else {
            Err(ParseError::UnsupportedMethod)
        }
    }
}

impl<'a> vstd::std_specs::convert::TryFromSpecImpl<&'a str> for Method {
    open spec fn obeys_try_from_spec() -> bool {
        true
    }

    open spec fn try_from_spec(value: &'a str) -> Result<Method, ParseError> {
        match method_of(value@) {
            Some(m) => Ok(m),
            None => Err(ParseError::UnsupportedMethod),
        }
    }
}

/// The path of `url`: all of it before its first `?`.
pub open spec fn url_path(url: Seq<char>) -> Seq<char> {
    match find_from(url, seq!['?'], 0) {
        Some(p) => url.take(p),
        None => url,
    }
}

/// A path holds no `?`.
pub proof fn lemma_path_has_no_question_mark(url: Seq<char>)
    ensures
        !url_path(url).contains('?'),
{
    assert forall|k: int| 0 <= k < url_path(url).len() implies url_path(url)[k] != '?' by {
        if url_path(url)[k] == '?' {
            assert(url.subrange(k, k + 1) =~= seq!['?']);
            assert(occurs_at(url, seq!['?'], k));
            if find_from(url, seq!['?'], 0) is None {
                assert(exists|j: int| first_at(url, seq!['?'], 0, j)) by {
                    lemma_first_occurrence(url, seq!['?'], k);
                }
            }
        }
    }
}

/// The query parameters of `url`: none where it has no `?`, else the pairs of
/// the query text after the first `?`.
pub open spec fn url_params(url: Seq<char>) -> Option<Map<Seq<char>, Seq<char>>> {
    match find_from(url, seq!['?'], 0) {
        Some(p) => Some(pairs_from(url, p + 1, Map::empty())),
        None => None,
    }
}

/// `m` with the query pair `piece` added: `piece` is split at its first `=`,
/// and kept only where it has one and the key before it is not empty.
pub open spec fn add_pair(m: Map<Seq<char>, Seq<char>>, piece: Seq<char>) -> Map<
    Seq<char>,
    Seq<char>,
> {
    match find_from(piece, seq!['='], 0) {
        Some(k) => if k > 0 {
            m.insert(piece.take(k), piece.skip(k + 1))
        } else {
            m
        },
        None => m,
    }
}

/// `m` with the `&`-separated pairs of `url` from index `i` on added in
/// order, so that a later pair with a key overrides an earlier one.
pub open spec fn pairs_from(url: Seq<char>, i: int, m: Map<Seq<char>, Seq<char>>) -> Map<
    Seq<char>,
    Seq<char>,
>
    decreases url.len() - i,
{
    match find_from(url, seq!['&'], i) {
        Some(e) => pairs_from(url, e + 1, add_pair(m, url.subrange(i, e))),
        None => add_pair(m, url.subrange(i, url.len() as int)),
    }
}

/// Splits `url` into its path and its query parameters.
pub fn extract_query_param(url: &str) -> (r: (String, Option<TextMap>))
    ensures
        r.0@ == url_path(url@),
        match r.1 {
            Some(m) => m.wf() && url_params(url@) == Some(m@),
            None => url_params(url@) is None,
        },
{
    let cs = chars_of(url);
    let n = cs.len();
    let question: [char; 1] = ['?'];
    assert(question@ =~= seq!['?']);
    match find(cs.as_slice(), question.as_slice(), 0) {
        None => (url.to_owned(), None),
        Some(p) => {
            let path = url.substring_char(0, p).to_owned();
            let amp: [char; 1] = ['&'];
            let equals: [char; 1] = ['='];
            assert(amp@ =~= seq!['&']);
            assert(equals@ =~= seq!['=']);
            let mut params = TextMap::new();
            let mut i: usize = p + 1;
            let mut done = false;
            while !done
                invariant
                    cs@ == url@,
                    n == cs@.len(),
                    p < i <= n,
                    params.wf(),
                    amp@ == seq!['&'],
                    equals@ == seq!['='],
                    !done ==> pairs_from(url@, i as int, params@) == pairs_from(
                        url@,
                        p + 1,
                        Map::empty(),
                    ),
                    done ==> params@ == pairs_from(url@, p + 1, Map::empty()),
                decreases n - i + (if done {
                    0int
                } else {
                    1int
                }),
            {
                let f = find(cs.as_slice(), amp.as_slice(), i);
                let e = match f {
                    Some(e) => e,
                    None => n,
                };
                let piece = slice_subrange(cs.as_slice(), i, e);
                let ghost before = params@;
                match find(piece, equals.as_slice(), 0) {
                    Some(k) => {
                        if k > 0 {
                            let key = url.substring_char(i, i + k).to_owned();
                            let value = url.substring_char(i + k + 1, e).to_owned();
                            assert(key@ =~= piece@.take(k as int));
                            assert(value@ =~= piece@.skip(k + 1));
                            params.insert(key, value);
                        }
                    },
                    None => {},
                }
                assert(params@ == add_pair(before, url@.subrange(i as int, e as int)));
                match f {
                    Some(e) => {
                        i = e + 1;
                    },
                    None => {
                        done = true;
                    },
                }
            }
            (path, Some(params))
        },
    }
}

/// The pair of characters that ends a line.
pub open spec fn crlf() -> Seq<char> {
    seq!['\r', '\n']
}

/// The empty line that parts the head of a request from its body.
pub open spec fn blank_line() -> Seq<char> {
    seq!['\r', '\n', '\r', '\n']
}

/// The end of the line of `s` that starts at `i`: the next CRLF, or the end
/// of `s`.
pub open spec fn line_end(s: Seq<char>, i: int) -> int {
    match find_from(s, crlf(), i) {
        Some(p) => p,
        None => s.len() as int,
    }
}

/// The CRLF-separated lines of `s` from index `i` on. A CRLF at the very end
/// starts no further line.
pub open spec fn lines_from(s: Seq<char>, i: int) -> Seq<Seq<char>>
    decreases s.len() + 2 - i,
{
    if 0 <= i < s.len() {
        let e = line_end(s, i);
        seq![s.subrange(i, e)] + lines_from(s, e + 2)
    } else {
        seq![]
    }
}

/// The key and value of a header line: the text before its first `:`,
/// trimmed and lower-cased, and the text after it, trimmed. A line without
/// `:` has none.
pub open spec fn header_of(line: Seq<char>) -> Option<(Seq<char>, Seq<char>)> {
    match find_from(line, seq![':'], 0) {
        Some(c) => Some((lower_of(trim(line.take(c))), trim(line.skip(c + 1)))),
        None => None,
    }
}

/// The header map of `lines`, read in order: a later line with a key
/// replaces the value of an earlier one.
pub open spec fn header_map(lines: Seq<Seq<char>>) -> Map<Seq<char>, Seq<char>>
    decreases lines.len(),
{
    if lines.len() == 0 {
        Map::empty()
    } else {
        let m = header_map(lines.drop_last());
        match header_of(lines.last()) {
            Some((k, v)) => m.insert(k, v),
            None => m,
        }
    }
}

/// A request as values: what `Request` holds.
pub struct RequestView {
    pub method: Method,
    pub path: Seq<char>,
    pub params: Option<Map<Seq<char>, Seq<char>>>,
    pub headers: Map<Seq<char>, Seq<char>>,
    pub body: Option<Seq<char>>,
}

/// What parsing the request text `s` gives.
pub open spec fn parse_request(s: Seq<char>) -> Result<RequestView, ParseError> {
    let sep = find_from(s, blank_line(), 0);
    let head = match sep {
        Some(p) => s.take(p),
        None => s,
    };
    let body = match sep {
        Some(p) => Some(s.skip(p + 4)),
        None => None,
    };
    let e = line_end(head, 0);
    let line = head.take(e);
    let a = skip_ascii_space(line, 0);
    let b = token_end(line, a);
    let c = skip_ascii_space(line, b);
    let url = line.subrange(c, token_end(line, c));
    if head.len() == 0 {
        Err(ParseError::EmptyRequest)
    } else if a >= line.len() {
        Err(ParseError::MissingMethod { unsupported: false })
    } else if method_of(line.subrange(a, b)) is None {
        Err(ParseError::MissingMethod { unsupported: true })
    } else if c >= line.len() {
        Err(ParseError::MissingPath)
    } else {
        Ok(
            RequestView {
                method: method_of(line.subrange(a, b))->Some_0,
                path: url_path(url),
                params: url_params(url),
                headers: header_map(lines_from(head, e + 2)),
                body,
            },
        )
    }
}

/// A parsed HTTP request.
pub struct Request {
    pub method: Method,
    /// The URL up to its first `?`.
    pub path: String,
    /// The query parameters; `None` where the URL has no `?`.
    pub params: Option<TextMap>,
    /// The headers, keyed by lower-cased name.
    pub headers: TextMap,
    /// The text after the first empty line; `None` where there is none.
    pub body: Option<String>,
}

impl View for Request {
    type V = RequestView;

    open spec fn view(&self) -> RequestView {
        RequestView {
            method: self.method,
            path: self.path@,
            params: match self.params {
                Some(m) => Some(m@),
                None => None,
            },
            headers: self.headers@,
            body: match self.body {
                Some(b) => Some(b@),
                None => None,
            },
        }
    }
}

impl Request {
    /// Both maps are well formed.
    pub open spec fn wf(&self) -> bool {
        &&& self.headers.wf()
        &&& self.params matches Some(m) ==> m.wf()
    }

    /// Parses the raw text of a request.
    pub fn new(request: &str) -> (r: Result<Request, ParseError>)
        ensures
            match r {
                Ok(req) => req.wf() && parse_request(request@) == Ok::<
                    RequestView,
                    ParseError,
                >(req@),
                Err(e) => parse_request(request@) == Err::<RequestView, ParseError>(e),
            },
    {
        let cs = chars_of(request);
        let n = cs.len();
        let sep: [char; 4] = ['\r', '\n', '\r', '\n'];
        let newline: [char; 2] = ['\r', '\n'];
        let colon: [char; 1] = [':'];
        assert(sep@ =~= blank_line());
        assert(newline@ =~= crlf());
        assert(colon@ =~= seq![':']);
        let found = find(cs.as_slice(), sep.as_slice(), 0);
        let (hend, body) = match found {
            Some(p) => (p, Some(request.substring_char(p + 4, n).to_owned())),
            None => (n, None),
        };
        let head = slice_subrange(cs.as_slice(), 0, hend);
        let ghost sh = match find_from(request@, blank_line(), 0) {
            Some(p) => request@.take(p),
            None => request@,
        };
        assert(head@ =~= sh);
        if hend == 0 {
            return Err(ParseError::EmptyRequest);
        }
        let first_end = match find(head, newline.as_slice(), 0) {
            Some(e) => e,
            None => hend,
        };
        let line = slice_subrange(head, 0, first_end);
        let a = skip_ascii_spaces(line, 0);
        if a == first_end {
            return Err(ParseError::MissingMethod { unsupported: false });
        }
        let b = find_token_end(line, a);
        let token = request.substring_char(a, b);
        assert(token@ =~= line@.subrange(a as int, b as int));
        let method = match Method::try_from(token) {
            Ok(m) => m,
            Err(_) => {
                return Err(ParseError::MissingMethod { unsupported: true });
            },
        };
        let c = skip_ascii_spaces(line, b);
        if c == first_end {
            return Err(ParseError::MissingPath);
        }
        let d = find_token_end(line, c);
        let url = request.substring_char(c, d);
        assert(url@ =~= line@.subrange(c as int, d as int));
        let (path, params) = extract_query_param(url);

        let mut headers = TextMap::new();
        let ghost start = first_end + 2;
        let mut pos: usize = if first_end < hend {
            first_end + 2
        } else {
            hend
        };
        let ghost mut done: Seq<Seq<char>> = seq![];
        assert(done + lines_from(head@, pos as int) =~= lines_from(head@, start));
        while pos < hend
            invariant
                pos <= hend <= n,
                n == cs@.len(),
                cs@ == request@,
                head@ == request@.take(hend as int),
                newline@ == crlf(),
                colon@ == seq![':'],
                headers.wf(),
                headers@ == header_map(done),
                done + lines_from(head@, pos as int) == lines_from(head@, start),
            decreases hend - pos,
        {
            let f = find(head, newline.as_slice(), pos);
            let e = match f {
                Some(e) => e,
                None => hend,
            };
            let line = slice_subrange(head, pos, e);
            match find(line, colon.as_slice(), 0) {
                Some(k) => {
                    let (ka, kb) = trim_bounds(slice_subrange(line, 0, k));
                    let (va, vb) = trim_bounds(slice_subrange(line, k + 1, line.len()));
                    let name = lowercase(request.substring_char(pos + ka, pos + kb));
                    let value = request.substring_char(pos + k + 1 + va, pos + k + 1 + vb)
                        .to_owned();
                    assert(request@.subrange(pos + ka, pos + kb) =~= line@.take(k as int).subrange(
                        ka as int,
                        kb as int,
                    ));
                    assert(value@ =~= line@.skip(k + 1).subrange(va as int, vb as int));
                    headers.insert(name, value);
                },
                None => {},
            }
            proof {
                let rest = lines_from(head@, e + 2);
                assert(lines_from(head@, pos as int) == seq![line@] + rest);
                assert(done.push(line@) + rest =~= done + (seq![line@] + rest));
                assert(done.push(line@).drop_last() =~= done);
                done = done.push(line@);
            }
            pos = if e < hend {
                e + 2
            } else {
                hend
            };
        }
        assert(done =~= lines_from(head@, start));
        Ok(Request { method, path, params, headers, body })
    }
}

/// Each method's own token constructs that method, and a token constructs a
/// method only if it is that method's token: any other token is refused.
pub proof fn lemma_method_tokens(m: Method, token: Seq<char>)
    ensures
        method_of(method_name(m)) == Some(m),
        method_of(token) == Some(m) <==> token == method_name(m),
        method_of(token) is None <==> (forall|n: Method| token != method_name(n)),
{
    reveal_strlit("GET");
    reveal_strlit("POST");
    reveal_strlit("OPTIONS");
    assert("GET"@.len() == 3);
    assert("POST"@.len() == 4);
    assert("OPTIONS"@.len() == 7);
    if method_of(token) is None {
        assert forall|n: Method| token != method_name(n) by {
            match n {
                Method::GET => {},
                Method::POST => {},
                Method::OPTIONS => {},
            }
        }
    } else {
        assert(token == method_name(method_of(token)->Some_0));
    }
}

/// A later header line overrides an earlier one with the same key: the value
/// of key `k` is that of the last line with key `k`.
pub proof fn lemma_last_header_wins(lines: Seq<Seq<char>>, j: int, k: Seq<char>, v: Seq<char>)
    requires
        0 <= j < lines.len(),
        header_of(lines[j]) == Some((k, v)),
        forall|i: int|
            j < i < lines.len() ==> #[trigger] header_of(lines[i]) is None || header_of(
                lines[i],
            )->Some_0.0 != k,
    ensures
        header_map(lines).contains_key(k),
        header_map(lines)[k] == v,
    decreases lines.len(),
{
    if j < lines.len() - 1 {
        let shorter = lines.drop_last();
        assert forall|i: int| j < i < shorter.len() implies #[trigger] header_of(shorter[i]) is None
            || header_of(shorter[i])->Some_0.0 != k by {
            assert(shorter[i] == lines[i]);
        }
        assert(shorter[j] == lines[j]);
        lemma_last_header_wins(shorter, j, k, v);
        assert(header_of(lines[lines.len() - 1]) == header_of(lines.last()));
    }
}

/// Parsing depends on the request text alone: equal texts parse to equal
/// requests, however often they are parsed.
pub proof fn lemma_parse_repeatable(a: Seq<char>, b: Seq<char>)
    requires
        a == b,
    ensures
        parse_request(a) == parse_request(b),
{
}

/// A request whose head is the line `POST /login HTTP/1.1`, alone or followed
/// by CRLF and header lines, and which has an empty line, parses to a `POST`
/// for `/login` without query parameters, whose body is all the text after
/// the empty line.
pub proof fn lemma_post_login(s: Seq<char>, p: int)
    requires
        find_from(s, blank_line(), 0) == Some(p),
        s.take(p) == "POST /login HTTP/1.1"@ || (p >= 22 && s.take(p).take(22)
            == "POST /login HTTP/1.1"@ + crlf()),
    ensures
        parse_request(s) is Ok,
        parse_request(s)->Ok_0.method == Method::POST,
        parse_request(s)->Ok_0.path == "/login"@,
        parse_request(s)->Ok_0.params is None,
        parse_request(s)->Ok_0.body == Some(s.skip(p + 4)),
{
    let line = "POST /login HTTP/1.1"@;
    reveal_strlit("POST /login HTTP/1.1");
    reveal_strlit("POST");
    reveal_strlit("GET");
    reveal_strlit("/login");
    assert(line.len() == 20);
    let head = s.take(p);
    assert(p >= 0);
    assert(p <= s.len());
    assert(head.len() >= 20);
    assert forall|k: int| 0 <= k < 20 implies head[k] == line[k] by {
        if head != line {
            assert(head[k] == head.take(22)[k]);
            assert((line + crlf())[k] == line[k]);
        }
    }
    assert forall|k: int| 0 <= k < 20 implies line[k] != '\r' by {
        assert(k == 0 || k == 1 || k == 2 || k == 3 || k == 4 || k == 5 || k == 6 || k == 7 || k
            == 8 || k == 9 || k == 10 || k == 11 || k == 12 || k == 13 || k == 14 || k == 15 || k
            == 16 || k == 17 || k == 18 || k == 19);
    }
    assert forall|k: int| 0 <= k < 20 implies !occurs_at(head, crlf(), k) by {
        if occurs_at(head, crlf(), k) {
            assert(head.subrange(k, k + 2)[0] == head[k]);
        }
    }
    if head == line {
        assert forall|j: int| !first_at(head, crlf(), 0, j) by {
            if first_at(head, crlf(), 0, j) {
                assert(!occurs_at(head, crlf(), j));
            }
        }
    } else {
        assert(head.subrange(20, 22) =~= head.take(22).subrange(20, 22));
        assert((line + crlf()).subrange(20, 22) =~= crlf());
        assert(first_at(head, crlf(), 0, 20));
        let j = choose|j: int| first_at(head, crlf(), 0, j);
        assert(j == 20) by {
            if j < 20 {
                assert(!occurs_at(head, crlf(), j));
            }
        }
    }
    assert(line_end(head, 0) == 20);
    assert(head.take(20) =~= line);
    reveal_with_fuel(token_end, 8);
    reveal_with_fuel(skip_ascii_space, 3);
    assert(skip_ascii_space(line, 0) == 0);
    assert(token_end(line, 0) == 4);
    assert(line.subrange(0, 4) =~= "POST"@);
    assert(method_of(line.subrange(0, 4)) == Some(Method::POST)) by {
        assert("GET"@.len() == 3);
    }
    assert(skip_ascii_space(line, 4) == 5);
    assert(token_end(line, 5) == 11);
    let url = line.subrange(5, 11);
    assert(url =~= "/login"@);
    assert forall|j: int| !first_at(url, seq!['?'], 0, j) by {
        if first_at(url, seq!['?'], 0, j) {
            assert(url.subrange(j, j + 1)[0] == url[j]);
            assert(j == 0 || j == 1 || j == 2 || j == 3 || j == 4 || j == 5);
        }
    }
}

} // verus!
