//! What the search server answers: which handler a request goes to, the
//! parameters it carries, and the status, headers and body of each reply.
//! Reading requests and sending replies is left to the caller.
use vstd::prelude::*;
use crate::strs::{push_all, starts_with, str_equal};

verus! {

#[verifier::external_type_specification]
#[verifier::external_body]
pub struct ExJsonError(serde_json::Error);

/// What can go wrong while answering a request.
#[derive(Debug)]
pub enum ServerError {
    JsonSerialization(serde_json::Error),
    HeaderCreate,
    Io(std::io::Error),
}

/// Calls `serde_json::Error`'s `to_string`: the error as its `Display` writes it.
#[verifier::external_body]
fn json_error_text(e: &serde_json::Error) -> (s: String) {
    e.to_string()
}

impl ServerError {
    /// The message that reports the error; an outside error's own text
    /// follows its prefix.
    pub fn message(&self) -> (m: String)
        ensures
            match self {
                ServerError::JsonSerialization(_) => is_prefix("Failed to serialize some json: "@, m@),
                ServerError::HeaderCreate => m@ == "Failed to create a http header"@,
                ServerError::Io(_) => is_prefix("An IO error occured: "@, m@),
            },
    {
        let mut m = String::new();
        match self {
            ServerError::JsonSerialization(err) => {
                push_all(&mut m, "Failed to serialize some json: ");
                let ghost p = m@;
                let t = json_error_text(err);
                push_all(&mut m, t.as_str());
                proof {
                    assert(m@.take(p.len() as int) =~= p);
                }
            },
            ServerError::HeaderCreate => {
                push_all(&mut m, "Failed to create a http header");
                proof {
                    assert(m@ =~= "Failed to create a http header"@);
                }
            },
            ServerError::Io(err) => {
                push_all(&mut m, "An IO error occured: ");
                let ghost p = m@;
                let t = crate::formats::io_error_text(err);
                push_all(&mut m, t.as_str());
                proof {
                    assert(m@.take(p.len() as int) =~= p);
                }
            },
        }
        m
    }
}

/// The handlers of the server.
#[derive(PartialEq, Eq, Structural, Clone, Copy, Debug)]
pub enum Route {
    Query,
    File,
    Root,
    Css,
    Js,
    NotFound,
}

/// `p` is a prefix of `s`.
pub open spec fn is_prefix(p: Seq<char>, s: Seq<char>) -> bool {
    p.len() <= s.len() && s.take(p.len() as int) == p
}

/// The handler of a request URL: the first that applies, in this order.
pub open spec fn route_of(url: Seq<char>) -> Route {
    if is_prefix("/query"@, url) {
        Route::Query
    } else if is_prefix("/file"@, url) {
        Route::File
    } else if url == "/"@ {
        Route::Root
    } else if url == "/index.css"@ {
        Route::Css
    } else if url == "/index.js"@ {
        Route::Js
    } else {
        Route::NotFound
    }
}

/// The handler of the search server for a request URL.
pub fn route(url: &str) -> (r: Route)
    ensures
        r == route_of(url@),
{
    if starts_with(url, "/query") {
        Route::Query
    } else if starts_with(url, "/file") {
        Route::File
    } else if str_equal(url, "/") {
        Route::Root
    } else if str_equal(url, "/index.css") {
        Route::Css
    } else if str_equal(url, "/index.js") {
        Route::Js
    } else {
        Route::NotFound
    }
}

/// The handler of the static front-end server: the page, its style sheet and
/// its script by exact URL, the not-found page for anything else.
pub open spec fn frontend_route_of(url: Seq<char>) -> Route {
    if url == "/"@ {
        Route::Root
    } else if url == "/index.css"@ {
        Route::Css
    } else if url == "/index.js"@ {
        Route::Js
    } else {
        Route::NotFound
    }
}

/// The handler of the static front-end server for a request URL.
pub fn frontend_route(url: &str) -> (r: Route)
    ensures
        r == frontend_route_of(url@),
{
    if str_equal(url, "/") {
        Route::Root
    } else if str_equal(url, "/index.css") {
        Route::Css
    } else if str_equal(url, "/index.js") {
        Route::Js
    } else {
        Route::NotFound
    }
}

/// The file served for a static route, and its content type.
pub fn static_asset(route: Route) -> (r: Option<(&'static str, &'static str)>)
    ensures
        match route {
            Route::Root => r matches Some(a) && a.0@ == "res/index.html"@ && a.1@ == "text/html; charset=UTF-8"@,
            Route::Css => r matches Some(a) && a.0@ == "res/index.css"@ && a.1@ == "text/css; charset=UTF-8"@,
            Route::Js => r matches Some(a) && a.0@ == "res/index.js"@ && a.1@ == "text/js; charset=UTF-8"@,
            Route::NotFound => r matches Some(a) && a.0@ == "res/404.html"@ && a.1@ == "text/html; charset=UTF-8"@,
            _ => r is None,
        },
{
    match route {
        Route::Root => Some(("res/index.html", "text/html; charset=UTF-8")),
        Route::Css => Some(("res/index.css", "text/css; charset=UTF-8")),
        Route::Js => Some(("res/index.js", "text/js; charset=UTF-8")),
        Route::NotFound => Some(("res/404.html", "text/html; charset=UTF-8")),
        _ => None,
    }
}

/// The pieces of `s` between the separators `sep`, empty pieces included.
pub open spec fn pieces(s: Seq<char>, sep: char) -> Seq<Seq<char>>
    decreases s.len(),
{
    if s.len() == 0 {
        seq![Seq::empty()]
    } else {
        let before = pieces(s.drop_last(), sep);
        if s.last() == sep {
            before.push(Seq::empty())
        } else {
            before.update(before.len() - 1, before.last().push(s.last()))
        }
    }
}

pub proof fn lemma_pieces_nonempty(s: Seq<char>, sep: char)
    ensures
        pieces(s, sep).len() >= 1,
    decreases s.len(),
{
    if s.len() > 0 {
        lemma_pieces_nonempty(s.drop_last(), sep);
    }
}

/// A string without the separator is a single piece.
pub proof fn lemma_pieces_single(s: Seq<char>, sep: char)
    requires
        !s.contains(sep),
    ensures
        pieces(s, sep).len() == 1,
    decreases s.len(),
{
    if s.len() > 0 {
        assert(!s.drop_last().contains(sep)) by {
            if s.drop_last().contains(sep) {
                let j = choose|j: int| 0 <= j < s.drop_last().len() && s.drop_last()[j] == sep;
                assert(s[j] == sep);
            }
        }
        lemma_pieces_single(s.drop_last(), sep);
        assert(s[s.len() - 1] == s.last());
    }
}

/// The query string of a URL: the piece after the first `?`, up to the next
/// `?`; empty when there is no `?`.
pub open spec fn query_part(url: Seq<char>) -> Seq<char> {
    if pieces(url, '?').len() > 1 {
        pieces(url, '?')[1]
    } else {
        Seq::empty()
    }
}

/// The query string of a URL.
pub fn query_string(url: &str) -> (q: String)
    ensures
        q@ == query_part(url@),
{
    broadcast use vstd::string::group_string_axioms;

    let mut q = String::new();
    let mut seen: usize = 0;
    proof {
        assert(url@.take(0) =~= Seq::<char>::empty());
    }
    for c in it: url.chars()
        invariant
            it.seq() == url@,
            seen <= 2,
            seen == (if pieces(url@.take(it.index()), '?').len() > 2 { 2 } else { pieces(url@.take(it.index()), '?').len() - 1 }),
            seen >= 1 ==> q@ == pieces(url@.take(it.index()), '?')[1],
            seen == 0 ==> q@ == Seq::<char>::empty(),
    {
        let ghost k = it.index();
        let ghost pre = url@.take(k);
        proof {
            assert(url@.take(k + 1) =~= pre.push(c));
            assert(url@.take(k + 1).drop_last() =~= pre);
            lemma_pieces_nonempty(pre, '?');
        }
        if c == '?' {
            if seen < 2 {
                seen = seen + 1;
            }
        } else if seen == 1 {
            q.push(c);
        }
    }
    proof {
        assert(url@.take(url@.len() as int) =~= url@);
    }
    q
}

/// The name and value of each pair of `application/x-www-form-urlencoded`
/// data, decoded, as `form_urlencoded::parse` gives them.
pub uninterp spec fn form_pairs(input: Seq<u8>) -> Seq<(Seq<char>, Seq<char>)>;

/// Calls `form_urlencoded::parse` and hands out its pairs as owned strings;
/// empty input gives no pair.
#[verifier::external_body]
pub(crate) fn parse_form(input: &[u8]) -> (pairs: Vec<(String, String)>)
    ensures
        pairs@.map_values(|p: (String, String)| (p.0@, p.1@)) == form_pairs(input@),
        input@.len() == 0 ==> pairs@.len() == 0,
{
    url::form_urlencoded::parse(input).into_owned().collect()
}

/// The value of the last pair named `name`: gathering the pairs in a map
/// keeps the last value given for each name.
pub open spec fn last_value(pairs: Seq<(Seq<char>, Seq<char>)>, name: Seq<char>) -> Option<Seq<char>>
    decreases pairs.len(),
{
    if pairs.len() == 0 {
        None
    } else if pairs.last().0 == name {
        Some(pairs.last().1)
    } else {
        last_value(pairs.drop_last(), name)
    }
}

/// The value of the parameter `name` of a request URL.
pub open spec fn request_param(url: Seq<char>, name: Seq<char>) -> Option<Seq<char>> {
    last_value(form_pairs(vstd::utf8::encode_utf8(query_part(url))), name)
}

/// The value of the parameter `name` of a request URL, if it has one. A URL
/// without `?` has no parameter.
pub fn param(url: &str, name: &str) -> (v: Option<String>)
    ensures
        match v {
            Some(s) => request_param(url@, name@) == Some(s@),
            None => request_param(url@, name@) is None,
        },
        !url@.contains('?') ==> v is None,
{
    let q = query_string(url);
    proof {
        if !url@.contains('?') {
            lemma_pieces_single(url@, '?');
            assert(q@ =~= Seq::<char>::empty());
            assert(vstd::utf8::encode_utf8(q@) =~= Seq::<u8>::empty());
        }
    }
    let pairs = parse_form(q.as_str().as_bytes());
    let ghost view = pairs@.map_values(|p: (String, String)| (p.0@, p.1@));
    let mut i: usize = pairs.len();
    proof {
        assert(view.take(i as int) =~= view);
        assert(view == form_pairs(vstd::utf8::encode_utf8(query_part(url@))));
    }
    while i > 0
        invariant
            i <= pairs.len(),
            view == pairs@.map_values(|p: (String, String)| (p.0@, p.1@)),
            view == form_pairs(vstd::utf8::encode_utf8(query_part(url@))),
            last_value(view, name@) == last_value(view.take(i as int), name@),
            !url@.contains('?') ==> pairs@.len() == 0,
        decreases i,
    {
        proof {
            assert(view.take(i as int).drop_last() =~= view.take(i - 1));
        }
        if str_equal(pairs[i - 1].0.as_str(), name) {
            proof {
                assert(view.take(i as int).last() == view[i - 1]);
            }
            return Some(pairs[i - 1].1.clone());
        }
        i = i - 1;
    }
    proof {
        assert(view.take(0) =~= Seq::<(Seq<char>, Seq<char>)>::empty());
    }
    None
}

/// Whether `c` has the Unicode White_Space property, which is what
/// `char::is_whitespace` decides.
pub open spec fn whitespace(c: char) -> bool {
    let n = c as u32;
    ||| 0x09 <= n <= 0x0D
    ||| n == 0x20
    ||| n == 0x85
    ||| n == 0xA0
    ||| n == 0x1680
    ||| 0x2000 <= n <= 0x200A
    ||| n == 0x2028
    ||| n == 0x2029
    ||| n == 0x202F
    ||| n == 0x205F
    ||| n == 0x3000
}

/// Whether `c` is white space.
pub fn is_whitespace(c: char) -> (r: bool)
    ensures
        r == whitespace(c),
{
    let n = c as u32;
    (0x09 <= n && n <= 0x0D) || n == 0x20 || n == 0x85 || n == 0xA0 || n == 0x1680 || (0x2000 <= n
        && n <= 0x200A) || n == 0x2028 || n == 0x2029 || n == 0x202F || n == 0x205F || n == 0x3000
}

/// Reading `s` from the left: the words ended so far, and the word being read.
pub open spec fn ws_scan(s: Seq<char>) -> (Seq<Seq<char>>, Seq<char>)
    decreases s.len(),
{
    if s.len() == 0 {
        (Seq::empty(), Seq::empty())
    } else {
        let prev = ws_scan(s.drop_last());
        if whitespace(s.last()) {
            if prev.1.len() > 0 {
                (prev.0.push(prev.1), Seq::empty())
            } else {
                prev
            }
        } else {
            (prev.0, prev.1.push(s.last()))
        }
    }
}

/// The words of `s`: its maximal runs of characters other than white space.
pub open spec fn ws_words(s: Seq<char>) -> Seq<Seq<char>> {
    if ws_scan(s).1.len() > 0 {
        ws_scan(s).0.push(ws_scan(s).1)
    } else {
        ws_scan(s).0
    }
}

/// The words of `s`, as `str::split_whitespace` gives them.
pub fn split_words(s: &str) -> (words: Vec<String>)
    ensures
        words@.map_values(|w: String| w@) == ws_words(s@),
{
    broadcast use vstd::string::group_string_axioms;

    let mut words: Vec<String> = Vec::new();
    let mut current = String::new();
    proof {
        assert(s@.take(0) =~= Seq::<char>::empty());
        assert(words@.map_values(|w: String| w@) =~= Seq::<Seq<char>>::empty());
    }
    for c in it: s.chars()
        invariant
            it.seq() == s@,
            words@.map_values(|w: String| w@) == ws_scan(s@.take(it.index())).0,
            current@ == ws_scan(s@.take(it.index())).1,
    {
        let ghost k = it.index();
        let ghost w0 = words@;
        proof {
            assert(s@.take(k + 1).drop_last() =~= s@.take(k));
            assert(s@.take(k + 1).last() == c);
        }
        if is_whitespace(c) {
            if !current.as_str().is_empty() {
                let done = current;
                current = String::new();
                words.push(done);
                proof {
                    assert(words@.map_values(|w: String| w@) =~= w0.map_values(|w: String| w@).push(done@));
                }
            }
        } else {
            current.push(c);
        }
    }
    proof {
        assert(s@.take(s@.len() as int) =~= s@);
    }
    if !current.as_str().is_empty() {
        let ghost w0 = words@;
        words.push(current);
        proof {
            assert(words@.map_values(|w: String| w@) =~= w0.map_values(|w: String| w@).push(ws_scan(s@).1));
        }
    }
    words
}

/// A decimal digit.
pub open spec fn is_digit(c: char) -> bool {
    '0' <= c && c <= '9'
}

/// The value of a string of decimal digits.
pub open spec fn digits_value(ds: Seq<char>) -> nat
    decreases ds.len(),
{
    if ds.len() == 0 {
        0
    } else {
        digits_value(ds.drop_last()) * 10 + (ds.last() as nat - '0' as nat) as nat
    }
}

/// The digits of a number, after an optional leading `+`.
pub open spec fn unsigned_digits(s: Seq<char>) -> Seq<char> {
    if s.len() > 0 && s[0] == '+' {
        s.skip(1)
    } else {
        s
    }
}

/// Every character is a decimal digit.
pub open spec fn all_digits(ds: Seq<char>) -> bool {
    forall|i: int| 0 <= i < ds.len() ==> is_digit(#[trigger] ds[i])
}

/// What `str::parse::<usize>` accepts: an optional `+`, then one or more
/// decimal digits whose value fits in `usize`.
pub open spec fn parsed_usize(s: Seq<char>) -> Option<nat> {
    let ds = unsigned_digits(s);
    if ds.len() > 0 && all_digits(ds) && digits_value(ds) <= usize::MAX {
        Some(digits_value(ds))
    } else {
        None
    }
}

pub proof fn lemma_digits_prefix(ds: Seq<char>, m: int)
    requires
        0 <= m <= ds.len(),
    ensures
        digits_value(ds.take(m)) <= digits_value(ds),
    decreases ds.len(),
{
    if m == ds.len() {
        assert(ds.take(m) =~= ds);
    } else {
        lemma_digits_prefix(ds.drop_last(), m);
        assert(ds.drop_last().take(m) =~= ds.take(m));
    }
}

/// Reads a decimal number as `str::parse::<usize>` does; `None` where it fails.
pub fn parse_usize(s: &str) -> (r: Option<usize>)
    ensures
        match parsed_usize(s@) {
            Some(v) => r == Some(v as usize),
            None => r is None,
        },
{
    let cs = crate::strs::chars_of(s);
    let start: usize = if cs.len() > 0 && cs[0] == '+' {
        1
    } else {
        0
    };
    let ghost ds = unsigned_digits(s@);
    proof {
        assert(ds =~= cs@.skip(start as int));
    }
    if start == cs.len() {
        return None;
    }
    let mut v: usize = 0;
    let mut i: usize = start;
    proof {
        assert(ds.take(0) =~= Seq::<char>::empty());
    }
    while i < cs.len()
        invariant
            start <= i <= cs.len(),
            start < cs.len(),
            cs@ == s@,
            ds == cs@.skip(start as int),
            ds == unsigned_digits(s@),
            forall|j: int| 0 <= j < i - start ==> is_digit(#[trigger] ds[j]),
            v == digits_value(ds.take(i - start)),
        decreases cs.len() - i,
    {
        let c = cs[i];
        if !('0' <= c && c <= '9') {
            proof {
                assert(ds[i - start] == c);
                assert(!is_digit(ds[i - start]));
                assert(0 <= i - start < ds.len());
                assert(!all_digits(ds));
            }
            return None;
        }
        let d: usize = (c as u32 - '0' as u32) as usize;
        proof {
            assert(ds.take(i - start + 1).drop_last() =~= ds.take(i - start));
            assert(ds.take(i - start + 1).last() == c);
            assert(d == (c as nat - '0' as nat));
            assert(digits_value(ds.take(i - start + 1)) == v * 10 + d);
        }
        if v > (usize::MAX - d) / 10 {
            proof {
                assert(v * 10 + d > usize::MAX) by (nonlinear_arith)
                    requires
                        v > (usize::MAX - d) / 10,
                        d <= 9,
                ;
                if all_digits(ds) {
                    lemma_digits_prefix(ds, i - start + 1);
                }
            }
            return None;
        }
        proof {
            assert(v * 10 + d <= usize::MAX) by (nonlinear_arith)
                requires
                    v <= (usize::MAX - d) / 10,
                    d <= 9,
            ;
        }
        v = v * 10 + d;
        i = i + 1;
    }
    proof {
        assert(ds.take(i - start) =~= ds);
    }
    Some(v)
}

/// The body of a reply.
pub enum Body {
    Text(String),
    Data(Vec<u8>),
}

/// A reply: its status code, its headers in order, and its body.
pub struct HttpReply {
    pub status: u16,
    pub headers: Vec<(String, String)>,
    pub body: Body,
}

/// The headers of a reply, as sequences of characters.
pub open spec fn headers_view(h: Seq<(String, String)>) -> Seq<(Seq<char>, Seq<char>)> {
    h.map_values(|p: (String, String)| (p.0@, p.1@))
}

/// The text of a reply body, if it is text.
pub open spec fn body_text(b: Body) -> Option<Seq<char>> {
    match b {
        Body::Text(t) => Some(t@),
        Body::Data(_) => None,
    }
}

pub open spec fn json_type() -> (Seq<char>, Seq<char>) {
    ("Content-Type"@, "application/json; charset=UTF-8"@)
}

pub open spec fn any_origin() -> (Seq<char>, Seq<char>) {
    ("Access-Control-Allow-Origin"@, "*"@)
}

fn header(name: &str, value: &str) -> (h: (String, String))
    ensures
        h.0@ == name@,
        h.1@ == value@,
{
    broadcast use vstd::string::group_string_axioms;

    (name.to_string(), value.to_string())
}

/// The body of a JSON error reply: `{"error": "<msg>"}`, the message as it is.
pub open spec fn json_error_body(msg: Seq<char>) -> Seq<char> {
    "{\"error\": \""@ + msg + "\"}"@
}

/// A JSON error reply with the given status.
pub fn json_error(status: u16, msg: &str) -> (r: HttpReply)
    ensures
        r.status == status,
        body_text(r.body) == Some(json_error_body(msg@)),
        headers_view(r.headers@) == seq![json_type(), any_origin()],
{
    let mut body = String::new();
    push_all(&mut body, "{\"error\": \"");
    push_all(&mut body, msg);
    push_all(&mut body, "\"}");
    let mut headers: Vec<(String, String)> = Vec::new();
    headers.push(header("Content-Type", "application/json; charset=UTF-8"));
    headers.push(header("Access-Control-Allow-Origin", "*"));
    proof {
        assert(headers_view(headers@) =~= seq![json_type(), any_origin()]);
        assert(body@ =~= json_error_body(msg@));
    }
    HttpReply { status, headers, body: Body::Text(body) }
}

/// The reply to a query without the `query` parameter.
pub fn missing_query_reply() -> (r: HttpReply)
    ensures
        r.status == 400,
        body_text(r.body) == Some("{\"error\": \"missing `query` parameter\"}"@),
        headers_view(r.headers@) == seq![json_type(), any_origin()],
{
    let mut body = String::new();
    push_all(&mut body, "{\"error\": \"missing `query` parameter\"}");
    let mut headers: Vec<(String, String)> = Vec::new();
    headers.push(header("Content-Type", "application/json; charset=UTF-8"));
    headers.push(header("Access-Control-Allow-Origin", "*"));
    proof {
        assert(headers_view(headers@) =~= seq![json_type(), any_origin()]);
        assert(body@ =~= "{\"error\": \"missing `query` parameter\"}"@);
    }
    HttpReply { status: 400, headers, body: Body::Text(body) }
}

/// The JSON text that `serde_json::to_string` makes of a list of strings.
pub uninterp spec fn json_of_strings(items: Seq<Seq<char>>) -> Seq<char>;

/// Calls `serde_json::to_string` on a slice of strings. It serializes into a
/// byte vector, whose writes do not fail, and the serialization of a string
/// reports no error, so the call always succeeds. An empty list is `[]`.
#[verifier::external_body]
pub(crate) fn strings_to_json(items: &[&str]) -> (r: Result<String, serde_json::Error>)
    ensures
        r is Ok,
        r matches Ok(s) ==> s@ == json_of_strings(items@.map_values(|t: &str| t@)),
        r matches Ok(s) ==> (items@.len() == 0 ==> s@ == "[]"@),
{
    serde_json::to_string(items)
}

/// How many results a query reply holds when none is asked for.
pub const DEFAULT_RESULTS: usize = 255;

/// How many results a query reply holds: the `n_result` parameter read as a
/// number (255 when it is missing, 0 when it is not a number), at most all
/// of them.
pub open spec fn results_shown(n_result: Option<Seq<char>>, available: nat) -> nat {
    let n = match n_result {
        Some(p) => match parsed_usize(p) {
            Some(v) => v,
            None => 0,
        },
        None => DEFAULT_RESULTS as nat,
    };
    if n < available {
        n
    } else {
        available
    }
}

/// The body of a query reply: `{"results": <JSON list>}`.
pub open spec fn results_body(json: Seq<char>) -> Seq<char> {
    "{\"results\": "@ + json + "}"@
}

/// The reply to a query with these results, best first.
pub fn query_reply(results: &[&str], n_result: Option<&str>) -> (r: Result<HttpReply, ServerError>)
    ensures
        r is Ok,
        match r {
            Ok(reply) => {
                let n = results_shown(
                    match n_result {
                        Some(p) => Some(p@),
                        None => None,
                    },
                    results@.len(),
                );
                &&& reply.status == 200
                &&& headers_view(reply.headers@) == seq![any_origin(), json_type()]
                &&& body_text(reply.body) == Some(
                    results_body(json_of_strings(results@.take(n as int).map_values(|t: &str| t@))),
                )
            },
            Err(e) => e is JsonSerialization,
        },
{
    let n = match n_result {
        Some(p) => match parse_usize(p) {
            Some(v) => v,
            None => 0,
        },
        None => DEFAULT_RESULTS,
    };
    let n = if n < results.len() {
        n
    } else {
        results.len()
    };
    let mut shown: Vec<&str> = Vec::new();
    let mut i: usize = 0;
    while i < n
        invariant
            i <= n <= results@.len(),
            shown@ == results@.take(i as int),
        decreases n - i,
    {
        proof {
            assert(results@.take(i + 1) =~= results@.take(i as int).push(results@[i as int]));
        }
        shown.push(results[i]);
        i = i + 1;
    }
    let json = match strings_to_json(shown.as_slice()) {
        Ok(j) => j,
        Err(e) => return Err(ServerError::JsonSerialization(e)),
    };
    let mut body = String::new();
    push_all(&mut body, "{\"results\": ");
    push_all(&mut body, json.as_str());
    push_all(&mut body, "}");
    let mut headers: Vec<(String, String)> = Vec::new();
    headers.push(header("Access-Control-Allow-Origin", "*"));
    headers.push(header("Content-Type", "application/json; charset=UTF-8"));
    proof {
        assert(headers_view(headers@) =~= seq![any_origin(), json_type()]);
        assert(body@ =~= results_body(json@));
    }
    Ok(HttpReply { status: 200, headers, body: Body::Text(body) })
}

/// The extension of a path, as `Path::extension` gives it.
pub uninterp spec fn path_extension(path: Seq<char>) -> Option<Seq<char>>;

/// Calls `std::path::Path::extension` on a path given as a string.
#[verifier::external_body]
pub(crate) fn extension_of(path: &str) -> (r: Option<String>)
    ensures
        match r {
            Some(e) => path_extension(path@) == Some(e@),
            None => path_extension(path@) is None,
        },
{
    std::path::Path::new(path).extension().and_then(|e| e.to_str()).map(|e| e.to_string())
}

/// The content type of a file, by its extension.
pub open spec fn mime_of(ext: Option<Seq<char>>) -> Seq<char> {
    match ext {
        Some(e) => if e == "pdf"@ {
            "application/pdf"@
        } else if e == "html"@ {
            "text/html; charset=UTF-8"@
        } else if e == "xhtml"@ {
            "application/xhtml+xml; charset=UTF-8"@
        } else if e == "xml"@ {
            "application/xml; charset=UTF-8"@
        } else {
            "application/octet-stream"@
        },
        None => "application/octet-stream"@,
    }
}

/// The content type of a file with extension `ext`.
pub fn mime_for_extension(ext: Option<&str>) -> (m: String)
    ensures
        m@ == mime_of(
            match ext {
                Some(e) => Some(e@),
                None => None,
            },
        ),
{
    broadcast use vstd::string::group_string_axioms;

    match ext {
        Some(e) => if str_equal(e, "pdf") {
            "application/pdf".to_string()
        } else if str_equal(e, "html") {
            "text/html; charset=UTF-8".to_string()
        } else if str_equal(e, "xhtml") {
            "application/xhtml+xml; charset=UTF-8".to_string()
        } else if str_equal(e, "xml") {
            "application/xml; charset=UTF-8".to_string()
        } else {
            "application/octet-stream".to_string()
        },
        None => "application/octet-stream".to_string(),
    }
}

/// The content type of the file at `path`, by its extension.
pub fn mime_for_path(path: &str) -> (m: String)
    ensures
        m@ == mime_of(path_extension(path@)),
{
    let ext = extension_of(path);
    match ext {
        Some(e) => mime_for_extension(Some(e.as_str())),
        None => mime_for_extension(None),
    }
}

/// Whether `path` begins with the components of `base`, as `Path::starts_with`
/// decides.
pub uninterp spec fn path_starts_with(path: Seq<char>, base: Seq<char>) -> bool;

/// Calls `std::path::Path::starts_with` on paths given as strings.
#[verifier::external_body]
pub(crate) fn starts_with_path(path: &str, base: &str) -> (r: bool)
    ensures
        r == path_starts_with(path@, base@),
{
    std::path::Path::new(path).starts_with(base)
}

/// Whether a requested file may be served: its canonical path is known and
/// lies under the canonical path of the served folder. When the folder's own
/// path cannot be resolved, the empty path stands for it.
pub open spec fn may_serve(canonical: Option<Seq<char>>, root: Option<Seq<char>>) -> bool {
    match canonical {
        Some(c) => path_starts_with(
            c,
            match root {
                Some(r) => r,
                None => Seq::empty(),
            },
        ),
        None => false,
    }
}

/// Decides whether a requested file may be served, from the canonical path of
/// the file and that of the served folder (`None` where it could not be had).
pub fn file_allowed(canonical: Option<&str>, root: Option<&str>) -> (r: bool)
    ensures
        r == may_serve(
            match canonical {
                Some(c) => Some(c@),
                None => None,
            },
            match root {
                Some(d) => Some(d@),
                None => None,
            },
        ),
{
    match canonical {
        Some(c) => match root {
            Some(d) => starts_with_path(c, d),
            None => {
                proof {
                    reveal_strlit("");
                    assert(""@ =~= Seq::<char>::empty());
                }
                starts_with_path(c, "")
            },
        },
        None => false,
    }
}

/// What looking up a requested file found.
pub enum FileLookup {
    /// The request has no `path` parameter.
    NoPath,
    /// The file lies outside the served folder, or does not exist.
    Denied,
    /// The file could not be read.
    Unreadable,
    /// The file's canonical path, its name, and its contents.
    Found { path: String, file_name: String, data: Vec<u8> },
}

/// The `Content-Disposition` value that offers a file for download.
pub open spec fn attachment(file_name: Seq<char>) -> Seq<char> {
    "attachment; filename=\""@ + file_name + "\""@
}

/// The reply to a file request.
pub fn file_reply(lookup: FileLookup) -> (r: HttpReply)
    ensures
        match lookup {
            FileLookup::NoPath => r.status == 400 && body_text(r.body) == Some(json_error_body("missing `path` parameter"@))
                && headers_view(r.headers@) == seq![json_type(), any_origin()],
            FileLookup::Denied => r.status == 403 && body_text(r.body) == Some(json_error_body("access denied"@))
                && headers_view(r.headers@) == seq![json_type(), any_origin()],
            FileLookup::Unreadable => r.status == 404 && body_text(r.body) == Some(json_error_body("file not found"@))
                && headers_view(r.headers@) == seq![json_type(), any_origin()],
            FileLookup::Found { path, file_name, data } => {
                &&& r.status == 200
                &&& r.body == Body::Data(data)
                &&& headers_view(r.headers@) == seq![
                    ("Content-Type"@, mime_of(path_extension(path@))),
                    ("Content-Disposition"@, attachment(file_name@)),
                    any_origin(),
                ]
            },
        },
{
    match lookup {
        FileLookup::NoPath => json_error(400, "missing `path` parameter"),
        FileLookup::Denied => json_error(403, "access denied"),
        FileLookup::Unreadable => json_error(404, "file not found"),
        FileLookup::Found { path, file_name, data } => {
            let mime = mime_for_path(path.as_str());
            let mut disposition = String::new();
            push_all(&mut disposition, "attachment; filename=\"");
            push_all(&mut disposition, file_name.as_str());
            push_all(&mut disposition, "\"");
            let mut headers: Vec<(String, String)> = Vec::new();
            headers.push(header("Content-Type", mime.as_str()));
            headers.push(header("Content-Disposition", disposition.as_str()));
            headers.push(header("Access-Control-Allow-Origin", "*"));
            proof {
                assert(disposition@ =~= attachment(file_name@));
                assert(headers_view(headers@) =~= seq![
                    ("Content-Type"@, mime_of(path_extension(path@))),
                    ("Content-Disposition"@, attachment(file_name@)),
                    any_origin(),
                ]);
            }
            HttpReply { status: 200, headers, body: Body::Data(data) }
        },
    }
}

} // verus!
