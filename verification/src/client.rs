//! What the desktop client sends and shows: the URLs of its requests, and the
//! status line and result rows made of an answer. Drawing them is left to the
//! caller.
use vstd::prelude::*;
use crate::server::{whitespace, is_whitespace};
use crate::strs::{chars_of, push_all, string_of};

verus! {

/// The address of the search server.
pub const BACKEND: &'static str = "http://127.0.0.1:6969";

/// A byte that stands for itself in a URL.
pub open spec fn unreserved(b: u8) -> bool {
    (65 <= b <= 90) || (97 <= b <= 122) || (48 <= b <= 57) || b == 45 || b == 95 || b == 46 || b == 126
}

/// The upper-case hexadecimal digit of `n`, for `n < 16`.
pub open spec fn hex_digit(n: u8) -> char {
    if n < 10 {
        (48 + n) as char
    } else {
        (55 + n) as char
    }
}

/// How one byte is written: as itself, a space as `+`, any other as `%XX`.
pub open spec fn encode_byte(b: u8) -> Seq<char> {
    if unreserved(b) {
        seq![b as char]
    } else if b == 32 {
        seq!['+']
    } else {
        seq!['%', hex_digit(b / 16), hex_digit(b % 16)]
    }
}

/// The URL encoding of some bytes.
pub open spec fn url_encoded(bytes: Seq<u8>) -> Seq<char>
    decreases bytes.len(),
{
    if bytes.len() == 0 {
        Seq::empty()
    } else {
        url_encoded(bytes.drop_last()) + encode_byte(bytes.last())
    }
}

fn hex_char(n: u8) -> (c: char)
    requires
        n < 16,
    ensures
        c == hex_digit(n),
{
    if n < 10 {
        (48 + n) as char
    } else {
        (55 + n) as char
    }
}

/// Encodes the UTF-8 bytes of `s` for a URL query.
pub fn url_encode(s: &str) -> (out: String)
    ensures
        out@ == url_encoded(vstd::utf8::encode_utf8(s@)),
{
    let bytes = s.as_bytes();
    let mut out: Vec<char> = Vec::new();
    let mut i: usize = 0;
    while i < bytes.len()
        invariant
            i <= bytes@.len(),
            bytes@ == vstd::utf8::encode_utf8(s@),
            out@ == url_encoded(bytes@.take(i as int)),
        decreases bytes.len() - i,
    {
        let b = bytes[i];
        proof {
            assert(bytes@.take(i + 1).drop_last() =~= bytes@.take(i as int));
            assert(bytes@.take(i + 1).last() == b);
        }
        let ghost o0 = out@;
        if (65 <= b && b <= 90) || (97 <= b && b <= 122) || (48 <= b && b <= 57) || b == 45 || b == 95
            || b == 46 || b == 126 {
            out.push(b as char);
            proof {
                assert(out@ =~= o0 + encode_byte(b));
            }
        } else if b == 32 {
            out.push('+');
            proof {
                assert(out@ =~= o0 + encode_byte(b));
            }
        } else {
            out.push('%');
            out.push(hex_char(b / 16));
            out.push(hex_char(b % 16));
            proof {
                assert(out@ =~= o0 + encode_byte(b));
            }
        }
        i = i + 1;
    }
    proof {
        assert(bytes@.take(i as int) =~= bytes@);
    }
    string_of(&out)
}

/// `s` without leading white space.
pub open spec fn trim_start(s: Seq<char>) -> Seq<char>
    decreases s.len(),
{
    if s.len() > 0 && whitespace(s[0]) {
        trim_start(s.drop_first())
    } else {
        s
    }
}

/// `s` without trailing white space.
pub open spec fn trim_end(s: Seq<char>) -> Seq<char>
    decreases s.len(),
{
    if s.len() > 0 && whitespace(s.last()) {
        trim_end(s.drop_last())
    } else {
        s
    }
}

/// `s` without leading or trailing white space, as `str::trim` gives it.
pub open spec fn trimmed(s: Seq<char>) -> Seq<char> {
    trim_end(trim_start(s))
}

pub proof fn lemma_trim_start_skip(s: Seq<char>, i: int)
    requires
        0 <= i <= s.len(),
        forall|j: int| 0 <= j < i ==> whitespace(#[trigger] s[j]),
    ensures
        trim_start(s) == trim_start(s.skip(i)),
    decreases i,
{
    if i > 0 {
        assert(s.drop_first().skip(i - 1) =~= s.skip(i));
        lemma_trim_start_skip(s.drop_first(), i - 1);
    } else {
        assert(s.skip(0) =~= s);
    }
}

pub proof fn lemma_trim_end_take(s: Seq<char>, i: int)
    requires
        0 <= i <= s.len(),
        forall|j: int| i <= j < s.len() ==> whitespace(#[trigger] s[j]),
    ensures
        trim_end(s) == trim_end(s.take(i)),
    decreases s.len() - i,
{
    if i < s.len() {
        assert(s.drop_last().take(i) =~= s.take(i));
        lemma_trim_end_take(s.drop_last(), i);
    } else {
        assert(s.take(i) =~= s);
    }
}

/// `s` without leading or trailing white space.
pub fn trim(s: &str) -> (t: String)
    ensures
        t@ == trimmed(s@),
{
    let cs = chars_of(s);
    let mut a: usize = 0;
    while a < cs.len() && is_whitespace(cs[a])
        invariant
            a <= cs.len(),
            cs@ == s@,
            forall|j: int| 0 <= j < a ==> whitespace(#[trigger] cs@[j]),
        decreases cs.len() - a,
    {
        a = a + 1;
    }
    proof {
        lemma_trim_start_skip(s@, a as int);
    }
    let ghost rest = s@.skip(a as int);
    let mut b: usize = cs.len();
    while b > a && is_whitespace(cs[b - 1])
        invariant
            a <= b <= cs.len(),
            cs@ == s@,
            rest == s@.skip(a as int),
            forall|j: int| b <= j < cs.len() ==> whitespace(#[trigger] cs@[j]),
        decreases b - a,
    {
        b = b - 1;
    }
    let mut out: Vec<char> = Vec::new();
    let mut i: usize = a;
    while i < b
        invariant
            a <= i <= b <= cs.len(),
            cs@ == s@,
            out@ == cs@.subrange(a as int, i as int),
        decreases b - i,
    {
        out.push(cs[i]);
        proof {
            assert(cs@.subrange(a as int, i + 1) =~= cs@.subrange(a as int, i as int).push(cs@[i as int]));
        }
        i = i + 1;
    }
    proof {
        assert(out@ =~= rest.take(b - a));
        if a < cs.len() {
            assert(!whitespace(rest[0]));
            assert(trim_start(rest) == rest);
        } else {
            assert(rest.len() == 0);
        }
        assert forall|j: int| b - a <= j < rest.len() implies whitespace(#[trigger] rest[j]) by {
            assert(rest[j] == cs@[j + a]);
        }
        lemma_trim_end_take(rest, b - a);
        if b > a {
            assert(rest.take(b - a).last() == cs@[b - 1]);
        }
    }
    string_of(&out)
}

/// Joins three strings.
fn join3(a: &str, b: &str, c: &str) -> (s: String)
    ensures
        s@ == a@ + b@ + c@,
{
    let mut s = String::new();
    push_all(&mut s, a);
    push_all(&mut s, b);
    push_all(&mut s, c);
    proof {
        assert(s@ =~= a@ + b@ + c@);
    }
    s
}

/// The URL that asks the server for a query, or `None` when the query is
/// only white space.
pub fn search_url(query: &str) -> (url: Option<String>)
    ensures
        trimmed(query@).len() == 0 ==> url is None,
        trimmed(query@).len() > 0 ==> (url matches Some(u) && u@ == BACKEND@ + "/query?query="@
            + url_encoded(vstd::utf8::encode_utf8(trimmed(query@))) + "&n_result=255"@),
{
    let q = trim(query);
    if q.as_str().is_empty() {
        return None;
    }
    let enc = url_encode(q.as_str());
    let head = join3(BACKEND, "/query?query=", enc.as_str());
    let mut u = String::new();
    push_all(&mut u, head.as_str());
    push_all(&mut u, "&n_result=255");
    Some(u)
}

/// The URL that asks the server for a result file, or `None` for an empty path.
pub fn file_url(path: &str) -> (url: Option<String>)
    ensures
        path@.len() == 0 ==> url is None,
        path@.len() > 0 ==> (url matches Some(u) && u@ == BACKEND@ + "/file?path="@ + url_encoded(
            vstd::utf8::encode_utf8(path@),
        )),
{
    if path.is_empty() {
        return None;
    }
    let enc = url_encode(path);
    Some(join3(BACKEND, "/file?path=", enc.as_str()))
}

/// The decimal digits of `n`.
pub open spec fn decimal(n: nat) -> Seq<char>
    decreases n,
{
    if n < 10 {
        seq![(48 + n) as char]
    } else {
        decimal(n / 10).push((48 + n % 10) as char)
    }
}

/// The decimal digits of `n`.
pub fn decimal_string(n: u128) -> (s: Vec<char>)
    ensures
        s@ == decimal(n as nat),
        s@.len() >= 1,
    decreases n,
{
    if n < 10 {
        let mut v: Vec<char> = Vec::new();
        v.push(((48 + n) as u8) as char);
        proof {
            assert(v@ =~= decimal(n as nat));
        }
        v
    } else {
        let mut v = decimal_string(n / 10);
        v.push(((48 + n % 10) as u8) as char);
        v
    }
}

/// `n` spaces.
pub open spec fn spaces(n: nat) -> Seq<char> {
    Seq::new(n, |i: int| ' ')
}

/// The label of a result row: the rank right-aligned in three columns, a
/// dot, two spaces and the text; the text alone for a row without a rank.
pub open spec fn row_text(text: Seq<char>, rank: Option<nat>) -> Seq<char> {
    match rank {
        Some(n) => {
            let d = decimal(n);
            let pad = if d.len() < 3 {
                spaces((3 - d.len()) as nat)
            } else {
                Seq::empty()
            };
            pad + d + ".  "@ + text
        },
        None => text,
    }
}

/// The label of a result row.
pub fn row_label(text: &str, rank: Option<usize>) -> (s: String)
    ensures
        s@ == row_text(
            text@,
            match rank {
                Some(n) => Some(n as nat),
                None => None,
            },
        ),
{
    match rank {
        Some(n) => {
            let d = decimal_string(n as u128);
            let mut v: Vec<char> = Vec::new();
            let mut k: usize = d.len();
            while k < 3
                invariant
                    d.len() <= k <= 3 || (k == d.len() && k >= 3),
                    v@ == spaces((k - d.len()) as nat),
                decreases 3 - k,
            {
                v.push(' ');
                proof {
                    assert(v@ =~= spaces((k + 1 - d.len()) as nat));
                }
                k = k + 1;
            }
            let mut i: usize = 0;
            let ghost pad = v@;
            while i < d.len()
                invariant
                    i <= d.len(),
                    v@ == pad + d@.take(i as int),
                decreases d.len() - i,
            {
                proof {
                    assert(d@.take(i + 1) =~= d@.take(i as int).push(d@[i as int]));
                }
                v.push(d[i]);
                i = i + 1;
            }
            proof {
                assert(d@.take(i as int) =~= d@);
                if d@.len() >= 3 {
                    assert(pad =~= Seq::<char>::empty());
                }
            }
            let mut s = string_of(&v);
            push_all(&mut s, ".  ");
            push_all(&mut s, text);
            proof {
                assert(s@ =~= row_text(text@, Some(n as nat)));
            }
            s
        },
        None => {
            let mut s = String::new();
            push_all(&mut s, text);
            proof {
                assert(s@ =~= text@);
            }
            s
        },
    }
}

/// A row of the result list: its text, whether it reports an error, and the
/// rank of the result it shows.
pub struct Row {
    pub text: String,
    pub is_err: bool,
    pub rank: Option<usize>,
}

/// An answer of the server to a query.
pub struct QueryResponse {
    pub results: Option<Vec<String>>,
    pub error: Option<String>,
}

/// What a query came to: the request failed (with its error message), or
/// the server answered.
pub enum Outcome {
    Failed(String),
    Answered(QueryResponse),
}

/// A row, as sequences of characters.
pub open spec fn row_view(r: Row) -> (Seq<char>, bool, Option<usize>) {
    (r.text@, r.is_err, r.rank)
}

/// The status line of an answer with `n` results, received after `ms` milliseconds.
pub open spec fn results_status(n: nat, ms: nat) -> Seq<char> {
    decimal(n) + " result(s) \u{2014} "@ + decimal(ms) + "ms"@
}

/// The status line and the rows shown for what a query came to.
pub open spec fn view_of(outcome: Outcome, ms: nat) -> (Seq<char>, Seq<(Seq<char>, bool, Option<usize>)>) {
    match outcome {
        Outcome::Failed(e) => ("error: "@ + e@, seq![("request failed: "@ + e@, true, None)]),
        Outcome::Answered(resp) => match resp.error {
            Some(err) => ("backend error"@, seq![(err@, true, None)]),
            None => {
                let results = match resp.results {
                    Some(v) => v@,
                    None => Seq::empty(),
                };
                (
                    results_status(results.len(), ms),
                    if results.len() == 0 {
                        seq![("no results"@, false, None)]
                    } else {
                        Seq::new(results.len(), |i: int| (results[i]@, false, Some((i + 1) as usize)))
                    },
                )
            },
        },
    }
}

/// The status line and the rows to show for what a query came to, `ms`
/// milliseconds after it was sent.
pub fn response_view(outcome: Outcome, ms: u128) -> (r: (String, Vec<Row>))
    ensures
        (r.0@, r.1@.map_values(|row: Row| row_view(row))) == view_of(outcome, ms as nat),
{
    broadcast use vstd::string::group_string_axioms;

    match outcome {
        Outcome::Failed(e) => {
            let mut status = String::new();
            push_all(&mut status, "error: ");
            push_all(&mut status, e.as_str());
            let mut text = String::new();
            push_all(&mut text, "request failed: ");
            push_all(&mut text, e.as_str());
            let mut rows: Vec<Row> = Vec::new();
            rows.push(Row { text, is_err: true, rank: None });
            proof {
                assert(status@ =~= "error: "@ + e@);
                assert(rows@.map_values(|row: Row| row_view(row)) =~= seq![("request failed: "@ + e@, true, None::<usize>)]);
            }
            (status, rows)
        },
        Outcome::Answered(resp) => match resp.error {
            Some(err) => {
                let mut rows: Vec<Row> = Vec::new();
                let ghost ev = err@;
                rows.push(Row { text: err, is_err: true, rank: None });
                proof {
                    assert(rows@.map_values(|row: Row| row_view(row)) =~= seq![(ev, true, None::<usize>)]);
                }
                ("backend error".to_string(), rows)
            },
            None => {
                let results = match resp.results {
                    Some(v) => v,
                    None => Vec::new(),
                };
                let ghost rv = results@;
                let n = results.len();
                let count = string_of(&decimal_string(n as u128));
                let elapsed = string_of(&decimal_string(ms));
                let mut status = join3(count.as_str(), " result(s) \u{2014} ", elapsed.as_str());
                push_all(&mut status, "ms");
                let mut rows: Vec<Row> = Vec::new();
                if n == 0 {
                    rows.push(Row { text: "no results".to_string(), is_err: false, rank: None });
                    proof {
                        assert(rows@.map_values(|row: Row| row_view(row)) =~= seq![("no results"@, false, None::<usize>)]);
                    }
                } else {
                    for path in it: results
                        invariant
                            it.seq() == rv,
                            n == rv.len(),
                            rows@.len() == it.index(),
                            forall|j: int| 0 <= j < it.index() ==> row_view(#[trigger] rows@[j]) == (rv[j]@, false, Some((j + 1) as usize)),
                    {
                        let k = rows.len();
                        rows.push(Row { text: path, is_err: false, rank: Some(k + 1) });
                    }
                    proof {
                        assert(rows@.map_values(|row: Row| row_view(row)) =~= Seq::new(rv.len(), |j: int| (rv[j]@, false, Some((j + 1) as usize))));
                    }
                }
                proof {
                    assert(status@ =~= results_status(rv.len(), ms as nat));
                }
                (status, rows)
            },
        },
    }
}

} // verus!
