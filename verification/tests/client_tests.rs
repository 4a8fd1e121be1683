use henny::client::{
    decimal_string, file_url, response_view, row_label, search_url, trim, url_encode, Outcome,
    QueryResponse,
};

fn view(outcome: Outcome, ms: u128) -> (String, Vec<(String, bool, Option<usize>)>) {
    let (status, rows) = response_view(outcome, ms);
    (status, rows.into_iter().map(|r| (r.text, r.is_err, r.rank)).collect())
}

#[test]
fn url_encoding() {
    assert_eq!(url_encode("a b&c"), "a+b%26c");
    assert_eq!(url_encode("AZaz09-_.~"), "AZaz09-_.~");
    assert_eq!(url_encode("é/"), "%C3%A9%2F");
    assert_eq!(url_encode(""), "");
}

#[test]
fn trimming() {
    assert_eq!(trim("  hi there \n"), "hi there");
    assert_eq!(trim("   "), "");
    assert_eq!(trim("x"), "x");
}

#[test]
fn search_urls() {
    assert_eq!(
        search_url("  cats & dogs "),
        Some("http://127.0.0.1:6969/query?query=cats+%26+dogs&n_result=255".to_string())
    );
    assert_eq!(search_url(" \t "), None);
}

#[test]
fn file_urls() {
    assert_eq!(file_url("/d/a b.pdf"), Some("http://127.0.0.1:6969/file?path=%2Fd%2Fa+b.pdf".to_string()));
    assert_eq!(file_url(""), None);
}

#[test]
fn row_labels() {
    assert_eq!(row_label("x", Some(1)), "  1.  x");
    assert_eq!(row_label("x", Some(42)), " 42.  x");
    assert_eq!(row_label("x", Some(1234)), "1234.  x");
    assert_eq!(row_label("x", None), "x");
}

#[test]
fn decimals() {
    assert_eq!(decimal_string(0), vec!['0']);
    assert_eq!(decimal_string(907), vec!['9', '0', '7']);
}

#[test]
fn failed_request_view() {
    let (status, rows) = view(Outcome::Failed("timeout".to_string()), 5);
    assert_eq!(status, "error: timeout");
    assert_eq!(rows, vec![("request failed: timeout".to_string(), true, None)]);
}

#[test]
fn backend_error_view() {
    let resp = QueryResponse { results: None, error: Some("missing".to_string()) };
    let (status, rows) = view(Outcome::Answered(resp), 5);
    assert_eq!(status, "backend error");
    assert_eq!(rows, vec![("missing".to_string(), true, None)]);
}

#[test]
fn results_view() {
    let resp = QueryResponse { results: Some(vec!["a".to_string(), "b".to_string()]), error: None };
    let (status, rows) = view(Outcome::Answered(resp), 12);
    assert_eq!(status, "2 result(s) \u{2014} 12ms");
    assert_eq!(rows, vec![("a".to_string(), false, Some(1)), ("b".to_string(), false, Some(2))]);
    let resp = QueryResponse { results: None, error: None };
    let (status, rows) = view(Outcome::Answered(resp), 0);
    assert_eq!(status, "0 result(s) \u{2014} 0ms");
    assert_eq!(rows, vec![("no results".to_string(), false, None)]);
}

#[test]
fn url_encoding_leaves_no_separators() {
    let out = url_encode("what is this? a & b = c #1 ünï");
    assert!(out.chars().all(|c| c.is_ascii() && !" &=?#".contains(c)));
}
