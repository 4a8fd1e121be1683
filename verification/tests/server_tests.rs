use henny::server::{
    file_reply, frontend_route, json_error, mime_for_extension, mime_for_path, missing_query_reply,
    file_allowed, is_whitespace, param, parse_usize, query_reply, query_string, route,
    split_words, static_asset, Body, FileLookup, HttpReply, Route, ServerError,
};

fn text(reply: &HttpReply) -> String {
    match &reply.body {
        Body::Text(t) => t.clone(),
        Body::Data(_) => panic!("not text"),
    }
}

fn headers(reply: &HttpReply) -> Vec<(&str, &str)> {
    reply.headers.iter().map(|(a, b)| (a.as_str(), b.as_str())).collect()
}

#[test]
fn routes_go_to_first_match() {
    assert_eq!(route("/query?query=x"), Route::Query);
    assert_eq!(route("/queryx"), Route::Query);
    assert_eq!(route("/file?path=a"), Route::File);
    assert_eq!(route("/"), Route::Root);
    assert_eq!(route("/index.css"), Route::Css);
    assert_eq!(route("/index.js"), Route::Js);
    assert_eq!(route("/index.js?x"), Route::NotFound);
    assert_eq!(route(""), Route::NotFound);
}

#[test]
fn frontend_routes_are_exact() {
    assert_eq!(frontend_route("/"), Route::Root);
    assert_eq!(frontend_route("/index.css"), Route::Css);
    assert_eq!(frontend_route("/index.js"), Route::Js);
    assert_eq!(frontend_route("/query"), Route::NotFound);
}

#[test]
fn static_assets() {
    assert_eq!(static_asset(Route::Root), Some(("res/index.html", "text/html; charset=UTF-8")));
    assert_eq!(static_asset(Route::Css), Some(("res/index.css", "text/css; charset=UTF-8")));
    assert_eq!(static_asset(Route::Js), Some(("res/index.js", "text/js; charset=UTF-8")));
    assert_eq!(static_asset(Route::NotFound), Some(("res/404.html", "text/html; charset=UTF-8")));
    assert_eq!(static_asset(Route::Query), None);
}

#[test]
fn query_string_is_second_piece() {
    assert_eq!(query_string("/query?query=a+b&n_result=3"), "query=a+b&n_result=3");
    assert_eq!(query_string("/query"), "");
    assert_eq!(query_string("/q?a=1?b=2"), "a=1");
    assert_eq!(query_string("?"), "");
}

#[test]
fn params_are_decoded_and_last_wins() {
    assert_eq!(param("/query?query=a+b%41", "query"), Some("a bA".to_string()));
    assert_eq!(param("/query?query=x&query=y", "query"), Some("y".to_string()));
    assert_eq!(param("/query?n_result=3", "query"), None);
    assert_eq!(param("/file?path=%2Ftmp%2Fa.pdf", "path"), Some("/tmp/a.pdf".to_string()));
}

#[test]
fn words_split_on_white_space() {
    assert_eq!(split_words("  foo bar\tbaz\n"), vec!["foo", "bar", "baz"]);
    assert!(split_words("   ").is_empty());
    assert_eq!(split_words("one"), vec!["one"]);
}

#[test]
fn numbers_parse_as_usize() {
    assert_eq!(parse_usize("12"), Some(12));
    assert_eq!(parse_usize("+7"), Some(7));
    assert_eq!(parse_usize("0"), Some(0));
    assert_eq!(parse_usize(""), None);
    assert_eq!(parse_usize("+"), None);
    assert_eq!(parse_usize("-1"), None);
    assert_eq!(parse_usize("12a"), None);
    assert_eq!(parse_usize("99999999999999999999999"), None);
    assert_eq!(parse_usize(&usize::MAX.to_string()), Some(usize::MAX));
}

#[test]
fn query_reply_limits_results() {
    let results = ["a.pdf", "b.html", "c.xml"];
    let r = query_reply(&results, Some("2")).ok().unwrap();
    assert_eq!(r.status, 200);
    assert_eq!(text(&r), "{\"results\": [\"a.pdf\",\"b.html\"]}");
    assert_eq!(
        headers(&r),
        vec![("Access-Control-Allow-Origin", "*"), ("Content-Type", "application/json; charset=UTF-8")]
    );
    let r = query_reply(&results, Some("10")).ok().unwrap();
    assert_eq!(text(&r), "{\"results\": [\"a.pdf\",\"b.html\",\"c.xml\"]}");
    let r = query_reply(&results, None).ok().unwrap();
    assert_eq!(text(&r), "{\"results\": [\"a.pdf\",\"b.html\",\"c.xml\"]}");
    let many: Vec<String> = (0..300).map(|i| format!("{i}.html")).collect();
    let many: Vec<&str> = many.iter().map(|s| s.as_str()).collect();
    let r = query_reply(&many, None).ok().unwrap();
    let shown: Vec<String> = serde_json::from_str::<serde_json::Value>(&text(&r)).unwrap()["results"]
        .as_array()
        .unwrap()
        .iter()
        .map(|v| v.as_str().unwrap().to_string())
        .collect();
    assert_eq!(shown.len(), 255);
    assert_eq!(shown[254], "254.html");
    let r = query_reply(&results, Some("many")).ok().unwrap();
    assert_eq!(text(&r), "{\"results\": []}");
    let r = query_reply(&["quote\"d"], Some("1")).ok().unwrap();
    assert_eq!(text(&r), "{\"results\": [\"quote\\\"d\"]}");
}

#[test]
fn missing_query() {
    let r = missing_query_reply();
    assert_eq!(r.status, 400);
    assert_eq!(text(&r), "{\"error\": \"missing `query` parameter\"}");
    assert_eq!(
        headers(&r),
        vec![("Content-Type", "application/json; charset=UTF-8"), ("Access-Control-Allow-Origin", "*")]
    );
}

#[test]
fn json_errors() {
    let r = json_error(418, "teapot");
    assert_eq!(r.status, 418);
    assert_eq!(text(&r), "{\"error\": \"teapot\"}");
}

#[test]
fn file_replies() {
    let r = file_reply(FileLookup::NoPath);
    assert_eq!((r.status, text(&r)), (400, "{\"error\": \"missing `path` parameter\"}".to_string()));
    let r = file_reply(FileLookup::Denied);
    assert_eq!((r.status, text(&r)), (403, "{\"error\": \"access denied\"}".to_string()));
    let r = file_reply(FileLookup::Unreadable);
    assert_eq!((r.status, text(&r)), (404, "{\"error\": \"file not found\"}".to_string()));
    let r = file_reply(FileLookup::Found {
        path: "/docs/a.pdf".to_string(),
        file_name: "a.pdf".to_string(),
        data: vec![1, 2, 3],
    });
    assert_eq!(r.status, 200);
    assert!(matches!(r.body, Body::Data(ref d) if d == &vec![1, 2, 3]));
    assert_eq!(
        headers(&r),
        vec![
            ("Content-Type", "application/pdf"),
            ("Content-Disposition", "attachment; filename=\"a.pdf\""),
            ("Access-Control-Allow-Origin", "*"),
        ]
    );
}

#[test]
fn mime_types() {
    assert_eq!(mime_for_path("/x/a.pdf"), "application/pdf");
    assert_eq!(mime_for_path("a.html"), "text/html; charset=UTF-8");
    assert_eq!(mime_for_path("a.xhtml"), "application/xhtml+xml; charset=UTF-8");
    assert_eq!(mime_for_path("a.xml"), "application/xml; charset=UTF-8");
    assert_eq!(mime_for_path("a.tar.gz"), "application/octet-stream");
    assert_eq!(mime_for_path("README"), "application/octet-stream");
    assert_eq!(mime_for_path(".pdf"), "application/octet-stream");
    assert_eq!(mime_for_extension(Some("pdf")), "application/pdf");
    assert_eq!(mime_for_extension(None), "application/octet-stream");
}

#[test]
fn white_space_is_unicode_white_space() {
    for c in (0..=0x10FFFFu32).filter_map(char::from_u32) {
        assert_eq!(is_whitespace(c), c.is_whitespace(), "{:?}", c);
    }
}

#[test]
fn url_without_query_has_no_parameter() {
    assert_eq!(param("/query", "query"), None);
    assert_eq!(param("/query", ""), None);
}

#[test]
fn empty_results_are_an_empty_list() {
    let r = query_reply(&[], None).ok().unwrap();
    assert_eq!(text(&r), "{\"results\": []}");
}

#[test]
fn files_are_served_from_the_folder_only() {
    assert!(file_allowed(Some("/srv/docs/a.pdf"), Some("/srv/docs")));
    assert!(!file_allowed(Some("/srv/docsx/a.pdf"), Some("/srv/docs")));
    assert!(!file_allowed(Some("/etc/passwd"), Some("/srv/docs")));
    assert!(!file_allowed(None, Some("/srv/docs")));
    assert!(file_allowed(Some("/etc/passwd"), None));
}

#[test]
fn server_error_messages() {
    assert_eq!(ServerError::HeaderCreate.message(), "Failed to create a http header");
    let io = ServerError::Io(std::io::Error::new(std::io::ErrorKind::Other, "disk"));
    assert_eq!(io.message(), "An IO error occured: disk");
    let json = serde_json::from_str::<u8>("x").unwrap_err();
    let m = ServerError::JsonSerialization(json).message();
    assert!(m.starts_with("Failed to serialize some json: "));
}
