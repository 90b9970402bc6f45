use docker_stats::http::{
    answer, http_response, request_line, requested_route, route, white_space, words, Route,
};

fn chars(text: &str) -> Vec<char> {
    text.chars().collect()
}

#[test]
fn white_space_is_that_of_std() {
    for code in 0..=0x10_ffff_u32 {
        if let Some(character) = char::from_u32(code) {
            assert_eq!(white_space(character), character.is_whitespace(), "{code:x}");
        }
    }
}

#[test]
fn words_are_those_of_std() {
    for text in ["", " ", "a", " a", "a ", "GET  /x\tHTTP/1.1\r", "\u{2003}é\u{a0}ü z", "a\u{200b}b"]
    {
        let found: Vec<String> = words(&chars(text)).iter().map(|word| word.iter().collect()).collect();
        let expected: Vec<String> = text.split_whitespace().map(|word| word.to_string()).collect();
        assert_eq!(found, expected, "{text:?}");
    }
}

#[test]
fn request_lines_are_those_of_std() {
    for text in ["", "\n", "\r\n", "a", "a\r", "a\nb", "a\r\nb", "a\r\r\nb", "a\rb\n", "\n\na"] {
        let line: Option<String> =
            request_line(&chars(text)).map(|line| line.iter().collect());
        assert_eq!(line.as_deref(), text.lines().next(), "{text:?}");
    }
}

#[test]
fn requests_are_routed() {
    assert_eq!(route("GET /health HTTP/1.1\r\nHost: x\r\n\r\n"), Route::Health);
    assert_eq!(route("GET /metrics HTTP/1.1\r\nHost: x\r\n\r\n"), Route::Metrics);
    assert_eq!(route("GET /metrics"), Route::Metrics);
    assert_eq!(route("  GET\t/metrics\r\n"), Route::Metrics);
    assert_eq!(route("GET / HTTP/1.1\r\n"), Route::NotFound);
    assert_eq!(route("GET /metrics/ HTTP/1.1\r\n"), Route::NotFound);
    assert_eq!(route("GET /metrics?x=1 HTTP/1.1\r\n"), Route::NotFound);
    assert_eq!(route("POST /metrics HTTP/1.1\r\n"), Route::NotFound);
    assert_eq!(route("get /metrics HTTP/1.1\r\n"), Route::NotFound);
    assert_eq!(route("HEAD /health HTTP/1.1\r\n"), Route::NotFound);
    assert_eq!(route("GET\r\n/metrics"), Route::NotFound);
    assert_eq!(route("GET"), Route::NotFound);
    assert_eq!(route("\r\n"), Route::NotFound);
    assert_eq!(route(""), Route::BadRequest);
}

#[test]
fn bytes_are_routed_by_their_first_line() {
    assert_eq!(requested_route(b""), None);
    assert_eq!(requested_route(b"GET /health HTTP/1.1\r\n\r\n"), Some(Route::Health));
    assert_eq!(requested_route(b"GET /metrics HTTP/1.1\r\nX: \xff\xfe\xc3"), Some(Route::Metrics));
    assert_eq!(requested_route(b"GET /metrics\xff HTTP/1.1\r\n"), Some(Route::NotFound));
    assert_eq!(requested_route(b"\xffGET /metrics HTTP/1.1\r\n"), Some(Route::NotFound));
    assert_eq!(requested_route("GET\u{2003}/metrics".as_bytes()), Some(Route::Metrics));
    assert_eq!(requested_route(b"\xff"), Some(Route::NotFound));
    assert_eq!(requested_route(b"\n"), Some(Route::NotFound));
}

#[test]
fn responses_give_the_length_in_bytes() {
    assert_eq!(
        http_response("200 OK", "text/plain", "é\n"),
        "HTTP/1.1 200 OK\r\nContent-Type: text/plain\r\nContent-Length: 3\r\nConnection: close\r\n\r\né\n"
    );
}

#[test]
fn every_route_is_answered() {
    assert_eq!(
        answer(Route::Health, "metrics"),
        http_response("200 OK", "text/plain; charset=utf-8", "ok\n")
    );
    assert_eq!(
        answer(Route::Metrics, "metrics"),
        http_response("200 OK", "text/plain; version=0.0.4; charset=utf-8", "metrics")
    );
    assert_eq!(
        answer(Route::NotFound, "metrics"),
        "HTTP/1.1 404 Not Found\r\nContent-Type: text/plain; charset=utf-8\r\nContent-Length: 10\r\nConnection: close\r\n\r\nnot found\n"
    );
    assert_eq!(
        answer(Route::BadRequest, "metrics"),
        "HTTP/1.1 400 Bad Request\r\nContent-Type: text/plain; charset=utf-8\r\nContent-Length: 12\r\nConnection: close\r\n\r\nbad request\n"
    );
}
