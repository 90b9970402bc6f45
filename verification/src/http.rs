//! The HTTP requests for the metrics, and what they are answered.
use vstd::prelude::*;

use crate::text;

verus! {

/// What a request asks for.
#[derive(Clone, Copy, Debug, PartialEq, Eq, Structural)]
pub enum Route {
    /// There is no request line.
    BadRequest,
    Health,
    Metrics,
    NotFound,
}

// ---------------------------------------------------------------------------------------------
// The request line
// ---------------------------------------------------------------------------------------------

/// Whether the character is white space in Unicode.
pub open spec fn is_white_space(character: char) -> bool {
    ||| '\u{9}' <= character && character <= '\u{d}'
    ||| character == '\u{20}'
    ||| character == '\u{85}'
    ||| character == '\u{a0}'
    ||| character == '\u{1680}'
    ||| '\u{2000}' <= character && character <= '\u{200a}'
    ||| character == '\u{2028}'
    ||| character == '\u{2029}'
    ||| character == '\u{202f}'
    ||| character == '\u{205f}'
    ||| character == '\u{3000}'
}

/// Whether the character is white space in Unicode.
pub fn white_space(character: char) -> (result: bool)
    ensures
        result == is_white_space(character),
{
    ('\u{9}' <= character && character <= '\u{d}') || character == '\u{20}' || character == '\u{85}'
        || character == '\u{a0}' || character == '\u{1680}' || ('\u{2000}' <= character && character
        <= '\u{200a}') || character == '\u{2028}' || character == '\u{2029}' || character
        == '\u{202f}' || character == '\u{205f}' || character == '\u{3000}'
}

/// The words of `text`: its longest parts without white space.
pub open spec fn words_of(text: Seq<char>) -> Seq<Seq<char>>
    decreases text.len(),
{
    if text.len() == 0 {
        Seq::empty()
    } else {
        let words = words_of(text.drop_last());
        if is_white_space(text.last()) {
            words
        } else if text.len() == 1 || is_white_space(text[text.len() - 2]) {
            words.push(seq![text.last()])
        } else {
            words.drop_last().push(words.last().push(text.last()))
        }
    }
}

/// Splits `text` at white space, as `str::split_whitespace` does.
pub fn words(text: &[char]) -> (words: Vec<Vec<char>>)
    ensures
        text::parts_view(words@) == words_of(text@),
{
    let mut words: Vec<Vec<char>> = Vec::new();
    let mut current: Vec<char> = Vec::new();
    let mut i: usize = 0;
    assert(text::parts_view(words@) =~= words_of(text@.take(0)));
    while i < text.len()
        invariant
            i <= text@.len(),
            current@.len() > 0 <==> i > 0 && !is_white_space(text@[i - 1]),
            current@.len() == 0 ==> text::parts_view(words@) == words_of(text@.take(i as int)),
            current@.len() > 0 ==> text::parts_view(words@).push(current@) == words_of(
                text@.take(i as int),
            ),
        decreases text@.len() - i,
    {
        let character = text[i];
        let ghost before = text::parts_view(words@);
        let ghost word = current@;
        assert(text@.take(i + 1).drop_last() =~= text@.take(i as int));
        assert(before.push(word).drop_last() =~= before);
        if white_space(character) {
            if current.len() > 0 {
                words.push(current);
                current = Vec::new();
                assert(text::parts_view(words@) =~= before.push(word));
            }
        } else {
            current.push(character);
            assert(word.len() == 0 ==> current@ =~= seq![character]);
        }
        i += 1;
    }
    assert(text@.take(i as int) =~= text@);
    if current.len() > 0 {
        let ghost before = text::parts_view(words@);
        let ghost word = current@;
        words.push(current);
        assert(text::parts_view(words@) =~= before.push(word));
    }
    words
}

/// A line without the carriage return at its end.
pub open spec fn without_return(line: Seq<char>) -> Seq<char> {
    if line.len() > 0 && line.last() == '\r' {
        line.drop_last()
    } else {
        line
    }
}

/// The first line of `text`, without its line ending; an empty text has no line.
pub open spec fn first_line(text: Seq<char>) -> Option<Seq<char>> {
    if text.len() == 0 {
        None
    } else {
        match text.index_of_first('\n') {
            Some(end) => Some(without_return(text.take(end))),
            None => Some(text),
        }
    }
}

/// What a request line asks for: its first word is the method and its second the path.
pub open spec fn route_of_line(line: Seq<char>) -> Route {
    let words = words_of(line);
    if words.len() >= 2 && words[0] == "GET"@ && words[1] == "/health"@ {
        Route::Health
    } else if words.len() >= 2 && words[0] == "GET"@ && words[1] == "/metrics"@ {
        Route::Metrics
    } else {
        Route::NotFound
    }
}

/// What a request asks for.
pub open spec fn route_of_request(request: Seq<char>) -> Route {
    match first_line(request) {
        Some(line) => route_of_line(line),
        None => Route::BadRequest,
    }
}

/// Reads the first line of a text, as the first item of `str::lines` does.
pub fn request_line(request: &[char]) -> (line: Option<&[char]>)
    ensures
        match line {
            Some(line) => first_line(request@) == Some(line@),
            None => first_line(request@) is None,
        },
{
    if request.len() == 0 {
        return None;
    }
    match text::find_first(request, '\n') {
        Some(end) => {
            if end > 0 && request[end - 1] == '\r' {
                let line = vstd::slice::slice_subrange(request, 0, end - 1);
                assert(request@.take(end as int).drop_last() =~= line@);
                Some(line)
            } else {
                let line = vstd::slice::slice_subrange(request, 0, end);
                assert(request@.take(end as int) =~= line@);
                Some(line)
            }
        },
        None => Some(request),
    }
}

/// Finds out what a request asks for.
pub fn route(request: &str) -> (route: Route)
    ensures
        route == route_of_request(request@),
{
    let chars = text::to_chars(request);
    match request_line(chars.as_slice()) {
        Some(line) => {
            let parts = words(line);
            let ghost seen = words_of(line@);
            if parts.len() < 2 {
                assert(seen.len() == parts@.len());
                return Route::NotFound;
            }
            let get = text::to_chars("GET");
            let health = text::to_chars("/health");
            let metrics = text::to_chars("/metrics");
            assert(seen[0] == parts@[0]@ && seen[1] == parts@[1]@);
            if !text::same_chars(parts[0].as_slice(), get.as_slice()) {
                Route::NotFound
            } else if text::same_chars(parts[1].as_slice(), health.as_slice()) {
                Route::Health
            } else if text::same_chars(parts[1].as_slice(), metrics.as_slice()) {
                Route::Metrics
            } else {
                Route::NotFound
            }
        },
        None => Route::BadRequest,
    }
}

/// The text of bytes that need not be UTF-8.
pub uninterp spec fn lossy_text(bytes: Seq<u8>) -> Seq<char>;

/// `String::from_utf8_lossy`: a text that depends on the bytes alone. It is the text that the
/// bytes encode, with replacement characters for what is not UTF-8. So bytes that are UTF-8 are
/// decoded, where the first bytes are UTF-8 the text begins with what they encode, and the text is
/// empty only where there are no bytes.
#[verifier::external_body]
fn decode_lossy(bytes: &[u8]) -> (text: String)
    ensures
        text@ == lossy_text(bytes@),
        vstd::utf8::valid_utf8(bytes@) ==> text@ == vstd::utf8::decode_utf8(bytes@),
        forall|n: int|
            0 <= n <= bytes@.len() && vstd::utf8::valid_utf8(#[trigger] bytes@.take(n))
                ==> vstd::utf8::decode_utf8(bytes@.take(n)).is_prefix_of(text@),
        bytes@.len() > 0 ==> text@.len() > 0,
{
    String::from_utf8_lossy(bytes).into_owned()
}

/// Finds out what the bytes of a request ask for; where there are none, nothing is asked.
///
/// Bytes always have a first line. Where they begin with a whole line in UTF-8, the line alone
/// decides.
pub fn requested_route(request: &[u8]) -> (route: Option<Route>)
    ensures
        request@.len() == 0 ==> route is None,
        request@.len() > 0 ==> route == Some(route_of_request(lossy_text(request@))),
        request@.len() > 0 ==> route != Some(Route::BadRequest),
        request@.len() > 0 && vstd::utf8::valid_utf8(request@) ==> route == Some(
            route_of_request(vstd::utf8::decode_utf8(request@)),
        ),
        forall|line: Seq<char>|
            !line.contains('\n') && (#[trigger] vstd::utf8::encode_utf8(line.push('\n'))).is_prefix_of(
                request@,
            ) ==> route == Some(route_of_line(without_return(line))),
{
    if request.len() == 0 {
        assert forall|line: Seq<char>| (#[trigger] vstd::utf8::encode_utf8(
            line.push('\n'),
        )).is_prefix_of(request@) implies false by {
            vstd::utf8::encode_utf8_decode_utf8(line.push('\n'));
            assert(request@ =~= vstd::utf8::encode_utf8(line.push('\n')));
        }
        return None;
    }
    let text = decode_lossy(request);
    proof {
        assert forall|line: Seq<char>|
            !line.contains('\n') && (#[trigger] vstd::utf8::encode_utf8(
                line.push('\n'),
            )).is_prefix_of(request@) implies route_of_request(text@) == route_of_line(
            without_return(line),
        ) by {
            let whole = line.push('\n');
            let bytes = vstd::utf8::encode_utf8(whole);
            vstd::utf8::encode_utf8_valid_utf8(whole);
            vstd::utf8::encode_utf8_decode_utf8(whole);
            assert(request@.take(bytes.len() as int) =~= bytes);
            assert(whole.is_prefix_of(text@));
            lemma_first_line(line, text@);
        }
    }
    Some(route(text.as_str()))
}

/// The first line of a text that begins with a line and a line break is that line.
proof fn lemma_first_line(line: Seq<char>, text: Seq<char>)
    requires
        !line.contains('\n'),
        line.push('\n').is_prefix_of(text),
    ensures
        first_line(text) == Some(without_return(line)),
{
    let whole = line.push('\n');
    assert forall|i: int| 0 <= i < line.len() implies text[i] != '\n' by {
        assert(line[i] == whole[i]);
        assert(text[i] == text.subrange(0, whole.len() as int)[i]);
        assert(line.contains(line[i]));
    }
    assert(text[line.len() as int] == text.subrange(0, whole.len() as int)[line.len() as int]);
    text.index_of_first_ensures('\n');
    assert(text.contains(text[line.len() as int]));
    assert(text.take(line.len() as int) =~= line) by {
        assert forall|i: int| 0 <= i < line.len() implies text[i] == line[i] by {
            assert(text[i] == text.subrange(0, whole.len() as int)[i]);
        }
    }
}

// ---------------------------------------------------------------------------------------------
// The response
// ---------------------------------------------------------------------------------------------

/// A response: the status line, the header fields, an empty line and the body. The length is that
/// of the body in UTF-8.
pub open spec fn response_text(
    status: Seq<char>,
    content_type: Seq<char>,
    body: Seq<char>,
) -> Seq<char> {
    "HTTP/1.1 "@ + status + "\r\nContent-Type: "@ + content_type + "\r\nContent-Length: "@
        + text::decimal(vstd::utf8::encode_utf8(body).len()) + "\r\nConnection: close\r\n\r\n"@
        + body
}

/// Writes a response.
pub fn http_response(status: &str, content_type: &str, body: &str) -> (response: String)
    ensures
        response@ == response_text(status@, content_type@, body@),
{
    let mut response = "HTTP/1.1 ".to_string();
    response.append(status);
    response.append("\r\nContent-Type: ");
    response.append(content_type);
    response.append("\r\nContent-Length: ");
    text::push_decimal(&mut response, body.as_bytes().len() as u128);
    response.append("\r\nConnection: close\r\n\r\n");
    response.append(body);
    response
}

/// The status of the answer.
pub open spec fn status_of(route: Route) -> Seq<char> {
    match route {
        Route::BadRequest => "400 Bad Request"@,
        Route::Health => "200 OK"@,
        Route::Metrics => "200 OK"@,
        Route::NotFound => "404 Not Found"@,
    }
}

/// The content type of the answer.
pub open spec fn content_type_of(route: Route) -> Seq<char> {
    match route {
        Route::Metrics => "text/plain; version=0.0.4; charset=utf-8"@,
        _ => "text/plain; charset=utf-8"@,
    }
}

/// The body of the answer: the metrics where they are asked for.
pub open spec fn body_of(route: Route, metrics: Seq<char>) -> Seq<char> {
    match route {
        Route::BadRequest => "bad request\n"@,
        Route::Health => "ok\n"@,
        Route::Metrics => metrics,
        Route::NotFound => "not found\n"@,
    }
}

/// Answers a request.
pub fn answer(route: Route, metrics: &str) -> (response: String)
    ensures
        response@ == response_text(
            status_of(route),
            content_type_of(route),
            body_of(route, metrics@),
        ),
{
    match route {
        Route::BadRequest => http_response(
            "400 Bad Request",
            "text/plain; charset=utf-8",
            "bad request\n",
        ),
        Route::Health => http_response("200 OK", "text/plain; charset=utf-8", "ok\n"),
        Route::Metrics => http_response(
            "200 OK",
            "text/plain; version=0.0.4; charset=utf-8",
            metrics,
        ),
        Route::NotFound => http_response(
            "404 Not Found",
            "text/plain; charset=utf-8",
            "not found\n",
        ),
    }
}

// ---------------------------------------------------------------------------------------------
// Laws
// ---------------------------------------------------------------------------------------------

/// Whether `text` is a word: not empty and without white space.
pub open spec fn is_word(text: Seq<char>) -> bool {
    text.len() > 0 && forall|i: int| 0 <= i < text.len() ==> !is_white_space(#[trigger] text[i])
}

/// A word has one word.
proof fn lemma_one_word(word: Seq<char>)
    requires
        is_word(word),
    ensures
        words_of(word) == seq![word],
    decreases word.len(),
{
    if word.len() == 1 {
        assert(words_of(word.drop_last()) =~= Seq::empty());
        assert(!is_white_space(word[0]));
        assert(seq![word.last()] =~= word);
        assert(words_of(word) =~= seq![word]);
    } else {
        assert forall|i: int| 0 <= i < word.drop_last().len() implies !is_white_space(
            #[trigger] word.drop_last()[i],
        ) by {
            assert(word.drop_last()[i] == word[i]);
        }
        lemma_one_word(word.drop_last());
        assert(!is_white_space(word[word.len() - 1]) && !is_white_space(word[word.len() - 2]));
        assert(word.drop_last().push(word.last()) =~= word);
        assert(words_of(word) =~= seq![word]);
    }
}

/// The words of a text that begins with a word and white space are that word and those of the
/// rest.
proof fn lemma_words_after_a_word(word: Seq<char>, space: char, rest: Seq<char>)
    requires
        is_word(word),
        is_white_space(space),
    ensures
        words_of(word.push(space) + rest) == seq![word] + words_of(rest),
    decreases rest.len(),
{
    let text = word.push(space) + rest;
    if rest.len() == 0 {
        lemma_one_word(word);
        assert(text.drop_last() =~= word);
        assert(words_of(text) =~= seq![word] + words_of(rest));
    } else {
        lemma_words_after_a_word(word, space, rest.drop_last());
        assert(text.drop_last() =~= word.push(space) + rest.drop_last());
        assert(text.last() == rest.last());
        if rest.len() == 1 {
            assert(text[text.len() - 2] == space);
            assert(rest.drop_last() =~= Seq::<char>::empty());
        } else {
            assert(text[text.len() - 2] == rest[rest.len() - 2]);
        }
        if !is_white_space(rest.last()) && rest.len() > 1 && !is_white_space(
            rest[rest.len() - 2],
        ) {
            lemma_last_word_exists(rest.drop_last());
        }
        assert(words_of(text) =~= seq![word] + words_of(rest));
    }
}

/// A text that does not end in white space has a word.
proof fn lemma_last_word_exists(text: Seq<char>)
    requires
        text.len() > 0,
        !is_white_space(text.last()),
    ensures
        words_of(text).len() > 0,
{
}

/// A request line is routed by its method and its path, whatever white space stands between them
/// and whatever stands behind them: `GET /health` and `GET /metrics` are known, everything else is
/// not found.
pub proof fn law_request_line_is_routed(
    method: Seq<char>,
    first_space: char,
    path: Seq<char>,
    second_space: char,
    rest: Seq<char>,
)
    requires
        is_word(method),
        is_word(path),
        is_white_space(first_space),
        is_white_space(second_space),
    ensures
        ({
            let line = method.push(first_space) + path.push(second_space) + rest;
            &&& method == "GET"@ && path == "/health"@ ==> route_of_line(line) == Route::Health
            &&& method == "GET"@ && path == "/metrics"@ ==> route_of_line(line) == Route::Metrics
            &&& method != "GET"@ || path != "/health"@ && path != "/metrics"@ ==> route_of_line(
                line,
            ) == Route::NotFound
        }),
{
    let line = method.push(first_space) + path.push(second_space) + rest;
    assert(line =~= method.push(first_space) + (path.push(second_space) + rest));
    lemma_words_after_a_word(method, first_space, path.push(second_space) + rest);
    lemma_words_after_a_word(path, second_space, rest);
    assert(words_of(line)[0] == method);
    assert(words_of(line)[1] == path);
    reveal_strlit("/health");
    reveal_strlit("/metrics");
    assert("/health"@.len() != "/metrics"@.len());
}

/// A response ends with the body, and the length that it gives is the number of the bytes of the
/// body.
pub proof fn law_response_gives_the_length_of_its_body(
    status: Seq<char>,
    content_type: Seq<char>,
    body: Seq<char>,
) -> (length: Seq<char>)
    ensures
        text::digits_value(length) == vstd::utf8::encode_utf8(body).len(),
        response_text(status, content_type, body) == "HTTP/1.1 "@ + status + "\r\nContent-Type: "@
            + content_type + "\r\nContent-Length: "@ + length + "\r\nConnection: close\r\n\r\n"@
            + body,
{
    text::law_decimal_reads_back(vstd::utf8::encode_utf8(body).len());
    text::decimal(vstd::utf8::encode_utf8(body).len())
}

/// What is answered on a request for the metrics ends with an empty line and the metrics, complete
/// and unchanged whatever their length, and gives their length in bytes.
pub proof fn law_metrics_are_answered_in_full(metrics: Seq<char>) -> (length: Seq<char>)
    ensures
        text::all_digits(length),
        text::digits_value(length) == vstd::utf8::encode_utf8(metrics).len(),
        response_text(
            status_of(Route::Metrics),
            content_type_of(Route::Metrics),
            body_of(Route::Metrics, metrics),
        ) == "HTTP/1.1 "@ + "200 OK"@ + "\r\nContent-Type: "@
            + "text/plain; version=0.0.4; charset=utf-8"@ + "\r\nContent-Length: "@ + length
            + "\r\nConnection: close\r\n\r\n"@ + metrics,
        response_text(
            status_of(Route::Metrics),
            content_type_of(Route::Metrics),
            body_of(Route::Metrics, metrics),
        ).skip(
            response_text(
                status_of(Route::Metrics),
                content_type_of(Route::Metrics),
                body_of(Route::Metrics, metrics),
            ).len() - metrics.len(),
        ) == metrics,
{
    let answer = response_text(
        status_of(Route::Metrics),
        content_type_of(Route::Metrics),
        body_of(Route::Metrics, metrics),
    );
    text::law_decimal_reads_back(vstd::utf8::encode_utf8(metrics).len());
    assert(answer.skip(answer.len() - metrics.len()) =~= metrics);
    text::decimal(vstd::utf8::encode_utf8(metrics).len())
}

/// Every other request is answered a short text of its own, whatever the metrics are: that all is
/// well, that nothing was found, or that the request is bad.
pub proof fn law_other_answers_are_fixed(metrics: Seq<char>) -> (lengths: (
    Seq<char>,
    Seq<char>,
    Seq<char>,
))
    ensures
        text::all_digits(lengths.0) && text::all_digits(lengths.1) && text::all_digits(lengths.2),
        text::digits_value(lengths.0) == vstd::utf8::encode_utf8("ok\n"@).len(),
        text::digits_value(lengths.1) == vstd::utf8::encode_utf8("not found\n"@).len(),
        text::digits_value(lengths.2) == vstd::utf8::encode_utf8("bad request\n"@).len(),
        response_text(
            status_of(Route::Health),
            content_type_of(Route::Health),
            body_of(Route::Health, metrics),
        ) == "HTTP/1.1 "@ + "200 OK"@ + "\r\nContent-Type: "@ + "text/plain; charset=utf-8"@
            + "\r\nContent-Length: "@ + lengths.0 + "\r\nConnection: close\r\n\r\n"@ + "ok\n"@,
        response_text(
            status_of(Route::NotFound),
            content_type_of(Route::NotFound),
            body_of(Route::NotFound, metrics),
        ) == "HTTP/1.1 "@ + "404 Not Found"@ + "\r\nContent-Type: "@
            + "text/plain; charset=utf-8"@ + "\r\nContent-Length: "@ + lengths.1
            + "\r\nConnection: close\r\n\r\n"@ + "not found\n"@,
        response_text(
            status_of(Route::BadRequest),
            content_type_of(Route::BadRequest),
            body_of(Route::BadRequest, metrics),
        ) == "HTTP/1.1 "@ + "400 Bad Request"@ + "\r\nContent-Type: "@
            + "text/plain; charset=utf-8"@ + "\r\nContent-Length: "@ + lengths.2
            + "\r\nConnection: close\r\n\r\n"@ + "bad request\n"@,
{
    text::law_decimal_reads_back(vstd::utf8::encode_utf8("ok\n"@).len());
    text::law_decimal_reads_back(vstd::utf8::encode_utf8("not found\n"@).len());
    text::law_decimal_reads_back(vstd::utf8::encode_utf8("bad request\n"@).len());
    (
        text::decimal(vstd::utf8::encode_utf8("ok\n"@).len()),
        text::decimal(vstd::utf8::encode_utf8("not found\n"@).len()),
        text::decimal(vstd::utf8::encode_utf8("bad request\n"@).len()),
    )
}

/// White space in front of a text changes none of its words, and a word in front of white space is
/// a word by itself, complete whatever its length.
pub proof fn law_words_are_parted_by_white_space(word: Seq<char>, space: char, rest: Seq<char>)
    requires
        is_word(word),
        is_white_space(space),
    ensures
        words_of(Seq::empty()).len() == 0,
        words_of(word) == seq![word],
        words_of(seq![space] + rest) == words_of(rest),
        words_of(word.push(space) + rest) == seq![word] + words_of(rest),
{
    lemma_one_word(word);
    lemma_words_after_a_word(word, space, rest);
    lemma_words_after_white_space(space, rest);
}

proof fn lemma_words_after_white_space(space: char, rest: Seq<char>)
    requires
        is_white_space(space),
    ensures
        words_of(seq![space] + rest) == words_of(rest),
    decreases rest.len(),
{
    let text = seq![space] + rest;
    if rest.len() == 0 {
        assert(text.last() == space);
        assert(words_of(text.drop_last()) =~= Seq::empty());
        assert(words_of(text) =~= words_of(rest));
    } else {
        lemma_words_after_white_space(space, rest.drop_last());
        assert(text.drop_last() =~= seq![space] + rest.drop_last());
        assert(text.last() == rest.last());
        if rest.len() == 1 {
            assert(text[text.len() - 2] == space);
        } else {
            assert(text[text.len() - 2] == rest[rest.len() - 2]);
        }
    }
}

/// The first line of a text reaches up to the first line break, however long it is, without a
/// carriage return in front of that; a text without a line break is one line, and an empty text has
/// none.
pub proof fn law_first_line_ends_at_the_line_break(line: Seq<char>, rest: Seq<char>)
    requires
        !line.contains('\n'),
    ensures
        first_line(Seq::empty()) is None,
        line.len() > 0 ==> first_line(line) == Some(line),
        first_line(line.push('\r').push('\n') + rest) == Some(line),
        line.len() == 0 || line.last() != '\r' ==> first_line(line.push('\n') + rest) == Some(line),
{
    line.index_of_first_ensures('\n');
    let returned = line.push('\r');
    assert forall|i: int| 0 <= i < returned.len() implies returned[i] != '\n' by {
        if i < line.len() {
            assert(line.contains(line[i]));
        }
    }
    let first = returned.push('\n') + rest;
    assert(first.subrange(0, returned.push('\n').len() as int) =~= returned.push('\n'));
    lemma_first_line(returned, first);
    assert(returned.drop_last() =~= line);
    let second = line.push('\n') + rest;
    assert(second.subrange(0, line.push('\n').len() as int) =~= line.push('\n'));
    lemma_first_line(line, second);
}

/// A request is routed by the first two words of its first line: `GET` and `/health` or `/metrics`.
/// Words behind them make no difference, and without two words nothing is found.
pub proof fn law_requests_are_routed_by_two_words(line: Seq<char>)
    ensures
        words_of(line).len() < 2 ==> route_of_line(line) == Route::NotFound,
        route_of_line(line) == Route::Health <==> words_of(line).len() >= 2 && words_of(line)[0]
            == "GET"@ && words_of(line)[1] == "/health"@,
        route_of_line(line) == Route::Metrics <==> words_of(line).len() >= 2 && words_of(line)[0]
            == "GET"@ && words_of(line)[1] == "/metrics"@,
        route_of_line(line) != Route::BadRequest,
        first_line(line) is None ==> route_of_request(line) == Route::BadRequest,
        first_line(line) matches Some(first) ==> route_of_request(line) == route_of_line(first),
{
    reveal_strlit("/health");
    reveal_strlit("/metrics");
    assert("/health"@.len() != "/metrics"@.len());
}

} // verus!
