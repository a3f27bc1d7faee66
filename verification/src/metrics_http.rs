//! The opt-in metrics surface over HTTP.
//!
//! A thin front for the control socket: every request asks the daemon for its
//! metrics and returns exactly what came back, so that the two can never
//! disagree.

use crate::text::{
    byte_count, chars_of, decimal, decimal_text, first_word, leading_word, same, string_of, trim,
    trimmed,
};
use vstd::prelude::*;
use vstd::utf8::encode_utf8;

verus! {

/// A whole response.
pub open spec fn response_text(
    status: Seq<char>,
    content_type: Seq<char>,
    body: Seq<char>,
) -> Seq<char> {
    "HTTP/1.1 "@ + status + "\r\nContent-Type: "@ + content_type + "\r\nContent-Length: "@
        + decimal_text(encode_utf8(body).len()) + "\r\nConnection: close\r\n\r\n"@ + body
}

/// A whole response.
fn respond(status: &str, content_type: &str, body: &str) -> (s: String)
    ensures
        s@ == response_text(status@, content_type@, body@),
{
    let length = decimal(byte_count(body) as u64);
    let mut s = String::from_str("HTTP/1.1 ");
    s.append(status);
    s.append("\r\nContent-Type: ");
    s.append(content_type);
    s.append("\r\nContent-Length: ");
    s.append(length.as_str());
    s.append("\r\nConnection: close\r\n\r\n");
    s.append(body);
    s
}

/// The first two words of a request line ask for the metrics.
pub open spec fn asks_for_metrics(line: Seq<char>) -> bool {
    let t = trimmed(line);
    let method = first_word(t);
    let path = first_word(trimmed(t.skip(method.len() as int)));
    method == "GET"@ && path == "/metrics"@
}

proof fn lemma_first_word(s: Seq<char>)
    ensures
        first_word(s).len() <= s.len(),
    decreases s.len(),
{
    if s.len() > 0 {
        lemma_first_word(s.drop_first());
    }
}

/// Whether a request line asks for the metrics, the one resource there is.
pub fn wants_metrics(line: &str) -> (r: bool)
    ensures
        r == asks_for_metrics(line@),
{
    let text = trim(line);
    let method = leading_word(text.as_str());
    let chars = chars_of(text.as_str());
    proof {
        lemma_first_word(text@);
    }
    let rest = string_of(&chars, chars_of(method.as_str()).len(), chars.len());
    assert(rest@ =~= text@.skip(method@.len() as int));
    let after = trim(rest.as_str());
    let path = leading_word(after.as_str());
    same(method.as_str(), "GET") && same(path.as_str(), "/metrics")
}

/// Whether a header line ends the headers.
pub fn ends_headers(line: &str) -> (r: bool)
    ensures
        r == (line@.len() == 0 || line@ == "\r\n"@ || line@ == "\n"@),
{
    chars_of(line).len() == 0 || same(line, "\r\n") || same(line, "\n")
}

/// The answer to anything but a request for the metrics.
pub fn not_found() -> (s: String)
    ensures
        s@ == response_text("404 Not Found"@, "text/plain"@, "not found\n"@),
{
    respond("404 Not Found", "text/plain", "not found\n")
}

/// The answer to a request for the metrics: what the control socket said, byte
/// for byte, or that it could not be reached.
pub fn metrics(reply: Result<&str, &str>) -> (s: String)
    ensures
        s@ == match reply {
            Ok(body) => response_text("200 OK"@, "text/plain; version=0.0.4"@, body@),
            Err(error) => response_text(
                "502 Bad Gateway"@,
                "text/plain"@,
                "karstd: could not reach the control socket: "@ + error@ + "\n"@,
            ),
        },
{
    match reply {
        Ok(body) => respond("200 OK", "text/plain; version=0.0.4", body),
        Err(error) => {
            let mut body = String::from_str("karstd: could not reach the control socket: ");
            body.append(error);
            body.append("\n");
            respond("502 Bad Gateway", "text/plain", body.as_str())
        },
    }
}

/// The body of a good answer is the reply of the control socket, unchanged.
pub proof fn a_good_answer_ends_with_the_reply(body: Seq<char>)
    ensures
        ({
            let s = response_text("200 OK"@, "text/plain; version=0.0.4"@, body);
            s.skip(s.len() - body.len()) == body
        }),
{
    let s = response_text("200 OK"@, "text/plain; version=0.0.4"@, body);
    assert(s.skip(s.len() - body.len()) =~= body);
}

/// The metrics are asked for by a `GET` of `/metrics`: these are the first two
/// words of the request, whatever white space stands between and around them.
pub proof fn the_first_two_words_ask_for_the_metrics(
    line: &str,
    r: bool,
    text: String,
    t: &str,
    method: String,
    rest: &str,
    tail: String,
    u: &str,
    path: String,
)
    requires
        call_ensures(wants_metrics, (line,), r),
        call_ensures(trim, (line,), text),
        t@ == text@,
        call_ensures(leading_word, (t,), method),
        rest@ == t@.skip(method@.len() as int),
        call_ensures(trim, (rest,), tail),
        u@ == tail@,
        call_ensures(leading_word, (u,), path),
    ensures
        r <==> method@ == "GET"@ && path@ == "/metrics"@,
{
}

/// The headers end with an empty line, or with the end of the request.
pub proof fn an_empty_line_ends_the_headers(line: &str, r: bool)
    requires
        call_ensures(ends_headers, (line,), r),
    ensures
        r <==> line@.len() == 0 || line@ == seq!['\n'] || line@ == seq!['\r', '\n'],
{
    reveal_strlit("\r\n");
    reveal_strlit("\n");
    assert("\r\n"@ =~= seq!['\r', '\n']);
    assert("\n"@ =~= seq!['\n']);
}

/// A reply is sent as it is, and its length is given in bytes; without one the
/// answer says why, and anything else that is asked for is not found.
pub proof fn an_answer_gives_its_length(
    body: &str,
    good: String,
    size: usize,
    length: String,
    error: &str,
    bad: String,
    complaint: &str,
    bad_size: usize,
    bad_length: String,
    none: String,
    nothing: &str,
    none_size: usize,
    none_length: String,
)
    requires
        call_ensures(metrics, (Ok::<&str, &str>(body),), good),
        call_ensures(byte_count, (body,), size),
        call_ensures(decimal, (size as u64,), length),
        call_ensures(metrics, (Err::<&str, &str>(error),), bad),
        complaint@ == "karstd: could not reach the control socket: "@ + error@ + "\n"@,
        call_ensures(byte_count, (complaint,), bad_size),
        call_ensures(decimal, (bad_size as u64,), bad_length),
        call_ensures(not_found, (), none),
        nothing@ == "not found\n"@,
        call_ensures(byte_count, (nothing,), none_size),
        call_ensures(decimal, (none_size as u64,), none_length),
    ensures
        good@ == "HTTP/1.1 "@ + "200 OK"@ + "\r\nContent-Type: "@ + "text/plain; version=0.0.4"@
            + "\r\nContent-Length: "@ + length@ + "\r\nConnection: close\r\n\r\n"@ + body@,
        bad@ == "HTTP/1.1 "@ + "502 Bad Gateway"@ + "\r\nContent-Type: "@ + "text/plain"@
            + "\r\nContent-Length: "@ + bad_length@ + "\r\nConnection: close\r\n\r\n"@ + complaint@,
        none@ == "HTTP/1.1 "@ + "404 Not Found"@ + "\r\nContent-Type: "@ + "text/plain"@
            + "\r\nContent-Length: "@ + none_length@ + "\r\nConnection: close\r\n\r\n"@ + nothing@,
        size == encode_utf8(body@).len(),
{
}

} // verus!
