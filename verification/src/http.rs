//! The HTTP service: a small page for any request.
use vstd::prelude::*;
use vstd::std_specs::iter::IteratorSpec;
use vstd::string::{StrSliceExecFns, StringExecFns};
use vstd::utf8::encode_utf8;

use crate::service::{Answer, Behaviour, Farewell, Service};
use crate::text::{decimal, push_decimal, text_in, text_of};
use crate::wire::push_bytes;

verus! {

/// Whether a request holds the blank line that ends its head.
pub open spec fn has_blank_line(request: Seq<u8>) -> bool {
    exists|i: int| #[trigger] blank_line_at(request, i)
}

/// Whether two line ends in a row stand at place `i`.
pub open spec fn blank_line_at(s: Seq<u8>, i: int) -> bool {
    &&& 0 <= i
    &&& i + 4 <= s.len()
    &&& s[i] == 13
    &&& s[i + 1] == 10
    &&& s[i + 2] == 13
    &&& s[i + 3] == 10
}

/// The first line of a text, without the line feed, or the carriage return
/// and line feed, that ends it.
pub open spec fn first_line(t: Seq<char>) -> Seq<char> {
    match t.index_of_first('\n') {
        Some(n) => if n > 0 && t[n - 1] == '\r' {
            t.take(n - 1)
        } else {
            t.take(n)
        },
        None => t,
    }
}

/// The page for a request, given as text.
pub open spec fn page_body(request: Seq<char>) -> Seq<char> {
    "<html><body><h1>hello from rustnet</h1><p>you asked for: "@ + first_line(request)
        + "</p></body></html>\n"@
}

/// The head of the response to a request, given as text.
pub open spec fn page_head(request: Seq<char>) -> Seq<char> {
    "HTTP/1.1 200 OK\r\nContent-Type: text/html\r\nContent-Length: "@ + decimal(
        encode_utf8(page_body(request)).len(),
    ) + "\r\nConnection: close\r\n\r\n"@
}

/// The response to a request, given as text.
pub open spec fn page_bytes(request: Seq<char>) -> Seq<u8> {
    encode_utf8(page_head(request) + page_body(request))
}

/// The first line of a text.
fn line_of<'a>(text: &'a str) -> (line: &'a str)
    ensures
        line@ == first_line(text@),
{
    let total: usize = text.unicode_len();
    let mut chars = text.chars();
    let mut n: usize = 0;
    let mut after_return: bool = false;
    assert(text@.skip(0) =~= text@);
    while n < total
        invariant
            n <= total,
            total == text@.len(),
            chars.obeys_prophetic_iter_laws(),
            chars.remaining() == text@.skip(n as int),
            forall|i: int| 0 <= i < n ==> text@[i] != '\n',
            after_return == (n > 0 && text@[n - 1] == '\r'),
        decreases total - n,
    {
        match chars.next() {
            Some(c) => {
                assert(text@.skip(n as int).drop_first() =~= text@.skip(n + 1));
                if c == '\n' {
                    proof {
                        text@.index_of_first_ensures('\n');
                        assert(text@.contains('\n'));
                        let k = text@.index_of_first('\n')->0;
                        if k != n {
                            assert(text@[k] == '\n');
                            assert(false);
                        }
                    }
                    if after_return {
                        return text.substring_char(0, n - 1);
                    }
                    return text.substring_char(0, n);
                }
                after_return = c == '\r';
                n = n + 1;
            },
            None => {
                assert(false);
            },
        }
    }
    proof {
        text@.index_of_first_ensures('\n');
    }
    text
}

/// The response to a request, given as text.
pub fn page(request: &str) -> (out: Vec<u8>)
    ensures
        out@ == page_bytes(request@),
{
    let mut body = String::new();
    body.append("<html><body><h1>hello from rustnet</h1><p>you asked for: ");
    body.append(line_of(request));
    body.append("</p></body></html>\n");
    assert(body@ =~= page_body(request@));
    let mut response = String::new();
    response.append("HTTP/1.1 200 OK\r\nContent-Type: text/html\r\nContent-Length: ");
    push_decimal(&mut response, body.as_str().as_bytes().len());
    response.append("\r\nConnection: close\r\n\r\n");
    assert(response@ =~= page_head(request@));
    response.append(body.as_str());
    response.as_str().as_bytes_vec()
}

/// Looks for the blank line that ends the head of a request.
fn ends_head(request: &Vec<u8>) -> (found: bool)
    ensures
        found == has_blank_line(request@),
{
    let mut i: usize = 0;
    while i < request.len() && request.len() - i >= 4
        invariant
            i <= request.len(),
            forall|j: int| 0 <= j < i ==> !#[trigger] blank_line_at(request@, j),
        decreases request.len() - i,
    {
        if request[i] == 13 && request[i + 1] == 10 && request[i + 2] == 13 && request[i + 3]
            == 10 {
            assert(blank_line_at(request@, i as int));
            return true;
        }
        i = i + 1;
    }
    false
}

/// What the HTTP service answers: nothing until the head of the request is
/// complete, then the page.
pub open spec fn http_answer(memory: Seq<u8>, data: Seq<u8>) -> Answer {
    let request = memory + data;
    if has_blank_line(request) {
        Answer { reply: page_bytes(text_in(request)), close: true, memory: request }
    } else {
        Answer { reply: Seq::empty(), close: false, memory: request }
    }
}

/// How the HTTP service behaves.
pub open spec fn http_behaviour() -> Behaviour {
    Behaviour {
        on_data: |memory: Seq<u8>, data: Seq<u8>, answer: Answer|
            answer == http_answer(memory, data),
        on_peer_close: |memory: Seq<u8>, farewell: Farewell| false,
    }
}

/// Answers any HTTP request with a small page, then closes.
pub struct Http {
    request: Vec<u8>,
}

impl Http {
    pub fn new() -> (http: Self)
        ensures
            http.memory() == Seq::<u8>::empty(),
            http.behaviour() == http_behaviour(),
    {
        Http { request: Vec::new() }
    }
}

impl Default for Http {
    fn default() -> (http: Self)
        ensures
            http.memory() == Seq::<u8>::empty(),
            http.behaviour() == http_behaviour(),
    {
        Self::new()
    }
}

impl Service for Http {
    open spec fn behaviour(&self) -> Behaviour {
        http_behaviour()
    }

    closed spec fn memory(&self) -> Seq<u8> {
        self.request@
    }

    fn on_data(&mut self, data: &[u8]) -> (r: (Vec<u8>, bool))
        ensures
            (Answer { reply: r.0@, close: r.1, memory: final(self).memory() }) == http_answer(
                old(self).memory(),
                data@,
            ),
    {
        push_bytes(&mut self.request, data);
        if !ends_head(&self.request) {
            return (Vec::new(), false);
        }
        let text: String = text_of(self.request.as_slice());
        (page(text.as_str()), true)
    }
}

} // verus!
