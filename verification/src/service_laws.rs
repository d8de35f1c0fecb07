//! What holds of the services.
use vstd::prelude::*;
use vstd::utf8::encode_utf8;

use crate::http::{
    blank_line_at, first_line, has_blank_line, http_answer, http_behaviour, page_body, page_bytes,
    page_head,
};
use crate::service::{echo_behaviour, Answer, Farewell, ServiceView};
use crate::text::{decimal, digits_value, text_in};
use crate::text_laws::law_decimal_reads_back;

verus! {

/// The echo service returns what it gets, never closes, and remembers
/// nothing of it.
pub proof fn law_echo_returns_what_it_gets(memory: Seq<u8>, data: Seq<u8>, answer: Answer)
    requires
        (ServiceView { behaviour: echo_behaviour(), memory }).may_answer(data, answer),
    ensures
        answer.reply == data,
        !answer.close,
        answer.memory == memory,
{
}

/// The HTTP service says nothing and keeps the connection open until the
/// blank line has come; with it comes the page, and the close.
pub proof fn law_http_answers_on_the_blank_line(
    memory: Seq<u8>,
    data: Seq<u8>,
    answer: Answer,
)
    requires
        (ServiceView { behaviour: http_behaviour(), memory }).may_answer(data, answer),
    ensures
        answer.close == has_blank_line(memory + data),
        !answer.close ==> answer.reply.len() == 0,
        answer.close ==> answer.reply == page_bytes(text_in(memory + data)),
{
}

/// It does not matter into how many pieces a request is cut: when the first
/// does not complete its head, both together are answered as the whole is.
pub proof fn law_http_gathers_the_request(memory: Seq<u8>, first: Seq<u8>, second: Seq<u8>)
    requires
        !has_blank_line(memory + first),
    ensures
        http_answer(http_answer(memory, first).memory, second) == http_answer(
            memory,
            first + second,
        ),
{
    assert((memory + first) + second =~= memory + (first + second));
}

/// A request that holds the blank line still does with more data after it.
pub proof fn law_blank_line_stays(request: Seq<u8>, more: Seq<u8>)
    requires
        has_blank_line(request),
    ensures
        has_blank_line(request + more),
{
    let i = choose|i: int| blank_line_at(request, i);
    assert(blank_line_at(request + more, i));
}

/// The length that the head of the page announces is that of the body after
/// it.
pub proof fn law_http_content_length(request: Seq<char>)
    ensures
        page_bytes(request) == encode_utf8(page_head(request)) + encode_utf8(page_body(request)),
{
    lemma_encode_concat(page_head(request), page_body(request));
}

proof fn lemma_encode_concat(a: Seq<char>, b: Seq<char>)
    ensures
        encode_utf8(a + b) == encode_utf8(a) + encode_utf8(b),
    decreases a.len(),
{
    if a.len() == 0 {
        assert(a + b =~= b);
        assert(encode_utf8(a) =~= Seq::empty());
    } else {
        lemma_encode_concat(a.drop_first(), b);
        assert((a + b).drop_first() =~= a.drop_first() + b);
    }
}

/// The echo service answers in one way, and takes leave in silence.
pub proof fn law_echo_is_simple(memory: Seq<u8>, data: Seq<u8>, answer: Answer, farewell: Farewell)
    ensures
        ({
            let echo = ServiceView { behaviour: echo_behaviour(), memory };
            &&& echo.may_answer(data, answer) <==> {
                &&& answer.reply == data
                &&& !answer.close
                &&& answer.memory == memory
            }
            &&& echo.may_leave(farewell) <==> {
                &&& farewell.bytes == Seq::<u8>::empty()
                &&& farewell.memory == memory
            }
        }),
{
    assert(farewell.bytes.len() == 0 ==> farewell.bytes =~= Seq::empty());
}

/// A request whose bytes hold a carriage return, a line feed, a carriage
/// return and a line feed in a row is answered by the page and the close,
/// whatever stands before and after them and however much of it came before.
pub proof fn law_http_answers_every_complete_request(
    memory: Seq<u8>,
    data: Seq<u8>,
    head: Seq<u8>,
    rest: Seq<u8>,
    answer: Answer,
)
    requires
        memory + data == head + seq![13u8, 10, 13, 10] + rest,
    ensures
        (ServiceView { behaviour: http_behaviour(), memory }).may_answer(data, answer) <==> {
            &&& answer.reply == page_bytes(text_in(memory + data))
            &&& answer.close
            &&& answer.memory == memory + data
        },
{
    let all = head + seq![13u8, 10, 13, 10] + rest;
    let n = head.len() as int;
    assert(all[n] == 13 && all[n + 1] == 10 && all[n + 2] == 13 && all[n + 3] == 10);
    assert(blank_line_at(memory + data, n));
}

/// A request without these four bytes in a row is only gathered.
pub proof fn law_http_waits_for_the_rest(memory: Seq<u8>, data: Seq<u8>, answer: Answer)
    requires
        forall|i: int|
            0 <= i <= memory.len() + data.len() - 4 ==> #[trigger] (memory + data).subrange(
                i,
                i + 4,
            ) != seq![13u8, 10, 13, 10],
    ensures
        (ServiceView { behaviour: http_behaviour(), memory }).may_answer(data, answer) <==> {
            &&& answer.reply == Seq::<u8>::empty()
            &&& !answer.close
            &&& answer.memory == memory + data
        },
{
    let all = memory + data;
    assert forall|i: int| !#[trigger] blank_line_at(all, i) by {
        if blank_line_at(all, i) {
            assert(all.subrange(i, i + 4) =~= seq![13u8, 10, 13, 10]);
        }
    }
}

/// The HTTP service takes leave in silence.
pub proof fn law_http_leaves_in_silence(memory: Seq<u8>, farewell: Farewell)
    ensures
        (ServiceView { behaviour: http_behaviour(), memory }).may_leave(farewell) <==> {
            &&& farewell.bytes == Seq::<u8>::empty()
            &&& farewell.memory == memory
        },
{
    assert(farewell.bytes.len() == 0 ==> farewell.bytes =~= Seq::empty());
}

/// The first line of a text ends at its first line feed, or at the carriage
/// return before it; a text without a line feed is one line.
pub proof fn law_first_line(line: Seq<char>, rest: Seq<char>)
    requires
        forall|i: int| 0 <= i < line.len() ==> #[trigger] line[i] != '\n',
    ensures
        first_line(line) == line,
        line.len() == 0 || line.last() != '\r' ==> first_line(line + seq!['\n'] + rest) == line,
        first_line(line + seq!['\r', '\n'] + rest) == line,
{
    line.index_of_first_ensures('\n');
    let a = line + seq!['\n'] + rest;
    a.index_of_first_ensures('\n');
    assert(a[line.len() as int] == '\n');
    assert(a.contains('\n'));
    let n = a.index_of_first('\n')->0;
    assert(n <= line.len());
    assert(n == line.len()) by {
        if n < line.len() {
            assert(a[n] == line[n]);
        }
    }
    assert(a.take(n) =~= line);
    if n > 0 {
        assert(a[n - 1] == line.last());
    }
    let b = line + seq!['\r', '\n'] + rest;
    b.index_of_first_ensures('\n');
    assert(b[line.len() as int + 1] == '\n');
    assert(b.contains('\n'));
    let k = b.index_of_first('\n')->0;
    assert(k == line.len() + 1) by {
        assert(k <= line.len() + 1);
        if k < line.len() {
            assert(b[k] == line[k]);
        } else if k == line.len() {
            assert(b[k] == '\r');
        }
    }
    assert(b[k - 1] == '\r');
    assert(b.take(k - 1) =~= line);
}

/// The page word for word: a head that announces the length of what follows
/// it in bytes, a blank line, and a body that shows the first line of the
/// request.
pub proof fn law_page_word_for_word(request: Seq<char>)
    ensures
        ({
            let body = encode_utf8(
                "<html><body><h1>hello from rustnet</h1><p>you asked for: "@ + first_line(request)
                    + "</p></body></html>\n"@,
            );
            page_bytes(request) == encode_utf8(
                "HTTP/1.1 200 OK\r\nContent-Type: text/html\r\nContent-Length: "@ + decimal(
                    body.len(),
                ) + "\r\nConnection: close\r\n\r\n"@,
            ) + body
        }),
{
    lemma_encode_concat(page_head(request), page_body(request));
}

/// The number that the head of the page announces is that of the bytes after
/// it.
pub proof fn law_announced_length_is_right(request: Seq<char>)
    ensures
        exists|digits: Seq<char>|
            {
                let head = encode_utf8(
                    "HTTP/1.1 200 OK\r\nContent-Type: text/html\r\nContent-Length: "@ + digits
                        + "\r\nConnection: close\r\n\r\n"@,
                );
                &&& head == page_bytes(request).take(head.len() as int)
                &&& head.len() <= page_bytes(request).len()
                &&& #[trigger] digits_value(digits) == Some(
                    (page_bytes(request).len() - head.len()) as nat,
                )
            },
{
    law_page_word_for_word(request);
    let body = encode_utf8(page_body(request));
    let digits = decimal(body.len());
    law_decimal_reads_back(body.len());
    let head = encode_utf8(
        "HTTP/1.1 200 OK\r\nContent-Type: text/html\r\nContent-Length: "@ + digits
            + "\r\nConnection: close\r\n\r\n"@,
    );
    assert(page_bytes(request) == head + body);
    assert((head + body).take(head.len() as int) =~= head);
    assert(digits_value(digits) == Some((page_bytes(request).len() - head.len()) as nat));
}

} // verus!
