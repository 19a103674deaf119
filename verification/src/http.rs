//! The minimal HTTP/1.1 exchange with the iOS agent: the request text, how
//! the reply's status and body are read, and which statuses count as success.
use vstd::prelude::*;
use crate::number::{decimal, format_u64, parse_u16, parse_u16_spec};
use crate::text::{
    lines, lines_spec, push_chars, push_str, result_view, slice_chars, split_whitespace, trim,
    trim_spec, utf8_len, utf8_length, views, words_spec,
};

verus! {

/// The request text: request line, `Host`, `Connection: close`, and for a
/// request with a body, its JSON content type and its length in bytes.
pub open spec fn request_spec(
    method: Seq<char>,
    path: Seq<char>,
    body: Option<Seq<char>>,
    host: Seq<char>,
) -> Seq<char> {
    method + " "@ + path + " HTTP/1.1\r\nHost: "@ + host + "\r\nConnection: close\r\n"@ + match body {
        Some(b) => "Content-Type: application/json\r\n"@ + "Content-Length: "@ + decimal(
            utf8_len(b),
        ) + "\r\n"@ + "\r\n"@ + b,
        None => "\r\n"@,
    }
}

pub fn build_request(method: &[char], path: &[char], body: Option<&[char]>, host: &[char]) -> (r:
    Vec<char>)
    requires
        body matches Some(b) ==> 4 * b@.len() <= usize::MAX,
    ensures
        r@ == request_spec(
            method@,
            path@,
            match body {
                Some(b) => Some(b@),
                None => None,
            },
            host@,
        ),
{
    let mut r: Vec<char> = Vec::new();
    push_chars(&mut r, method);
    push_str(&mut r, " ");
    push_chars(&mut r, path);
    push_str(&mut r, " HTTP/1.1\r\nHost: ");
    push_chars(&mut r, host);
    push_str(&mut r, "\r\nConnection: close\r\n");
    let ghost head = r@;
    match body {
        Some(b) => {
            push_str(&mut r, "Content-Type: application/json\r\n");
            push_str(&mut r, "Content-Length: ");
            let n = utf8_length(b);
            let d = format_u64(n as u64);
            push_chars(&mut r, d.as_slice());
            push_str(&mut r, "\r\n");
            push_str(&mut r, "\r\n");
            push_chars(&mut r, b);
        },
        None => {
            push_str(&mut r, "\r\n");
        },
    }
    r
}

/// The first position at or after `p` where `pat` occurs in `s`.
pub open spec fn find_text(s: Seq<char>, pat: Seq<char>, p: int) -> Option<int>
    decreases s.len() + 1 - p,
{
    if p < 0 || p + pat.len() > s.len() {
        None
    } else if s.subrange(p, p + pat.len()) == pat {
        Some(p)
    } else {
        find_text(s, pat, p + 1)
    }
}

/// The head and the body of a reply: the text before and after the first
/// blank line; without one, all of it is head.
pub open spec fn split_reply(text: Seq<char>) -> (Seq<char>, Seq<char>) {
    match find_text(text, "\r\n\r\n"@, 0) {
        Some(p) => (text.subrange(0, p), text.subrange(p + 4, text.len() as int)),
        None => (text, Seq::empty()),
    }
}

/// The status of a reply head: the second word of its first line read as a
/// number, or 0 when there is none.
pub open spec fn status_spec(head: Seq<char>) -> u16 {
    let ls = lines_spec(head);
    if ls.len() == 0 {
        0
    } else {
        let w = words_spec(ls[0]);
        if w.len() >= 2 {
            match parse_u16_spec(w[1]) {
                Some(n) => n,
                None => 0,
            }
        } else {
            0
        }
    }
}

fn find_text_exec(s: &[char], pat: &[char]) -> (r: Option<usize>)
    ensures
        match find_text(s@, pat@, 0) {
            Some(p) => r == Some(p as usize),
            None => r is None,
        },
        r matches Some(p) ==> p + pat@.len() <= s@.len() && find_text(s@, pat@, 0) == Some(p as int),
{
    proof {
        lemma_find_text_bounds(s@, pat@, 0);
    }
    let n = s.len();
    let m = pat.len();
    let mut p: usize = 0;
    while p <= n && m <= n - p
        invariant
            n == s.len(),
            m == pat.len(),
            find_text(s@, pat@, p as int) == find_text(s@, pat@, 0),
        decreases n - p,
    {
        let mut k: usize = 0;
        let mut ok = true;
        while ok && k < m
            invariant
                n == s.len(),
                m == pat.len(),
                p + m <= n,
                k <= m,
                ok ==> forall|t: int| 0 <= t < k ==> s@[p + t] == pat@[t],
                !ok ==> s@.subrange(p as int, p + m) != pat@,
            decreases m - k + (if ok { 1int } else { 0int }),
        {
            if s[p + k] != pat[k] {
                ok = false;
                assert(s@.subrange(p as int, p + m)[k as int] == s@[p + k]);
            } else {
                k = k + 1;
            }
        }
        if ok {
            assert(s@.subrange(p as int, p + m) =~= pat@);
            return Some(p);
        }
        assert(m > 0) by {
            if m == 0 {
                assert(s@.subrange(p as int, p as int) =~= pat@);
            }
        }
        p = p + 1;
    }
    None
}

/// Reads a reply: its status (0 when none can be read) and its body.
pub fn parse_response(text: &[char]) -> (r: (u16, Vec<char>))
    ensures
        r.0 == status_spec(split_reply(text@).0),
        r.1@ == split_reply(text@).1,
{
    let sep = crate::text::chars_of("\r\n\r\n");
    proof {
        reveal_strlit("\r\n\r\n");
    }
    assert(sep@.len() == 4);
    let n = text.len();
    let found = find_text_exec(text, sep.as_slice());
    let mut head: Vec<char> = Vec::new();
    let mut body: Vec<char> = Vec::new();
    match found {
        Some(p) => {
            assert(p + 4 <= text@.len());
            head = slice_chars(text, 0, p);
            body = slice_chars(text, p + 4, n);
        },
        None => {
            head = crate::text::copy_chars(text);
        },
    }
    assert(head@ == split_reply(text@).0);
    assert(body@ == split_reply(text@).1);
    let ls = lines(head.as_slice());
    let mut status: u16 = 0;
    if ls.len() > 0 {
        assert(views(ls@)[0] == ls@[0]@);
        let w = split_whitespace(ls[0].as_slice());
        if w.len() >= 2 {
            assert(views(w@)[1] == w@[1]@);
            match parse_u16(w[1].as_slice()) {
                Some(n) => {
                    status = n;
                },
                None => {},
            }
        }
    }
    (status, body)
}

proof fn lemma_find_text_bounds(s: Seq<char>, pat: Seq<char>, p: int)
    requires
        0 <= p,
    ensures
        find_text(s, pat, p) matches Some(q) ==> p <= q && q + pat.len() <= s.len(),
    decreases s.len() + 1 - p,
{
    if p + pat.len() <= s.len() && s.subrange(p, p + pat.len()) != pat {
        lemma_find_text_bounds(s, pat, p + 1);
    }
}

/// How a reply to `method path` is judged: a 2xx status gives its body,
/// any other status an error naming the request, the status and the body.
pub open spec fn reply_spec(method: Seq<char>, path: Seq<char>, status: u16, body: Seq<char>) -> Result<
    Seq<char>,
    Seq<char>,
> {
    if 200 <= status < 300 {
        Ok(body)
    } else {
        Err("WDA "@ + method + " "@ + path + " -> "@ + decimal(status as nat) + ": "@ + trim_spec(body))
    }
}

fn judge(method: &str, path: &[char], status: u16, body: Vec<char>) -> (r: Result<Vec<char>, Vec<char>>)
    ensures
        result_view(r) == reply_spec(method@, path@, status, body@),
{
    if 200 <= status && status < 300 {
        Ok(body)
    } else {
        let mut m = crate::text::chars_of("WDA ");
        push_str(&mut m, method);
        push_str(&mut m, " ");
        push_chars(&mut m, path);
        push_str(&mut m, " -> ");
        let d = format_u64(status as u64);
        push_chars(&mut m, d.as_slice());
        push_str(&mut m, ": ");
        let t = trim(body.as_slice());
        push_chars(&mut m, t.as_slice());
        Err(m)
    }
}

/// The outcome of a POST to `path` that was answered with `status` and `body`.
pub fn post(path: &[char], status: u16, body: Vec<char>) -> (r: Result<Vec<char>, Vec<char>>)
    ensures
        result_view(r) == reply_spec("POST"@, path@, status, body@),
{
    judge("POST", path, status, body)
}

/// The outcome of a GET of `path` that was answered with `status` and `body`.
pub fn get(path: &[char], status: u16, body: Vec<char>) -> (r: Result<Vec<char>, Vec<char>>)
    ensures
        result_view(r) == reply_spec("GET"@, path@, status, body@),
{
    judge("GET", path, status, body)
}

/// A reply is a success exactly when its status is in `200..300`, whatever
/// the method, path and body: a success gives the body unchanged, and any
/// other status (a 404 for a stale session among them) is an error that
/// names the request and the status.
pub proof fn lemma_reply_success_iff_2xx(method: Seq<char>, path: Seq<char>, status: u16, body: Seq<char>)
    ensures
        (reply_spec(method, path, status, body) is Ok) == (200 <= status < 300),
        reply_spec(method, path, status, body) is Ok ==> reply_spec(method, path, status, body)->Ok_0
            == body,
        reply_spec(method, path, status, body) is Err ==> reply_spec(method, path, status, body)->Err_0
            == "WDA "@ + method + " "@ + path + " -> "@ + decimal(status as nat) + ": "@ + trim_spec(
            body,
        ),
{
}

} // verus!
