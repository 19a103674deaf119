//! Extraction of single fields from the agent's JSON replies by scanning
//! their bytes: the value that follows the first `"key"`, either a string
//! (with `\n`, `\t`, `\r` and other backslash escapes) or a number's text.
use vstd::prelude::*;
use crate::text::{is_white, is_whitespace};

verus! {

/// `"key"`, the text searched for.
pub open spec fn needle(key: Seq<u8>) -> Seq<u8> {
    seq![34u8] + key + seq![34u8]
}

pub open spec fn matches_at(b: Seq<u8>, n: Seq<u8>, p: int) -> bool {
    0 <= p && p + n.len() <= b.len() && b.subrange(p, p + n.len()) == n
}

/// The first position at or after `p` where `n` occurs in `b`.
pub open spec fn find_first(b: Seq<u8>, n: Seq<u8>, p: int) -> Option<int>
    decreases b.len() + 1 - p,
{
    if p < 0 || p + n.len() > b.len() {
        None
    } else if matches_at(b, n, p) {
        Some(p)
    } else {
        find_first(b, n, p + 1)
    }
}

/// The first position at or after `i` holding `:`, or the length of `b`.
pub open spec fn colon_from(b: Seq<u8>, i: int) -> int
    decreases b.len() - i,
{
    if 0 <= i < b.len() && b[i] != 58u8 {
        colon_from(b, i + 1)
    } else {
        i
    }
}

/// The first position at or after `i` whose byte, read as a character, is not
/// whitespace.
pub open spec fn skip_ws(b: Seq<u8>, i: int) -> int
    decreases b.len() - i,
{
    if 0 <= i < b.len() && is_white(b[i] as char) {
        skip_ws(b, i + 1)
    } else {
        i
    }
}

/// Where the value of the first `"key"` begins: after the next `:` and any
/// whitespace. When no `:` follows, this is one past the end.
pub open spec fn value_pos(b: Seq<u8>, key: Seq<u8>) -> Option<int> {
    match find_first(b, needle(key), 0) {
        None => None,
        Some(p) => Some(skip_ws(b, colon_from(b, p + needle(key).len()) + 1)),
    }
}

/// The byte an escape `\x` stands for.
pub open spec fn unescaped(x: u8) -> u8 {
    if x == 110u8 {
        10u8
    } else if x == 116u8 {
        9u8
    } else if x == 114u8 {
        13u8
    } else {
        x
    }
}

/// The string body from position `i` up to the closing quote or the end of
/// the text, escapes resolved; a backslash as the very last byte stays.
pub open spec fn string_body(b: Seq<u8>, i: int) -> Seq<u8>
    decreases b.len() - i,
{
    if i < 0 || i >= b.len() {
        Seq::empty()
    } else if b[i] == 92u8 && i + 1 < b.len() {
        seq![unescaped(b[i + 1])] + string_body(b, i + 2)
    } else if b[i] == 34u8 {
        Seq::empty()
    } else {
        seq![b[i]] + string_body(b, i + 1)
    }
}

/// The bytes of the string value of `"key"`, when there is one.
pub open spec fn json_str_bytes(b: Seq<u8>, key: Seq<u8>) -> Option<Seq<u8>> {
    match value_pos(b, key) {
        None => None,
        Some(w) => if w < b.len() && b[w] == 34u8 {
            Some(string_body(b, w + 1))
        } else {
            None
        },
    }
}

/// Each byte read as the character with that code.
pub open spec fn byte_chars(s: Seq<u8>) -> Seq<char> {
    s.map_values(|c: u8| c as char)
}

pub open spec fn is_number_byte(c: u8) -> bool {
    (48 <= c <= 57) || c == 46u8 || c == 45u8 || c == 43u8 || c == 101u8 || c == 69u8
}

/// The end of the run of number bytes (digits, `.`, `-`, `+`, `e`, `E`)
/// that begins at `i`.
pub open spec fn number_end(b: Seq<u8>, i: int) -> int
    decreases b.len() - i,
{
    if 0 <= i < b.len() && is_number_byte(b[i]) {
        number_end(b, i + 1)
    } else {
        i
    }
}

/// Whether the number text of `"key"` can be taken: the key is missing, or a
/// `:` follows it.
pub open spec fn number_field_in_bounds(b: Seq<u8>, key: Seq<u8>) -> bool {
    match value_pos(b, key) {
        None => true,
        Some(w) => w <= b.len(),
    }
}

/// The text of the number value of `"key"`, when the key occurs.
pub open spec fn json_num_bytes(b: Seq<u8>, key: Seq<u8>) -> Option<Seq<u8>> {
    match value_pos(b, key) {
        None => None,
        Some(w) => Some(b.subrange(w, number_end(b, w))),
    }
}

proof fn lemma_colon_from_bounds(b: Seq<u8>, i: int)
    requires
        0 <= i <= b.len(),
    ensures
        i <= colon_from(b, i) <= b.len(),
        colon_from(b, i) < b.len() ==> b[colon_from(b, i)] == 58u8,
    decreases b.len() - i,
{
    if i < b.len() && b[i] != 58u8 {
        lemma_colon_from_bounds(b, i + 1);
    }
}

proof fn lemma_skip_ws_bounds(b: Seq<u8>, i: int)
    requires
        0 <= i,
    ensures
        i <= skip_ws(b, i),
        i <= b.len() ==> skip_ws(b, i) <= b.len(),
        i > b.len() ==> skip_ws(b, i) == i,
    decreases b.len() - i,
{
    if 0 <= i < b.len() && is_white(b[i] as char) {
        lemma_skip_ws_bounds(b, i + 1);
    }
}

proof fn lemma_number_end_bounds(b: Seq<u8>, i: int)
    requires
        0 <= i <= b.len(),
    ensures
        i <= number_end(b, i) <= b.len(),
    decreases b.len() - i,
{
    if i < b.len() && is_number_byte(b[i]) {
        lemma_number_end_bounds(b, i + 1);
    }
}

/// Where a value begins: `None` when the key is missing, `Some(None)` when no
/// `:` follows it, else `Some(Some(w))`.
fn locate_value(b: &[u8], key: &[u8]) -> (r: Option<Option<usize>>)
    ensures
        match value_pos(b@, key@) {
            None => r is None,
            Some(w) => if w <= b@.len() {
                r == Some(Some(w as usize))
            } else {
                r == Some(Option::<usize>::None)
            },
        },
        r matches Some(Some(w)) ==> value_pos(b@, key@) == Some(w as int) && w <= b@.len(),
{
    let mut n: Vec<u8> = Vec::new();
    n.push(34u8);
    let mut j: usize = 0;
    while j < key.len()
        invariant
            j <= key.len(),
            n@ == seq![34u8] + key@.subrange(0, j as int),
        decreases key.len() - j,
    {
        n.push(key[j]);
        j = j + 1;
    }
    n.push(34u8);
    assert(n@ =~= needle(key@));
    let bl = b.len();
    let nl = n.len();
    let mut p: usize = 0;
    let mut found = false;
    while !found && p <= bl && nl <= bl - p
        invariant
            bl == b.len(),
            nl == n@.len(),
            n@ == needle(key@),
            find_first(b@, n@, p as int) == find_first(b@, n@, 0),
            found ==> matches_at(b@, n@, p as int),
        decreases bl - p + (if found { 0int } else { 1int }),
    {
        let mut k: usize = 0;
        let mut ok = true;
        while ok && k < nl
            invariant
                bl == b.len(),
                nl == n@.len(),
                p + nl <= bl,
                k <= nl,
                ok ==> forall|t: int| 0 <= t < k ==> b@[p + t] == n@[t],
                !ok ==> !matches_at(b@, n@, p as int),
            decreases nl - k + (if ok { 1int } else { 0int }),
        {
            if b[p + k] != n[k] {
                ok = false;
                assert(b@.subrange(p as int, p + nl)[k as int] == b@[p + k]);
            } else {
                k = k + 1;
            }
        }
        if ok {
            assert(b@.subrange(p as int, p + nl) =~= n@);
            found = true;
        } else {
            p = p + 1;
        }
    }
    if !found {
        assert(find_first(b@, n@, p as int) is None);
        return None;
    }
    assert(find_first(b@, n@, 0) == Some(p as int));
    let mut i: usize = p + nl;
    proof {
        lemma_colon_from_bounds(b@, i as int);
    }
    while i < bl && b[i] != 58u8
        invariant
            bl == b.len(),
            p + nl <= i <= bl,
            colon_from(b@, i as int) == colon_from(b@, (p + nl) as int),
        decreases bl - i,
    {
        i = i + 1;
    }
    if i >= bl {
        proof {
            lemma_skip_ws_bounds(b@, bl + 1);
        }
        return Some(None);
    }
    let mut w: usize = i + 1;
    while w < bl && is_whitespace(b[w] as char)
        invariant
            bl == b.len(),
            i < w <= bl,
            skip_ws(b@, w as int) == skip_ws(b@, i + 1),
        decreases bl - w,
    {
        w = w + 1;
    }
    Some(Some(w))
}

fn unescaped_exec(x: u8) -> (r: u8)
    ensures
        r == unescaped(x),
{
    if x == 110u8 {
        10u8
    } else if x == 116u8 {
        9u8
    } else if x == 114u8 {
        13u8
    } else {
        x
    }
}

/// The bytes of the string value of `"key"` in `body`.
pub fn json_str_raw(body: &[u8], key: &[u8]) -> (r: Option<Vec<u8>>)
    ensures
        match json_str_bytes(body@, key@) {
            None => r is None,
            Some(s) => r matches Some(v) && v@ == s,
        },
{
    let w = match locate_value(body, key) {
        None => {
            return None;
        },
        Some(None) => {
            return None;
        },
        Some(Some(w)) => w,
    };
    let n = body.len();
    if w >= n || body[w] != 34u8 {
        return None;
    }
    let mut out: Vec<u8> = Vec::new();
    let mut i: usize = w + 1;
    let mut closed = false;
    while !closed && i < n
        invariant
            n == body.len(),
            w < i <= n + 1,
            out@ + string_body(body@, i as int) == string_body(body@, w + 1),
            closed ==> string_body(body@, i as int) == Seq::<u8>::empty(),
        decreases n + 1 - i + (if closed { 0int } else { 1int }),
    {
        let c = body[i];
        if c == 92u8 && i + 1 < n {
            let e = unescaped_exec(body[i + 1]);
            let ghost before = out@;
            out.push(e);
            assert(out@ + string_body(body@, i + 2) =~= before + string_body(body@, i as int));
            i = i + 2;
            continue;
        }
        if c == 34u8 {
            closed = true;
        } else {
            let ghost before = out@;
            out.push(c);
            assert(out@ + string_body(body@, i + 1) =~= before + string_body(body@, i as int));
            i = i + 1;
        }
    }
    assert(out@ =~= out@ + string_body(body@, i as int));
    Some(out)
}

/// The string value of `"key"` in `body`, each of its bytes read as the
/// character with that code.
pub fn json_str(body: &[u8], key: &[u8]) -> (r: Option<Vec<char>>)
    ensures
        match json_str_bytes(body@, key@) {
            None => r is None,
            Some(s) => r matches Some(v) && v@ == byte_chars(s),
        },
{
    match json_str_raw(body, key) {
        None => None,
        Some(raw) => {
            let mut out: Vec<char> = Vec::new();
            let mut i: usize = 0;
            while i < raw.len()
                invariant
                    i <= raw.len(),
                    out@ == byte_chars(raw@.subrange(0, i as int)),
                decreases raw.len() - i,
            {
                out.push(raw[i] as char);
                assert(raw@.subrange(0, i + 1) == raw@.subrange(0, i as int).push(raw@[i as int]));
                assert(out@ =~= byte_chars(raw@.subrange(0, i + 1)));
                i = i + 1;
            }
            assert(raw@.subrange(0, raw@.len() as int) == raw@);
            Some(out)
        },
    }
}

/// Whether the number text of `"key"` in `body` can be taken.
pub fn json_num_in_bounds(body: &[u8], key: &[u8]) -> (r: bool)
    ensures
        r == number_field_in_bounds(body@, key@),
{
    match locate_value(body, key) {
        Some(None) => false,
        _ => true,
    }
}

/// The text of the number value of `"key"` in `body`: the run of number bytes
/// where the value begins, possibly empty.
pub fn json_num_text(body: &[u8], key: &[u8]) -> (r: Option<Vec<u8>>)
    requires
        number_field_in_bounds(body@, key@),
    ensures
        match json_num_bytes(body@, key@) {
            None => r is None,
            Some(s) => r matches Some(v) && v@ == s,
        },
{
    let w = match locate_value(body, key) {
        None => {
            return None;
        },
        Some(None) => {
            return None;
        },
        Some(Some(w)) => w,
    };
    let n = body.len();
    let mut e: usize = w;
    proof {
        lemma_number_end_bounds(body@, w as int);
    }
    while e < n && ((48u8 <= body[e] && body[e] <= 57u8) || body[e] == 46u8 || body[e] == 45u8
        || body[e] == 43u8 || body[e] == 101u8 || body[e] == 69u8)
        invariant
            n == body.len(),
            w <= e <= n,
            number_end(body@, e as int) == number_end(body@, w as int),
        decreases n - e,
    {
        e = e + 1;
    }
    let mut out: Vec<u8> = Vec::new();
    let mut k: usize = w;
    while k < e
        invariant
            w <= k <= e <= n == body.len(),
            out@ == body@.subrange(w as int, k as int),
        decreases e - k,
    {
        out.push(body[k]);
        k = k + 1;
    }
    Some(out)
}

// ---------- reading back a quoted string ----------
/// How a byte is written inside a quoted string: `"`, `\\`, newline, tab
/// and carriage return with a backslash escape, any other byte as itself.
/// For printable ASCII text with newlines, tabs and carriage returns this is
/// how `{:?}` quotes it.
pub open spec fn json_escape(c: u8) -> Seq<u8> {
    if c == 34u8 {
        seq![92u8, 34u8]
    } else if c == 92u8 {
        seq![92u8, 92u8]
    } else if c == 10u8 {
        seq![92u8, 110u8]
    } else if c == 9u8 {
        seq![92u8, 116u8]
    } else if c == 13u8 {
        seq![92u8, 114u8]
    } else {
        seq![c]
    }
}

pub open spec fn json_escaped(v: Seq<u8>) -> Seq<u8>
    decreases v.len(),
{
    if v.len() == 0 {
        Seq::empty()
    } else {
        json_escape(v[0]) + json_escaped(v.drop_first())
    }
}

/// The object `{"key":"value"}`, the value quoted and escaped.
pub open spec fn json_object(key: Seq<u8>, v: Seq<u8>) -> Seq<u8> {
    seq![123u8] + needle(key) + seq![58u8, 34u8] + json_escaped(v) + seq![34u8, 125u8]
}

proof fn lemma_string_body_escaped(b: Seq<u8>, i: int, v: Seq<u8>)
    requires
        0 <= i,
        i + json_escaped(v).len() < b.len(),
        b.subrange(i, i + json_escaped(v).len()) == json_escaped(v),
        b[i + json_escaped(v).len()] == 34u8,
    ensures
        string_body(b, i) == v,
    decreases v.len(),
{
    let e = json_escaped(v);
    if v.len() == 0 {
        assert(v =~= Seq::<u8>::empty());
    } else {
        let c = v[0];
        let h = json_escape(c);
        let rest = json_escaped(v.drop_first());
        assert(e == h + rest);
        assert(b[i] == e[0]);
        if h.len() == 2 {
            assert(b[i + 1] == e[1]);
            assert(b.subrange(i + 2, i + 2 + rest.len()) =~= rest) by {
                assert forall|j: int| 0 <= j < rest.len() implies b.subrange(
                    i + 2,
                    i + 2 + rest.len(),
                )[j] == rest[j] by {
                    assert(b.subrange(i, i + e.len())[2 + j] == e[2 + j]);
                }
            }
            lemma_string_body_escaped(b, i + 2, v.drop_first());
            assert(unescaped(b[i + 1]) == c);
            assert(v =~= seq![c] + v.drop_first());
        } else {
            assert(b.subrange(i + 1, i + 1 + rest.len()) =~= rest) by {
                assert forall|j: int| 0 <= j < rest.len() implies b.subrange(
                    i + 1,
                    i + 1 + rest.len(),
                )[j] == rest[j] by {
                    assert(b.subrange(i, i + e.len())[1 + j] == e[1 + j]);
                }
            }
            lemma_string_body_escaped(b, i + 1, v.drop_first());
            assert(v =~= seq![c] + v.drop_first());
        }
    }
}

/// A string value written into `{"key":"value"}` reads back unchanged.
pub proof fn lemma_json_str_round_trip(key: Seq<u8>, v: Seq<u8>)
    ensures
        json_str_bytes(json_object(key, v), key) == Some(v),
{
    let n = needle(key);
    let e = json_escaped(v);
    let b = json_object(key, v);
    assert(b == seq![123u8] + n + seq![58u8, 34u8] + e + seq![34u8, 125u8]);
    assert(b[0] == 123u8);
    assert(!matches_at(b, n, 0)) by {
        if matches_at(b, n, 0) {
            assert(b.subrange(0, n.len() as int)[0] == n[0]);
        }
    }
    assert(b.subrange(1, 1 + n.len() as int) =~= n);
    assert(find_first(b, n, 1) == Some(1int));
    assert(find_first(b, n, 0) == Some(1int));
    let c: int = 1 + n.len() as int;
    assert(b[c] == 58u8);
    assert(colon_from(b, c) == c);
    assert(b[c + 1] == 34u8);
    assert(skip_ws(b, c + 1) == c + 1);
    assert(value_pos(b, key) == Some(c + 1));
    assert(b.subrange(c + 2, c + 2 + e.len() as int) =~= e);
    assert(b[c + 2 + e.len()] == 34u8);
    lemma_string_body_escaped(b, c + 2, v);
}

} // verus!
