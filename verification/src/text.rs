//! Text as sequences of Unicode scalar values: the whitespace, trimming,
//! line and word splitting, and decimal number rules that the console's
//! parsers and messages are built from.
use vstd::prelude::*;

verus! {

/// Views of a sequence of character vectors.
pub open spec fn views(v: Seq<Vec<char>>) -> Seq<Seq<char>> {
    v.map_values(|x: Vec<char>| x@)
}

/// The Unicode `White_Space` property, as `char::is_whitespace` decides it.
pub open spec fn is_white(c: char) -> bool {
    let n = c as u32;
    ||| 9 <= n <= 13
    ||| n == 32
    ||| n == 0x85
    ||| n == 0xA0
    ||| n == 0x1680
    ||| 0x2000 <= n <= 0x200A
    ||| n == 0x2028
    ||| n == 0x2029
    ||| n == 0x202F
    ||| n == 0x205F
    ||| n == 0x3000
}

pub fn is_whitespace(c: char) -> (b: bool)
    ensures
        b == is_white(c),
{
    let n = c as u32;
    (9 <= n && n <= 13) || n == 32 || n == 0x85 || n == 0xA0 || n == 0x1680 || (0x2000 <= n && n
        <= 0x200A) || n == 0x2028 || n == 0x2029 || n == 0x202F || n == 0x205F || n == 0x3000
}

/// The characters of a string slice.
pub fn chars_of(s: &str) -> (r: Vec<char>)
    ensures
        r@ == s@,
{
    let n = s.unicode_len();
    let mut r: Vec<char> = Vec::new();
    let mut i: usize = 0;
    while i < n
        invariant
            n == s@.len(),
            i <= n,
            r@ == s@.subrange(0, i as int),
        decreases n - i,
    {
        r.push(s.get_char(i));
        i = i + 1;
    }
    r
}

/// A copy of a character slice.
pub fn copy_chars(s: &[char]) -> (r: Vec<char>)
    ensures
        r@ == s@,
{
    let mut r: Vec<char> = Vec::new();
    let mut i: usize = 0;
    while i < s.len()
        invariant
            i <= s.len(),
            r@ == s@.subrange(0, i as int),
        decreases s.len() - i,
    {
        r.push(s[i]);
        i = i + 1;
    }
    r
}

/// Appends `s` to `out`.
pub fn push_chars(out: &mut Vec<char>, s: &[char])
    ensures
        final(out)@ == old(out)@ + s@,
{
    let mut i: usize = 0;
    while i < s.len()
        invariant
            i <= s.len(),
            out@ == old(out)@ + s@.subrange(0, i as int),
        decreases s.len() - i,
    {
        out.push(s[i]);
        i = i + 1;
    }
    assert(s@.subrange(0, s@.len() as int) == s@);
}

/// Appends the characters of a string slice to `out`.
pub fn push_str(out: &mut Vec<char>, s: &str)
    ensures
        final(out)@ == old(out)@ + s@,
{
    let v = chars_of(s);
    push_chars(out, v.as_slice());
}

/// The sub-slice `s[from..to]` as a new vector.
pub fn slice_chars(s: &[char], from: usize, to: usize) -> (r: Vec<char>)
    requires
        from <= to <= s.len(),
    ensures
        r@ == s@.subrange(from as int, to as int),
{
    let mut r: Vec<char> = Vec::new();
    let mut i: usize = from;
    while i < to
        invariant
            from <= i <= to <= s.len(),
            r@ == s@.subrange(from as int, i as int),
        decreases to - i,
    {
        r.push(s[i]);
        i = i + 1;
    }
    r
}

/// Whether two character slices are equal.
pub fn chars_eq(a: &[char], b: &[char]) -> (r: bool)
    ensures
        r == (a@ == b@),
{
    if a.len() != b.len() {
        return false;
    }
    let mut i: usize = 0;
    while i < a.len()
        invariant
            a.len() == b.len(),
            i <= a.len(),
            forall|k: int| 0 <= k < i ==> a@[k] == b@[k],
        decreases a.len() - i,
    {
        if a[i] != b[i] {
            return false;
        }
        i = i + 1;
    }
    assert(a@ =~= b@);
    true
}

/// Whether `s` equals the string literal `lit`.
pub fn eq_str(s: &[char], lit: &str) -> (r: bool)
    ensures
        r == (s@ == lit@),
{
    let l = chars_of(lit);
    chars_eq(s, l.as_slice())
}

/// Whether `c` occurs in `s`.
pub fn contains_char(s: &[char], c: char) -> (r: bool)
    ensures
        r == s@.contains(c),
{
    let mut i: usize = 0;
    while i < s.len()
        invariant
            i <= s.len(),
            forall|k: int| 0 <= k < i ==> s@[k] != c,
        decreases s.len() - i,
    {
        if s[i] == c {
            assert(s@[i as int] == c);
            return true;
        }
        i = i + 1;
    }
    false
}

// ---------- trimming ----------
/// The first position at or after `i` that does not hold whitespace.
pub open spec fn skip_white(s: Seq<char>, i: int) -> int
    decreases s.len() - i,
{
    if 0 <= i < s.len() && is_white(s[i]) {
        skip_white(s, i + 1)
    } else {
        i
    }
}

/// The end of `s[..j]` once trailing whitespace is dropped.
pub open spec fn back_white(s: Seq<char>, j: int) -> int
    decreases j,
{
    if 0 < j <= s.len() && is_white(s[j - 1]) {
        back_white(s, j - 1)
    } else {
        j
    }
}

/// `s` without leading and trailing whitespace (`str::trim`).
pub open spec fn trim_spec(s: Seq<char>) -> Seq<char> {
    let a = skip_white(s, 0);
    let b = back_white(s, s.len() as int);
    if a < b {
        s.subrange(a, b)
    } else {
        Seq::empty()
    }
}

proof fn lemma_back_white_le(s: Seq<char>, j: int)
    ensures
        back_white(s, j) <= j,
        0 <= j ==> 0 <= back_white(s, j),
    decreases j,
{
    if 0 < j <= s.len() && is_white(s[j - 1]) {
        lemma_back_white_le(s, j - 1);
    }
}

proof fn lemma_skip_white_all(s: Seq<char>, i: int)
    requires
        0 <= i <= s.len(),
        forall|k: int| 0 <= k < i ==> is_white(s[k]),
    ensures
        back_white(s, i) == 0,
    decreases i,
{
    if i > 0 {
        lemma_skip_white_all(s, i - 1);
    }
}

pub fn trim(s: &[char]) -> (r: Vec<char>)
    ensures
        r@ == trim_spec(s@),
{
    let n = s.len();
    let mut a: usize = 0;
    while a < n && is_whitespace(s[a])
        invariant
            a <= n == s.len(),
            skip_white(s@, a as int) == skip_white(s@, 0),
            forall|k: int| 0 <= k < a ==> is_white(s@[k]),
        decreases n - a,
    {
        a = a + 1;
    }
    assert(skip_white(s@, 0) == a);
    let mut b: usize = n;
    while b > a && is_whitespace(s[b - 1])
        invariant
            a <= b <= n == s.len(),
            back_white(s@, b as int) == back_white(s@, n as int),
        decreases b,
    {
        b = b - 1;
    }
    if a < b {
        assert(back_white(s@, b as int) == b);
        slice_chars(s, a, b)
    } else {
        proof {
            lemma_skip_white_all(s@, a as int);
        }
        Vec::new()
    }
}

// ---------- lines ----------
/// `s` without one trailing carriage return.
pub open spec fn strip_cr(l: Seq<char>) -> Seq<char> {
    if l.len() > 0 && l.last() == '\r' {
        l.drop_last()
    } else {
        l
    }
}

/// The lines of `s` from position `i`, where the current line began at
/// `start`: lines end at `\n`, a line so ended loses one trailing `\r`, and
/// a final newline opens no empty line (`str::lines`).
pub open spec fn lines_from(s: Seq<char>, i: int, start: int) -> Seq<Seq<char>>
    decreases s.len() - i,
{
    if i >= s.len() {
        if start < s.len() {
            seq![s.subrange(start, s.len() as int)]
        } else {
            Seq::empty()
        }
    } else if s[i] == '\n' {
        seq![strip_cr(s.subrange(start, i))] + lines_from(s, i + 1, i + 1)
    } else {
        lines_from(s, i + 1, start)
    }
}

pub open spec fn lines_spec(s: Seq<char>) -> Seq<Seq<char>> {
    lines_from(s, 0, 0)
}

pub fn strip_cr_exec(l: Vec<char>) -> (r: Vec<char>)
    ensures
        r@ == strip_cr(l@),
{
    let mut l = l;
    if l.len() > 0 && l[l.len() - 1] == '\r' {
        l.pop();
    }
    l
}

pub fn lines(s: &[char]) -> (r: Vec<Vec<char>>)
    ensures
        views(r@) == lines_spec(s@),
{
    let n = s.len();
    let mut out: Vec<Vec<char>> = Vec::new();
    let mut start: usize = 0;
    let mut i: usize = 0;
    while i < n
        invariant
            n == s.len(),
            start <= i <= n,
            views(out@) + lines_from(s@, i as int, start as int) == lines_spec(s@),
        decreases n - i,
    {
        if s[i] == '\n' {
            let line = strip_cr_exec(slice_chars(s, start, i));
            let ghost before = views(out@);
            out.push(line);
            assert(views(out@) == before.push(line@));
            assert(views(out@) + lines_from(s@, i + 1, i + 1) =~= before + lines_from(
                s@,
                i as int,
                start as int,
            ));
            start = i + 1;
        }
        i = i + 1;
    }
    if start < n {
        let line = slice_chars(s, start, n);
        let ghost before = views(out@);
        out.push(line);
        assert(views(out@) == before.push(line@));
        assert(views(out@) =~= before + lines_from(s@, n as int, start as int));
    } else {
        assert(views(out@) =~= views(out@) + lines_from(s@, n as int, start as int));
    }
    out
}

// ---------- words ----------
/// The whitespace-separated words of `s` from position `i`, the current word
/// having begun at `start` (`str::split_whitespace`).
pub open spec fn words_from(s: Seq<char>, i: int, start: int) -> Seq<Seq<char>>
    decreases s.len() - i,
{
    if i >= s.len() {
        if start < s.len() {
            seq![s.subrange(start, s.len() as int)]
        } else {
            Seq::empty()
        }
    } else if is_white(s[i]) {
        (if start < i {
            seq![s.subrange(start, i)]
        } else {
            Seq::empty()
        }) + words_from(s, i + 1, i + 1)
    } else {
        words_from(s, i + 1, start)
    }
}

pub open spec fn words_spec(s: Seq<char>) -> Seq<Seq<char>> {
    words_from(s, 0, 0)
}

pub fn split_whitespace(s: &[char]) -> (r: Vec<Vec<char>>)
    ensures
        views(r@) == words_spec(s@),
{
    let n = s.len();
    let mut out: Vec<Vec<char>> = Vec::new();
    let mut start: usize = 0;
    let mut i: usize = 0;
    while i < n
        invariant
            n == s.len(),
            start <= i <= n,
            views(out@) + words_from(s@, i as int, start as int) == words_spec(s@),
        decreases n - i,
    {
        if is_whitespace(s[i]) {
            if start < i {
                let w = slice_chars(s, start, i);
                let ghost before = views(out@);
                out.push(w);
                assert(views(out@) == before.push(w@));
                assert(views(out@) + words_from(s@, i + 1, i + 1) =~= before + words_from(
                    s@,
                    i as int,
                    start as int,
                ));
            } else {
                assert(views(out@) + words_from(s@, i + 1, i + 1) =~= views(out@) + words_from(
                    s@,
                    i as int,
                    start as int,
                ));
            }
            start = i + 1;
        }
        i = i + 1;
    }
    if start < n {
        let w = slice_chars(s, start, n);
        let ghost before = views(out@);
        out.push(w);
        assert(views(out@) == before.push(w@));
        assert(views(out@) =~= before + words_from(s@, n as int, start as int));
    } else {
        assert(views(out@) =~= views(out@) + words_from(s@, n as int, start as int));
    }
    out
}

// ---------- ordering ----------
/// `a[i..]` sorts before `b[i..]`, comparing character codes from the left,
/// a proper prefix first (the order of `str`).
pub open spec fn lex_lt_from(a: Seq<char>, b: Seq<char>, i: int) -> bool
    decreases a.len() - i,
{
    if i >= a.len() {
        i < b.len()
    } else if i >= b.len() {
        false
    } else if a[i] != b[i] {
        (a[i] as int) < (b[i] as int)
    } else {
        lex_lt_from(a, b, i + 1)
    }
}

/// `a` sorts before `b`.
pub open spec fn lex_lt(a: Seq<char>, b: Seq<char>) -> bool {
    lex_lt_from(a, b, 0)
}

pub proof fn lemma_lex_irreflexive_from(a: Seq<char>, i: int)
    requires
        0 <= i,
    ensures
        !lex_lt_from(a, a, i),
    decreases a.len() - i,
{
    if i < a.len() {
        lemma_lex_irreflexive_from(a, i + 1);
    }
}

pub proof fn lemma_lex_transitive_from(a: Seq<char>, b: Seq<char>, c: Seq<char>, i: int)
    requires
        0 <= i,
        lex_lt_from(a, b, i),
        lex_lt_from(b, c, i),
    ensures
        lex_lt_from(a, c, i),
    decreases a.len() - i,
{
    if i < a.len() && i < b.len() && i < c.len() && a[i] == b[i] && b[i] == c[i] {
        lemma_lex_transitive_from(a, b, c, i + 1);
    }
}

pub proof fn lemma_lex_total_from(a: Seq<char>, b: Seq<char>, i: int)
    requires
        0 <= i <= a.len(),
        i <= b.len(),
        !lex_lt_from(a, b, i),
        !lex_lt_from(b, a, i),
    ensures
        a.len() == b.len(),
        forall|k: int| i <= k < a.len() ==> a[k] == b[k],
    decreases a.len() - i,
{
    if i < a.len() && i < b.len() {
        if a[i] == b[i] {
            lemma_lex_total_from(a, b, i + 1);
            assert forall|k: int| i <= k < a.len() implies a[k] == b[k] by {
                if k > i {
                }
            }
        } else {
            assert((a[i] as int) != (b[i] as int));
        }
    } else if i < a.len() {
        assert(lex_lt_from(b, a, i));
    } else if i < b.len() {
        assert(lex_lt_from(a, b, i));
    }
}

/// `lex_lt` is a strict total order.
pub proof fn lemma_lex_order()
    ensures
        forall|a: Seq<char>| !#[trigger] lex_lt(a, a),
        forall|a: Seq<char>, b: Seq<char>, c: Seq<char>|
            #[trigger] lex_lt(a, b) && #[trigger] lex_lt(b, c) ==> lex_lt(a, c),
        forall|a: Seq<char>, b: Seq<char>|
            a != b ==> #[trigger] lex_lt(a, b) || #[trigger] lex_lt(b, a),
{
    assert forall|a: Seq<char>| !#[trigger] lex_lt(a, a) by {
        lemma_lex_irreflexive_from(a, 0);
    }
    assert forall|a: Seq<char>, b: Seq<char>, c: Seq<char>|
        #[trigger] lex_lt(a, b) && #[trigger] lex_lt(b, c) implies lex_lt(a, c) by {
        lemma_lex_transitive_from(a, b, c, 0);
    }
    assert forall|a: Seq<char>, b: Seq<char>|
        a != b implies #[trigger] lex_lt(a, b) || #[trigger] lex_lt(b, a) by {
        if !lex_lt(a, b) && !lex_lt(b, a) {
            lemma_lex_total_from(a, b, 0);
            assert(a =~= b);
        }
    }
}

proof fn lemma_lex_prefix_from(a: Seq<char>, b: Seq<char>, i: int)
    requires
        0 <= i <= a.len(),
        a.len() < b.len(),
        b.subrange(0, a.len() as int) == a,
    ensures
        lex_lt_from(a, b, i),
        !lex_lt_from(b, a, i),
    decreases a.len() - i,
{
    if i < a.len() {
        assert(b.subrange(0, a.len() as int)[i] == b[i]);
        lemma_lex_prefix_from(a, b, i + 1);
    }
}

/// A proper prefix sorts before every longer text that begins with it, and
/// never after it.
pub proof fn lemma_lex_prefix_first(a: Seq<char>, b: Seq<char>)
    requires
        a.len() < b.len(),
        b.subrange(0, a.len() as int) == a,
    ensures
        lex_lt(a, b),
        !lex_lt(b, a),
{
    lemma_lex_prefix_from(a, b, 0);
}

proof fn lemma_lex_same_until(a: Seq<char>, b: Seq<char>, k: int, i: int)
    requires
        0 <= k <= i,
        i < a.len(),
        i < b.len(),
        a.subrange(0, i) == b.subrange(0, i),
    ensures
        lex_lt_from(a, b, k) == lex_lt_from(a, b, i),
    decreases i - k,
{
    if k < i {
        assert(a.subrange(0, i)[k] == a[k]);
        assert(b.subrange(0, i)[k] == b[k]);
        lemma_lex_same_until(a, b, k + 1, i);
    }
}

/// Two texts that agree before position `i` and differ there sort by the
/// codes of their characters at `i`.
pub proof fn lemma_lex_first_difference(a: Seq<char>, b: Seq<char>, i: int)
    requires
        0 <= i < a.len(),
        i < b.len(),
        a.subrange(0, i) == b.subrange(0, i),
        a[i] != b[i],
    ensures
        lex_lt(a, b) == ((a[i] as int) < (b[i] as int)),
{
    lemma_lex_same_until(a, b, 0, i);
}

/// Whether `a` sorts before `b`.
pub fn lex_less(a: &[char], b: &[char]) -> (r: bool)
    ensures
        r == lex_lt(a@, b@),
{
    let mut i: usize = 0;
    while i < a.len() && i < b.len() && a[i] == b[i]
        invariant
            i <= a.len(),
            i <= b.len(),
            lex_lt_from(a@, b@, i as int) == lex_lt(a@, b@),
        decreases a.len() - i,
    {
        i = i + 1;
    }
    if i >= a.len() {
        i < b.len()
    } else if i >= b.len() {
        false
    } else {
        a[i] < b[i]
    }
}

// ---------- composing text ----------
/// The texts of a result.
pub open spec fn result_view(r: Result<Vec<char>, Vec<char>>) -> Result<Seq<char>, Seq<char>> {
    match r {
        Ok(v) => Ok(v@),
        Err(e) => Err(e@),
    }
}

/// Argument `i` of a command, or the command's usage message when there are
/// not that many arguments.
pub open spec fn arg_or_usage(rest: Seq<Seq<char>>, i: int, usage: Seq<char>) -> Result<
    Seq<char>,
    Seq<char>,
> {
    if 0 <= i < rest.len() {
        Ok(rest[i])
    } else {
        Err(usage)
    }
}

pub(crate) fn nth_arg(rest: &[Vec<char>], i: usize, usage: &str) -> (r: Result<Vec<char>, Vec<char>>)
    ensures
        result_view(r) == arg_or_usage(views(rest@), i as int, usage@),
{
    if i < rest.len() {
        Ok(copy_chars(rest[i].as_slice()))
    } else {
        Err(chars_of(usage))
    }
}

/// The texts joined with `sep` between each two.
pub open spec fn join(ss: Seq<Seq<char>>, sep: Seq<char>) -> Seq<char>
    decreases ss.len(),
{
    if ss.len() == 0 {
        Seq::empty()
    } else if ss.len() == 1 {
        ss[0]
    } else {
        join(ss.drop_last(), sep) + sep + ss.last()
    }
}

pub fn join_chars(ss: &[Vec<char>], sep: &str) -> (r: Vec<char>)
    ensures
        r@ == join(views(ss@), sep@),
{
    let mut out: Vec<char> = Vec::new();
    let mut i: usize = 0;
    assert(views(ss@).subrange(0, 0) =~= Seq::<Seq<char>>::empty());
    while i < ss.len()
        invariant
            i <= ss@.len(),
            out@ == join(views(ss@).subrange(0, i as int), sep@),
        decreases ss@.len() - i,
    {
        let ghost prev = views(ss@).subrange(0, i as int);
        let ghost next = views(ss@).subrange(0, i + 1);
        assert(next.drop_last() =~= prev);
        assert(next.last() == ss@[i as int]@);
        if i > 0 {
            push_str(&mut out, sep);
        } else {
            assert(out@ =~= Seq::<char>::empty());
        }
        push_chars(&mut out, ss[i].as_slice());
        i = i + 1;
    }
    assert(views(ss@).subrange(0, ss@.len() as int) =~= views(ss@));
    out
}

/// Whether `s` begins with `p`.
pub open spec fn starts_with(s: Seq<char>, p: Seq<char>) -> bool {
    p.len() <= s.len() && s.subrange(0, p.len() as int) == p
}

/// `s` without the leading `p`, when `s` begins with it.
pub fn strip_prefix(s: &[char], p: &str) -> (r: Option<Vec<char>>)
    ensures
        starts_with(s@, p@) ==> (r matches Some(v) && v@ == s@.subrange(p@.len() as int, s@.len() as int)),
        !starts_with(s@, p@) ==> r is None,
{
    let pv = chars_of(p);
    if pv.len() > s.len() {
        return None;
    }
    let head = slice_chars(s, 0, pv.len());
    if chars_eq(head.as_slice(), pv.as_slice()) {
        Some(slice_chars(s, pv.len(), s.len()))
    } else {
        None
    }
}

/// The number of bytes that encode `c` in UTF-8.
pub open spec fn utf8_width(c: char) -> nat {
    let n = c as u32;
    if n < 0x80 {
        1
    } else if n < 0x800 {
        2
    } else if n < 0x10000 {
        3
    } else {
        4
    }
}

/// The number of bytes that encode `s` in UTF-8.
pub open spec fn utf8_len(s: Seq<char>) -> nat
    decreases s.len(),
{
    if s.len() == 0 {
        0
    } else {
        utf8_len(s.drop_last()) + utf8_width(s.last())
    }
}

proof fn lemma_utf8_len_bound(s: Seq<char>)
    ensures
        utf8_len(s) <= 4 * s.len(),
    decreases s.len(),
{
    if s.len() > 0 {
        lemma_utf8_len_bound(s.drop_last());
    }
}

/// The length in bytes of the UTF-8 encoding of `s`.
pub fn utf8_length(s: &[char]) -> (r: usize)
    requires
        4 * s@.len() <= usize::MAX,
    ensures
        r == utf8_len(s@),
{
    let mut n: usize = 0;
    let mut i: usize = 0;
    while i < s.len()
        invariant
            i <= s.len(),
            4 * s@.len() <= usize::MAX,
            n == utf8_len(s@.subrange(0, i as int)),
        decreases s.len() - i,
    {
        proof {
            lemma_utf8_len_bound(s@.subrange(0, i as int));
            assert(s@.subrange(0, i + 1).drop_last() =~= s@.subrange(0, i as int));
        }
        let c = s[i] as u32;
        let w: usize = if c < 0x80 {
            1
        } else if c < 0x800 {
            2
        } else if c < 0x10000 {
            3
        } else {
            4
        };
        n = n + w;
        i = i + 1;
    }
    assert(s@.subrange(0, s@.len() as int) =~= s@);
    n
}

/// A copy of the texts from position `from` on.
pub fn slice_of_texts(v: &[Vec<char>], from: usize) -> (r: Vec<Vec<char>>)
    requires
        from <= v@.len(),
    ensures
        views(r@) == views(v@).skip(from as int),
{
    let mut r: Vec<Vec<char>> = Vec::new();
    let mut i: usize = from;
    while i < v.len()
        invariant
            from <= i <= v@.len(),
            views(r@) == views(v@).subrange(from as int, i as int),
        decreases v@.len() - i,
    {
        let ghost before = views(r@);
        r.push(copy_chars(v[i].as_slice()));
        assert(views(r@) =~= before.push(v@[i as int]@));
        assert(views(v@).subrange(from as int, i + 1) =~= views(v@).subrange(
            from as int,
            i as int,
        ).push(v@[i as int]@));
        i = i + 1;
    }
    r
}

} // verus!
