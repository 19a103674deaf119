//! Decoding of standard (RFC 4648) base64, tolerant of padding and
//! whitespace anywhere in the text, as screenshots arrive from the agent.
use vstd::prelude::*;
use crate::text::{chars_of, is_white, is_whitespace};

verus! {

/// The 6-bit value of a base64 alphabet byte.
pub open spec fn b64_value(c: u8) -> Option<u8> {
    if 65 <= c <= 90 {
        Some((c - 65) as u8)
    } else if 97 <= c <= 122 {
        Some((c - 97 + 26) as u8)
    } else if 48 <= c <= 57 {
        Some((c - 48 + 52) as u8)
    } else if c == 43 {
        Some(62)
    } else if c == 47 {
        Some(63)
    } else {
        None
    }
}

/// Bytes the decoder passes over: `=` and bytes whose character is whitespace.
pub open spec fn b64_skipped(c: u8) -> bool {
    c == 61 || is_white(c as char)
}

/// The 6-bit values of the alphabet bytes of `s`, in order; `None` when `s`
/// holds a byte that is neither in the alphabet nor passed over.
pub open spec fn sextets(s: Seq<u8>) -> Option<Seq<u8>>
    decreases s.len(),
{
    if s.len() == 0 {
        Some(Seq::empty())
    } else {
        match sextets(s.drop_last()) {
            None => None,
            Some(p) => {
                let c = s.last();
                if b64_skipped(c) {
                    Some(p)
                } else {
                    match b64_value(c) {
                        Some(v) => Some(p.push(v)),
                        None => None,
                    }
                }
            },
        }
    }
}

/// The bytes that 6-bit values encode, eight bits per byte, most significant
/// bit first; bits left over at the end are dropped. Each value after the
/// first of a group of four completes one byte together with its predecessor.
pub open spec fn pack(v: Seq<u8>) -> Seq<u8>
    decreases v.len(),
{
    if v.len() == 0 {
        Seq::empty()
    } else {
        let p = pack(v.drop_last());
        let n = v.len() - 1;
        let b = v.last();
        if n % 4 == 0 {
            p
        } else {
            let a = v[n - 1];
            if n % 4 == 1 {
                p.push(((a << 2u8) | (b >> 4u8)) as u8)
            } else if n % 4 == 2 {
                p.push(((a << 4u8) | (b >> 2u8)) as u8)
            } else {
                p.push(((a << 6u8) | b) as u8)
            }
        }
    }
}

pub open spec fn invalid_base64_message() -> Seq<char> {
    "invalid base64 character"@
}

proof fn lemma_sextets_none_stays(s: Seq<u8>, k: int, j: int)
    requires
        0 <= k <= j <= s.len(),
        sextets(s.subrange(0, k)) is None,
    ensures
        sextets(s.subrange(0, j)) is None,
    decreases j - k,
{
    if k < j {
        lemma_sextets_none_stays(s, k, j - 1);
        assert(s.subrange(0, j).drop_last() == s.subrange(0, j - 1));
    }
}

proof fn lemma_pack_len(v: Seq<u8>)
    ensures
        pack(v).len() == (3 * v.len()) / 4,
    decreases v.len(),
{
    if v.len() > 0 {
        lemma_pack_len(v.drop_last());
    }
}

proof fn lemma_step0(buf: u32, v: u32)
    requires
        v < 64,
    ensures
        ((buf << 6u32) | v) & 63 == v,
{
    assert(((buf << 6u32) | v) & 63 == v) by (bit_vector)
        requires
            v < 64,
    ;
}

proof fn lemma_step1(buf: u32, l: u8, v: u8)
    requires
        v < 64,
        l < 64,
        buf & 63 == l as u32,
    ensures
        ((((buf << 6u32) | (v as u32)) >> 4u32) as u8) == (((l << 2u8) | (v >> 4u8)) as u8),
        (((buf << 6u32) | (v as u32)) & 15) == (v & 15) as u32,
{
    assert(((((buf << 6u32) | (v as u32)) >> 4u32) as u8) == (((l << 2u8) | (v >> 4u8)) as u8)
        && (((buf << 6u32) | (v as u32)) & 15) == (v & 15) as u32) by (bit_vector)
        requires
            v < 64,
            l < 64,
            buf & 63 == l as u32,
    ;
}

proof fn lemma_step2(buf: u32, l: u8, v: u8)
    requires
        v < 64,
        l < 64,
        buf & 15 == (l & 15) as u32,
    ensures
        ((((buf << 6u32) | (v as u32)) >> 2u32) as u8) == (((l << 4u8) | (v >> 2u8)) as u8),
        (((buf << 6u32) | (v as u32)) & 3) == (v & 3) as u32,
{
    assert(((((buf << 6u32) | (v as u32)) >> 2u32) as u8) == (((l << 4u8) | (v >> 2u8)) as u8)
        && (((buf << 6u32) | (v as u32)) & 3) == (v & 3) as u32) by (bit_vector)
        requires
            v < 64,
            l < 64,
            buf & 15 == (l & 15) as u32,
    ;
}

proof fn lemma_step3(buf: u32, l: u8, v: u8)
    requires
        v < 64,
        l < 64,
        buf & 3 == (l & 3) as u32,
    ensures
        ((((buf << 6u32) | (v as u32)) >> 0u32) as u8) == (((l << 6u8) | v) as u8),
{
    assert(((((buf << 6u32) | (v as u32)) >> 0u32) as u8) == (((l << 6u8) | v) as u8))
        by (bit_vector)
        requires
            v < 64,
            l < 64,
            buf & 3 == (l & 3) as u32,
    ;
}

fn b64_value_exec(c: u8) -> (r: Option<u8>)
    ensures
        r == b64_value(c),
        r matches Some(v) ==> v < 64,
{
    if 65 <= c && c <= 90 {
        Some(c - 65)
    } else if 97 <= c && c <= 122 {
        Some(c - 97 + 26)
    } else if 48 <= c && c <= 57 {
        Some(c - 48 + 52)
    } else if c == 43 {
        Some(62)
    } else if c == 47 {
        Some(63)
    } else {
        None
    }
}

/// Decodes base64 text, passing over `=` and whitespace wherever they stand;
/// any other byte outside the alphabet is an error.
pub fn b64_decode(s: &[u8]) -> (r: Result<Vec<u8>, Vec<char>>)
    ensures
        match sextets(s@) {
            Some(v) => r matches Ok(out) && out@ == pack(v),
            None => r matches Err(e) && e@ == invalid_base64_message(),
        },
{
    let mut out: Vec<u8> = Vec::new();
    let mut buf: u32 = 0;
    let mut bits: u32 = 0;
    let ghost mut vs: Seq<u8> = Seq::empty();
    let mut i: usize = 0;
    assert(s@.subrange(0, 0) =~= Seq::<u8>::empty());
    while i < s.len()
        invariant
            i <= s.len(),
            sextets(s@.subrange(0, i as int)) == Some(vs),
            out@ == pack(vs),
            forall|k: int| 0 <= k < vs.len() ==> #[trigger] vs[k] < 64,
            vs.len() % 4 == 0 ==> bits == 0,
            vs.len() % 4 == 1 ==> bits == 6 && buf & 63 == vs.last() as u32,
            vs.len() % 4 == 2 ==> bits == 4 && buf & 15 == (vs.last() & 15) as u32,
            vs.len() % 4 == 3 ==> bits == 2 && buf & 3 == (vs.last() & 3) as u32,
        decreases s.len() - i,
    {
        let c = s[i];
        assert(s@.subrange(0, i + 1).drop_last() == s@.subrange(0, i as int));
        assert(s@.subrange(0, i + 1).last() == c);
        if c == 61 || is_whitespace(c as char) {
            i = i + 1;
            continue;
        }
        let v = match b64_value_exec(c) {
            Some(v) => v,
            None => {
                proof {
                    lemma_sextets_none_stays(s@, i + 1, s@.len() as int);
                    assert(s@.subrange(0, s@.len() as int) == s@);
                }
                return Err(chars_of("invalid base64 character"));
            },
        };
        let ghost old_vs = vs;
        let ghost old_buf = buf;
        proof {
            vs = vs.push(v);
            assert(vs.drop_last() == old_vs);
            if old_vs.len() % 4 == 0 {
                lemma_step0(old_buf, v as u32);
            } else if old_vs.len() % 4 == 1 {
                lemma_step1(old_buf, old_vs.last(), v);
            } else if old_vs.len() % 4 == 2 {
                lemma_step2(old_buf, old_vs.last(), v);
            } else {
                lemma_step3(old_buf, old_vs.last(), v);
            }
        }
        buf = (buf << 6u32) | (v as u32);
        bits = bits + 6;
        if bits >= 8 {
            bits = bits - 8;
            out.push((buf >> bits) as u8);
        }
        i = i + 1;
    }
    assert(s@.subrange(0, s@.len() as int) == s@);
    Ok(out)
}

/// Every four alphabet symbols decode to three bytes: the decoded length is
/// three quarters of the symbol count, rounded down.
pub proof fn lemma_decoded_length(s: Seq<u8>)
    requires
        sextets(s) is Some,
    ensures
        pack(sextets(s)->0).len() == (3 * sextets(s)->0.len()) / 4,
{
    lemma_pack_len(sextets(s)->0);
}

/// Padding and whitespace are passed over wherever they stand: removing one
/// such byte from the text changes nothing about what it decodes to.
pub proof fn lemma_skipped_byte_ignored(a: Seq<u8>, c: u8, b: Seq<u8>)
    requires
        b64_skipped(c),
    ensures
        sextets(a + seq![c] + b) == sextets(a + b),
    decreases b.len(),
{
    if b.len() == 0 {
        assert(a + seq![c] + b =~= a.push(c));
        assert(a.push(c).drop_last() =~= a);
        assert(a + b =~= a);
    } else {
        let b2 = b.drop_last();
        lemma_skipped_byte_ignored(a, c, b2);
        assert((a + seq![c] + b).drop_last() =~= a + seq![c] + b2);
        assert((a + b).drop_last() =~= a + b2);
        assert((a + seq![c] + b).last() == b.last());
        assert((a + b).last() == b.last());
    }
}

// ---------- what decoding gives ----------
/// The number of base64 alphabet bytes in `s`.
pub open spec fn alphabet_count(s: Seq<u8>) -> nat
    decreases s.len(),
{
    if s.len() == 0 {
        0
    } else {
        alphabet_count(s.drop_last()) + (if b64_value(s.last()) is Some {
            1nat
        } else {
            0nat
        })
    }
}

/// `s` without the bytes the decoder passes over.
pub open spec fn kept(s: Seq<u8>) -> Seq<u8>
    decreases s.len(),
{
    if s.len() == 0 {
        Seq::empty()
    } else if b64_skipped(s.last()) {
        kept(s.drop_last())
    } else {
        kept(s.drop_last()).push(s.last())
    }
}

/// Decoding text gives one 6-bit value per alphabet byte, and six bits per
/// value make the bytes, eight to a byte, with fewer than eight left over
/// dropped.
pub proof fn lemma_decoded_count(s: Seq<u8>)
    requires
        sextets(s) is Some,
    ensures
        sextets(s)->0.len() == alphabet_count(s),
        pack(sextets(s)->0).len() == (6 * alphabet_count(s)) / 8,
    decreases s.len(),
{
    if s.len() > 0 {
        lemma_decoded_count(s.drop_last());
    }
    lemma_pack_len(sextets(s)->0);
    let n = alphabet_count(s);
    assert((3 * n) / 4 == (6 * n) / 8) by (nonlinear_arith);
}

/// Only the bytes that are not passed over matter: decoding `s` is decoding
/// `s` with its padding and whitespace taken out.
pub proof fn lemma_decode_kept(s: Seq<u8>)
    ensures
        sextets(s) == sextets(kept(s)),
    decreases s.len(),
{
    if s.len() > 0 {
        lemma_decode_kept(s.drop_last());
        if !b64_skipped(s.last()) {
            assert(kept(s).drop_last() =~= kept(s.drop_last()));
            assert(kept(s).last() == s.last());
        }
    }
}

/// The alphabet byte for a 6-bit value.
pub open spec fn b64_char(v: u8) -> u8 {
    if v < 26 {
        (v + 65) as u8
    } else if v < 52 {
        (v - 26 + 97) as u8
    } else if v < 62 {
        (v - 52 + 48) as u8
    } else if v == 62 {
        43u8
    } else {
        47u8
    }
}

pub open spec fn six0(a: u8) -> u8 {
    a >> 2u8
}

pub open spec fn six1(a: u8, b: u8) -> u8 {
    ((a & 3u8) << 4u8) | (b >> 4u8)
}

pub open spec fn six2(b: u8, c: u8) -> u8 {
    ((b & 15u8) << 2u8) | (c >> 6u8)
}

pub open spec fn six3(c: u8) -> u8 {
    c & 63u8
}

/// The 6-bit values that encode `b`, three bytes to four values, a last pair
/// of bytes to three values and a last single byte to two.
pub open spec fn encoded_sextets(b: Seq<u8>) -> Seq<u8>
    decreases b.len(),
{
    if b.len() == 0 {
        Seq::empty()
    } else if b.len() == 1 {
        seq![six0(b[0]), six1(b[0], 0)]
    } else if b.len() == 2 {
        seq![six0(b[0]), six1(b[0], b[1]), six2(b[1], 0)]
    } else {
        seq![six0(b[0]), six1(b[0], b[1]), six2(b[1], b[2]), six3(b[2])] + encoded_sextets(
            b.skip(3),
        )
    }
}

/// The standard (RFC 4648) base64 encoding of `b`, with `=` padding.
pub open spec fn b64_encode(b: Seq<u8>) -> Seq<u8>
    decreases b.len(),
{
    if b.len() == 0 {
        Seq::empty()
    } else if b.len() == 1 {
        seq![b64_char(six0(b[0])), b64_char(six1(b[0], 0)), 61u8, 61u8]
    } else if b.len() == 2 {
        seq![b64_char(six0(b[0])), b64_char(six1(b[0], b[1])), b64_char(six2(b[1], 0)), 61u8]
    } else {
        seq![
            b64_char(six0(b[0])),
            b64_char(six1(b[0], b[1])),
            b64_char(six2(b[1], b[2])),
            b64_char(six3(b[2])),
        ] + b64_encode(b.skip(3))
    }
}

proof fn lemma_char_value(v: u8)
    requires
        v < 64,
    ensures
        b64_value(b64_char(v)) == Some(v),
        !b64_skipped(b64_char(v)),
{
    let c = b64_char(v);
    assert(c == 43 || c == 47 || (48 <= c <= 57) || (65 <= c <= 90) || (97 <= c <= 122));
    assert((c as char) as u32 == c as u32);
}

proof fn lemma_sextet_ranges(a: u8, b: u8, c: u8)
    ensures
        six0(a) < 64,
        six1(a, b) < 64,
        six2(b, c) < 64,
        six3(c) < 64,
{
    assert(six0(a) < 64 && six1(a, b) < 64 && six2(b, c) < 64 && six3(c) < 64) by (bit_vector);
}

proof fn lemma_pack_group(a: u8, b: u8, c: u8)
    ensures
        ((six0(a) << 2u8) | (six1(a, b) >> 4u8)) as u8 == a,
        ((six1(a, b) << 4u8) | (six2(b, c) >> 2u8)) as u8 == b,
        ((six2(b, c) << 6u8) | six3(c)) as u8 == c,
{
    assert(((six0(a) << 2u8) | (six1(a, b) >> 4u8)) as u8 == a && ((six1(a, b) << 4u8) | (six2(
        b,
        c,
    ) >> 2u8)) as u8 == b && ((six2(b, c) << 6u8) | six3(c)) as u8 == c) by (bit_vector);
}

proof fn lemma_sextets_append(a: Seq<u8>, b: Seq<u8>)
    ensures
        sextets(a + b) == match sextets(a) {
            None => None,
            Some(x) => match sextets(b) {
                None => None,
                Some(y) => Some(x + y),
            },
        },
    decreases b.len(),
{
    if b.len() == 0 {
        assert(a + b =~= a);
        if let Some(x) = sextets(a) {
            assert(x + Seq::<u8>::empty() =~= x);
        }
    } else {
        let b2 = b.drop_last();
        lemma_sextets_append(a, b2);
        assert((a + b).drop_last() =~= a + b2);
        assert((a + b).last() == b.last());
        if let (Some(x), Some(y)) = (sextets(a), sextets(b2)) {
            if let Some(v) = b64_value(b.last()) {
                assert((x + y).push(v) =~= x + y.push(v));
            }
        }
    }
}

proof fn lemma_pack_append(x: Seq<u8>, y: Seq<u8>)
    requires
        x.len() % 4 == 0,
    ensures
        pack(x + y) == pack(x) + pack(y),
    decreases y.len(),
{
    if y.len() == 0 {
        assert(x + y =~= x);
        assert(pack(x) + pack(y) =~= pack(x));
    } else {
        let y2 = y.drop_last();
        lemma_pack_append(x, y2);
        let z = x + y;
        assert(z.drop_last() =~= x + y2);
        assert(z.last() == y.last());
        let n = z.len() - 1;
        assert(n % 4 == (y.len() - 1) % 4);
        if y.len() >= 2 {
            assert(z[n - 1] == y[y.len() - 2]);
        }
        if (y.len() - 1) % 4 != 0 {
            assert(y.len() >= 2);
        }
    }
}

proof fn lemma_sextets_group(x0: u8, x1: u8, x2: u8, x3: u8)
    requires
        x0 < 64,
        x1 < 64,
        x2 < 64,
        x3 < 64,
    ensures
        sextets(seq![b64_char(x0), b64_char(x1), b64_char(x2), b64_char(x3)]) == Some(
            seq![x0, x1, x2, x3],
        ),
        sextets(seq![b64_char(x0), b64_char(x1), b64_char(x2), 61u8]) == Some(seq![x0, x1, x2]),
        sextets(seq![b64_char(x0), b64_char(x1), 61u8, 61u8]) == Some(seq![x0, x1]),
{
    lemma_char_value(x0);
    lemma_char_value(x1);
    lemma_char_value(x2);
    lemma_char_value(x3);
    let c0 = b64_char(x0);
    let c1 = b64_char(x1);
    let c2 = b64_char(x2);
    let c3 = b64_char(x3);
    let e = Seq::<u8>::empty();
    assert(sextets(e) == Some(e));
    assert(e.push(c0).drop_last() =~= e);
    assert(sextets(e.push(c0)) == Some(seq![x0])) by {
        assert(e.push(x0) =~= seq![x0]);
    }
    let s1 = e.push(c0).push(c1);
    assert(s1.drop_last() =~= e.push(c0));
    assert(sextets(s1) == Some(seq![x0, x1])) by {
        assert(seq![x0].push(x1) =~= seq![x0, x1]);
    }
    let s2 = s1.push(c2);
    assert(s2.drop_last() =~= s1);
    assert(sextets(s2) == Some(seq![x0, x1, x2])) by {
        assert(seq![x0, x1].push(x2) =~= seq![x0, x1, x2]);
    }
    let s3 = s2.push(c3);
    assert(s3.drop_last() =~= s2);
    assert(sextets(s3) == Some(seq![x0, x1, x2, x3])) by {
        assert(seq![x0, x1, x2].push(x3) =~= seq![x0, x1, x2, x3]);
    }
    assert(s3 =~= seq![c0, c1, c2, c3]);
    assert(b64_skipped(61u8));
    let p3 = s2.push(61u8);
    assert(p3.drop_last() =~= s2);
    assert(p3 =~= seq![c0, c1, c2, 61u8]);
    let q2 = s1.push(61u8);
    assert(q2.drop_last() =~= s1);
    assert(q2.last() == 61u8);
    assert(sextets(q2) == Some(seq![x0, x1]));
    let q3 = q2.push(61u8);
    assert(q3.drop_last() =~= q2);
    assert(q3.last() == 61u8);
    assert(sextets(q3) == Some(seq![x0, x1]));
    assert(q3 =~= seq![c0, c1, 61u8, 61u8]);
}

proof fn lemma_pack_short(x0: u8, x1: u8, x2: u8, x3: u8)
    ensures
        pack(seq![x0, x1, x2, x3]) == seq![
            ((x0 << 2u8) | (x1 >> 4u8)) as u8,
            ((x1 << 4u8) | (x2 >> 2u8)) as u8,
            ((x2 << 6u8) | x3) as u8,
        ],
        pack(seq![x0, x1, x2]) == seq![
            ((x0 << 2u8) | (x1 >> 4u8)) as u8,
            ((x1 << 4u8) | (x2 >> 2u8)) as u8,
        ],
        pack(seq![x0, x1]) == seq![((x0 << 2u8) | (x1 >> 4u8)) as u8],
{
    let s1 = seq![x0];
    let s2 = seq![x0, x1];
    let s3 = seq![x0, x1, x2];
    let s4 = seq![x0, x1, x2, x3];
    let b0 = ((x0 << 2u8) | (x1 >> 4u8)) as u8;
    let b1 = ((x1 << 4u8) | (x2 >> 2u8)) as u8;
    let b2 = ((x2 << 6u8) | x3) as u8;
    assert(pack(Seq::<u8>::empty()) == Seq::<u8>::empty());
    assert(s1.drop_last() =~= Seq::<u8>::empty());
    assert(pack(s1) == pack(Seq::<u8>::empty()));
    assert(s2.drop_last() =~= s1);
    assert(s2[0] == x0 && s2.last() == x1);
    assert(pack(s2) == pack(s1).push(b0));
    assert(pack(s2) =~= seq![b0]);
    assert(s3.drop_last() =~= s2);
    assert(s3[1] == x1 && s3.last() == x2);
    assert(pack(s3) == pack(s2).push(b1));
    assert(pack(s3) =~= seq![b0, b1]);
    assert(s4.drop_last() =~= s3);
    assert(s4[2] == x2 && s4.last() == x3);
    assert(pack(s4) == pack(s3).push(b2));
    assert(pack(s4) =~= seq![b0, b1, b2]);
}

proof fn lemma_encoded(b: Seq<u8>)
    ensures
        sextets(b64_encode(b)) == Some(encoded_sextets(b)),
        pack(encoded_sextets(b)) == b,
    decreases b.len(),
{
    if b.len() == 0 {
        assert(pack(Seq::<u8>::empty()) =~= b);
    } else if b.len() == 1 {
        lemma_sextet_ranges(b[0], 0, 0);
        lemma_sextets_group(six0(b[0]), six1(b[0], 0), 0, 0);
        lemma_pack_short(six0(b[0]), six1(b[0], 0), 0, 0);
        lemma_pack_group(b[0], 0, 0);
        assert(pack(encoded_sextets(b)) =~= b);
    } else if b.len() == 2 {
        lemma_sextet_ranges(b[0], b[1], 0);
        lemma_sextets_group(six0(b[0]), six1(b[0], b[1]), six2(b[1], 0), 0);
        lemma_pack_short(six0(b[0]), six1(b[0], b[1]), six2(b[1], 0), 0);
        lemma_pack_group(b[0], b[1], 0);
        assert(pack(encoded_sextets(b)) =~= b);
    } else {
        let rest = b.skip(3);
        lemma_encoded(rest);
        lemma_sextet_ranges(b[0], b[1], b[2]);
        let g = seq![
            b64_char(six0(b[0])),
            b64_char(six1(b[0], b[1])),
            b64_char(six2(b[1], b[2])),
            b64_char(six3(b[2])),
        ];
        let x = seq![six0(b[0]), six1(b[0], b[1]), six2(b[1], b[2]), six3(b[2])];
        lemma_sextets_group(six0(b[0]), six1(b[0], b[1]), six2(b[1], b[2]), six3(b[2]));
        lemma_sextets_append(g, b64_encode(rest));
        lemma_pack_append(x, encoded_sextets(rest));
        lemma_pack_short(six0(b[0]), six1(b[0], b[1]), six2(b[1], b[2]), six3(b[2]));
        lemma_pack_group(b[0], b[1], b[2]);
        assert(b =~= seq![b[0], b[1], b[2]] + rest);
        assert(pack(encoded_sextets(b)) =~= b);
    }
}

/// Decoding the standard base64 encoding of any bytes gives the bytes back.
pub proof fn lemma_decode_encoded(b: Seq<u8>)
    ensures
        sextets(b64_encode(b)) is Some,
        pack(sextets(b64_encode(b))->0) == b,
{
    lemma_encoded(b);
}

/// The same holds with padding left out and whitespace put in anywhere: any
/// text whose alphabet bytes are those of the encoding decodes to the bytes.
pub proof fn lemma_decode_encoded_loosely(s: Seq<u8>, b: Seq<u8>)
    requires
        kept(s) == kept(b64_encode(b)),
    ensures
        sextets(s) is Some,
        pack(sextets(s)->0) == b,
{
    lemma_encoded(b);
    lemma_decode_kept(s);
    lemma_decode_kept(b64_encode(b));
}

// ---------- the bit layout ----------
/// Bit `k` of a byte, counted from the most significant.
pub open spec fn byte_bit(x: u8, k: int) -> u8 {
    (x >> ((7 - k) as u8)) & 1u8
}

/// Bit `j` of the 6-bit values laid end to end, most significant first.
pub open spec fn stream_bit(v: Seq<u8>, j: int) -> u8 {
    (v[j / 6] >> ((5 - j % 6) as u8)) & 1u8
}

proof fn lemma_pack_index(v: Seq<u8>, i: int)
    requires
        0 <= i < pack(v).len(),
    ensures
        4 * (i / 3) + i % 3 + 1 < v.len(),
        i % 3 == 0 ==> pack(v)[i] == ((v[4 * (i / 3)] << 2u8) | (v[4 * (i / 3) + 1] >> 4u8)) as u8,
        i % 3 == 1 ==> pack(v)[i] == ((v[4 * (i / 3) + 1] << 4u8) | (v[4 * (i / 3) + 2] >> 2u8)) as u8,
        i % 3 == 2 ==> pack(v)[i] == ((v[4 * (i / 3) + 2] << 6u8) | v[4 * (i / 3) + 3]) as u8,
    decreases v.len(),
{
    let w = v.drop_last();
    lemma_pack_len(w);
    lemma_pack_len(v);
    let n = v.len() - 1;
    if i < pack(w).len() {
        lemma_pack_index(w, i);
        let j = 4 * (i / 3) + i % 3;
        assert(w[j] == v[j] && w[j + 1] == v[j + 1]);
        if i % 3 == 2 {
            assert(w[j + 1] == v[4 * (i / 3) + 3]);
        }
    } else {
        assert(n % 4 != 0);
        assert(i == pack(w).len());
        assert(i == (3 * n) / 4);
        assert(n == 4 * (i / 3) + i % 3 + 1);
    }
}

proof fn lemma_bits0(a: u8, b: u8, k: u8)
    requires
        a < 64,
        b < 64,
        k < 8,
    ensures
        ((((a << 2u8) | (b >> 4u8)) as u8) >> ((7u8 - k) as u8)) & 1u8 == if k < 6 {
            (a >> ((5u8 - k) as u8)) & 1u8
        } else {
            (b >> ((11u8 - k) as u8)) & 1u8
        },
{
    assert(((((a << 2u8) | (b >> 4u8)) as u8) >> ((7u8 - k) as u8)) & 1u8 == if k < 6 {
        (a >> ((5u8 - k) as u8)) & 1u8
    } else {
        (b >> ((11u8 - k) as u8)) & 1u8
    }) by (bit_vector)
        requires
            a < 64,
            b < 64,
            k < 8,
    ;
}

proof fn lemma_bits1(a: u8, b: u8, k: u8)
    requires
        a < 64,
        b < 64,
        k < 8,
    ensures
        ((((a << 4u8) | (b >> 2u8)) as u8) >> ((7u8 - k) as u8)) & 1u8 == if k < 4 {
            (a >> ((3u8 - k) as u8)) & 1u8
        } else {
            (b >> ((9u8 - k) as u8)) & 1u8
        },
{
    assert(((((a << 4u8) | (b >> 2u8)) as u8) >> ((7u8 - k) as u8)) & 1u8 == if k < 4 {
        (a >> ((3u8 - k) as u8)) & 1u8
    } else {
        (b >> ((9u8 - k) as u8)) & 1u8
    }) by (bit_vector)
        requires
            a < 64,
            b < 64,
            k < 8,
    ;
}

proof fn lemma_bits2(a: u8, b: u8, k: u8)
    requires
        a < 64,
        b < 64,
        k < 8,
    ensures
        ((((a << 6u8) | b) as u8) >> ((7u8 - k) as u8)) & 1u8 == if k < 2 {
            (a >> ((1u8 - k) as u8)) & 1u8
        } else {
            (b >> ((7u8 - k) as u8)) & 1u8
        },
{
    assert(((((a << 6u8) | b) as u8) >> ((7u8 - k) as u8)) & 1u8 == if k < 2 {
        (a >> ((1u8 - k) as u8)) & 1u8
    } else {
        (b >> ((7u8 - k) as u8)) & 1u8
    }) by (bit_vector)
        requires
            a < 64,
            b < 64,
            k < 8,
    ;
}

/// The bit layout of decoding: bit `k` of output byte `i` is bit `8i + k` of
/// the 6-bit values laid end to end.
pub proof fn lemma_pack_bits(v: Seq<u8>, i: int, k: int)
    requires
        forall|j: int| 0 <= j < v.len() ==> #[trigger] v[j] < 64,
        0 <= i < pack(v).len(),
        0 <= k < 8,
    ensures
        byte_bit(pack(v)[i], k) == stream_bit(v, 8 * i + k),
{
    lemma_pack_index(v, i);
    let q = i / 3;
    let r = i % 3;
    let a = v[4 * q + r];
    let b = v[4 * q + r + 1];
    let ku = k as u8;
    let j = 8 * i + k;
    assert(i == 3 * q + r);
    assert(j == 24 * q + 8 * r + k);
    if r == 0 {
        lemma_bits0(a, b, ku);
        if k < 6 {
            assert(j / 6 == 4 * q && j % 6 == k);
        } else {
            assert(j / 6 == 4 * q + 1 && j % 6 == k - 6);
        }
    } else if r == 1 {
        lemma_bits1(a, b, ku);
        if k < 4 {
            assert(j / 6 == 4 * q + 1 && j % 6 == k + 2);
        } else {
            assert(j / 6 == 4 * q + 2 && j % 6 == k - 4);
        }
    } else {
        lemma_bits2(a, b, ku);
        if k < 2 {
            assert(j / 6 == 4 * q + 2 && j % 6 == k + 4);
        } else {
            assert(j / 6 == 4 * q + 3 && j % 6 == k - 2);
        }
    }
}

} // verus!
