use mirror_console::base64::b64_decode;
use mirror_console::json::{json_num_in_bounds, json_num_text, json_str, json_str_raw};

fn st(v: &[char]) -> String {
    v.iter().collect()
}

#[test]
fn base64_decodes_standard_text() {
    assert_eq!(b64_decode(b"aGVsbG8=").unwrap(), b"hello".to_vec());
    assert_eq!(b64_decode(b"aGVsbA==").unwrap(), b"hell".to_vec());
    assert_eq!(b64_decode(b"aGVs").unwrap(), b"hel".to_vec());
    assert_eq!(b64_decode(b"").unwrap(), Vec::<u8>::new());
    assert_eq!(b64_decode(b"+/+/").unwrap(), vec![0xfb, 0xff, 0xbf]);
}

#[test]
fn base64_passes_over_padding_and_whitespace_anywhere() {
    let plain = b64_decode(b"aGVsbG8=").unwrap();
    assert_eq!(b64_decode(b"aGVs\nbG8=").unwrap(), plain);
    assert_eq!(b64_decode(b" a=G\tVsb\r\nG8").unwrap(), plain);
    assert_eq!(b64_decode(&[b'a', b'G', 0x85, b'V', b's']).unwrap(), b64_decode(b"aGVs").unwrap());
}

#[test]
fn base64_length_is_three_quarters_of_the_symbols() {
    assert_eq!(b64_decode(b"QQ").unwrap().len(), 1);
    assert_eq!(b64_decode(b"QUI").unwrap().len(), 2);
    assert_eq!(b64_decode(b"QUJD").unwrap().len(), 3);
    assert_eq!(b64_decode(b"Q").unwrap().len(), 0);
}

#[test]
fn base64_rejects_other_bytes() {
    let e = b64_decode(b"aGV*sbG8").unwrap_err();
    assert_eq!(st(&e), "invalid base64 character");
    assert!(b64_decode(&[b'a', 0xc3, 0xa9]).is_err());
}

#[test]
fn json_string_field() {
    let body = br#"{"value":{"sessionId":"ABC-123","capabilities":{}}}"#;
    assert_eq!(st(&json_str(body, b"sessionId").unwrap()), "ABC-123");
    assert_eq!(json_str(body, b"missing"), None);
}

#[test]
fn json_string_escapes_and_spacing() {
    let body = br#"{"state" :   "a\"b\nc\\d\te\r\/"}"#;
    assert_eq!(st(&json_str(body, b"state").unwrap()), "a\"b\nc\\d\te\r/");
}

#[test]
fn json_string_unterminated_or_not_a_string() {
    assert_eq!(st(&json_str(br#"{"k":"abc"#, b"k").unwrap()), "abc");
    assert_eq!(json_str(br#"{"k":12}"#, b"k"), None);
    assert_eq!(json_str(br#"{"k""#, b"k"), None);
    assert_eq!(json_str(br#"{"k":"ab\"#, b"k").map(|v| st(&v)), Some("ab\\".to_string()));
}

#[test]
fn json_string_bytes_become_characters() {
    let body = "{\"v\":\"\u{e9}\"}".as_bytes();
    assert_eq!(json_str_raw(body, b"v").unwrap(), vec![0xc3, 0xa9]);
    assert_eq!(st(&json_str(body, b"v").unwrap()), "\u{c3}\u{a9}");
}

#[test]
fn json_number_text() {
    let body = br#"{"value":{"width":390,"height": 844.5e0}}"#;
    assert!(json_num_in_bounds(body, b"width"));
    assert_eq!(json_num_text(body, b"width").unwrap(), b"390".to_vec());
    assert_eq!(json_num_text(body, b"height").unwrap(), b"844.5e0".to_vec());
    assert_eq!(json_num_text(body, b"depth"), None);
    assert_eq!(json_num_text(br#"{"w":"x"}"#, b"w").unwrap(), Vec::<u8>::new());
}

#[test]
fn json_number_without_colon_is_out_of_bounds() {
    assert!(!json_num_in_bounds(br#"{"width""#, b"width"));
    assert!(json_num_in_bounds(br#"{"other":1}"#, b"width"));
}

fn encode(b: &[u8]) -> Vec<u8> {
    let abc = b"ABCDEFGHIJKLMNOPQRSTUVWXYZabcdefghijklmnopqrstuvwxyz0123456789+/";
    let mut out = Vec::new();
    for g in b.chunks(3) {
        let x0 = g[0];
        let x1 = if g.len() > 1 { g[1] } else { 0 };
        let x2 = if g.len() > 2 { g[2] } else { 0 };
        out.push(abc[(x0 >> 2) as usize]);
        out.push(abc[(((x0 & 3) << 4) | (x1 >> 4)) as usize]);
        out.push(if g.len() > 1 { abc[(((x1 & 15) << 2) | (x2 >> 6)) as usize] } else { b'=' });
        out.push(if g.len() > 2 { abc[(x2 & 63) as usize] } else { b'=' });
    }
    out
}

#[test]
fn base64_decodes_an_encoding_back_to_its_bytes() {
    for n in 0..40usize {
        let bytes: Vec<u8> = (0..n).map(|i| (i * 37 + 11) as u8).collect();
        let enc = encode(&bytes);
        assert_eq!(b64_decode(&enc).unwrap(), bytes);
        let bare: Vec<u8> = enc.iter().copied().filter(|c| *c != b'=').collect();
        assert_eq!(b64_decode(&bare).unwrap(), bytes);
        let mut wrapped = Vec::new();
        for (i, c) in enc.iter().enumerate() {
            if i % 5 == 0 {
                wrapped.extend_from_slice(b"\r\n ");
            }
            wrapped.push(*c);
        }
        assert_eq!(b64_decode(&wrapped).unwrap(), bytes);
    }
    let all: Vec<u8> = (0..=255u8).collect();
    assert_eq!(b64_decode(&encode(&all)).unwrap(), all);
}

#[test]
fn base64_bits_follow_the_symbols_in_order() {
    // "/w": 111111 110000 -> 11111111, four bits left over and dropped.
    assert_eq!(b64_decode(b"/w").unwrap(), vec![0xff]);
    // "AQID": 000000 010000 001000 000011 -> 0x01 0x02 0x03.
    assert_eq!(b64_decode(b"AQID").unwrap(), vec![1, 2, 3]);
    // six symbols, 36 bits: four bytes.
    assert_eq!(b64_decode(b"QUJDRA").unwrap(), b"ABCD".to_vec());
}

#[test]
fn json_string_reads_back_a_debug_quoted_value() {
    for v in ["plain", "with \"quotes\"", "back\\slash", "tab\there", "cr\rlf\n", ""] {
        let body = format!("{{\"{}\":{:?}}}", "value", v);
        assert_eq!(json_str(body.as_bytes(), b"value").map(|c| st(&c)), Some(v.to_string()));
    }
}
