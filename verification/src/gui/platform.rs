//! What this build is running on, and the text a setup takes in a link:
//! percent-encoding for a URL fragment and the `setup=` part of one.
use vstd::prelude::*;
use vstd::utf8::{valid_utf8, decode_utf8, encode_utf8, is_ascii_chars};
use crate::text::push_char;

verus! {

/// Facts about the host that change what the interface offers.
#[derive(Debug, Clone, Copy, PartialEq, Eq, Structural)]
pub struct Platform {
    /// Running in a browser rather than as a desktop application.
    pub is_web: bool,
    /// Whether multi-core WebAssembly is available; always false natively.
    pub cross_origin_isolated: bool,
}

/// The platform of a native build: not a browser, and so not isolated.
pub fn detect() -> (p: Platform)
    ensures
        !p.is_web,
        !p.cross_origin_isolated,
{
    Platform { is_web: false, cross_origin_isolated: false }
}

// -------------------------------------------------------- percent-encoding ----

/// Bytes a URL fragment carries as they are.
pub open spec fn is_unreserved(b: u8) -> bool {
    (0x41 <= b <= 0x5a) || (0x61 <= b <= 0x7a) || (0x30 <= b <= 0x39) || b == 0x2d || b == 0x5f
        || b == 0x2e || b == 0x7e
}

/// Upper-case hexadecimal digit of `d < 16`.
pub open spec fn hex_digit(d: int) -> char {
    if d < 10 { (0x30 + d) as char } else { (0x41 + d - 10) as char }
}

/// How one byte travels: itself when unreserved, else `%` and two
/// upper-case hexadecimal digits.
pub open spec fn escape_byte(b: u8) -> Seq<char> {
    if is_unreserved(b) {
        seq![b as char]
    } else {
        seq!['%', hex_digit(b as int / 16), hex_digit(b as int % 16)]
    }
}

/// The percent-encoding of a byte sequence.
pub open spec fn percent_encoded(bytes: Seq<u8>) -> Seq<char>
    decreases bytes.len(),
{
    if bytes.len() == 0 {
        Seq::empty()
    } else {
        escape_byte(bytes[0]) + percent_encoded(bytes.skip(1))
    }
}

/// The value of a hexadecimal digit in either case.
pub open spec fn hex_value(b: u8) -> Option<int> {
    if 0x30 <= b <= 0x39 {
        Some(b - 0x30)
    } else if 0x61 <= b <= 0x66 {
        Some(b - 0x61 + 10)
    } else if 0x41 <= b <= 0x46 {
        Some(b - 0x41 + 10)
    } else {
        None
    }
}

/// A two-byte escape read as `u8::from_str_radix(.., 16)` reads it: two
/// hexadecimal digits, or a `+` sign and one digit.
pub open spec fn escape_value(a: u8, b: u8) -> Option<u8> {
    match (hex_value(a), hex_value(b)) {
        (Some(x), Some(y)) => Some((16 * x + y) as u8),
        (None, Some(y)) => if a == 0x2b { Some(y as u8) } else { None },
        _ => None,
    }
}

/// Undoes `percent_encoded`: the bytes spelled by `text`, or `None` where
/// a `%` is not followed by a readable escape.
pub open spec fn percent_decoded(text: Seq<u8>) -> Option<Seq<u8>>
    decreases text.len(),
{
    if text.len() == 0 {
        Some(Seq::empty())
    } else if text[0] == 0x25 {
        if text.len() < 3 {
            None
        } else {
            match escape_value(text[1], text[2]) {
                None => None,
                Some(v) => match percent_decoded(text.skip(3)) {
                    None => None,
                    Some(rest) => Some(seq![v] + rest),
                },
            }
        }
    } else {
        match percent_decoded(text.skip(1)) {
            None => None,
            Some(rest) => Some(seq![text[0]] + rest),
        }
    }
}

/// The upper-case hexadecimal digit of `d < 16`.
fn hex_digit_exec(d: u8) -> (c: char)
    requires
        d < 16,
    ensures
        c == hex_digit(d as int),
{
    if d < 10 {
        (0x30u8 + d) as char
    } else {
        (0x41u8 + d - 10) as char
    }
}

/// Encoding distributes over concatenation.
proof fn lemma_encoded_concat(a: Seq<u8>, b: Seq<u8>)
    ensures
        percent_encoded(a + b) == percent_encoded(a) + percent_encoded(b),
    decreases a.len(),
{
    if a.len() > 0 {
        lemma_encoded_concat(a.skip(1), b);
        assert((a + b).skip(1) =~= a.skip(1) + b);
        assert(percent_encoded(a + b) =~= percent_encoded(a) + percent_encoded(b));
    } else {
        assert(a + b =~= b);
        assert(percent_encoded(a) + percent_encoded(b) =~= percent_encoded(b));
    }
}

/// Percent-encodes the characters a URL fragment cannot carry, byte by
/// byte of the UTF-8 encoding.
pub fn encode(s: &str) -> (out: String)
    ensures
        out@ == percent_encoded(encode_utf8(s@)),
{
    let bytes = s.as_bytes();
    let mut out = String::new();
    let mut i: usize = 0;
    while i < bytes.len()
        invariant
            i <= bytes@.len(),
            bytes@ == encode_utf8(s@),
            out@ == percent_encoded(bytes@.subrange(0, i as int)),
        decreases bytes.len() - i,
    {
        let b = bytes[i];
        proof {
            lemma_encoded_concat(bytes@.subrange(0, i as int), seq![b]);
            assert(bytes@.subrange(0, i as int + 1) =~= bytes@.subrange(0, i as int) + seq![b]);
            assert(seq![b].skip(1) =~= Seq::<u8>::empty());
            assert(percent_encoded(seq![b].skip(1)) =~= Seq::<char>::empty());
            assert(percent_encoded(seq![b]) =~= escape_byte(b));
        }
        if (0x41 <= b && b <= 0x5a) || (0x61 <= b && b <= 0x7a) || (0x30 <= b && b <= 0x39) || b == 0x2d
            || b == 0x5f || b == 0x2e || b == 0x7e {
            push_char(&mut out, b as char);
        } else {
            push_char(&mut out, '%');
            push_char(&mut out, hex_digit_exec(b / 16));
            push_char(&mut out, hex_digit_exec(b % 16));
        }
        i = i + 1;
    }
    assert(bytes@.subrange(0, i as int) =~= bytes@);
    out
}

/// The text of a valid UTF-8 byte sequence: `String::from_utf8`.
///
/// Trusted: std documents that `from_utf8` returns the string holding
/// exactly the given bytes when they are valid UTF-8, and an error
/// otherwise; the contract states that over vstd's model of UTF-8.
#[verifier::external_body]
fn string_from_utf8(bytes: Vec<u8>) -> (r: Option<String>)
    ensures
        r.is_some() <==> valid_utf8(bytes@),
        r matches Some(s) ==> s@ == decode_utf8(bytes@),
{
    String::from_utf8(bytes).ok()
}

/// The value of a hexadecimal digit byte.
fn hex_value_exec(b: u8) -> (r: Option<u8>)
    ensures
        r matches Some(v) ==> hex_value(b) == Some(v as int),
        r is None ==> hex_value(b) is None,
{
    if 0x30 <= b && b <= 0x39 {
        Some(b - 0x30)
    } else if 0x61 <= b && b <= 0x66 {
        Some(b - 0x61 + 10)
    } else if 0x41 <= b && b <= 0x46 {
        Some(b - 0x41 + 10)
    } else {
        None
    }
}

/// A two-byte escape's value.
fn escape_value_exec(a: u8, b: u8) -> (r: Option<u8>)
    ensures
        r == escape_value(a, b),
{
    match (hex_value_exec(a), hex_value_exec(b)) {
        (Some(x), Some(y)) => Some(16 * x + y),
        (None, Some(y)) => if a == 0x2b { Some(y) } else { None },
        _ => None,
    }
}

/// Decoding `text` once `prefix` of it has been read into `out`.
pub open spec fn decoding_continues(text: Seq<u8>, n: int, out: Seq<u8>) -> bool {
    percent_decoded(text) == match percent_decoded(text.skip(n)) {
        None => None,
        Some(rest) => Some(out + rest),
    }
}

/// The bytes `text[from..to]` spell, percent-decoded.
fn decode_range(text: &[u8], from: usize, to: usize) -> (r: Option<Vec<u8>>)
    requires
        from <= to <= text@.len(),
    ensures
        match percent_decoded(text@.subrange(from as int, to as int)) {
            None => r is None,
            Some(b) => r matches Some(v) && v@ == b,
        },
{
    let ghost t = text@.subrange(from as int, to as int);
    let mut out: Vec<u8> = Vec::new();
    let mut n: usize = from;
    assert(t.skip(0) =~= t);
    while n < to
        invariant
            from <= n <= to <= text@.len(),
            t == text@.subrange(from as int, to as int),
            decoding_continues(t, n - from, out@),
        decreases to - n,
    {
        let ghost rest = t.skip(n - from);
        assert(rest[0] == text@[n as int]);
        if text[n] == 0x25 {
            if to - n <= 2 {
                assert(rest.len() < 3);
                return None;
            }
            assert(rest[1] == text@[n + 1] && rest[2] == text@[n + 2]);
            match escape_value_exec(text[n + 1], text[n + 2]) {
                None => {
                    return None;
                },
                Some(v) => {
                    proof {
                        assert(rest.skip(3) =~= t.skip(n + 3 - from));
                        let old_out = out@;
                        match percent_decoded(t.skip(n + 3 - from)) {
                            None => {},
                            Some(r2) => {
                                assert(old_out + (seq![v] + r2) =~= old_out.push(v) + r2);
                            },
                        }
                    }
                    out.push(v);
                    n = n + 3;
                },
            }
        } else {
            proof {
                assert(rest.skip(1) =~= t.skip(n + 1 - from));
                let old_out = out@;
                match percent_decoded(t.skip(n + 1 - from)) {
                    None => {},
                    Some(r2) => {
                        assert(old_out + (seq![rest[0]] + r2) =~= old_out.push(rest[0]) + r2);
                    },
                }
            }
            out.push(text[n]);
            n = n + 1;
        }
    }
    proof {
        assert(t.skip(n - from) =~= Seq::<u8>::empty());
        assert(out@ + Seq::<u8>::empty() =~= out@);
    }
    Some(out)
}

/// The text `bytes` spell once percent-decoded, when that is valid UTF-8.
pub open spec fn decoded_text(bytes: Seq<u8>) -> Option<Seq<char>> {
    match percent_decoded(bytes) {
        None => None,
        Some(b) => if valid_utf8(b) { Some(decode_utf8(b)) } else { None },
    }
}

/// Undoes `encode`: `None` where an escape cannot be read or the bytes
/// are not UTF-8.
pub fn decode(s: &str) -> (r: Option<String>)
    ensures
        r is Some <==> decoded_text(encode_utf8(s@)) is Some,
        r matches Some(t) ==> decoded_text(encode_utf8(s@)) == Some(t@),
{
    let bytes = s.as_bytes();
    assert(bytes@.subrange(0, bytes@.len() as int) =~= bytes@);
    match decode_range(bytes, 0, bytes.len()) {
        None => None,
        Some(v) => string_from_utf8(v),
    }
}

// ------------------------------------------------------------- fragments ----

/// `text` after its leading `#` bytes.
pub open spec fn without_hashes(text: Seq<u8>) -> Seq<u8>
    decreases text.len(),
{
    if text.len() > 0 && text[0] == 0x23 { without_hashes(text.skip(1)) } else { text }
}

/// The bytes of `setup=`.
pub open spec fn setup_key() -> Seq<u8> {
    seq![0x73u8, 0x65, 0x74, 0x75, 0x70, 0x3d]
}

/// Length of the first `&`-separated part of `text`.
pub open spec fn part_len(text: Seq<u8>) -> nat
    decreases text.len(),
{
    if text.len() == 0 || text[0] == 0x26 { 0 } else { 1 + part_len(text.skip(1)) }
}

/// The value of the first `&`-separated part of `text` that starts with
/// `setup=`, still encoded.
pub open spec fn setup_value(text: Seq<u8>) -> Option<Seq<u8>>
    decreases text.len(),
{
    let l = part_len(text);
    let part = text.take(l as int);
    if part.len() >= 6 && part.take(6) == setup_key() {
        Some(part.skip(6))
    } else if l < text.len() {
        setup_value(text.skip((l + 1) as int))
    } else {
        None
    }
}

/// The fragment a setup's JSON text encodes to, without the leading `#`.
pub fn fragment_for_json(json: &str) -> (out: String)
    ensures
        out@ == "setup="@ + percent_encoded(encode_utf8(json@)),
{
    let mut out = String::from_str("setup=");
    let e = encode(json);
    out.append(e.as_str());
    out
}

proof fn lemma_part_len(text: Seq<u8>, i: int)
    requires
        0 <= i <= part_len(text),
    ensures
        part_len(text) <= text.len(),
        forall|k: int| 0 <= k < part_len(text) ==> #[trigger] text[k] != 0x26,
        part_len(text) < text.len() ==> text[part_len(text) as int] == 0x26,
    decreases text.len(),
{
    if text.len() > 0 && text[0] != 0x26 {
        lemma_part_len(text.skip(1), 0);
        assert forall|k: int| 0 <= k < part_len(text) implies #[trigger] text[k] != 0x26 by {
            if k > 0 {
                assert(text[k] == text.skip(1)[k - 1]);
            }
        }
    }
}

/// The still-encoded setup value of a fragment: after any leading `#`, the
/// first `&`-separated part that starts with `setup=`, without that key.
fn fragment_setup_value(bytes: &[u8]) -> (r: Option<(usize, usize)>)
    ensures
        match setup_value(without_hashes(bytes@)) {
            None => r is None,
            Some(v) => r matches Some((a, b)) && a <= b <= bytes@.len()
                && bytes@.subrange(a as int, b as int) == v,
        },
{
    let mut start: usize = 0;
    assert(bytes@.skip(0) =~= bytes@);
    while start < bytes.len() && bytes[start] == 0x23
        invariant
            start <= bytes@.len(),
            without_hashes(bytes@) == without_hashes(bytes@.skip(start as int)),
        decreases bytes.len() - start,
    {
        assert(bytes@.skip(start as int).skip(1) =~= bytes@.skip(start as int + 1));
        start = start + 1;
    }
    assert(without_hashes(bytes@.skip(start as int)) == bytes@.skip(start as int));
    loop
        invariant
            start <= bytes@.len(),
            setup_value(without_hashes(bytes@)) == setup_value(bytes@.skip(start as int)),
        decreases bytes.len() - start,
    {
        let ghost text = bytes@.skip(start as int);
        let mut end = start;
        while end < bytes.len() && bytes[end] != 0x26
            invariant
                start <= end <= bytes@.len(),
                text == bytes@.skip(start as int),
                forall|k: int| start <= k < end ==> #[trigger] bytes@[k] != 0x26,
            decreases bytes.len() - end,
        {
            end = end + 1;
        }
        proof {
            lemma_part_len(text, 0);
            let l = part_len(text);
            if l < end - start {
                assert(text[l as int] == bytes@[start + l]);
            }
            if end - start < l {
                assert(text[end - start] == bytes@[end as int]);
            }
            assert(l == end - start);
        }
        let ghost part = text.take((end - start) as int);
        if end - start >= 6 && bytes[start] == 0x73 && bytes[start + 1] == 0x65 && bytes[start + 2] == 0x74
            && bytes[start + 3] == 0x75 && bytes[start + 4] == 0x70 && bytes[start + 5] == 0x3d {
            assert(part.take(6) =~= setup_key());
            assert(part.skip(6) =~= bytes@.subrange(start + 6, end as int));
            return Some((start + 6, end));
        }
        proof {
            if part.len() >= 6 {
                assert(part.take(6) != setup_key()) by {
                    if part.take(6) == setup_key() {
                        assert(part.take(6)[0] == bytes@[start as int]);
                        assert(part.take(6)[1] == bytes@[start + 1]);
                        assert(part.take(6)[2] == bytes@[start + 2]);
                        assert(part.take(6)[3] == bytes@[start + 3]);
                        assert(part.take(6)[4] == bytes@[start + 4]);
                        assert(part.take(6)[5] == bytes@[start + 5]);
                    }
                }
            }
        }
        if end == bytes.len() {
            return None;
        }
        assert(text.skip(end - start + 1) =~= bytes@.skip(end + 1));
        start = end + 1;
    }
}

/// The setup's JSON text a fragment carries: the decoded value of its
/// first `setup=` part, ignoring a leading `#`.  `None` when there is no
/// such part or its value does not decode.
pub fn setup_json_from_fragment(fragment: &str) -> (r: Option<String>)
    ensures
        match setup_value(without_hashes(encode_utf8(fragment@))) {
            None => r is None,
            Some(v) => (r is Some <==> decoded_text(v) is Some)
                && (r matches Some(t) ==> decoded_text(v) == Some(t@)),
        },
{
    let bytes = fragment.as_bytes();
    match fragment_setup_value(bytes) {
        None => None,
        Some((a, b)) => match decode_range(bytes, a, b) {
            None => None,
            Some(v) => string_from_utf8(v),
        },
    }
}

// ------------------------------------------------------------------ laws ----

/// The escape of one byte is ASCII and decodes back to that byte.
proof fn lemma_escape_round_trip(b: u8, tail: Seq<u8>)
    ensures
        is_ascii_chars(escape_byte(b)),
        percent_decoded(escape_byte(b).map_values(|c: char| c as u8) + tail) == match percent_decoded(tail) {
            None => None,
            Some(rest) => Some(seq![b] + rest),
        },
{
    let e = escape_byte(b).map_values(|c: char| c as u8);
    let t = e + tail;
    if is_unreserved(b) {
        assert(t[0] == b);
        assert(t.skip(1) =~= tail);
    } else {
        let hi = b as int / 16;
        let lo = b as int % 16;
        assert(0 <= hi < 16 && 0 <= lo < 16);
        assert(t[0] == 0x25);
        assert(t[1] == (hex_digit(hi) as u8));
        assert(t[2] == (hex_digit(lo) as u8));
        assert(hex_value(t[1]) == Some(hi));
        assert(hex_value(t[2]) == Some(lo));
        assert(escape_value(t[1], t[2]) == Some(b));
        assert(t.skip(3) =~= tail);
    }
}

/// Every fragment value the library writes reads back as the text it was
/// made from: decoding undoes encoding for every string, and the encoding
/// uses only unreserved bytes, `%` and upper-case hexadecimal digits, so
/// it never holds the `#` or `&` that delimit fragments and their parts.
pub proof fn law_decode_undoes_encode(s: Seq<char>)
    ensures
        is_ascii_chars(percent_encoded(encode_utf8(s))),
        decoded_text(encode_utf8(percent_encoded(encode_utf8(s)))) == Some(s),
        !percent_encoded(encode_utf8(s)).contains('#'),
        !percent_encoded(encode_utf8(s)).contains('&'),
{
    vstd::utf8::encode_utf8_valid_utf8(s);
    vstd::utf8::encode_utf8_decode_utf8(s);
    let b = encode_utf8(s);
    lemma_bytes_round_trip(b);
    let e = percent_encoded(b);
    vstd::utf8::is_ascii_chars_encode_utf8(e);
    assert(encode_utf8(e) =~= e.map_values(|c: char| c as u8));
}

/// The byte-level round trip, with the encoding's alphabet.
proof fn lemma_bytes_round_trip(b: Seq<u8>)
    ensures
        is_ascii_chars(percent_encoded(b)),
        percent_decoded(percent_encoded(b).map_values(|c: char| c as u8)) == Some(b),
        !percent_encoded(b).contains('#'),
        !percent_encoded(b).contains('&'),
    decreases b.len(),
{
    if b.len() == 0 {
        assert(percent_encoded(b).map_values(|c: char| c as u8) =~= Seq::<u8>::empty());
    } else {
        let rest = b.skip(1);
        lemma_bytes_round_trip(rest);
        let head = escape_byte(b[0]);
        let tail = percent_encoded(rest).map_values(|c: char| c as u8);
        lemma_escape_round_trip(b[0], tail);
        assert(percent_encoded(b).map_values(|c: char| c as u8) =~= head.map_values(|c: char| c as u8) + tail);
        assert(seq![b[0]] + rest =~= b);
        assert(is_ascii_chars(percent_encoded(b))) by {
            assert forall|i: int| 0 <= i < percent_encoded(b).len() implies '\0' <= #[trigger] percent_encoded(b)[i] <= '\u{7f}' by {
                if i < head.len() {
                    assert(percent_encoded(b)[i] == head[i]);
                } else {
                    assert(percent_encoded(b)[i] == percent_encoded(rest)[i - head.len()]);
                }
            }
        }
        assert(!percent_encoded(b).contains('#')) by {
            if percent_encoded(b).contains('#') {
                let i = choose|i: int| 0 <= i < percent_encoded(b).len() && percent_encoded(b)[i] == '#';
                if i >= head.len() {
                    assert(percent_encoded(rest)[i - head.len()] == '#');
                }
            }
        }
        assert(!percent_encoded(b).contains('&')) by {
            if percent_encoded(b).contains('&') {
                let i = choose|i: int| 0 <= i < percent_encoded(b).len() && percent_encoded(b)[i] == '&';
                if i >= head.len() {
                    assert(percent_encoded(rest)[i - head.len()] == '&');
                }
            }
        }
    }
}


/// Characters a fragment value carries as they are.
pub open spec fn is_unreserved_char(c: char) -> bool {
    ('A' <= c <= 'Z') || ('a' <= c <= 'z') || ('0' <= c <= '9') || c == '-' || c == '_' || c == '.'
        || c == '~'
}

/// Upper-case hexadecimal digits.
pub open spec fn is_upper_hex(c: char) -> bool {
    ('0' <= c <= '9') || ('A' <= c <= 'F')
}

/// Every character is unreserved, or a `%` followed by two upper-case
/// hexadecimal digits.
pub open spec fn well_escaped(e: Seq<char>) -> bool {
    forall|k: int| 0 <= k < e.len() ==> is_unreserved_char(#[trigger] e[k]) || (e[k] == '%' && k + 2 < e.len()
        && is_upper_hex(e[k + 1]) && is_upper_hex(e[k + 2]))
}

proof fn lemma_hex_digit_upper(d: int)
    requires
        0 <= d < 16,
    ensures
        is_upper_hex(hex_digit(d)),
        is_unreserved_char(hex_digit(d)),
{
}

proof fn lemma_escape_byte_well_escaped(b: u8)
    ensures
        well_escaped(escape_byte(b)),
{
    if is_unreserved(b) {
        let e = escape_byte(b);
        assert(e[0] == b as char);
    } else {
        lemma_hex_digit_upper(b as int / 16);
        lemma_hex_digit_upper(b as int % 16);
    }
}

proof fn lemma_bytes_well_escaped(b: Seq<u8>)
    ensures
        well_escaped(percent_encoded(b)),
    decreases b.len(),
{
    if b.len() > 0 {
        lemma_bytes_well_escaped(b.skip(1));
        lemma_escape_byte_well_escaped(b[0]);
        let h = escape_byte(b[0]);
        let t = percent_encoded(b.skip(1));
        let e = h + t;
        assert(e == percent_encoded(b));
        assert forall|k: int| 0 <= k < e.len() implies is_unreserved_char(#[trigger] e[k]) || (e[k] == '%' && k
            + 2 < e.len() && is_upper_hex(e[k + 1]) && is_upper_hex(e[k + 2])) by {
            if k < h.len() {
                assert(e[k] == h[k]);
                if !is_unreserved_char(h[k]) {
                    assert(h[k] == '%' && k + 2 < h.len() && is_upper_hex(h[k + 1]) && is_upper_hex(h[k + 2]));
                    assert(e[k + 1] == h[k + 1]);
                    assert(e[k + 2] == h[k + 2]);
                }
            } else {
                let j = k - h.len();
                assert(e[k] == t[j]);
                if !is_unreserved_char(t[j]) {
                    assert(t[j] == '%' && j + 2 < t.len() && is_upper_hex(t[j + 1]) && is_upper_hex(t[j + 2]));
                    assert(e[k + 1] == t[j + 1]);
                    assert(e[k + 2] == t[j + 2]);
                }
            }
        }
    }
}

/// The encoding of any text uses only the unreserved characters `A-Z`,
/// `a-z`, `0-9`, `-`, `_`, `.` and `~`, and `%` escapes of two upper-case
/// hexadecimal digits; in particular no space, `=`, `#` or `&`.
pub proof fn law_encoding_alphabet(s: Seq<char>)
    ensures
        well_escaped(percent_encoded(encode_utf8(s))),
        !percent_encoded(encode_utf8(s)).contains(' '),
        !percent_encoded(encode_utf8(s)).contains('='),
{
    lemma_bytes_well_escaped(encode_utf8(s));
    let e = percent_encoded(encode_utf8(s));
    assert forall|k: int| 0 <= k < e.len() implies e[k] != ' ' && e[k] != '=' by {
        assert(is_unreserved_char(e[k]) || e[k] == '%');
    }
}

} // verus!
