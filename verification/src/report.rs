//! Text helpers for the console report: `pad`, a left-padding
//! variant, `int2str`, the layout of settings and warning lines, and the
//! text manipulations that C-style number formats make on their digits.
use vstd::prelude::*;
use crate::text::{push_char, digits, digits_string, decimal, decimal_string};

verus! {

/// `s` followed by enough `fill` characters to make `n` characters in all;
/// `s` itself when it is already that long.
pub open spec fn padded_right(s: Seq<char>, n: nat) -> Seq<char> {
    if s.len() >= n { s } else { s + Seq::new((n - s.len()) as nat, |i: int| ' ') }
}

/// Enough spaces to make `n` characters in all, followed by `s`.
pub open spec fn padded_left(s: Seq<char>, n: nat) -> Seq<char> {
    if s.len() >= n { s } else { Seq::new((n - s.len()) as nat, |i: int| ' ') + s }
}

/// Right-pads with spaces to `n` columns, never truncating.
pub fn pad(s: &str, n: usize) -> (out: String)
    ensures
        out@ == padded_right(s@, n as nat),
{
    let len = s.unicode_len();
    if len >= n {
        String::from_str(s)
    } else {
        let mut out = String::from_str(s);
        let mut k: usize = 0;
        while k < n - len
            invariant
                len == s@.len(),
                len < n,
                k <= n - len,
                out@ == s@ + Seq::new(k as nat, |i: int| ' '),
            decreases n - len - k,
        {
            push_char(&mut out, ' ');
            k = k + 1;
            assert(out@ =~= s@ + Seq::new(k as nat, |i: int| ' '));
        }
        out
    }
}

/// Left-pad with spaces to `n` columns, never truncating.
pub fn pad_left(s: &str, n: usize) -> (out: String)
    ensures
        out@ == padded_left(s@, n as nat),
{
    let len = s.unicode_len();
    if len >= n {
        String::from_str(s)
    } else {
        let mut out = String::new();
        let mut k: usize = 0;
        while k < n - len
            invariant
                len == s@.len(),
                len < n,
                k <= n - len,
                out@ == Seq::new(k as nat, |i: int| ' '),
            decreases n - len - k,
        {
            push_char(&mut out, ' ');
            k = k + 1;
            assert(out@ =~= Seq::new(k as nat, |i: int| ' '));
        }
        out.append(s);
        out
    }
}

/// The decimal digits of `v`, with a leading `-` when
/// it is negative.
pub fn int2str(v: i64) -> (out: String)
    ensures
        out@ == decimal(v as int),
{
    decimal_string(v)
}

// ------------------------------------------------------------ report lines ----

/// Column at which the value of a settings line starts.
pub const LABEL_WIDTH: usize = 60;

/// A `label ... value` settings line: the label padded to 60 columns.
pub fn field_text(label: &str, value: &str) -> (out: String)
    ensures
        out@ == padded_right(label@, 60) + value@,
{
    let mut out = pad(label, LABEL_WIDTH);
    out.append(value);
    out
}

/// A settings line whose value is padded to 20 columns too.
pub fn field_padded_text(label: &str, value: &str) -> (out: String)
    ensures
        out@ == padded_right(label@, 60) + padded_right(value@, 20),
{
    let mut out = pad(label, LABEL_WIDTH);
    let v = pad(value, 20);
    out.append(v.as_str());
    out
}

/// A `WARNING` line: the warning padded to 60 columns, then `WARNING`.
pub fn warning_text(warning: &str) -> (out: String)
    ensures
        out@ == padded_right(warning@, 60) + "WARNING"@,
{
    let mut out = pad(warning, LABEL_WIDTH);
    out.append("WARNING");
    out
}

/// The `RESOLVE` line that follows a warning: `... ` and the resolution,
/// padded to 60 columns, then `RESOLVE`.
pub fn resolve_text(resolution: &str) -> (out: String)
    ensures
        out@ == padded_right("... "@ + resolution@, 60) + "RESOLVE"@,
{
    let mut text = String::from_str("... ");
    text.append(resolution);
    let mut out = pad(text.as_str(), LABEL_WIDTH);
    out.append("RESOLVE");
    out
}

// ------------------------------------------------------- number formats ----

/// `s` without the copies of `c` at its end.
pub open spec fn trim_end(s: Seq<char>, c: char) -> Seq<char>
    decreases s.len(),
{
    if s.len() > 0 && s.last() == c { trim_end(s.drop_last(), c) } else { s }
}

/// A fixed-point numeral as `%g` shows it: with a decimal point, its
/// trailing zeros and then a bare trailing point removed.
pub open spec fn without_fraction_zeros(s: Seq<char>) -> Seq<char> {
    if s.contains('.') { trim_end(trim_end(s, '0'), '.') } else { s }
}

/// Strips the copies of `c` at the end of `s`.
fn trim_end_exec(s: &Vec<char>, c: char) -> (n: usize)
    ensures
        n <= s@.len(),
        s@.take(n as int) == trim_end(s@, c),
{
    let mut n = s.len();
    assert(s@.take(n as int) =~= s@);
    while n > 0 && s[n - 1] == c
        invariant
            n <= s@.len(),
            trim_end(s@, c) == trim_end(s@.take(n as int), c),
        decreases n,
    {
        assert(s@.take(n as int).drop_last() =~= s@.take(n as int - 1));
        n = n - 1;
    }
    n
}

/// The characters of `s`.
fn chars_of(s: &str) -> (v: Vec<char>)
    ensures
        v@ == s@,
{
    let n = s.unicode_len();
    let mut v: Vec<char> = Vec::new();
    let mut i: usize = 0;
    while i < n
        invariant
            n == s@.len(),
            i <= n,
            v@ == s@.take(i as int),
        decreases n - i,
    {
        v.push(s.get_char(i));
        i = i + 1;
        assert(v@ =~= s@.take(i as int));
    }
    assert(s@.take(n as int) =~= s@);
    v
}

/// The first `n` characters of `v` as a string.
fn string_of(v: &Vec<char>, n: usize) -> (s: String)
    requires
        n <= v@.len(),
    ensures
        s@ == v@.take(n as int),
{
    let mut s = String::new();
    let mut i: usize = 0;
    while i < n
        invariant
            n <= v@.len(),
            i <= n,
            s@ == v@.take(i as int),
        decreases n - i,
    {
        push_char(&mut s, v[i]);
        i = i + 1;
        assert(s@ =~= v@.take(i as int));
    }
    s
}

/// Removes a fixed-point numeral's trailing fractional zeros, and the
/// point itself when nothing follows it, as `%g` does.
pub fn trim_fraction_zeros(s: &str) -> (out: String)
    ensures
        out@ == without_fraction_zeros(s@),
{
    let v = chars_of(s);
    let mut has_point = false;
    let mut i: usize = 0;
    while i < v.len()
        invariant
            i <= v@.len(),
            has_point <==> v@.take(i as int).contains('.'),
        decreases v@.len() - i,
    {
        proof {
            let t = v@.take(i as int + 1);
            assert(t =~= v@.take(i as int).push(v@[i as int]));
            if v@.take(i as int).contains('.') {
                let j = choose|j: int| 0 <= j < i && v@.take(i as int)[j] == '.';
                assert(t[j] == '.');
            }
            if v@[i as int] == '.' {
                assert(t[i as int] == '.');
            }
            if t.contains('.') && v@[i as int] != '.' {
                let j = choose|j: int| 0 <= j < t.len() && t[j] == '.';
                assert(v@.take(i as int)[j] == '.');
            }
        }
        if v[i] == '.' {
            has_point = true;
        }
        i = i + 1;
    }
    assert(v@.take(i as int) =~= v@);
    if !has_point {
        return string_of(&v, v.len());
    }
    let n = trim_end_exec(&v, '0');
    let w = string_of(&v, n);
    let w_chars = chars_of(w.as_str());
    let m = trim_end_exec(&w_chars, '.');
    string_of(&w_chars, m)
}

/// A `%g` mantissa in exponent form with its trailing fractional zeros
/// removed: the text up to the first `e` is trimmed as
/// `without_fraction_zeros` says, the exponent kept as it is.
pub open spec fn trim_mantissa(s: Seq<char>) -> Seq<char> {
    if s.contains('e') {
        let k = choose|k: int| 0 <= k < s.len() && s[k] == 'e' && forall|j: int| 0 <= j < k ==> s[j] != 'e';
        without_fraction_zeros(s.take(k)) + s.skip(k)
    } else {
        s
    }
}

/// Trims the mantissa of an exponent-form numeral as `%g` does.
pub fn trim_exponent_mantissa(s: &str) -> (out: String)
    ensures
        out@ == trim_mantissa(s@),
{
    let v = chars_of(s);
    let mut k: usize = 0;
    while k < v.len() && v[k] != 'e'
        invariant
            k <= v@.len(),
            forall|j: int| 0 <= j < k ==> #[trigger] v@[j] != 'e',
        decreases v@.len() - k,
    {
        k = k + 1;
    }
    if k == v.len() {
        assert(!s@.contains('e'));
        return string_of(&v, k);
    }
    proof {
        let kk = choose|kk: int| 0 <= kk < s@.len() && s@[kk] == 'e' && forall|j: int| 0 <= j < kk ==> s@[j] != 'e';
        assert(kk == k) by {
            if kk < k {
                assert(v@[kk] != 'e');
            } else if kk > k {
                assert(s@[k as int] != 'e');
            }
        }
    }
    let mant = string_of(&v, k);
    let mut out = trim_fraction_zeros(mant.as_str());
    let mut i = k;
    let ghost head = out@;
    while i < v.len()
        invariant
            k <= i <= v@.len(),
            out@ == head + v@.subrange(k as int, i as int),
        decreases v@.len() - i,
    {
        push_char(&mut out, v[i]);
        i = i + 1;
        assert(out@ =~= head + v@.subrange(k as int, i as int));
    }
    assert(v@.subrange(k as int, i as int) =~= s@.skip(k as int));
    out
}

/// The exponent of a C-style `%e` numeral: `e`, the sign, and at least two
/// digits.
pub open spec fn exponent_suffix(exp: int) -> Seq<char> {
    let m = if exp < 0 { -exp } else { exp };
    seq!['e', if exp < 0 { '-' } else { '+' }] + (if m < 10 { seq!['0'] } else { Seq::empty() })
        + digits(m as nat)
}

/// Writes the exponent of a C-style `%e` numeral.
pub fn exponent_text(exp: i32) -> (out: String)
    ensures
        out@ == exponent_suffix(exp as int),
{
    let mut out = String::new();
    push_char(&mut out, 'e');
    push_char(&mut out, if exp < 0 { '-' } else { '+' });
    let m: u64 = if exp < 0 { ((-(exp as i64)) as u64) } else { exp as u64 };
    if m < 10 {
        push_char(&mut out, '0');
    }
    let d = digits_string(m);
    out.append(d.as_str());
    proof {
        let mm = if exp < 0 { -exp } else { exp as int };
        assert(m == mm);
    }
    out
}

/// `%g` with a forced sign: a `+` in front unless a sign is already there.
pub open spec fn signed(s: Seq<char>) -> Seq<char> {
    if s.len() > 0 && (s[0] == '-' || s[0] == '+') { s } else { seq!['+'] + s }
}

/// Puts a `+` in front of a numeral that has no sign.
pub fn with_sign(s: &str) -> (out: String)
    ensures
        out@ == signed(s@),
{
    if s.unicode_len() > 0 {
        let c = s.get_char(0);
        if c == '-' || c == '+' {
            return String::from_str(s);
        }
    }
    let mut out = String::from_str("+");
    out.append(s);
    proof {
        reveal_strlit("+");
    }
    out
}

} // verus!
