//! Building strings character by character, and decimal numerals.
use vstd::prelude::*;

verus! {

/// Appends `c` to `s`: `String::push`.
///
/// Trusted: std documents `push` as appending the given `char` to the end of
/// the string, which is what the contract says of the character sequence.
#[verifier::external_body]
pub(crate) fn push_char(s: &mut String, c: char)
    ensures
        final(s)@ == old(s)@.push(c),
{
    s.push(c);
}

/// The character of a decimal digit.
pub open spec fn digit_char(d: nat) -> char
    recommends d < 10,
{
    (('0' as int) + d) as char
}

/// The decimal digits of `n`, most significant first, without leading zeros
/// (`0` is the single digit `0`).
pub open spec fn digits(n: nat) -> Seq<char>
    decreases n,
{
    if n < 10 {
        seq![digit_char(n)]
    } else {
        digits(n / 10).push(digit_char(n % 10))
    }
}

/// The decimal numeral of `v`: its digits, after a `-` when it is negative.
pub open spec fn decimal(v: int) -> Seq<char> {
    if v < 0 { seq!['-'] + digits((-v) as nat) } else { digits(v as nat) }
}

/// The digits of `n`, as characters, in a fresh string.
pub fn digits_string(n: u64) -> (out: String)
    ensures
        out@ == digits(n as nat),
{
    // Collect the digits least significant first, then emit them in reverse.
    let mut rev: Vec<char> = Vec::new();
    let mut m: u64 = n;
    loop
        invariant_except_break
            digits(n as nat) == digits(m as nat) + rev@.reverse(),
        ensures
            rev@.reverse() == digits(n as nat),
        decreases m,
    {
        let d = (m % 10) as u8;
        rev.push(digit_char_exec(d));
        assert(rev@.reverse() =~= seq![digit_char(d as nat)] + all_but_last_reversed(rev@));
        if m < 10 {
            break;
        }
        m = m / 10;
    }
    let mut out = String::new();
    let mut k: usize = rev.len();
    while k > 0
        invariant
            k <= rev.len(),
            out@ == rev@.reverse().subrange(0, (rev.len() - k) as int),
        decreases k,
    {
        k = k - 1;
        push_char(&mut out, rev[k]);
    }
    out
}

/// The reverse of everything in `s` but its last element.
spec fn all_but_last_reversed(s: Seq<char>) -> Seq<char> {
    s.drop_last().reverse()
}

fn digit_char_exec(d: u8) -> (c: char)
    requires
        d < 10,
    ensures
        c == digit_char(d as nat),
{
    match d {
        0 => '0',
        1 => '1',
        2 => '2',
        3 => '3',
        4 => '4',
        5 => '5',
        6 => '6',
        7 => '7',
        8 => '8',
        _ => '9',
    }
}

/// The decimal numeral of `v` in a fresh string.
pub fn decimal_string(v: i64) -> (out: String)
    ensures
        out@ == decimal(v as int),
{
    if v < 0 {
        let magnitude: u64 = ((-(v + 1)) as u64) + 1;
        let mut out = String::new();
        push_char(&mut out, '-');
        let d = digits_string(magnitude);
        out.append(d.as_str());
        assert(out@ =~= seq!['-'] + digits((-v) as nat));
        out
    } else {
        digits_string(v as u64)
    }
}

} // verus!
