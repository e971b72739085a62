//! File names the front end derives from what the user typed.
use vstd::prelude::*;
use crate::text::push_char;

verus! {

/// ASCII letters and digits.
pub open spec fn is_ascii_alphanumeric(c: char) -> bool {
    ('0' <= c <= '9') || ('a' <= c <= 'z') || ('A' <= c <= 'Z')
}

/// How one character of a name appears in its slug: ASCII letters and
/// digits lower-cased, everything else an underscore.
pub open spec fn slug_char(c: char) -> char {
    if 'A' <= c <= 'Z' {
        ((c as u32) + 32) as char
    } else if is_ascii_alphanumeric(c) {
        c
    } else {
        '_'
    }
}

/// `s` without its leading underscores.
pub open spec fn strip_leading_underscores(s: Seq<char>) -> Seq<char>
    decreases s.len(),
{
    if s.len() > 0 && s[0] == '_' { strip_leading_underscores(s.skip(1)) } else { s }
}

/// `s` without its trailing underscores.
pub open spec fn strip_trailing_underscores(s: Seq<char>) -> Seq<char>
    decreases s.len(),
{
    if s.len() > 0 && s.last() == '_' { strip_trailing_underscores(s.drop_last()) } else { s }
}

/// The slug of a name: each character mapped by `slug_char`, with the
/// underscores at either end trimmed.
pub open spec fn slug_text(name: Seq<char>) -> Seq<char> {
    strip_trailing_underscores(strip_leading_underscores(name.map_values(|c: char| slug_char(c))))
}

fn slug_char_exec(c: char) -> (r: char)
    ensures
        r == slug_char(c),
{
    if 'A' <= c && c <= 'Z' {
        let code: u32 = c as u32;
        ((code + 32) as u8) as char
    } else if ('0' <= c && c <= '9') || ('a' <= c && c <= 'z') {
        c
    } else {
        '_'
    }
}

proof fn lemma_strip_leading(s: Seq<char>, lo: int)
    requires
        0 <= lo <= s.len(),
        forall|k: int| 0 <= k < lo ==> #[trigger] s[k] == '_',
        lo < s.len() ==> s[lo] != '_',
    ensures
        strip_leading_underscores(s) == s.skip(lo),
    decreases lo,
{
    if lo > 0 {
        let t = s.skip(1);
        assert forall|k: int| 0 <= k < lo - 1 implies #[trigger] t[k] == '_' by {
            assert(t[k] == s[k + 1]);
        }
        if lo - 1 < t.len() {
            assert(t[lo - 1] == s[lo]);
        }
        lemma_strip_leading(t, lo - 1);
        assert(t.skip(lo - 1) =~= s.skip(lo));
    } else {
        assert(s.skip(0) =~= s);
    }
}

proof fn lemma_strip_trailing(s: Seq<char>, hi: int)
    requires
        0 <= hi <= s.len(),
        forall|k: int| hi <= k < s.len() ==> #[trigger] s[k] == '_',
        hi > 0 ==> s[hi - 1] != '_',
    ensures
        strip_trailing_underscores(s) == s.take(hi),
    decreases s.len() - hi,
{
    if hi < s.len() {
        let t = s.drop_last();
        assert forall|k: int| hi <= k < t.len() implies #[trigger] t[k] == '_' by {
            assert(t[k] == s[k]);
        }
        if hi > 0 {
            assert(t[hi - 1] == s[hi - 1]);
        }
        lemma_strip_trailing(t, hi);
        assert(t.take(hi) =~= s.take(hi));
    } else {
        assert(s.take(hi) =~= s);
    }
}

/// A filename-safe version of a preset name: ASCII letters and digits
/// lower-cased, everything else `_`, and no `_` at either end.
pub fn slug(name: &str) -> (out: String)
    ensures
        out@ == slug_text(name@),
{
    let n = name.unicode_len();
    let mut mapped: Vec<char> = Vec::new();
    let mut i: usize = 0;
    while i < n
        invariant
            n == name@.len(),
            i <= n,
            mapped@ == name@.take(i as int).map_values(|c: char| slug_char(c)),
        decreases n - i,
    {
        let c = name.get_char(i);
        mapped.push(slug_char_exec(c));
        i = i + 1;
        assert(mapped@ =~= name@.take(i as int).map_values(|c: char| slug_char(c)));
    }
    assert(name@.take(n as int) =~= name@);
    let ghost m = mapped@;
    let mut lo: usize = 0;
    while lo < n && mapped[lo] == '_'
        invariant
            n == mapped.len(),
            lo <= n,
            forall|k: int| 0 <= k < lo ==> #[trigger] m[k] == '_',
            m == mapped@,
        decreases n - lo,
    {
        lo = lo + 1;
    }
    let mut hi: usize = n;
    while hi > lo && mapped[hi - 1] == '_'
        invariant
            n == mapped.len(),
            lo <= hi <= n,
            forall|k: int| hi <= k < n ==> #[trigger] m[k] == '_',
            m == mapped@,
        decreases hi,
    {
        hi = hi - 1;
    }
    proof {
        lemma_strip_leading(m, lo as int);
        let t = m.skip(lo as int);
        assert forall|k: int| hi - lo <= k < t.len() implies #[trigger] t[k] == '_' by {
            assert(t[k] == m[k + lo]);
        }
        if hi > lo {
            assert(t[hi - lo - 1] == m[hi - 1]);
        }
        lemma_strip_trailing(t, hi - lo);
    }
    let mut out = String::new();
    let mut k: usize = lo;
    while k < hi
        invariant
            lo <= k <= hi <= n,
            n == mapped.len(),
            m == mapped@,
            out@ == m.subrange(lo as int, k as int),
        decreases hi - k,
    {
        push_char(&mut out, mapped[k]);
        k = k + 1;
        assert(out@ =~= m.subrange(lo as int, k as int));
    }
    assert(m.skip(lo as int).take(hi - lo) =~= m.subrange(lo as int, hi as int));
    out
}

/// A slug holds only lower-case ASCII letters, digits and underscores, and
/// neither starts nor ends with an underscore.
pub proof fn law_slug_is_filename_safe(name: Seq<char>)
    ensures
        forall|k: int| 0 <= k < slug_text(name).len() ==> {
            let c = #[trigger] slug_text(name)[k];
            ('0' <= c <= '9') || ('a' <= c <= 'z') || c == '_'
        },
        slug_text(name).len() > 0 ==> slug_text(name)[0] != '_' && slug_text(name).last() != '_',
{
    let m = name.map_values(|c: char| slug_char(c));
    assert forall|k: int| 0 <= k < m.len() implies {
        let c = #[trigger] m[k];
        ('0' <= c <= '9') || ('a' <= c <= 'z') || c == '_'
    } by {
        let c = name[k];
        if 'A' <= c <= 'Z' {
            assert(65 <= (c as u32) <= 90);
        }
    }
    lemma_strip_keeps(m);
}

/// Stripping leading underscores leaves a suffix that does not start with
/// one.
proof fn lemma_leading_suffix(s: Seq<char>) -> (k: int)
    ensures
        0 <= k <= s.len(),
        strip_leading_underscores(s) == s.skip(k),
        strip_leading_underscores(s).len() > 0 ==> strip_leading_underscores(s)[0] != '_',
    decreases s.len(),
{
    if s.len() > 0 && s[0] == '_' {
        let k = lemma_leading_suffix(s.skip(1));
        assert(s.skip(1).skip(k) =~= s.skip(k + 1));
        k + 1
    } else {
        assert(s.skip(0) =~= s);
        0
    }
}

/// Stripping trailing underscores leaves a prefix that does not end with
/// one.
proof fn lemma_trailing_prefix(s: Seq<char>) -> (k: int)
    ensures
        0 <= k <= s.len(),
        strip_trailing_underscores(s) == s.take(k),
        strip_trailing_underscores(s).len() > 0 ==> strip_trailing_underscores(s).last() != '_',
    decreases s.len(),
{
    if s.len() > 0 && s.last() == '_' {
        let k = lemma_trailing_prefix(s.drop_last());
        assert(s.drop_last().take(k) =~= s.take(k));
        k
    } else {
        assert(s.take(s.len() as int) =~= s);
        s.len() as int
    }
}

/// Stripping underscores keeps a character class and removes them from
/// both ends.
proof fn lemma_strip_keeps(m: Seq<char>)
    requires
        forall|k: int| 0 <= k < m.len() ==> {
            let c = #[trigger] m[k];
            ('0' <= c <= '9') || ('a' <= c <= 'z') || c == '_'
        },
    ensures
        forall|k: int| 0 <= k < strip_trailing_underscores(strip_leading_underscores(m)).len() ==> {
            let c = #[trigger] strip_trailing_underscores(strip_leading_underscores(m))[k];
            ('0' <= c <= '9') || ('a' <= c <= 'z') || c == '_'
        },
        strip_trailing_underscores(strip_leading_underscores(m)).len() > 0 ==> strip_trailing_underscores(
            strip_leading_underscores(m),
        )[0] != '_' && strip_trailing_underscores(strip_leading_underscores(m)).last() != '_',
{
    let lo = lemma_leading_suffix(m);
    let t = strip_leading_underscores(m);
    let hi = lemma_trailing_prefix(t);
    let r = strip_trailing_underscores(t);
    assert forall|k: int| 0 <= k < r.len() implies {
        let c = #[trigger] r[k];
        ('0' <= c <= '9') || ('a' <= c <= 'z') || c == '_'
    } by {
        assert(r[k] == t[k]);
        assert(t[k] == m[k + lo]);
    }
    if r.len() > 0 {
        assert(r[0] == t[0]);
    }
}


/// A slug is never longer than the name it was made from, and slugging a
/// slug changes nothing.
pub proof fn law_slug_shortens_and_settles(name: Seq<char>)
    ensures
        slug_text(name).len() <= name.len(),
        slug_text(slug_text(name)) == slug_text(name),
{
    let m = name.map_values(|c: char| slug_char(c));
    let lo = lemma_leading_suffix(m);
    let t = strip_leading_underscores(m);
    let hi = lemma_trailing_prefix(t);
    let r = slug_text(name);
    assert(r.len() <= name.len());
    law_slug_is_filename_safe(name);
    let rm = r.map_values(|c: char| slug_char(c));
    assert forall|k: int| 0 <= k < r.len() implies rm[k] == r[k] by {
        let c = r[k];
        assert(('0' <= c <= '9') || ('a' <= c <= 'z') || c == '_');
    }
    assert(rm =~= r);
    assert(strip_leading_underscores(r) == r);
    assert(strip_trailing_underscores(r) == r);
}

} // verus!
