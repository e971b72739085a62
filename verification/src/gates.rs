//! Embedding quantum gates into a register: the bit arithmetic of
//! composite indices and the checks on a requested embedding.  Qubit 0 is
//! the most significant bit of a composite index.
use vstd::prelude::*;
use vstd::arithmetic::power2::pow2;
use crate::error::{QoalaError, Result};
use crate::text::{digits, digits_string, push_char};

verus! {

/// Largest register the embeddings accept.
pub const MAX_SPINS: usize = 6;

/// Bit `s` of `k`, counting from the least significant.
pub open spec fn bit_at(k: usize, s: usize) -> usize {
    (k >> s) & 1
}

/// Bit of composite index `k` belonging to qubit `q` of `nspins`.
pub fn bit(k: usize, q: usize, nspins: usize) -> (r: usize)
    requires
        q < nspins,
        nspins - 1 - q < usize::BITS,
    ensures
        r == bit_at(k, (nspins - 1 - q) as usize),
        r == (k as nat / pow2((nspins - 1 - q) as nat)) % 2,
        r <= 1,
{
    let s = nspins - 1 - q;
    let r = (k >> s) & 1;
    proof {
        vstd::bits::lemma_usize_shr_is_div(k, s);
        let y = k >> s;
        assert(y & 1 == y % 2) by (bit_vector);
    }
    r
}

/// `k` with qubit `q`'s bit set to `v`.
pub fn with_bit(k: usize, q: usize, nspins: usize, v: usize) -> (r: usize)
    requires
        q < nspins,
        nspins - 1 - q < usize::BITS,
    ensures
        forall|t: usize| t < usize::BITS ==> #[trigger] bit_at(r, t) == if t == (nspins - 1 - q) as usize {
            if v == 1 { 1usize } else { 0usize }
        } else {
            bit_at(k, t)
        },
{
    let s = nspins - 1 - q;
    let mask = 1usize << s;
    let r = if v == 1 { k | mask } else { k & !mask };
    proof {
        assert forall|t: usize| t < usize::BITS implies #[trigger] bit_at(r, t) == if t == s {
            if v == 1 { 1usize } else { 0usize }
        } else {
            bit_at(k, t)
        } by {
            if v == 1 {
                assert(((k | (1usize << s)) >> t) & 1 == if t == s { 1usize } else { (k >> t) & 1 }) by (bit_vector)
                    requires s < usize::BITS, t < usize::BITS;
            } else {
                assert(((k & !(1usize << s)) >> t) & 1 == if t == s { 0usize } else { (k >> t) & 1 }) by (bit_vector)
                    requires s < usize::BITS, t < usize::BITS;
            }
        }
    }
    r
}

/// Setting a bit and reading it back gives the value set (one for `v == 1`,
/// zero otherwise); every other bit keeps its value; and setting a bit to
/// the value it has changes nothing.
pub proof fn law_with_bit_sets_one_bit(k: usize, r: usize, s: usize, v: usize)
    requires
        s < usize::BITS,
        forall|t: usize| t < usize::BITS ==> #[trigger] bit_at(r, t) == if t == s {
            if v == 1 { 1usize } else { 0usize }
        } else {
            bit_at(k, t)
        },
    ensures
        bit_at(r, s) == if v == 1 { 1usize } else { 0usize },
        forall|t: usize| t < usize::BITS && t != s ==> #[trigger] bit_at(r, t) == bit_at(k, t),
        (if v == 1 { 1usize } else { 0usize }) == bit_at(k, s) ==> r == k,
{
    if (if v == 1 { 1usize } else { 0usize }) == bit_at(k, s) {
        assert(forall|t: usize| t < usize::BITS ==> #[trigger] bit_at(r, t) == bit_at(k, t));
        lemma_bits_determine(r, k);
    }
}

/// Two values with the same bits are equal.
proof fn lemma_bits_determine(a: usize, b: usize)
    requires
        forall|t: usize| t < usize::BITS ==> #[trigger] bit_at(a, t) == bit_at(b, t),
    ensures
        a == b,
{
    let x = a ^ b;
    assert forall|t: usize| t < usize::BITS implies (#[trigger] (x >> t)) & 1 == 0 by {
        assert(bit_at(a, t) == bit_at(b, t));
        assert(((a ^ b) >> t) & 1 == 0) by (bit_vector)
            requires ((a >> t) & 1) == ((b >> t) & 1), t < usize::BITS;
    }
    assert(x == 0) by {
        if x != 0 {
            let t = lemma_some_bit_set(x);
            assert((x >> t) & 1 == 0);
        }
    }
    assert(a == b) by (bit_vector)
        requires a ^ b == 0;
}

/// A non-zero value has a set bit.
proof fn lemma_some_bit_set(x: usize) -> (t: usize)
    requires
        x != 0,
    ensures
        t < usize::BITS,
        (x >> t) & 1 == 1,
    decreases x,
{
    if x & 1 == 1 {
        assert(x >> 0 == x) by (bit_vector);
        0
    } else {
        let y = x >> 1;
        assert(y != 0 && y < x) by (bit_vector)
            requires x != 0, x & 1 != 1, y == x >> 1;
        let t = lemma_some_bit_set(y);
        assert(t + 1 < usize::BITS) by (bit_vector)
            requires y == x >> 1, (y >> t) & 1 == 1, t < usize::BITS;
        let u = (t + 1) as usize;
        assert((x >> u) & 1 == 1) by (bit_vector)
            requires y == x >> 1, (y >> t) & 1 == 1, u == t + 1, t + 1 < usize::BITS;
        u
    }
}

// --------------------------------------------------------------- checks ----

/// The message for a register size outside `lo..=MAX_SPINS`.
pub open spec fn register_size_message(two: bool, nspins: nat) -> Seq<char> {
    if two {
        "embedding a two-qubit gate needs between 2 and 6 spins, got "@ + digits(nspins)
    } else {
        "embedding needs between 1 and 6 spins, got "@ + digits(nspins)
    }
}

/// The message for a qubit outside the register.
pub open spec fn qubit_outside_message(q: nat, nspins: nat) -> Seq<char> {
    "qubit "@ + digits(q) + " is outside a "@ + digits(nspins) + "-spin register"@
}

/// The message for a pair of qubits outside the register.
pub open spec fn pair_outside_message(a: nat, b: nat, nspins: nat) -> Seq<char> {
    "qubits ("@ + digits(a) + ", "@ + digits(b) + ") are outside a "@ + digits(nspins) + "-spin register"@
}

/// The message for a pair that is one qubit twice.
pub open spec fn same_qubit_message(a: nat, b: nat) -> Seq<char> {
    "a two-qubit gate needs two distinct qubits, got ("@ + digits(a) + ", "@ + digits(b) + ")"@
}

/// The message for a gate matrix of the wrong shape.
pub open spec fn gate_shape_message(two: bool, rows: nat, cols: nat) -> Seq<char> {
    (if two { "a two-qubit gate must be 4x4, got "@ } else { "a single-qubit gate must be 2x2, got "@ })
        + digits(rows) + "x"@ + digits(cols)
}

/// Appends the decimal digits of `n`.
fn append_number(s: &mut String, n: usize)
    ensures
        final(s)@ == old(s)@ + digits(n as nat),
{
    let d = digits_string(n as u64);
    s.append(d.as_str());
}

/// Whether a single-qubit gate of `rows x cols` can be embedded on qubit
/// `q` of an `nspins` register, and if not, why.
pub fn check_one_qubit(nspins: usize, q: usize, rows: usize, cols: usize) -> (r: Result<()>)
    ensures
        (nspins == 0 || nspins > MAX_SPINS) ==> (r matches Err(QoalaError::BadValue(m))
            && m@ == register_size_message(false, nspins as nat)),
        !(nspins == 0 || nspins > MAX_SPINS) && q >= nspins ==> (r matches Err(QoalaError::BadValue(m))
            && m@ == qubit_outside_message(q as nat, nspins as nat)),
        !(nspins == 0 || nspins > MAX_SPINS) && q < nspins && (rows != 2 || cols != 2) ==> (r matches Err(
            QoalaError::Dimension(m),
        ) && m@ == gate_shape_message(false, rows as nat, cols as nat)),
        1 <= nspins <= MAX_SPINS && q < nspins && rows == 2 && cols == 2 ==> r is Ok,
{
    if nspins == 0 || nspins > MAX_SPINS {
        let mut m = String::from_str("embedding needs between 1 and 6 spins, got ");
        append_number(&mut m, nspins);
        return Err(QoalaError::BadValue(m));
    }
    if q >= nspins {
        let mut m = String::from_str("qubit ");
        append_number(&mut m, q);
        m.append(" is outside a ");
        append_number(&mut m, nspins);
        m.append("-spin register");
        return Err(QoalaError::BadValue(m));
    }
    if rows != 2 || cols != 2 {
        let mut m = String::from_str("a single-qubit gate must be 2x2, got ");
        append_number(&mut m, rows);
        push_char(&mut m, 'x');
        append_number(&mut m, cols);
        proof {
            reveal_strlit("x");
        }
        return Err(QoalaError::Dimension(m));
    }
    Ok(())
}

/// Whether a two-qubit gate of `rows x cols` can be embedded on qubits
/// `(a, b)` of an `nspins` register, and if not, why.
pub fn check_two_qubit(nspins: usize, a: usize, b: usize, rows: usize, cols: usize) -> (r: Result<()>)
    ensures
        !(2 <= nspins <= MAX_SPINS) ==> (r matches Err(QoalaError::BadValue(m))
            && m@ == register_size_message(true, nspins as nat)),
        2 <= nspins <= MAX_SPINS && (a >= nspins || b >= nspins) ==> (r matches Err(QoalaError::BadValue(m))
            && m@ == pair_outside_message(a as nat, b as nat, nspins as nat)),
        2 <= nspins <= MAX_SPINS && a < nspins && b < nspins && a == b ==> (r matches Err(
            QoalaError::BadValue(m),
        ) && m@ == same_qubit_message(a as nat, b as nat)),
        2 <= nspins <= MAX_SPINS && a < nspins && b < nspins && a != b && (rows != 4 || cols != 4) ==> (r matches Err(
            QoalaError::Dimension(m),
        ) && m@ == gate_shape_message(true, rows as nat, cols as nat)),
        2 <= nspins <= MAX_SPINS && a < nspins && b < nspins && a != b && rows == 4 && cols == 4 ==> r is Ok,
{
    if !(2 <= nspins && nspins <= MAX_SPINS) {
        let mut m = String::from_str("embedding a two-qubit gate needs between 2 and 6 spins, got ");
        append_number(&mut m, nspins);
        return Err(QoalaError::BadValue(m));
    }
    if a >= nspins || b >= nspins {
        let mut m = String::from_str("qubits (");
        append_number(&mut m, a);
        m.append(", ");
        append_number(&mut m, b);
        m.append(") are outside a ");
        append_number(&mut m, nspins);
        m.append("-spin register");
        return Err(QoalaError::BadValue(m));
    }
    if a == b {
        let mut m = String::from_str("a two-qubit gate needs two distinct qubits, got (");
        append_number(&mut m, a);
        m.append(", ");
        append_number(&mut m, b);
        push_char(&mut m, ')');
        proof {
            reveal_strlit(")");
        }
        return Err(QoalaError::BadValue(m));
    }
    if rows != 4 || cols != 4 {
        let mut m = String::from_str("a two-qubit gate must be 4x4, got ");
        append_number(&mut m, rows);
        push_char(&mut m, 'x');
        append_number(&mut m, cols);
        proof {
            reveal_strlit("x");
        }
        return Err(QoalaError::Dimension(m));
    }
    Ok(())
}

/// Where a two-qubit gate's entries land in the register's matrix: for
/// register column `col` and gate row `grow`, the register row the entry
/// goes to and the column of the two-qubit matrix it is read from.  The row keeps `col`'s
/// other bits and takes qubit `a`'s bit from the high bit of `grow` and
/// qubit `b`'s from its low bit; that column is formed from `col`'s
/// bits on `a` and `b` in the same way.
pub fn two_qubit_target(nspins: usize, a: usize, b: usize, col: usize, grow: usize) -> (r: (usize, usize))
    requires
        2 <= nspins <= MAX_SPINS,
        a < nspins,
        b < nspins,
        a != b,
        grow < 4,
    ensures
        r.1 == 2 * bit_at(col, (nspins - 1 - a) as usize) + bit_at(col, (nspins - 1 - b) as usize),
        bit_at(r.0, (nspins - 1 - a) as usize) == grow / 2,
        bit_at(r.0, (nspins - 1 - b) as usize) == grow % 2,
        forall|t: usize| t < usize::BITS && t != (nspins - 1 - a) as usize && t != (nspins - 1 - b) as usize ==> #[trigger] bit_at(r.0, t) == bit_at(col, t),
{
    let ia = bit(col, a, nspins);
    let ib = bit(col, b, nspins);
    let gcol = 2 * ia + ib;
    let oa = grow >> 1;
    let ob = grow & 1;
    assert(oa == grow / 2 && ob == grow % 2 && oa <= 1 && ob <= 1) by (bit_vector)
        requires oa == grow >> 1, ob == grow & 1, grow < 4;
    let half = with_bit(col, a, nspins, oa);
    let row = with_bit(half, b, nspins, ob);
    (row, gcol)
}

/// Distinct rows of a two-qubit gate land on distinct rows of the
/// register, for any register column: a gate row is written into the
/// two target bits, which the register row therefore spells back.
pub proof fn law_gate_rows_land_on_distinct_register_rows(sa: usize, sb: usize, r1: usize, r2: usize, g1: usize, g2: usize)
    requires
        sa != sb,
        g1 < 4,
        g2 < 4,
        bit_at(r1, sa) == g1 / 2,
        bit_at(r1, sb) == g1 % 2,
        bit_at(r2, sa) == g2 / 2,
        bit_at(r2, sb) == g2 % 2,
        g1 != g2,
    ensures
        r1 != r2,
{
}

} // verus!
