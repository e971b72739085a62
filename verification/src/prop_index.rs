//! Sparse index tables for propagator elements.
//!
//! The closed-form single-spin propagators produce a flat list of propagator
//! elements per time point; these tables say where each of those elements
//! lands in the (single-spin or composite) propagator matrix.  Indices are
//! zero-based.
//!
//! Every table is built from Kronecker products of small integer row
//! vectors.  The contracts state each entry in
//! closed form: entry `k` of a table is read off the mixed-radix digits of
//! `k`, one digit per spin.
use vstd::prelude::*;
use vstd::arithmetic::div_mod::*;
use vstd::arithmetic::mul::*;
use crate::error::{QoalaError, Result};
use crate::types::{Basis, StateSpace};
use crate::text::digits_string;

verus! {

// ------------------------------------------------------------ vectors ----

/// The Kronecker product of two row vectors: entry `k` is
/// `a[k / |b|] * b[k % |b|]`.
pub open spec fn kron_spec(a: Seq<i64>, b: Seq<i64>) -> Seq<int> {
    Seq::new(a.len() * b.len(), |k: int| a[k / (b.len() as int)] * b[k % (b.len() as int)])
}

/// The products of `a` and `b` all fit in an `i64`.
pub open spec fn products_fit(a: Seq<i64>, b: Seq<i64>) -> bool {
    forall|i: int, j: int|
        0 <= i < a.len() && 0 <= j < b.len() ==> i64::MIN <= #[trigger] a[i] * #[trigger] b[j]
            <= i64::MAX
}

/// Every entry of `a` lies in `[-m, m]`.
pub open spec fn bounded_by(a: Seq<i64>, m: int) -> bool {
    forall|i: int| 0 <= i < a.len() ==> -m <= #[trigger] a[i] <= m
}

/// Vectors with small entries have products that fit.
proof fn lemma_products_fit(a: Seq<i64>, b: Seq<i64>, ma: int, mb: int)
    requires
        bounded_by(a, ma),
        bounded_by(b, mb),
        0 <= ma,
        0 <= mb,
        ma * mb <= i64::MAX,
    ensures
        products_fit(a, b),
{
    assert forall|i: int, j: int| 0 <= i < a.len() && 0 <= j < b.len() implies i64::MIN
        <= #[trigger] a[i] * #[trigger] b[j] <= i64::MAX by {
        let x = a[i] as int;
        let y = b[j] as int;
        assert(-ma <= x <= ma);
        assert(-mb <= y <= mb);
        assert(-(ma * mb) <= x * y <= ma * mb) by (nonlinear_arith)
            requires
                -ma <= x <= ma,
                -mb <= y <= mb,
                0 <= ma,
                0 <= mb,
        ;
    }
}

/// Short vectors have short Kronecker products.
proof fn lemma_small_product(a: nat, b: nat)
    requires
        a <= 1000,
        b <= 1000,
    ensures
        a * b <= 1_000_000,
{
    assert(a * b <= 1_000_000) by (nonlinear_arith)
        requires
            a <= 1000,
            b <= 1000,
    ;
}

/// The two halves of a Kronecker index stay inside their vectors.
proof fn lemma_kron_index(alen: int, blen: int, k: int)
    requires
        0 <= k < alen * blen,
        0 < blen,
    ensures
        0 <= k / blen < alen,
        0 <= k % blen < blen,
{
    lemma_fundamental_div_mod(k, blen);
    lemma_div_pos_is_pos(k, blen);
    lemma_mul_is_commutative(alen, blen);
    lemma_multiply_divide_lt(k, blen, alen);
}

/// Kronecker product of two integer row vectors.
fn kron_i(a: &[i64], b: &[i64]) -> (out: Vec<i64>)
    requires
        a@.len() * b@.len() <= usize::MAX,
        products_fit(a@, b@),
    ensures
        out@.len() == a@.len() * b@.len(),
        forall|k: int| 0 <= k < out@.len() ==> out@[k] == #[trigger] kron_spec(a@, b@)[k],
{
    let mut out: Vec<i64> = Vec::new();
    let bl = b.len();
    let mut i: usize = 0;
    while i < a.len()
        invariant
            a@.len() * b@.len() <= usize::MAX,
            products_fit(a@, b@),
            bl == b@.len(),
            i <= a@.len(),
            out@.len() == i * bl,
            forall|k: int| 0 <= k < out@.len() ==> out@[k] == #[trigger] kron_spec(a@, b@)[k],
        decreases a@.len() - i,
    {
        let x = a[i];
        let mut j: usize = 0;
        proof {
            lemma_mul_is_distributive_add_other_way(bl as int, i as int, 1);
            lemma_mul_inequality(i as int + 1, a@.len() as int, bl as int);
        }
        while j < bl
            invariant
                a@.len() * b@.len() <= usize::MAX,
                (i + 1) * bl <= a@.len() * b@.len(),
                products_fit(a@, b@),
                bl == b@.len(),
                i < a@.len(),
                x == a@[i as int],
                j <= bl,
                out@.len() == i * bl + j,
                forall|k: int| 0 <= k < out@.len() ==> out@[k] == #[trigger] kron_spec(a@, b@)[k],
            decreases bl - j,
        {
            let y = b[j];
            assert(i64::MIN <= a@[i as int] * b@[j as int] <= i64::MAX);
            let ghost k: int = i * bl + j;
            proof {
                lemma_fundamental_div_mod_converse(k, bl as int, i as int, j as int);
                lemma_mul_is_distributive_add_other_way(bl as int, i as int, 1);
                assert(k < a@.len() * b@.len());
            }
            out.push(x * y);
            assert(kron_spec(a@, b@)[k] == a@[i as int] * b@[j as int]);
            j = j + 1;
        }
        i = i + 1;
    }
    out
}

/// Entry-wise sum of two vectors of one length.
fn vec_add(a: &[i64], b: &[i64]) -> (out: Vec<i64>)
    requires
        a@.len() == b@.len(),
        forall|k: int| 0 <= k < a@.len() ==> i64::MIN <= #[trigger] a@[k] + b@[k] <= i64::MAX,
    ensures
        out@.len() == a@.len(),
        forall|k: int| 0 <= k < out@.len() ==> #[trigger] out@[k] == a@[k] + b@[k],
{
    let mut out: Vec<i64> = Vec::new();
    let mut k: usize = 0;
    while k < a.len()
        invariant
            a@.len() == b@.len(),
            forall|j: int| 0 <= j < a@.len() ==> i64::MIN <= #[trigger] a@[j] + b@[j] <= i64::MAX,
            k <= a@.len(),
            out@.len() == k,
            forall|j: int| 0 <= j < out@.len() ==> #[trigger] out@[j] == a@[j] + b@[j],
        decreases a@.len() - k,
    {
        assert(i64::MIN <= a@[k as int] + b@[k as int] <= i64::MAX);
        out.push(a[k] + b[k]);
        k = k + 1;
    }
    out
}

/// Every entry of a vector multiplied by `s`.
fn vec_scale(a: &[i64], s: i64) -> (out: Vec<i64>)
    requires
        forall|k: int| 0 <= k < a@.len() ==> i64::MIN <= #[trigger] a@[k] * s <= i64::MAX,
    ensures
        out@.len() == a@.len(),
        forall|k: int| 0 <= k < out@.len() ==> #[trigger] out@[k] == a@[k] * s,
{
    let mut out: Vec<i64> = Vec::new();
    let mut k: usize = 0;
    while k < a.len()
        invariant
            forall|j: int| 0 <= j < a@.len() ==> i64::MIN <= #[trigger] a@[j] * s <= i64::MAX,
            k <= a@.len(),
            out@.len() == k,
            forall|j: int| 0 <= j < out@.len() ==> #[trigger] out@[j] == a@[j] * s,
        decreases a@.len() - k,
    {
        assert(i64::MIN <= a@[k as int] * s <= i64::MAX);
        out.push(a[k] * s);
        k = k + 1;
    }
    out
}

/// Pairs the one-based row and column indices and makes them zero-based.
fn zip_pairs(rows: &[i64], cols: &[i64]) -> (out: Vec<(usize, usize)>)
    requires
        forall|k: int| 0 <= k < rows@.len() ==> 1 <= #[trigger] rows@[k] <= usize::MAX + 1,
        forall|k: int| 0 <= k < cols@.len() ==> 1 <= #[trigger] cols@[k] <= usize::MAX + 1,
    ensures
        out@.len() == if rows@.len() <= cols@.len() { rows@.len() } else { cols@.len() },
        forall|k: int| 0 <= k < out@.len() ==> #[trigger] out@[k] == (
            (rows@[k] - 1) as usize,
            (cols@[k] - 1) as usize,
        ),
{
    let n = if rows.len() <= cols.len() { rows.len() } else { cols.len() };
    let mut out: Vec<(usize, usize)> = Vec::new();
    let mut k: usize = 0;
    while k < n
        invariant
            n == if rows@.len() <= cols@.len() { rows@.len() } else { cols@.len() },
            forall|j: int| 0 <= j < rows@.len() ==> 1 <= #[trigger] rows@[j] <= usize::MAX + 1,
            forall|j: int| 0 <= j < cols@.len() ==> 1 <= #[trigger] cols@[j] <= usize::MAX + 1,
            k <= n,
            out@.len() == k,
            forall|j: int| 0 <= j < out@.len() ==> #[trigger] out@[j] == (
                (rows@[j] - 1) as usize,
                (cols@[j] - 1) as usize,
            ),
        decreases n - k,
    {
        assert(1 <= rows@[k as int] <= usize::MAX + 1);
        assert(1 <= cols@[k as int] <= usize::MAX + 1);
        out.push(((rows[k] - 1) as usize, (cols[k] - 1) as usize));
        k = k + 1;
    }
    out
}

// ------------------------------------------------------- zeeman hilbert ----

/// Entry `k` of table `m` of the Zeeman-basis Hilbert-space tables for
/// `n_spins` spins, with `b0 = k % 2`, `b1 = (k / 2) % 2` and `b2 = k / 4`:
/// one spin addresses `(b0, k / 2)`; for two spins table 0 addresses
/// `(2 b0 + b2, b2 + 2 b1)` and table 1 `(b0 + 2 b2, b1 + 2 b2)`.
pub open spec fn zeeman_hilbert_entry(n_spins: nat, m: nat, k: int) -> (usize, usize) {
    if n_spins == 1 {
        ((k % 2) as usize, (k / 2) as usize)
    } else if m == 0 {
        ((2 * (k % 2) + k / 4) as usize, (k / 4 + 2 * ((k / 2) % 2)) as usize)
    } else {
        ((k % 2 + 2 * (k / 4)) as usize, ((k / 2) % 2 + 2 * (k / 4)) as usize)
    }
}

/// Number of entries in each Zeeman-basis Hilbert-space table.
pub open spec fn zeeman_hilbert_len(n_spins: nat) -> nat {
    if n_spins == 1 { 4 } else { 8 }
}

/// Table `m` of the Zeeman-basis Hilbert-space tables.
pub open spec fn zeeman_hilbert_table(n_spins: nat, m: nat) -> Seq<(usize, usize)> {
    Seq::new(zeeman_hilbert_len(n_spins), |k: int| zeeman_hilbert_entry(n_spins, m, k))
}

/// The tables `result` holds are `table(n_spins, m)` for `m < n_spins`.
pub open spec fn tables_are(
    t: Seq<Vec<(usize, usize)>>,
    n_spins: nat,
    table: spec_fn(nat, nat) -> Seq<(usize, usize)>,
) -> bool {
    &&& t.len() == n_spins
    &&& forall|m: int| 0 <= m < n_spins ==> #[trigger] t[m]@ == table(n_spins, m as nat)
}

/// The message of the error for a spin count the tables do not cover.
pub open spec fn unsupported_count_message(what: Seq<char>, n_spins: nat) -> Seq<char> {
    what + " propagator indices for "@ + crate::text::digits(n_spins) + " spins"@
}

fn unsupported_count(what: &str, n_spins: usize) -> (e: QoalaError)
    ensures
        e matches QoalaError::NotImplemented(s) && s@ == unsupported_count_message(what@, n_spins as nat),
{
    let mut s = String::from_str(what);
    s.append(" propagator indices for ");
    let d = digits_string(n_spins as u64);
    s.append(d.as_str());
    s.append(" spins");
    QoalaError::NotImplemented(s)
}

/// One spin in Hilbert space: the SU(2) matrix filled column-major.
fn zeeman_hilbert_one() -> (t: Vec<(usize, usize)>)
    ensures
        t@ == zeeman_hilbert_table(1, 0),
{
    let one: [i64; 2] = [1, 1];
    let f: [i64; 2] = [1, 2];
    assert(one@ =~= seq![1i64, 1]);
    assert(f@ =~= seq![1i64, 2]);
    proof {
        lemma_products_fit(one@, f@, 1, 2);
        lemma_products_fit(f@, one@, 2, 1);
        lemma_small_product(one@.len(), f@.len());
        lemma_small_product(f@.len(), one@.len());
    }
    let rows = kron_i(&one, &f);
    let cols = kron_i(&f, &one);
    assert forall|k: int| 0 <= k < 4 implies rows@[k] == k % 2 + 1 && cols@[k] == k / 2 + 1 by {
        assert(rows@[k] == kron_spec(one@, f@)[k]);
        assert(cols@[k] == kron_spec(f@, one@)[k]);
    }
    let t = zip_pairs(&rows, &cols);
    assert(t@ =~= zeeman_hilbert_table(1, 0));
    t
}

/// Two spins in Hilbert space: one table per spin.
#[verifier::spinoff_prover]
#[verifier::rlimit(30)]
fn zeeman_hilbert_two() -> (out: Vec<Vec<(usize, usize)>>)
    ensures
        tables_are(out@, 2, |n: nat, m: nat| zeeman_hilbert_table(n, m)),
{
    let one: [i64; 2] = [1, 1];
    let f: [i64; 2] = [1, 2];
    let n: [i64; 2] = [0, 1];
    assert(one@ =~= seq![1i64, 1]);
    assert(f@ =~= seq![1i64, 2]);
    assert(n@ =~= seq![0i64, 1]);
    proof {
        lemma_products_fit(one@, one@, 1, 1);
        lemma_products_fit(one@, n@, 1, 1);
        lemma_products_fit(n@, one@, 1, 1);
        lemma_products_fit(one@, f@, 1, 2);
        lemma_products_fit(f@, one@, 2, 1);
        lemma_small_product(one@.len(), one@.len());
        lemma_small_product(one@.len(), n@.len());
        lemma_small_product(n@.len(), one@.len());
        lemma_small_product(one@.len(), f@.len());
        lemma_small_product(f@.len(), one@.len());
    }
    let oo = kron_i(&one, &one);
    let on = kron_i(&one, &n);
    let no = kron_i(&n, &one);
    let of = kron_i(&one, &f);
    let fo = kron_i(&f, &one);
    assert forall|j: int| #![trigger oo@[j]] #![trigger on@[j]] #![trigger no@[j]] #![trigger of@[j]]
        #![trigger fo@[j]] 0 <= j < 4 implies oo@[j] == 1 && on@[j] == j % 2 && no@[j] == j / 2
        && of@[j] == j % 2 + 1 && fo@[j] == j / 2 + 1 by {
        assert(oo@[j] == kron_spec(one@, one@)[j]);
        assert(on@[j] == kron_spec(one@, n@)[j]);
        assert(no@[j] == kron_spec(n@, one@)[j]);
        assert(of@[j] == kron_spec(one@, f@)[j]);
        assert(fo@[j] == kron_spec(f@, one@)[j]);
    }
    proof {
        lemma_products_fit(one@, on@, 1, 1);
        lemma_products_fit(one@, no@, 1, 1);
        lemma_products_fit(f@, oo@, 2, 1);
        lemma_products_fit(one@, of@, 1, 2);
        lemma_products_fit(one@, fo@, 1, 2);
        lemma_products_fit(n@, oo@, 1, 1);
        lemma_small_product(one@.len(), on@.len());
        lemma_small_product(f@.len(), oo@.len());
        lemma_small_product(one@.len(), no@.len());
        lemma_small_product(one@.len(), of@.len());
        lemma_small_product(one@.len(), fo@.len());
        lemma_small_product(n@.len(), oo@.len());
    }
    let mut out: Vec<Vec<(usize, usize)>> = Vec::new();
    let a = kron_i(&one, &on);
    let b = kron_i(&f, &oo);
    let c = kron_i(&one, &no);
    let h = kron_i(&f, &oo);
    assert forall|k: int| #![trigger a@[k]] #![trigger b@[k]] #![trigger c@[k]] #![trigger h@[k]]
        0 <= k < 8 implies a@[k] == k % 2 && b@[k] == k / 4 + 1 && c@[k] == (k / 2) % 2
        && h@[k] == k / 4 + 1 by {
        assert(a@[k] == kron_spec(one@, on@)[k]);
        assert(b@[k] == kron_spec(f@, oo@)[k]);
        assert(c@[k] == kron_spec(one@, no@)[k]);
        assert(h@[k] == kron_spec(f@, oo@)[k]);
    }
    let rows = vec_add(&vec_scale(&a, 2), &b);
    let cols = vec_add(&h, &vec_scale(&c, 2));
    let t0 = zip_pairs(&rows, &cols);
    assert(t0@ =~= zeeman_hilbert_table(2, 0));
    out.push(t0);

    let d = kron_i(&one, &of);
    let g = kron_i(&n, &oo);
    let e = kron_i(&one, &fo);
    let g2 = kron_i(&n, &oo);
    assert forall|k: int| #![trigger d@[k]] #![trigger g@[k]] #![trigger e@[k]] #![trigger g2@[k]]
        0 <= k < 8 implies d@[k] == k % 2 + 1 && g@[k] == k / 4 && e@[k] == (k / 2) % 2 + 1
        && g2@[k] == k / 4 by {
        assert(d@[k] == kron_spec(one@, of@)[k]);
        assert(g@[k] == kron_spec(n@, oo@)[k]);
        assert(e@[k] == kron_spec(one@, fo@)[k]);
        assert(g2@[k] == kron_spec(n@, oo@)[k]);
    }
    let rows = vec_add(&d, &vec_scale(&g, 2));
    let cols = vec_add(&e, &vec_scale(&g2, 2));
    let t1 = zip_pairs(&rows, &cols);
    assert(t1@ =~= zeeman_hilbert_table(2, 1));
    out.push(t1);
    out
}

/// Zeeman basis in Hilbert space; tables exist for one and two spins.
fn zeeman_hilbert(n_spins: usize) -> (r: Result<Vec<Vec<(usize, usize)>>>)
    ensures
        1 <= n_spins <= 2 ==> (r matches Ok(t) && tables_are(
            t@,
            n_spins as nat,
            |n: nat, m: nat| zeeman_hilbert_table(n, m),
        )),
        !(1 <= n_spins <= 2) ==> (r matches Err(QoalaError::NotImplemented(s)) && s@
            == unsupported_count_message("zeeman-hilbert"@, n_spins as nat)),
{
    if n_spins == 1 {
        let mut out: Vec<Vec<(usize, usize)>> = Vec::new();
        out.push(zeeman_hilbert_one());
        Ok(out)
    } else if n_spins == 2 {
        Ok(zeeman_hilbert_two())
    } else {
        Err(unsupported_count("zeeman-hilbert", n_spins))
    }
}

} // verus!

verus! {

// ---------------------------------------------------- shared definitions ----

/// `4^e`.
pub open spec fn pow4(e: nat) -> nat
    decreases e,
{
    if e == 0 { 1 } else { 4 * pow4((e - 1) as nat) }
}

/// One-based row, inside the rank-1 block, of element `k % 9` of a
/// single-spin propagator's nine stored elements (filled column-major).
pub open spec fn rank1_row(k: int) -> int {
    (k % 9) % 3 + 1
}

/// One-based column, inside the rank-1 block, of element `k % 9`.
pub open spec fn rank1_col(k: int) -> int {
    (k % 9) / 3 + 1
}

/// The digit of entry index `k` that belongs to spin `j >= 2`: entry
/// indices are mixed-radix numbers with a base-9 digit for spin 1 and a
/// base-4 digit for every further spin.
pub open spec fn tensor_digit(k: int, j: nat) -> int {
    (k / ((9 * pow4((j - 2) as nat)) as int)) % 4
}

/// `4^e` as an `i64`, for `e <= 30`.
fn pow4_exec(e: u32) -> (r: i64)
    requires
        e <= 30,
    ensures
        r == pow4(e as nat),
        1 <= r <= pow4(30),
{
    let mut r: i64 = 1;
    let mut k: u32 = 0;
    while k < e
        invariant
            k <= e <= 30,
            r == pow4(k as nat),
            1 <= r <= pow4(k as nat),
        decreases e - k,
    {
        proof {
            lemma_pow4_monotone((k + 1) as nat, 30);
            lemma_pow4_30();
        }
        r = 4 * r;
        k = k + 1;
    }
    proof { lemma_pow4_monotone(e as nat, 30); }
    r
}

/// Powers of four are positive.
pub proof fn lemma_pow4_pos(e: nat)
    ensures
        pow4(e) >= 1,
    decreases e,
{
    if e > 0 {
        lemma_pow4_pos((e - 1) as nat);
    }
}

/// Powers of four grow with their exponent.
pub proof fn lemma_pow4_monotone(a: nat, b: nat)
    requires
        a <= b,
    ensures
        1 <= pow4(a) <= pow4(b),
    decreases b,
{
    lemma_pow4_pos(a);
    if a < b {
        lemma_pow4_monotone(a, (b - 1) as nat);
    }
}

/// The largest power of four the tables use fits comfortably in an `i64`.
pub proof fn lemma_pow4_30()
    ensures
        pow4(30) == 0x1000_0000_0000_0000,
{
    reveal_with_fuel(pow4, 31);
}

/// `x <= x * s <= mx * ms` for `0 <= x <= mx` and `1 <= s <= ms`.
proof fn lemma_scale_bounds(x: int, s: int, mx: int, ms: int)
    requires
        0 <= x <= mx,
        1 <= s <= ms,
    ensures
        x <= x * s <= mx * ms,
{
    assert(x <= x * s <= mx * ms) by (nonlinear_arith)
        requires
            0 <= x <= mx,
            1 <= s <= ms,
    ;
}

// ------------------------------------------------------ zeeman liouville ----

/// Exponents of the powers of four that weight each spin's digit in table
/// `m` of the Zeeman-basis Liouville tables for three and four spins.
pub open spec fn zeeman_powers(n_spins: nat, m: nat) -> Seq<nat> {
    if n_spins == 3 {
        if m == 0 { seq![2nat, 0, 1] } else if m == 1 { seq![1nat, 0, 2] } else { seq![0nat, 1, 2] }
    } else {
        if m == 0 {
            seq![3nat, 1, 2, 0]
        } else if m == 1 {
            seq![2nat, 1, 3, 0]
        } else if m == 2 {
            seq![1nat, 0, 2, 3]
        } else {
            seq![0nat, 1, 2, 3]
        }
    }
}

/// The weighted digit sum of entry `k` for three or four spins, starting
/// from `first`, spin 1's one-based coordinate inside the rank-1 block.
pub open spec fn zeeman_weighted(n_spins: nat, m: nat, k: int, first: int) -> int {
    let p = zeeman_powers(n_spins, m);
    let three = pow4(p[0]) * first + pow4(p[1]) * tensor_digit(k, 2) + pow4(p[2]) * tensor_digit(k, 3);
    if n_spins == 3 { three } else { three + pow4(p[3]) * tensor_digit(k, 4) }
}

/// Entry `k` of table `m` of the Zeeman-basis Liouville tables.
///
/// One spin: the 4x4 propagator filled column-major, `(k % 4, k / 4)`.
/// Two spins, with `d0 = k % 4`, `d1 = (k / 4) % 4` and `d2 = k / 16`:
/// table 0 is `(4 d0 + d2, 4 d1 + d2)` and table 1 `(d0 + 4 d2, d1 + 4 d2)`.
/// Three and four spins: the rank-1 block coordinates of spin 1 and the
/// digits of the other spins, weighted by powers of four, less one.
pub open spec fn zeeman_liouville_entry(n_spins: nat, m: nat, k: int) -> (usize, usize) {
    if n_spins == 1 {
        ((k % 4) as usize, (k / 4) as usize)
    } else if n_spins == 2 {
        if m == 0 {
            ((4 * (k % 4) + k / 16) as usize, (4 * ((k / 4) % 4) + k / 16) as usize)
        } else {
            ((k % 4 + 4 * (k / 16)) as usize, ((k / 4) % 4 + 4 * (k / 16)) as usize)
        }
    } else {
        (
            (zeeman_weighted(n_spins, m, k, rank1_row(k)) - 1) as usize,
            (zeeman_weighted(n_spins, m, k, rank1_col(k)) - 1) as usize,
        )
    }
}

/// Number of entries in each Zeeman-basis Liouville table.
pub open spec fn zeeman_liouville_len(n_spins: nat) -> nat {
    if n_spins == 1 {
        16
    } else if n_spins == 2 {
        64
    } else if n_spins == 3 {
        144
    } else {
        576
    }
}

/// Table `m` of the Zeeman-basis Liouville tables.
pub open spec fn zeeman_liouville_table(n_spins: nat, m: nat) -> Seq<(usize, usize)> {
    Seq::new(zeeman_liouville_len(n_spins), |k: int| zeeman_liouville_entry(n_spins, m, k))
}

} // verus!

verus! {

/// One spin: the single-spin propagator filled column-major.
fn zeeman_liouville_one() -> (t: Vec<(usize, usize)>)
    ensures
        t@ == zeeman_liouville_table(1, 0),
{
    let i: [i64; 4] = [1, 1, 1, 1];
    let f: [i64; 4] = [1, 2, 3, 4];
    assert(i@ =~= seq![1i64, 1, 1, 1]);
    assert(f@ =~= seq![1i64, 2, 3, 4]);
    proof {
        lemma_products_fit(i@, f@, 1, 4);
        lemma_products_fit(f@, i@, 4, 1);
    }
    proof { lemma_small_product(i@.len(), f@.len()); }
    let rows = kron_i(&i, &f);
    proof { lemma_small_product(f@.len(), i@.len()); }
    let cols = kron_i(&f, &i);
    assert forall|k: int| 0 <= k < 16 implies rows@[k] == k % 4 + 1 && cols@[k] == k / 4 + 1 by {
        assert(rows@[k] == kron_spec(i@, f@)[k]);
        assert(cols@[k] == kron_spec(f@, i@)[k]);
    }
    let t = zip_pairs(&rows, &cols);
    assert(t@ =~= zeeman_liouville_table(1, 0));
    t
}

/// Two spins: one table per spin.
#[verifier::spinoff_prover]
#[verifier::rlimit(40)]
fn zeeman_liouville_two() -> (out: Vec<Vec<(usize, usize)>>)
    ensures
        tables_are(out@, 2, |n: nat, m: nat| zeeman_liouville_table(n, m)),
{
    let i: [i64; 4] = [1, 1, 1, 1];
    let n: [i64; 4] = [0, 1, 2, 3];
    let f: [i64; 4] = [1, 2, 3, 4];
    assert(i@ =~= seq![1i64, 1, 1, 1]);
    assert(n@ =~= seq![0i64, 1, 2, 3]);
    assert(f@ =~= seq![1i64, 2, 3, 4]);
    assert(i@.len() * i@.len() == 16) by (nonlinear_arith) requires i@.len() == 4;
    proof {
        lemma_products_fit(i@, i@, 1, 1);
        lemma_products_fit(i@, n@, 1, 3);
        lemma_products_fit(n@, i@, 3, 1);
        lemma_products_fit(i@, f@, 1, 4);
        lemma_products_fit(f@, i@, 4, 1);
    }
    proof { lemma_small_product(i@.len(), i@.len()); }
    let ii = kron_i(&i, &i);
    proof { lemma_small_product(i@.len(), n@.len()); }
    let i_n = kron_i(&i, &n);
    proof { lemma_small_product(n@.len(), i@.len()); }
    let n_i = kron_i(&n, &i);
    proof { lemma_small_product(i@.len(), f@.len()); }
    let i_f = kron_i(&i, &f);
    proof { lemma_small_product(f@.len(), i@.len()); }
    let f_i = kron_i(&f, &i);
    assert forall|j: int| 0 <= j < 16 implies ii@[j] == 1 && i_n@[j] == j % 4 && n_i@[j] == j / 4
        && i_f@[j] == j % 4 + 1 && f_i@[j] == j / 4 + 1 by {
        assert(ii@[j] == kron_spec(i@, i@)[j]);
        assert(i_n@[j] == kron_spec(i@, n@)[j]);
        assert(n_i@[j] == kron_spec(n@, i@)[j]);
        assert(i_f@[j] == kron_spec(i@, f@)[j]);
        assert(f_i@[j] == kron_spec(f@, i@)[j]);
    }
    proof {
        lemma_products_fit(i@, i_n@, 1, 3);
        lemma_products_fit(i@, n_i@, 1, 3);
        lemma_products_fit(f@, ii@, 4, 1);
        lemma_products_fit(i@, i_f@, 1, 4);
        lemma_products_fit(i@, f_i@, 1, 4);
        lemma_products_fit(n@, ii@, 3, 1);
    }
    proof { lemma_small_product(i@.len(), i_n@.len()); }
    let a = kron_i(&i, &i_n);
    proof { lemma_small_product(f@.len(), ii@.len()); }
    let b = kron_i(&f, &ii);
    proof { lemma_small_product(i@.len(), n_i@.len()); }
    let c = kron_i(&i, &n_i);
    proof { lemma_small_product(f@.len(), ii@.len()); }
    let b2 = kron_i(&f, &ii);
    proof { lemma_small_product(i@.len(), i_f@.len()); }
    let d = kron_i(&i, &i_f);
    proof { lemma_small_product(n@.len(), ii@.len()); }
    let g = kron_i(&n, &ii);
    proof { lemma_small_product(i@.len(), f_i@.len()); }
    let e = kron_i(&i, &f_i);
    proof { lemma_small_product(n@.len(), ii@.len()); }
    let g2 = kron_i(&n, &ii);
    assert forall|k: int| 0 <= k < 64 implies a@[k] == k % 4 && b@[k] == k / 16 + 1
        && c@[k] == (k / 4) % 4 && b2@[k] == k / 16 + 1 && d@[k] == k % 4 + 1 && g@[k] == k / 16
        && e@[k] == (k / 4) % 4 + 1 && g2@[k] == k / 16 by {
        assert(a@[k] == kron_spec(i@, i_n@)[k]);
        assert(b@[k] == kron_spec(f@, ii@)[k]);
        assert(c@[k] == kron_spec(i@, n_i@)[k]);
        assert(b2@[k] == kron_spec(f@, ii@)[k]);
        assert(d@[k] == kron_spec(i@, i_f@)[k]);
        assert(g@[k] == kron_spec(n@, ii@)[k]);
        assert(e@[k] == kron_spec(i@, f_i@)[k]);
        assert(g2@[k] == kron_spec(n@, ii@)[k]);
    }
    let mut out: Vec<Vec<(usize, usize)>> = Vec::new();
    let rows = vec_add(&vec_scale(&a, 4), &b);
    let cols = vec_add(&vec_scale(&c, 4), &b2);
    let t0 = zip_pairs(&rows, &cols);
    assert(t0@ =~= zeeman_liouville_table(2, 0));
    out.push(t0);
    let rows = vec_add(&d, &vec_scale(&g, 4));
    let cols = vec_add(&e, &vec_scale(&g2, 4));
    let t1 = zip_pairs(&rows, &cols);
    assert(t1@ =~= zeeman_liouville_table(2, 1));
    out.push(t1);
    out
}

} // verus!

verus! {

/// The exponents of `zeeman_powers`, as numbers the code can use.
fn zeeman_powers_exec(n_spins: usize, m: usize) -> (p: [u32; 4])
    requires
        n_spins == 3 || n_spins == 4,
        m < n_spins,
    ensures
        forall|j: int| 0 <= j < n_spins ==> p@[j] as nat == #[trigger] zeeman_powers(n_spins as nat, m as nat)[j],
        forall|j: int| 0 <= j < 4 ==> #[trigger] p@[j] <= 3,
{
    let p: [u32; 4] = if n_spins == 3 {
        if m == 0 { [2, 0, 1, 0] } else if m == 1 { [1, 0, 2, 0] } else { [0, 1, 2, 0] }
    } else {
        if m == 0 {
            [3, 1, 2, 0]
        } else if m == 1 {
            [2, 1, 3, 0]
        } else if m == 2 {
            [1, 0, 2, 3]
        } else {
            [0, 1, 2, 3]
        }
    };
    assert(forall|j: int| 0 <= j < n_spins ==> p@[j] as nat == #[trigger] zeeman_powers(n_spins as nat, m as nat)[j]);
    p
}

/// Weighted sum of scaled digit vectors: `sum_j v_j[k] * s_j`.
fn weighted_sum(v: &Vec<Vec<i64>>, s: &[i64]) -> (out: Vec<i64>)
    requires
        v@.len() == s@.len(),
        v@.len() >= 1,
        v@.len() <= 4,
        forall|j: int| 0 <= j < v@.len() ==> (#[trigger] v@[j])@.len() == v@[0]@.len(),
        forall|j: int, k: int| 0 <= j < v@.len() && 0 <= k < v@[0]@.len() ==> 0 <= #[trigger] v@[j]@[k] <= 4,
        forall|j: int| 0 <= j < s@.len() ==> 1 <= #[trigger] s@[j] <= 64,
    ensures
        out@.len() == v@[0]@.len(),
        forall|k: int| 0 <= k < out@.len() ==> #[trigger] out@[k] == weighted_sum_spec(v@, s@, k, v@.len() as int),
{
    proof {
        assert forall|k: int| 0 <= k < v@[0]@.len() implies i64::MIN <= #[trigger] v@[0]@[k] * s@[0] <= i64::MAX by {
            lemma_scale_bounds(v@[0]@[k] as int, s@[0] as int, 4, 64);
        }
    }
    let mut out = vec_scale(&v[0], s[0]);
    let mut j: usize = 1;
    proof {
        assert forall|k: int| 0 <= k < out@.len() implies #[trigger] out@[k] == weighted_sum_spec(v@, s@, k, 1) by {
            assert(weighted_sum_spec(v@, s@, k, 0) == 0);
        }
    }
    while j < v.len()
        invariant
            v@.len() == s@.len(),
            1 <= j <= v@.len() <= 4,
            forall|i: int| 0 <= i < v@.len() ==> (#[trigger] v@[i])@.len() == v@[0]@.len(),
            forall|i: int, k: int| 0 <= i < v@.len() && 0 <= k < v@[0]@.len() ==> 0 <= #[trigger] v@[i]@[k] <= 4,
            forall|i: int| 0 <= i < s@.len() ==> 1 <= #[trigger] s@[i] <= 64,
            out@.len() == v@[0]@.len(),
            forall|k: int| 0 <= k < out@.len() ==> #[trigger] out@[k] == weighted_sum_spec(v@, s@, k, j as int),
        decreases v@.len() - j,
    {
        let sj = s[j];
        proof {
            assert forall|k: int| 0 <= k < v@[j as int]@.len() implies i64::MIN <= #[trigger] v@[j as int]@[k] * sj <= i64::MAX by {
                lemma_scale_bounds(v@[j as int]@[k] as int, sj as int, 4, 64);
            }
        }
        let scaled = vec_scale(&v[j], sj);
        proof {
            assert forall|k: int| 0 <= k < out@.len() implies i64::MIN <= #[trigger] out@[k] + scaled@[k] <= i64::MAX by {
                lemma_weighted_sum_bounds(v@, s@, k, j as int);
                lemma_scale_bounds(v@[j as int]@[k] as int, sj as int, 4, 64);
            }
        }
        out = vec_add(&out, &scaled);
        j = j + 1;
    }
    out
}

/// `sum_{j < upto} v_j[k] * s_j`.
pub open spec fn weighted_sum_spec(v: Seq<Vec<i64>>, s: Seq<i64>, k: int, upto: int) -> int
    decreases upto,
{
    if upto <= 0 { 0 } else { weighted_sum_spec(v, s, k, upto - 1) + v[upto - 1]@[k] * s[upto - 1] }
}

proof fn lemma_weighted_sum_bounds(v: Seq<Vec<i64>>, s: Seq<i64>, k: int, upto: int)
    requires
        0 <= upto <= v.len(),
        v.len() == s.len(),
        0 <= k < v[0]@.len(),
        forall|i: int| 0 <= i < v.len() ==> (#[trigger] v[i])@.len() == v[0]@.len(),
        forall|i: int, j: int| 0 <= i < v.len() && 0 <= j < v[0]@.len() ==> 0 <= #[trigger] v[i]@[j] <= 4,
        forall|i: int| 0 <= i < s.len() ==> 1 <= #[trigger] s[i] <= 64,
    ensures
        0 <= weighted_sum_spec(v, s, k, upto) <= 256 * upto,
    decreases upto,
{
    if upto > 0 {
        lemma_weighted_sum_bounds(v, s, k, upto - 1);
        lemma_scale_bounds(v[upto - 1]@[k] as int, s[upto - 1] as int, 4, 64);
    }
}

} // verus!

verus! {

/// Dropping the higher digits of `k` leaves its lower digits as they were.
proof fn lemma_digits(k: int, a: int, b: int)
    requires
        0 <= k,
        0 < a,
        0 < b,
    ensures
        (k % (a * b)) % a == k % a,
        (k % (a * b)) / a == (k / a) % b,
{
    lemma_mod_mod(k, a, b);
    lemma_breakdown(k, a, b);
    lemma_fundamental_div_mod(k % (a * b), a);
    lemma_mod_pos_bound(k, a);
    let r = k % (a * b);
    assert(r == a * ((k / a) % b) + k % a);
    lemma_fundamental_div_mod_converse(r, a, (k / a) % b, k % a);
}

/// The one-based rank-1 block coordinate vector (`[1 2 3]` repeated, or
/// each of `1 2 3` repeated) and the all-ones vector of the same length.
fn rank1_cells(first_is_row: bool) -> (r: (Vec<i64>, Vec<i64>))
    ensures
        r.0@.len() == 9,
        r.1@.len() == 9,
        forall|q: int| 0 <= q < 9 ==> #[trigger] r.0@[q] == if first_is_row { q % 3 + 1 } else { q / 3 + 1 },
        forall|q: int| 0 <= q < 9 ==> #[trigger] r.1@[q] == 1,
{
    let a3: [i64; 3] = [1, 1, 1];
    let b3: [i64; 3] = [1, 2, 3];
    assert(a3@ =~= seq![1i64, 1, 1]);
    assert(b3@ =~= seq![1i64, 2, 3]);
    proof {
        lemma_products_fit(a3@, b3@, 1, 3);
        lemma_products_fit(b3@, a3@, 3, 1);
        lemma_products_fit(a3@, a3@, 1, 1);
        lemma_small_product(a3@.len(), b3@.len());
        lemma_small_product(a3@.len(), a3@.len());
    }
    let cell = if first_is_row { kron_i(&a3, &b3) } else { kron_i(&b3, &a3) };
    let i_dim = kron_i(&a3, &a3);
    assert forall|q: int| 0 <= q < 9 implies #[trigger] cell@[q] == if first_is_row { q % 3 + 1 } else {
        q / 3 + 1
    } by {
        if first_is_row {
            assert(cell@[q] == kron_spec(a3@, b3@)[q]);
        } else {
            assert(cell@[q] == kron_spec(b3@, a3@)[q]);
        }
    }
    assert forall|q: int| 0 <= q < 9 implies #[trigger] i_dim@[q] == 1 by {
        assert(i_dim@[q] == kron_spec(a3@, a3@)[q]);
    }
    (cell, i_dim)
}

/// `kron(ones(4), v)` repeats `v` four times.
fn kron_ones_left(v: &Vec<i64>) -> (out: Vec<i64>)
    requires
        1 <= v@.len() <= 1000,
        bounded_by(v@, 4),
    ensures
        out@.len() == 4 * v@.len(),
        forall|k: int| 0 <= k < out@.len() ==> #[trigger] out@[k] == v@[k % (v@.len() as int)],
{
    let i: [i64; 4] = [1, 1, 1, 1];
    assert(i@ =~= seq![1i64, 1, 1, 1]);
    proof {
        lemma_products_fit(i@, v@, 1, 4);
        lemma_small_product(i@.len(), v@.len());
    }
    let out = kron_i(&i, v);
    assert forall|k: int| 0 <= k < out@.len() implies #[trigger] out@[k] == v@[k % (v@.len() as int)] by {
        assert(out@[k] == kron_spec(i@, v@)[k]);
        lemma_kron_index(4, v@.len() as int, k);
    }
    out
}

/// `kron([0 1 2 3], v)`: `v` scaled by the spin's digit, `k / |v|`.
fn kron_digit_left(v: &Vec<i64>) -> (out: Vec<i64>)
    requires
        1 <= v@.len() <= 1000,
        forall|k: int| 0 <= k < v@.len() ==> #[trigger] v@[k] == 1,
    ensures
        out@.len() == 4 * v@.len(),
        forall|k: int| 0 <= k < out@.len() ==> #[trigger] out@[k] == k / (v@.len() as int),
{
    let n: [i64; 4] = [0, 1, 2, 3];
    assert(n@ =~= seq![0i64, 1, 2, 3]);
    proof {
        assert(bounded_by(v@, 1));
        lemma_products_fit(n@, v@, 3, 1);
        lemma_small_product(n@.len(), v@.len());
    }
    let out = kron_i(&n, v);
    assert forall|k: int| 0 <= k < out@.len() implies #[trigger] out@[k] == k / (v@.len() as int) by {
        assert(out@[k] == kron_spec(n@, v@)[k]);
        lemma_kron_index(4, v@.len() as int, k);
        assert(v@[k % (v@.len() as int)] == 1);
    }
    out
}

/// The digit vectors of the Zeeman-basis Liouville tables for three or four
/// spins: spin 1's one-based row (or column) inside the rank-1 block, then
/// the digit of each further spin.
fn zeeman_digits(n_spins: usize, first_is_row: bool) -> (v: Vec<Vec<i64>>)
    requires
        n_spins == 3 || n_spins == 4,
    ensures
        v@.len() == n_spins,
        forall|j: int| 0 <= j < v@.len() ==> (#[trigger] v@[j])@.len() == zeeman_liouville_len(n_spins as nat),
        forall|k: int| 0 <= k < zeeman_liouville_len(n_spins as nat) ==> #[trigger] v@[0]@[k] == if first_is_row {
            rank1_row(k)
        } else {
            rank1_col(k)
        },
        forall|j: int, k: int| 1 <= j < n_spins && 0 <= k < zeeman_liouville_len(n_spins as nat)
            ==> #[trigger] v@[j]@[k] == tensor_digit(k, (j + 1) as nat),
{
    reveal_with_fuel(pow4, 3);
    let (cell, i_dim) = rank1_cells(first_is_row);
    // Spin 1 and the digit of spin 2 or 3 over 36 entries.
    let first2 = kron_ones_left(&cell);
    let n_idim = kron_digit_left(&i_dim);
    let i_idim = kron_ones_left(&i_dim);
    assert(bounded_by(first2@, 4));
    assert(bounded_by(n_idim@, 4));
    let first3 = kron_ones_left(&first2);
    let d2_3 = kron_ones_left(&n_idim);
    let d3_3 = kron_digit_left(&i_idim);
    assert forall|k: int| 0 <= k < 144 implies #[trigger] first3@[k] == if first_is_row { rank1_row(k) } else {
        rank1_col(k)
    } by {
        lemma_digits(k, 9, 4);
    }
    assert forall|k: int| 0 <= k < 144 implies #[trigger] d2_3@[k] == tensor_digit(k, 2) by {
        lemma_digits(k, 9, 4);
    }
    let mut v: Vec<Vec<i64>> = Vec::new();
    if n_spins == 3 {
        assert forall|k: int| 0 <= k < 144 implies #[trigger] d3_3@[k] == tensor_digit(k, 3) by {
            assert(9 * pow4(1) == 36);
            lemma_small_mod((k / 36) as nat, 4);
        }
        v.push(first3);
        v.push(d2_3);
        v.push(d3_3);
        assert(v@[0]@ == first3@ && v@[1]@ == d2_3@ && v@[2]@ == d3_3@);
    } else {
        assert(bounded_by(first3@, 4));
        assert(bounded_by(d2_3@, 4));
        assert(bounded_by(d3_3@, 4));
        let i_i_idim = kron_ones_left(&i_idim);
        let first4 = kron_ones_left(&first3);
        let d2_4 = kron_ones_left(&d2_3);
        let d3_4 = kron_ones_left(&d3_3);
        let d4_4 = kron_digit_left(&i_i_idim);
        assert forall|k: int| 0 <= k < 576 implies #[trigger] first4@[k] == if first_is_row {
            rank1_row(k)
        } else {
            rank1_col(k)
        } by {
            lemma_digits(k, 9, 16);
        }
        assert forall|k: int| 0 <= k < 576 implies #[trigger] d2_4@[k] == tensor_digit(k, 2) by {
            lemma_digits(k, 9, 16);
            lemma_digits(k % 144, 9, 4);
            lemma_digits(k, 9, 4);
            lemma_mod_mod(k, 36, 4);
        }
        assert forall|k: int| 0 <= k < 576 implies #[trigger] d3_4@[k] == tensor_digit(k, 3) by {
            assert(9 * pow4(1) == 36);
            lemma_digits(k, 36, 4);
        }
        assert forall|k: int| 0 <= k < 576 implies #[trigger] d4_4@[k] == tensor_digit(k, 4) by {
            assert(9 * pow4(2) == 144);
            lemma_small_mod((k / 144) as nat, 4);
        }
        v.push(first4);
        v.push(d2_4);
        v.push(d3_4);
        v.push(d4_4);
        assert(v@[0]@ == first4@ && v@[1]@ == d2_4@ && v@[2]@ == d3_4@ && v@[3]@ == d4_4@);
    }
    v
}

/// Three or four spins: one table per spin, each the rank-1 block
/// coordinates of spin 1 and the other spins' digits weighted by powers of
/// four.
fn zeeman_liouville_many(n_spins: usize) -> (out: Vec<Vec<(usize, usize)>>)
    requires
        n_spins == 3 || n_spins == 4,
    ensures
        tables_are(out@, n_spins as nat, |n: nat, m: nat| zeeman_liouville_table(n, m)),
{
    let mut out: Vec<Vec<(usize, usize)>> = Vec::new();
    let mut m: usize = 0;
    while m < n_spins
        invariant
            n_spins == 3 || n_spins == 4,
            m <= n_spins,
            out@.len() == m,
            forall|j: int| 0 <= j < m ==> #[trigger] out@[j]@ == zeeman_liouville_table(n_spins as nat, j as nat),
        decreases n_spins - m,
    {
        let p = zeeman_powers_exec(n_spins, m);
        let mut s: Vec<i64> = Vec::new();
        let mut j: usize = 0;
        while j < n_spins
            invariant
                n_spins == 3 || n_spins == 4,
                m < n_spins,
                j <= n_spins,
                s@.len() == j,
                forall|i: int| 0 <= i < 4 ==> #[trigger] p@[i] <= 3,
                forall|i: int| 0 <= i < j ==> #[trigger] s@[i] == pow4(p@[i] as nat) && 1 <= s@[i] <= 64,
            decreases n_spins - j,
        {
            let e = p[j];
            proof {
                lemma_pow4_monotone(e as nat, 3);
                reveal_with_fuel(pow4, 4);
            }
            s.push(pow4_exec(e));
            j = j + 1;
        }
        let rv = zeeman_digits(n_spins, true);
        let cv = zeeman_digits(n_spins, false);
        proof { lemma_digit_vectors_small(rv@, cv@, n_spins as nat); }
        let rows = weighted_sum(&rv, &s);
        let cols = weighted_sum(&cv, &s);
        proof {
            reveal_with_fuel(weighted_sum_spec, 5);
            assert forall|k: int| 0 <= k < rows@.len() implies 1 <= #[trigger] rows@[k] <= 1024 by {
                lemma_weighted_sum_bounds(rv@, s@, k, n_spins as int);
                lemma_scale_bounds(rv@[0]@[k] as int, s@[0] as int, 4, 64);
                lemma_weighted_sum_bounds(rv@, s@, k, (n_spins - 1) as int);
                lemma_weighted_sum_first(rv@, s@, k, n_spins as int);
            }
            assert forall|k: int| 0 <= k < cols@.len() implies 1 <= #[trigger] cols@[k] <= 1024 by {
                lemma_weighted_sum_bounds(cv@, s@, k, n_spins as int);
                lemma_weighted_sum_first(cv@, s@, k, n_spins as int);
            }
        }
        let t = zip_pairs(&rows, &cols);
        proof {
            reveal_with_fuel(weighted_sum_spec, 5);
            assert forall|k: int| 0 <= k < t@.len() implies #[trigger] t@[k] == zeeman_liouville_entry(n_spins as nat, m as nat, k) by {
                lemma_zeeman_weighted(n_spins as nat, m as nat, k, rv@, s@, p@, true);
                lemma_zeeman_weighted(n_spins as nat, m as nat, k, cv@, s@, p@, false);
            }
            assert(t@ =~= zeeman_liouville_table(n_spins as nat, m as nat));
        }
        out.push(t);
        m = m + 1;
    }
    out
}

/// The digit vectors all have entries between 0 and 4 and one length.
proof fn lemma_digit_vectors_small(rv: Seq<Vec<i64>>, cv: Seq<Vec<i64>>, n_spins: nat)
    requires
        n_spins == 3 || n_spins == 4,
        rv.len() == n_spins,
        cv.len() == n_spins,
        forall|j: int| 0 <= j < rv.len() ==> (#[trigger] rv[j])@.len() == zeeman_liouville_len(n_spins),
        forall|j: int| 0 <= j < cv.len() ==> (#[trigger] cv[j])@.len() == zeeman_liouville_len(n_spins),
        forall|k: int| 0 <= k < zeeman_liouville_len(n_spins) ==> #[trigger] rv[0]@[k] == rank1_row(k),
        forall|k: int| 0 <= k < zeeman_liouville_len(n_spins) ==> #[trigger] cv[0]@[k] == rank1_col(k),
        forall|j: int, k: int| 1 <= j < n_spins && 0 <= k < zeeman_liouville_len(n_spins)
            ==> #[trigger] rv[j]@[k] == tensor_digit(k, (j + 1) as nat),
        forall|j: int, k: int| 1 <= j < n_spins && 0 <= k < zeeman_liouville_len(n_spins)
            ==> #[trigger] cv[j]@[k] == tensor_digit(k, (j + 1) as nat),
    ensures
        forall|i: int, k: int| 0 <= i < rv.len() && 0 <= k < rv[0]@.len() ==> 0 <= #[trigger] rv[i]@[k] <= 4,
        forall|i: int, k: int| 0 <= i < cv.len() && 0 <= k < cv[0]@.len() ==> 0 <= #[trigger] cv[i]@[k] <= 4,
        forall|k: int| 0 <= k < rv[0]@.len() ==> 1 <= #[trigger] rv[0]@[k],
        forall|k: int| 0 <= k < cv[0]@.len() ==> 1 <= #[trigger] cv[0]@[k],
{
    assert forall|i: int, k: int| 0 <= i < rv.len() && 0 <= k < rv[0]@.len() implies 0 <= #[trigger] rv[i]@[k] <= 4 by {
        if i >= 1 {
            lemma_tensor_digit_range(k, (i + 1) as nat);
        }
    }
    assert forall|i: int, k: int| 0 <= i < cv.len() && 0 <= k < cv[0]@.len() implies 0 <= #[trigger] cv[i]@[k] <= 4 by {
        if i >= 1 {
            lemma_tensor_digit_range(k, (i + 1) as nat);
        }
    }
}

/// A tensor digit is between 0 and 3.
pub proof fn lemma_tensor_digit_range(k: int, j: nat)
    requires
        0 <= k,
    ensures
        0 <= tensor_digit(k, j) <= 3,
{
    lemma_pow4_pos((j - 2) as nat);
    let w = (9 * pow4((j - 2) as nat)) as int;
    lemma_div_pos_is_pos(k, w);
    lemma_mod_pos_bound(k / w, 4);
}

/// A weighted sum whose first vector is at least one is at least one.
proof fn lemma_weighted_sum_first(v: Seq<Vec<i64>>, s: Seq<i64>, k: int, upto: int)
    requires
        1 <= upto <= v.len(),
        v.len() == s.len(),
        0 <= k < v[0]@.len(),
        1 <= v[0]@[k],
        forall|i: int| 0 <= i < v.len() ==> (#[trigger] v[i])@.len() == v[0]@.len(),
        forall|i: int, j: int| 0 <= i < v.len() && 0 <= j < v[0]@.len() ==> 0 <= #[trigger] v[i]@[j] <= 4,
        forall|i: int| 0 <= i < s.len() ==> 1 <= #[trigger] s[i] <= 64,
    ensures
        1 <= weighted_sum_spec(v, s, k, upto),
    decreases upto,
{
    if upto == 1 {
        assert(weighted_sum_spec(v, s, k, 0) == 0);
        lemma_scale_bounds(v[0]@[k] as int, s[0] as int, 4, 64);
    } else {
        lemma_weighted_sum_first(v, s, k, upto - 1);
        lemma_scale_bounds(v[upto - 1]@[k] as int, s[upto - 1] as int, 4, 64);
    }
}

/// Zeeman basis in Liouville space; tables exist for one to four spins.
fn zeeman_liouville(n_spins: usize) -> (r: Result<Vec<Vec<(usize, usize)>>>)
    ensures
        1 <= n_spins <= 4 ==> (r matches Ok(t) && tables_are(
            t@,
            n_spins as nat,
            |n: nat, m: nat| zeeman_liouville_table(n, m),
        )),
        !(1 <= n_spins <= 4) ==> (r matches Err(QoalaError::NotImplemented(s)) && s@
            == unsupported_count_message("zeeman-liouville"@, n_spins as nat)),
{
    if n_spins == 1 {
        let mut out: Vec<Vec<(usize, usize)>> = Vec::new();
        out.push(zeeman_liouville_one());
        Ok(out)
    } else if n_spins == 2 {
        Ok(zeeman_liouville_two())
    } else if n_spins == 3 || n_spins == 4 {
        Ok(zeeman_liouville_many(n_spins))
    } else {
        Err(unsupported_count("zeeman-liouville", n_spins))
    }
}

} // verus!

verus! {

// ------------------------------------------------------ sphten liouville ----

/// Which spin the `m1`-th weighted term of table `m` addresses, for
/// `n_spins` spins: first spins `n_spins`, `n_spins - 1`, ... down to
/// `n_spins - m + 1`, then spins `1, 2, ..., n_spins - m`.
pub open spec fn sphten_order(n_spins: nat, m: nat, m1: nat) -> nat {
    if m1 < m { (n_spins - m1) as nat } else { (m1 - m + 1) as nat }
}

/// One-based coordinate of spin `j` in entry `k`: the rank-1 block row (or
/// column) for spin 1, the zero-based digit for any other spin.
pub open spec fn spin_coordinate(j: nat, k: int, is_row: bool) -> int {
    if j == 1 {
        if is_row { rank1_row(k) } else { rank1_col(k) }
    } else {
        tensor_digit(k, j)
    }
}

/// `sum_{m1 < upto} 4^(n_spins - 1 - m1) * coordinate(order(m1), k)`.
pub open spec fn sphten_sum(n_spins: nat, m: nat, k: int, upto: nat, is_row: bool) -> int
    decreases upto,
{
    if upto == 0 {
        0
    } else {
        sphten_sum(n_spins, m, k, (upto - 1) as nat, is_row) + pow4((n_spins - upto) as nat)
            * spin_coordinate(sphten_order(n_spins, m, (upto - 1) as nat), k, is_row)
    }
}

/// Entry `k` of the rank-1 part of table `m`: the weighted coordinates of
/// every spin, with spin `order(m1)` weighted by `4^(n_spins - 1 - m1)`.
pub open spec fn sphten_entry(n_spins: nat, m: nat, k: int) -> (usize, usize) {
    (
        sphten_sum(n_spins, m, k, n_spins, true) as usize,
        sphten_sum(n_spins, m, k, n_spins, false) as usize,
    )
}

/// Number of entries in the rank-1 part of each table: `9 * 4^(n_spins - 1)`.
pub open spec fn sphten_len(n_spins: nat) -> nat {
    9 * pow4((n_spins - 1) as nat)
}

/// Table `m` of the spherical-tensor Liouville tables.  For one spin the
/// unit state, which is not part of the rank-1 block, gets its own leading
/// entry at `(0, 0)`.
pub open spec fn sphten_table(n_spins: nat, m: nat) -> Seq<(usize, usize)> {
    let body = Seq::new(sphten_len(n_spins), |k: int| sphten_entry(n_spins, m, k));
    if n_spins == 1 { seq![(0usize, 0usize)] + body } else { body }
}

/// `4^a * 4^b == 4^(a + b)`.
pub proof fn lemma_pow4_add(a: nat, b: nat)
    ensures
        pow4(a) * pow4(b) == pow4(a + b),
    decreases a,
{
    if a == 0 {
        assert(pow4(0) == 1);
        assert(a + b == b);
    } else {
        let a1 = (a - 1) as nat;
        lemma_pow4_add(a1, b);
        assert(a1 + b + 1 == a + b);
        assert(pow4(a + b) == 4 * pow4(a1 + b));
        assert(pow4(a) == 4 * pow4(a1));
        lemma_mul_is_associative(4, pow4(a1) as int, pow4(b) as int);
    }
}

/// The partial sums stay below the next power of four.
pub proof fn lemma_sphten_sum_bounds(n_spins: nat, m: nat, k: int, upto: nat, is_row: bool)
    requires
        0 <= k,
        upto <= n_spins,
        m < n_spins,
    ensures
        0 <= sphten_sum(n_spins, m, k, upto, is_row),
        sphten_sum(n_spins, m, k, upto, is_row) + pow4((n_spins - upto) as nat) <= pow4(n_spins),
    decreases upto,
{
    if upto > 0 {
        lemma_sphten_sum_bounds(n_spins, m, k, (upto - 1) as nat, is_row);
        let j = sphten_order(n_spins, m, (upto - 1) as nat);
        let c = spin_coordinate(j, k, is_row);
        if j == 1 {
            assert(0 <= (k % 9) / 3 <= 2);
            assert(1 <= c <= 3);
        } else {
            lemma_tensor_digit_range(k, j);
        }
        let w = pow4((n_spins - upto) as nat);
        assert(pow4((n_spins - (upto - 1)) as nat) == 4 * w);
        lemma_pow4_pos((n_spins - upto) as nat);
        assert(0 <= w * c <= 3 * w) by (nonlinear_arith)
            requires
                0 <= c <= 3,
                0 <= w,
        ;
    }
}

/// A coordinate read from the low digits of `k` is the coordinate of `k`.
proof fn lemma_coordinate_low_digits(j: nat, k: int, m2: nat, is_row: bool)
    requires
        0 <= k,
        1 <= j < m2,
        m2 >= 2,
    ensures
        spin_coordinate(j, k % (sphten_len((m2 - 1) as nat) as int), is_row) == spin_coordinate(j, k, is_row),
{
    let p = pow4((m2 - 2) as nat) as int;
    lemma_pow4_pos((m2 - 2) as nat);
    assert(sphten_len((m2 - 1) as nat) == 9 * p);
    if j == 1 {
        lemma_mod_mod(k, 9, p);
    } else {
        // k % (w * 4 * q) where w is spin j's place value.
        let w = (9 * pow4((j - 2) as nat)) as int;
        let q = pow4((m2 - 1 - j) as nat) as int;
        lemma_pow4_pos((j - 2) as nat);
        lemma_pow4_pos((m2 - 1 - j) as nat);
        lemma_pow4_add((j - 2) as nat, (m2 - 1 - j + 1) as nat);
        assert(pow4((m2 - j) as nat) == 4 * q);
        assert(pow4((j - 2) as nat) * (4 * q) == p);
        lemma_mul_is_associative(9, pow4((j - 2) as nat) as int, 4 * q);
        assert(w * (4 * q) == 9 * p);
        lemma_digits(k, w, 4 * q);
        lemma_mod_mod(k / w, 4, q);
        lemma_mul_is_commutative(4, q);
    }
}

} // verus!

verus! {

/// The spin order of table `m`: `n_spins, ..., n_spins - m + 1`, then
/// `1, ..., n_spins - m`.
fn sphten_order_exec(n_spins: usize, m: usize) -> (order: Vec<usize>)
    requires
        m < n_spins < usize::MAX,
    ensures
        order@.len() == n_spins,
        forall|m1: int| 0 <= m1 < n_spins ==> #[trigger] order@[m1] as nat == sphten_order(
            n_spins as nat,
            m as nat,
            m1 as nat,
        ),
{
    let mut order: Vec<usize> = Vec::new();
    let mut r: usize = 0;
    while r < m
        invariant
            m < n_spins < usize::MAX,
            r <= m,
            order@.len() == r,
            forall|m1: int| 0 <= m1 < r ==> #[trigger] order@[m1] as nat == sphten_order(
                n_spins as nat,
                m as nat,
                m1 as nat,
            ),
        decreases m - r,
    {
        order.push(n_spins - r);
        r = r + 1;
    }
    let mut j: usize = 1;
    while j <= n_spins - m
        invariant
            m < n_spins < usize::MAX,
            1 <= j <= n_spins - m + 1,
            order@.len() == m + j - 1,
            forall|m1: int| 0 <= m1 < order@.len() ==> #[trigger] order@[m1] as nat == sphten_order(
                n_spins as nat,
                m as nat,
                m1 as nat,
            ),
        decreases n_spins - m + 1 - j,
    {
        order.push(j);
        j = j + 1;
    }
    order
}

/// The Kronecker chain for one weighted term: spin `e`'s coordinate vector,
/// with all-ones padding for the other spins, over all `n_spins` spins.
fn sphten_term(
    n_spins: usize,
    e: usize,
    n_row: &Vec<i64>,
    n_col: &Vec<i64>,
    i_dim: &Vec<i64>,
) -> (r: (Vec<i64>, Vec<i64>))
    requires
        1 <= e <= n_spins < usize::MAX,
        sphten_len(n_spins as nat) <= usize::MAX,
        n_row@.len() == 9,
        n_col@.len() == 9,
        i_dim@.len() == 9,
        forall|q: int| 0 <= q < 9 ==> #[trigger] n_row@[q] == q % 3 + 1,
        forall|q: int| 0 <= q < 9 ==> #[trigger] n_col@[q] == q / 3 + 1,
        forall|q: int| 0 <= q < 9 ==> #[trigger] i_dim@[q] == 1,
    ensures
        r.0@.len() == sphten_len(n_spins as nat),
        r.1@.len() == sphten_len(n_spins as nat),
        forall|k: int| 0 <= k < r.0@.len() ==> #[trigger] r.0@[k] == spin_coordinate(e as nat, k, true),
        forall|k: int| 0 <= k < r.1@.len() ==> #[trigger] r.1@[k] == spin_coordinate(e as nat, k, false),
{
    let ident: [i64; 4] = [1, 1, 1, 1];
    let n_vec: [i64; 4] = [0, 1, 2, 3];
    assert(ident@ =~= seq![1i64, 1, 1, 1]);
    assert(n_vec@ =~= seq![0i64, 1, 2, 3]);
    let mut kron_rows: Vec<i64> = Vec::new();
    kron_rows.push(1);
    let mut kron_cols: Vec<i64> = Vec::new();
    kron_cols.push(1);
    let mut m2: usize = 1;
    while m2 <= n_spins
        invariant
            1 <= e <= n_spins < usize::MAX,
            1 <= m2 <= n_spins + 1,
            sphten_len(n_spins as nat) <= usize::MAX,
            n_row@.len() == 9,
            n_col@.len() == 9,
            i_dim@.len() == 9,
            forall|q: int| 0 <= q < 9 ==> #[trigger] n_row@[q] == q % 3 + 1,
            forall|q: int| 0 <= q < 9 ==> #[trigger] n_col@[q] == q / 3 + 1,
            forall|q: int| 0 <= q < 9 ==> #[trigger] i_dim@[q] == 1,
            ident@ == seq![1i64, 1, 1, 1],
            n_vec@ == seq![0i64, 1, 2, 3],
            term_prefix(e as nat, m2 as nat, kron_rows@, true),
            term_prefix(e as nat, m2 as nat, kron_cols@, false),
        decreases n_spins + 1 - m2,
    {
        let on = m2 == e;
        let (row_cell, col_cell): (&[i64], &[i64]) = if on && m2 == 1 {
            (n_row.as_slice(), n_col.as_slice())
        } else if on {
            (&n_vec, &n_vec)
        } else if m2 == 1 {
            (i_dim.as_slice(), i_dim.as_slice())
        } else {
            (&ident, &ident)
        };
        assert(term_cell(e as nat, m2 as nat, row_cell@, n_row@, i_dim@));
        assert(term_cell(e as nat, m2 as nat, col_cell@, n_col@, i_dim@));
        assert(first_cells(n_row@, true, i_dim@));
        assert(first_cells(n_col@, false, i_dim@));
        assert(term_prefix(e as nat, m2 as nat, kron_rows@, true));
        assert(term_prefix(e as nat, m2 as nat, kron_cols@, false));
        proof {
            lemma_term_step_fits(n_spins as nat, e as nat, m2 as nat, row_cell@, kron_rows@, true, n_row@, i_dim@);
            lemma_term_step_fits(n_spins as nat, e as nat, m2 as nat, col_cell@, kron_cols@, false, n_col@, i_dim@);
        }
        let new_rows = kron_i(row_cell, &kron_rows);
        let new_cols = kron_i(col_cell, &kron_cols);
        proof {
            lemma_term_step(n_spins as nat, e as nat, m2 as nat, row_cell@, kron_rows@, new_rows@, true, n_row@, i_dim@);
            lemma_term_step(n_spins as nat, e as nat, m2 as nat, col_cell@, kron_cols@, new_cols@, false, n_col@, i_dim@);
        }

        kron_rows = new_rows;
        kron_cols = new_cols;
        m2 = m2 + 1;
    }
    (kron_rows, kron_cols)
}

/// The cell spin `m2` contributes to the chain of the term for spin `e`:
/// its coordinate vector when it is the addressed spin, ones otherwise.
pub open spec fn term_cell(e: nat, m2: nat, cell: Seq<i64>, first: Seq<i64>, i_dim: Seq<i64>) -> bool {
    if m2 == e && m2 == 1 {
        cell == first
    } else if m2 == e {
        cell == seq![0i64, 1, 2, 3]
    } else if m2 == 1 {
        cell == i_dim
    } else {
        cell == seq![1i64, 1, 1, 1]
    }
}

/// The chain for spins `1 .. m2 - 1`.
pub open spec fn term_prefix(e: nat, m2: nat, prev: Seq<i64>, is_row: bool) -> bool {
    &&& m2 == 1 ==> prev.len() == 1
    &&& m2 > 1 ==> prev.len() == sphten_len((m2 - 1) as nat)
    &&& forall|k: int| 0 <= k < prev.len() ==> #[trigger] prev[k] == if e < m2 {
        spin_coordinate(e, k, is_row)
    } else {
        1
    }
}

/// The first spin's coordinate vectors and the nine-long ones vector.
pub open spec fn first_cells(first: Seq<i64>, is_row: bool, i_dim: Seq<i64>) -> bool {
    &&& first.len() == 9
    &&& i_dim.len() == 9
    &&& forall|q: int| 0 <= q < 9 ==> #[trigger] first[q] == if is_row { q % 3 + 1 } else { q / 3 + 1 }
    &&& forall|q: int| 0 <= q < 9 ==> #[trigger] i_dim[q] == 1
}

/// A coordinate lies between 0 and 3.
proof fn lemma_coordinate_range(j: nat, k: int, is_row: bool)
    requires
        0 <= k,
        j >= 1,
    ensures
        0 <= spin_coordinate(j, k, is_row) <= 3,
{
    if j >= 2 {
        lemma_tensor_digit_range(k, j);
    }
}

/// The next Kronecker product of a chain fits.
proof fn lemma_term_step_fits(
    n_spins: nat,
    e: nat,
    m2: nat,
    cell: Seq<i64>,
    prev: Seq<i64>,
    is_row: bool,
    first: Seq<i64>,
    i_dim: Seq<i64>,
)
    requires
        1 <= e <= n_spins,
        1 <= m2 <= n_spins,
        sphten_len(n_spins) <= usize::MAX,
        first_cells(first, is_row, i_dim),
        term_cell(e, m2, cell, first, i_dim),
        term_prefix(e, m2, prev, is_row),
    ensures
        cell.len() * prev.len() <= usize::MAX,
        cell.len() * prev.len() == sphten_len(m2),
        products_fit(cell, prev),
{
    assert(bounded_by(cell, 3));
    assert forall|k: int| 0 <= k < prev.len() implies -3 <= #[trigger] prev[k] <= 3 by {
        if e < m2 {
            lemma_coordinate_range(e, k, is_row);
        }
    }
    assert(bounded_by(prev, 3));
    lemma_products_fit(cell, prev, 3, 3);
    if m2 == 1 {
        assert(sphten_len(1) == 9 * pow4(0));
    } else {
        assert(pow4((m2 - 1) as nat) == 4 * pow4((m2 - 2) as nat));
        assert(cell.len() == 4);
    }
    lemma_pow4_monotone((m2 - 1) as nat, (n_spins - 1) as nat);
}

/// One step of a chain: the next spin's cell in front of the chain so far.
proof fn lemma_term_step(
    n_spins: nat,
    e: nat,
    m2: nat,
    cell: Seq<i64>,
    prev: Seq<i64>,
    next: Seq<i64>,
    is_row: bool,
    first: Seq<i64>,
    i_dim: Seq<i64>,
)
    requires
        1 <= e <= n_spins,
        1 <= m2 <= n_spins,
        first_cells(first, is_row, i_dim),
        term_cell(e, m2, cell, first, i_dim),
        term_prefix(e, m2, prev, is_row),
        next.len() == cell.len() * prev.len(),
        forall|k: int| 0 <= k < next.len() ==> next[k] == #[trigger] kron_spec(cell, prev)[k],
    ensures
        term_prefix(e, m2 + 1, next, is_row),
{
    let pl = prev.len() as int;
    if m2 == 1 {
        assert(next.len() == 9);
        assert(sphten_len(1) == 9) by { reveal_with_fuel(pow4, 2); }
        assert forall|k: int| 0 <= k < next.len() implies #[trigger] next[k] == if e < m2 + 1 {
            spin_coordinate(e, k, is_row)
        } else {
            1
        } by {
            assert(next[k] == kron_spec(cell, prev)[k]);
            assert(k / 1 == k && k % 1 == 0);
            lemma_small_mod(k as nat, 9);
            assert(prev[0] == 1);
            if e == 1 {
                assert(cell == first);
            } else {
                assert(cell == i_dim);
            }
        }
    } else {
        let p = pow4((m2 - 2) as nat) as int;
        lemma_pow4_pos((m2 - 2) as nat);
        assert(pl == 9 * p);
        assert(cell.len() == 4);
        assert(pow4((m2 - 1) as nat) == 4 * p);
        assert(next.len() == sphten_len(m2)) by {
            lemma_mul_is_commutative(4, pl);
        }
        assert forall|k: int| 0 <= k < next.len() implies #[trigger] next[k] == if e < m2 + 1 {
            spin_coordinate(e, k, is_row)
        } else {
            1
        } by {
            assert(next[k] == kron_spec(cell, prev)[k]);
            lemma_kron_index(4, pl, k);
            let hi = k / pl;
            let lo = k % pl;
            assert(next[k] == cell[hi] * prev[lo]);
            if e < m2 {
                assert(cell == seq![1i64, 1, 1, 1]);
                assert(cell[hi] == 1);
                lemma_coordinate_low_digits(e, k, m2, is_row);
                assert(prev[lo] == spin_coordinate(e, k, is_row));
            } else if e == m2 {
                assert(cell == seq![0i64, 1, 2, 3]);
                assert(cell[hi] == hi) by {
                    if hi == 0 {} else if hi == 1 {} else if hi == 2 {} else {}
                }
                assert(prev[lo] == 1);
                lemma_small_mod(hi as nat, 4);
                assert(tensor_digit(k, e) == hi % 4);
            } else {
                assert(cell == seq![1i64, 1, 1, 1]);
                assert(cell[hi] == 1);
                assert(prev[lo] == 1);
            }
        }
    }
}

/// The weighted sum of the digit vectors is the table's weighted digit sum.
proof fn lemma_zeeman_weighted(
    n_spins: nat,
    m: nat,
    k: int,
    v: Seq<Vec<i64>>,
    s: Seq<i64>,
    p: Seq<u32>,
    is_row: bool,
)
    requires
        n_spins == 3 || n_spins == 4,
        0 <= k < zeeman_liouville_len(n_spins),
        v.len() == n_spins,
        s.len() == n_spins,
        p.len() == 4,
        forall|j: int| 0 <= j < n_spins ==> p[j] as nat == #[trigger] zeeman_powers(n_spins, m)[j],
        forall|j: int| 0 <= j < n_spins ==> #[trigger] s[j] == pow4(p[j] as nat),
        forall|j: int| 0 <= j < v.len() ==> (#[trigger] v[j])@.len() == zeeman_liouville_len(n_spins),
        v[0]@[k] == if is_row { rank1_row(k) } else { rank1_col(k) },
        forall|j: int| 1 <= j < n_spins ==> #[trigger] v[j]@[k] == tensor_digit(k, (j + 1) as nat),
    ensures
        weighted_sum_spec(v, s, k, n_spins as int) == zeeman_weighted(
            n_spins,
            m,
            k,
            if is_row { rank1_row(k) } else { rank1_col(k) },
        ),
{
    let pp = zeeman_powers(n_spins, m);
    let first = if is_row { rank1_row(k) } else { rank1_col(k) };
    assert(s[0] == pow4(pp[0]));
    assert(s[1] == pow4(pp[1]));
    assert(s[2] == pow4(pp[2]));
    assert(v[1]@[k] == tensor_digit(k, 2));
    assert(v[2]@[k] == tensor_digit(k, 3));
    assert(weighted_sum_spec(v, s, k, 0) == 0);
    assert(weighted_sum_spec(v, s, k, 1) == v[0]@[k] * s[0]);
    assert(weighted_sum_spec(v, s, k, 2) == v[0]@[k] * s[0] + v[1]@[k] * s[1]);
    assert(weighted_sum_spec(v, s, k, 3) == v[0]@[k] * s[0] + v[1]@[k] * s[1] + v[2]@[k] * s[2]);
    lemma_mul_is_commutative(v[0]@[k] as int, s[0] as int);
    lemma_mul_is_commutative(v[1]@[k] as int, s[1] as int);
    lemma_mul_is_commutative(v[2]@[k] as int, s[2] as int);
    if n_spins == 4 {
        assert(s[3] == pow4(pp[3]));
        assert(v[3]@[k] == tensor_digit(k, 4));
        assert(weighted_sum_spec(v, s, k, 4) == weighted_sum_spec(v, s, k, 3) + v[3]@[k] * s[3]);
        lemma_mul_is_commutative(v[3]@[k] as int, s[3] as int);
    }
}

/// A table that fits in memory has at most 31 spins, so its indices fit.
pub proof fn lemma_sphten_len_limit(n_spins: nat)
    requires
        n_spins >= 1,
        sphten_len(n_spins) <= usize::MAX,
    ensures
        n_spins <= 31,
        pow4(n_spins) <= pow4(31),
        pow4(n_spins) <= sphten_len(n_spins),
{
    assert(pow4(31) == 0x4000_0000_0000_0000) by { reveal_with_fuel(pow4, 32); }
    if n_spins > 31 {
        lemma_pow4_monotone(31, (n_spins - 1) as nat);
        assert(false);
    }
    lemma_pow4_monotone(n_spins, 31);
    assert(pow4(n_spins) == 4 * pow4((n_spins - 1) as nat));
}

/// A vector of `len` ones.
fn ones(len: usize) -> (v: Vec<i64>)
    ensures
        v@.len() == len,
        forall|k: int| 0 <= k < len ==> #[trigger] v@[k] == 1,
{
    let mut v: Vec<i64> = Vec::new();
    let mut k: usize = 0;
    while k < len
        invariant
            k <= len,
            v@.len() == k,
            forall|j: int| 0 <= j < k ==> #[trigger] v@[j] == 1,
        decreases len - k,
    {
        v.push(1);
        k = k + 1;
    }
    v
}

/// `acc[k] += v[k] * scale` for every `k`.
fn accumulate(acc: &mut Vec<i64>, v: &[i64], scale: i64)
    requires
        old(acc)@.len() == v@.len(),
        forall|k: int| 0 <= k < v@.len() ==> i64::MIN <= #[trigger] v@[k] * scale <= i64::MAX,
        forall|k: int| 0 <= k < v@.len() ==> i64::MIN <= #[trigger] old(acc)@[k] + v@[k] * scale <= i64::MAX,
    ensures
        final(acc)@.len() == old(acc)@.len(),
        forall|k: int| 0 <= k < v@.len() ==> #[trigger] final(acc)@[k] == old(acc)@[k] + v@[k] * scale,
{
    let ghost start = acc@;
    let mut k: usize = 0;
    while k < v.len()
        invariant
            start.len() == v@.len(),
            acc@.len() == v@.len(),
            k <= v@.len(),
            forall|j: int| 0 <= j < v@.len() ==> i64::MIN <= #[trigger] start[j] + v@[j] * scale <= i64::MAX,
            forall|j: int| 0 <= j < v@.len() ==> i64::MIN <= #[trigger] v@[j] * scale <= i64::MAX,
            forall|j: int| 0 <= j < k ==> #[trigger] acc@[j] == start[j] + v@[j] * scale,
            forall|j: int| k <= j < v@.len() ==> #[trigger] acc@[j] == start[j],
        decreases v@.len() - k,
    {
        let x = acc[k] + v[k] * scale;
        acc[k] = x;
        k = k + 1;
    }
}

/// The table with a leading `(0, 0)` entry for the unit state.
fn prepend_unit(t: &Vec<(usize, usize)>) -> (out: Vec<(usize, usize)>)
    ensures
        out@ == seq![(0usize, 0usize)] + t@,
{
    let mut out: Vec<(usize, usize)> = Vec::new();
    out.push((0, 0));
    let mut k: usize = 0;
    while k < t.len()
        invariant
            k <= t@.len(),
            out@ == seq![(0usize, 0usize)] + t@.subrange(0, k as int),
        decreases t@.len() - k,
    {
        out.push(t[k]);
        k = k + 1;
        assert(out@ =~= seq![(0usize, 0usize)] + t@.subrange(0, k as int));
    }
    assert(t@.subrange(0, t@.len() as int) =~= t@);
    out
}

/// Spherical tensors in Liouville space: the general construction, one
/// table per spin.
fn sphten_liouville(n_spins: usize) -> (r: Result<Vec<Vec<(usize, usize)>>>)
    requires
        1 <= n_spins,
        sphten_len(n_spins as nat) <= usize::MAX,
    ensures
        r matches Ok(t) && tables_are(t@, n_spins as nat, |n: nat, m: nat| sphten_table(n, m)),
{
    proof { lemma_sphten_len_limit(n_spins as nat); }
    let (n_row, i_dim) = rank1_cells(true);
    let (n_col, _) = rank1_cells(false);
    let mut out: Vec<Vec<(usize, usize)>> = Vec::new();
    let mut m: usize = 0;
    while m < n_spins
        invariant
            1 <= n_spins <= 31,
            sphten_len(n_spins as nat) <= usize::MAX,
            pow4(n_spins as nat) <= pow4(31),
            pow4(n_spins as nat) <= sphten_len(n_spins as nat),
            n_row@.len() == 9,
            n_col@.len() == 9,
            i_dim@.len() == 9,
            forall|q: int| 0 <= q < 9 ==> #[trigger] n_row@[q] == q % 3 + 1,
            forall|q: int| 0 <= q < 9 ==> #[trigger] n_col@[q] == q / 3 + 1,
            forall|q: int| 0 <= q < 9 ==> #[trigger] i_dim@[q] == 1,
            m <= n_spins,
            out@.len() == m,
            forall|j: int| 0 <= j < m ==> #[trigger] out@[j]@ == Seq::new(
                sphten_len(n_spins as nat),
                |k: int| sphten_entry(n_spins as nat, j as nat, k),
            ),
        decreases n_spins - m,
    {
        let order = sphten_order_exec(n_spins, m);
        let mut rows_acc: Vec<i64> = Vec::new();
        let mut cols_acc: Vec<i64> = Vec::new();
        let mut m1: usize = 0;
        while m1 < n_spins
            invariant
                1 <= n_spins <= 31,
                m < n_spins,
                sphten_len(n_spins as nat) <= usize::MAX,
                pow4(n_spins as nat) <= pow4(31),
                n_row@.len() == 9,
                n_col@.len() == 9,
                i_dim@.len() == 9,
                forall|q: int| 0 <= q < 9 ==> #[trigger] n_row@[q] == q % 3 + 1,
                forall|q: int| 0 <= q < 9 ==> #[trigger] n_col@[q] == q / 3 + 1,
                forall|q: int| 0 <= q < 9 ==> #[trigger] i_dim@[q] == 1,
                order@.len() == n_spins,
                forall|j: int| 0 <= j < n_spins ==> #[trigger] order@[j] as nat == sphten_order(
                    n_spins as nat,
                    m as nat,
                    j as nat,
                ),
                m1 <= n_spins,
                m1 == 0 ==> rows_acc@.len() == 0 && cols_acc@.len() == 0,
                m1 > 0 ==> rows_acc@.len() == sphten_len(n_spins as nat) && cols_acc@.len()
                    == sphten_len(n_spins as nat),
                forall|k: int| 0 <= k < rows_acc@.len() ==> #[trigger] rows_acc@[k] == 1 + sphten_sum(
                    n_spins as nat,
                    m as nat,
                    k,
                    m1 as nat,
                    true,
                ),
                forall|k: int| 0 <= k < cols_acc@.len() ==> #[trigger] cols_acc@[k] == 1 + sphten_sum(
                    n_spins as nat,
                    m as nat,
                    k,
                    m1 as nat,
                    false,
                ),
            decreases n_spins - m1,
        {
            let row_of_e = order[m1];
            proof {
                assert(order@[m1 as int] as nat == sphten_order(n_spins as nat, m as nat, m1 as nat));
            }
            let (kron_rows, kron_cols) = sphten_term(n_spins, row_of_e, &n_row, &n_col, &i_dim);
            proof { lemma_pow4_monotone((n_spins - (m1 + 1)) as nat, 30); }
            let scale = pow4_exec((n_spins - (m1 + 1)) as u32);
            if rows_acc.len() == 0 {
                rows_acc = ones(kron_rows.len());
                cols_acc = ones(kron_cols.len());
            }
            proof {
                assert forall|k: int| 0 <= k < rows_acc@.len() implies #[trigger] rows_acc@[k] == 1 + sphten_sum(
                    n_spins as nat, m as nat, k, m1 as nat, true) by {}
                assert forall|k: int| 0 <= k < cols_acc@.len() implies #[trigger] cols_acc@[k] == 1 + sphten_sum(
                    n_spins as nat, m as nat, k, m1 as nat, false) by {}
                assert forall|k: int| 0 <= k < kron_rows@.len() implies i64::MIN <= #[trigger] (kron_rows@[k] * scale) <= i64::MAX
                    && i64::MIN <= rows_acc@[k] + kron_rows@[k] * scale <= i64::MAX by {
                    lemma_sphten_step_fits(n_spins as nat, m as nat, k, m1 as nat, true);
                    assert(kron_rows@[k] == spin_coordinate(row_of_e as nat, k, true));
                    assert(row_of_e as nat == sphten_order(n_spins as nat, m as nat, m1 as nat));
                    assert(scale == pow4((n_spins - (m1 + 1)) as nat));
                    lemma_mul_is_commutative(kron_rows@[k] as int, scale as int);
                    assert(rows_acc@[k] == 1 + sphten_sum(n_spins as nat, m as nat, k, m1 as nat, true));
                }
                assert forall|k: int| 0 <= k < kron_cols@.len() implies i64::MIN <= #[trigger] (kron_cols@[k] * scale) <= i64::MAX
                    && i64::MIN <= cols_acc@[k] + kron_cols@[k] * scale <= i64::MAX by {
                    lemma_sphten_step_fits(n_spins as nat, m as nat, k, m1 as nat, false);
                    assert(kron_cols@[k] == spin_coordinate(row_of_e as nat, k, false));
                    assert(row_of_e as nat == sphten_order(n_spins as nat, m as nat, m1 as nat));
                    assert(scale == pow4((n_spins - (m1 + 1)) as nat));
                    lemma_mul_is_commutative(kron_cols@[k] as int, scale as int);
                    assert(cols_acc@[k] == 1 + sphten_sum(n_spins as nat, m as nat, k, m1 as nat, false));
                }
            }
            let ghost before_rows = rows_acc@;
            let ghost before_cols = cols_acc@;
            accumulate(&mut rows_acc, &kron_rows, scale);
            accumulate(&mut cols_acc, &kron_cols, scale);
            proof {
                assert forall|k: int| 0 <= k < rows_acc@.len() implies #[trigger] rows_acc@[k] == 1 + sphten_sum(
                    n_spins as nat, m as nat, k, (m1 + 1) as nat, true) by {
                    lemma_sphten_step_fits(n_spins as nat, m as nat, k, m1 as nat, true);
                    assert(kron_rows@[k] == spin_coordinate(row_of_e as nat, k, true));
                    assert(rows_acc@[k] == before_rows[k] + kron_rows@[k] * scale);
                    lemma_mul_is_commutative(kron_rows@[k] as int, scale as int);
                }
                assert forall|k: int| 0 <= k < cols_acc@.len() implies #[trigger] cols_acc@[k] == 1 + sphten_sum(
                    n_spins as nat, m as nat, k, (m1 + 1) as nat, false) by {
                    lemma_sphten_step_fits(n_spins as nat, m as nat, k, m1 as nat, false);
                    assert(kron_cols@[k] == spin_coordinate(row_of_e as nat, k, false));
                    assert(cols_acc@[k] == before_cols[k] + kron_cols@[k] * scale);
                    lemma_mul_is_commutative(kron_cols@[k] as int, scale as int);
                }
            }
            m1 = m1 + 1;
        }
        proof {
            assert forall|k: int| 0 <= k < rows_acc@.len() implies 1 <= #[trigger] rows_acc@[k] <= usize::MAX + 1 by {
                lemma_sphten_sum_bounds(n_spins as nat, m as nat, k, n_spins as nat, true);
                lemma_pow4_pos(0);
            }
            assert forall|k: int| 0 <= k < cols_acc@.len() implies 1 <= #[trigger] cols_acc@[k] <= usize::MAX + 1 by {
                lemma_sphten_sum_bounds(n_spins as nat, m as nat, k, n_spins as nat, false);
                lemma_pow4_pos(0);
            }
        }
        let t = zip_pairs(&rows_acc, &cols_acc);
        assert(t@ =~= Seq::new(sphten_len(n_spins as nat), |k: int| sphten_entry(n_spins as nat, m as nat, k)));
        out.push(t);
        m = m + 1;
    }
    if n_spins == 1 {
        let first = prepend_unit(&out[0]);
        out[0] = first;
    }
    assert forall|j: int| 0 <= j < n_spins implies #[trigger] out@[j]@ == sphten_table(n_spins as nat, j as nat) by {}
    Ok(out)
}

/// One more weighted term keeps the accumulated index inside an `i64`.
proof fn lemma_sphten_step_fits(n_spins: nat, m: nat, k: int, m1: nat, is_row: bool)
    requires
        1 <= n_spins <= 31,
        m < n_spins,
        m1 < n_spins,
        0 <= k,
        pow4(n_spins) <= pow4(31),
    ensures
        pow4(31) == 0x4000_0000_0000_0000,
        1 + sphten_sum(n_spins, m, k, m1 + 1, is_row) <= pow4(31),
        0 <= spin_coordinate(sphten_order(n_spins, m, m1), k, is_row) * pow4((n_spins - (m1 + 1)) as nat) <= pow4(31),
        1 + sphten_sum(n_spins, m, k, m1 + 1, is_row) == 1 + sphten_sum(n_spins, m, k, m1, is_row)
            + spin_coordinate(sphten_order(n_spins, m, m1), k, is_row) * pow4((n_spins - (m1 + 1)) as nat),
        0 <= sphten_sum(n_spins, m, k, m1, is_row),
{
    lemma_sphten_sum_bounds(n_spins, m, k, m1 + 1, is_row);
    lemma_sphten_sum_bounds(n_spins, m, k, m1, is_row);
    lemma_coordinate_range(sphten_order(n_spins, m, m1), k, is_row);
    assert(0 <= spin_coordinate(sphten_order(n_spins, m, m1), k, is_row) * pow4((n_spins - (m1 + 1)) as nat)) by (nonlinear_arith)
        requires 0 <= spin_coordinate(sphten_order(n_spins, m, m1), k, is_row);
    lemma_pow4_pos((n_spins - (m1 + 1)) as nat);
    lemma_pow4_30();
    assert(pow4(31) == 4 * pow4(30));
    lemma_mul_is_commutative(
        spin_coordinate(sphten_order(n_spins, m, m1), k, is_row),
        pow4((n_spins - (m1 + 1)) as nat) as int,
    );
}

// ------------------------------------------------------------ the tables ----

/// The tables `propagator_ind` returns, where it returns them: one per
/// spin, table `m` being `table(n_spins, m)`.
pub open spec fn propagator_table(space: StateSpace, basis: Basis, n_spins: nat, m: nat) -> Seq<(usize, usize)> {
    match (space, basis) {
        (StateSpace::Liouville, Basis::Sphten) => sphten_table(n_spins, m),
        (StateSpace::Liouville, Basis::Zeeman) => zeeman_liouville_table(n_spins, m),
        _ => zeeman_hilbert_table(n_spins, m),
    }
}

/// The spin counts each formalism has tables for: any positive number for
/// spherical tensors in Liouville space, one to four for the Zeeman basis in
/// Liouville space, one or two for the Zeeman basis in Hilbert space, and
/// none for spherical tensors in Hilbert space.
pub open spec fn tabulated(space: StateSpace, basis: Basis, n_spins: nat) -> bool {
    match (space, basis) {
        (StateSpace::Liouville, Basis::Sphten) => n_spins >= 1,
        (StateSpace::Liouville, Basis::Zeeman) => 1 <= n_spins <= 4,
        (StateSpace::Hilbert, Basis::Zeeman) => 1 <= n_spins <= 2,
        (StateSpace::Hilbert, Basis::Sphten) => false,
    }
}

/// Index tables, one per spin.
///
/// For `n_spins == 1` the single table maps the stored elements onto the
/// single-spin propagator block; that is the table the objective functions
/// use to rebuild propagators via Kronecker products.  For larger `n_spins`
/// the tables address the composite space directly.
pub fn propagator_ind(space: StateSpace, basis: Basis, n_spins: usize) -> (r: Result<
    Vec<Vec<(usize, usize)>>,
>)
    requires
        space == StateSpace::Liouville && basis == Basis::Sphten && n_spins >= 1 ==> sphten_len(
            n_spins as nat,
        ) <= usize::MAX,
    ensures
        n_spins == 0 ==> (r matches Err(QoalaError::BadValue(s)) && s@ == "need at least one spin"@),
        n_spins >= 1 && tabulated(space, basis, n_spins as nat) ==> (r matches Ok(t) && t@.len() == n_spins
            && forall|m: int| 0 <= m < n_spins ==> #[trigger] t@[m]@ == propagator_table(space, basis, n_spins as nat, m as nat)),
        n_spins >= 1 && space == StateSpace::Hilbert && basis == Basis::Sphten ==> (r matches Err(
            QoalaError::NotImplemented(s),
        ) && s@ == "propagator_ind for the sphten basis in a hilbert space formalism"@),
        n_spins >= 1 && space == StateSpace::Liouville && basis == Basis::Zeeman && n_spins > 4 ==> (r matches Err(
            QoalaError::NotImplemented(s),
        ) && s@ == unsupported_count_message("zeeman-liouville"@, n_spins as nat)),
        n_spins >= 1 && space == StateSpace::Hilbert && basis == Basis::Zeeman && n_spins > 2 ==> (r matches Err(
            QoalaError::NotImplemented(s),
        ) && s@ == unsupported_count_message("zeeman-hilbert"@, n_spins as nat)),
{
    if n_spins == 0 {
        return Err(QoalaError::BadValue(String::from_str("need at least one spin")));
    }
    match (space, basis) {
        (StateSpace::Liouville, Basis::Sphten) => sphten_liouville(n_spins),
        (StateSpace::Liouville, Basis::Zeeman) => zeeman_liouville(n_spins),
        (StateSpace::Hilbert, Basis::Zeeman) => zeeman_hilbert(n_spins),
        (StateSpace::Hilbert, Basis::Sphten) => Err(
            QoalaError::NotImplemented(
                String::from_str("propagator_ind for the sphten basis in a hilbert space formalism"),
            ),
        ),
    }
}

// -------------------------------------------------------------- laws ----

/// `2^e`.
pub open spec fn pow2(e: nat) -> nat
    decreases e,
{
    if e == 0 { 1 } else { 2 * pow2((e - 1) as nat) }
}

/// Dimension of the composite space of `n_spins` two-level systems: `4^n`
/// in Liouville space, `2^n` in Hilbert space.
pub open spec fn composite_dim(space: StateSpace, n_spins: nat) -> nat {
    match space {
        StateSpace::Liouville => pow4(n_spins),
        StateSpace::Hilbert => pow2(n_spins),
    }
}

/// Every entry of every table lies inside the composite space: its row and
/// column are both less than the dimension of the space the tables address.
pub proof fn law_entries_inside_composite_space(space: StateSpace, basis: Basis, n_spins: nat, m: nat, k: int)
    requires
        tabulated(space, basis, n_spins),
        m < n_spins,
        0 <= k < propagator_table(space, basis, n_spins, m).len(),
    ensures
        (propagator_table(space, basis, n_spins, m)[k].0 as nat) < composite_dim(space, n_spins),
        (propagator_table(space, basis, n_spins, m)[k].1 as nat) < composite_dim(space, n_spins),
{
    reveal_with_fuel(pow4, 5);
    reveal_with_fuel(pow2, 3);
    match (space, basis) {
        (StateSpace::Liouville, Basis::Sphten) => {
            if n_spins == 1 && k == 0 {
            } else {
                let kk = if n_spins == 1 { k - 1 } else { k };
                lemma_sphten_sum_bounds(n_spins, m, kk, n_spins, true);
                lemma_sphten_sum_bounds(n_spins, m, kk, n_spins, false);
                assert(pow4(0) == 1);
                if n_spins == 1 {
                    assert(propagator_table(space, basis, n_spins, m)[k] == sphten_entry(n_spins, m, kk));
                }
            }
        },
        (StateSpace::Liouville, Basis::Zeeman) => {
            if n_spins >= 3 {
                lemma_zeeman_weighted_range(n_spins, m, k);
            }
        },
        _ => {},
    }
}

/// The weighted digit sums of the three- and four-spin Zeeman tables.
proof fn lemma_zeeman_weighted_range(n_spins: nat, m: nat, k: int)
    requires
        n_spins == 3 || n_spins == 4,
        m < n_spins,
        0 <= k < zeeman_liouville_len(n_spins),
    ensures
        1 <= zeeman_weighted(n_spins, m, k, rank1_row(k)) <= pow4(n_spins),
        1 <= zeeman_weighted(n_spins, m, k, rank1_col(k)) <= pow4(n_spins),
{
    lemma_weighted_from(n_spins, m, k, rank1_row(k));
    lemma_weighted_from(n_spins, m, k, rank1_col(k));
}

/// The weighted digit sum starting from a coordinate `1 <= first <= 3`.
proof fn lemma_weighted_from(n_spins: nat, m: nat, k: int, first: int)
    requires
        n_spins == 3 || n_spins == 4,
        m < n_spins,
        0 <= k,
        1 <= first <= 3,
    ensures
        1 <= zeeman_weighted(n_spins, m, k, first) <= pow4(n_spins),
{
    reveal_with_fuel(pow4, 5);
    lemma_tensor_digit_range(k, 2);
    lemma_tensor_digit_range(k, 3);
    lemma_tensor_digit_range(k, 4);
    assert(pow4(0) == 1 && pow4(1) == 4 && pow4(2) == 16 && pow4(3) == 64 && pow4(4) == 256);
    let d2 = tensor_digit(k, 2);
    let d3 = tensor_digit(k, 3);
    let d4 = tensor_digit(k, 4);
    let w = zeeman_weighted(n_spins, m, k, first);
    let p = zeeman_powers(n_spins, m);
    if n_spins == 3 {
        let (a, b, c) = (pow4(p[0]) as int, pow4(p[1]) as int, pow4(p[2]) as int);
        assert(w == a * first + b * d2 + c * d3);
        assert((a == 16 && b == 1 && c == 4) || (a == 4 && b == 1 && c == 16) || (a == 1 && b == 4 && c == 16));
        assert(1 <= w <= 64) by (nonlinear_arith)
            requires
                w == a * first + b * d2 + c * d3,
                (a == 16 && b == 1 && c == 4) || (a == 4 && b == 1 && c == 16) || (a == 1 && b == 4 && c == 16),
                1 <= first <= 3,
                0 <= d2 <= 3,
                0 <= d3 <= 3,
        ;
    } else {
        let (a, b, c, e) = (pow4(p[0]) as int, pow4(p[1]) as int, pow4(p[2]) as int, pow4(p[3]) as int);
        assert(w == a * first + b * d2 + c * d3 + e * d4);
        assert((a == 64 && b == 4 && c == 16 && e == 1) || (a == 16 && b == 4 && c == 64 && e == 1)
            || (a == 4 && b == 1 && c == 16 && e == 64) || (a == 1 && b == 4 && c == 16 && e == 64));
        assert(1 <= w <= 256) by (nonlinear_arith)
            requires
                w == a * first + b * d2 + c * d3 + e * d4,
                (a == 64 && b == 4 && c == 16 && e == 1) || (a == 16 && b == 4 && c == 64 && e == 1)
                    || (a == 4 && b == 1 && c == 16 && e == 64) || (a == 1 && b == 4 && c == 16 && e == 64),
                1 <= first <= 3,
                0 <= d2 <= 3,
                0 <= d3 <= 3,
                0 <= d4 <= 3,
        ;
    }
}

/// The largest extent in a table bounds every entry's, and is some entry's.
pub proof fn lemma_table_extent(t: Seq<(usize, usize)>)
    requires
        t.len() > 0,
    ensures
        forall|k: int| 0 <= k < t.len() ==> #[trigger] crate::objfun::entry_extent(t[k])
            <= crate::objfun::table_extent(t),
        exists|k: int| 0 <= k < t.len() && #[trigger] crate::objfun::entry_extent(t[k])
            == crate::objfun::table_extent(t),
    decreases t.len(),
{
    if t.len() > 1 {
        let d = t.drop_last();
        lemma_table_extent(d);
        assert forall|k: int| 0 <= k < t.len() implies #[trigger] crate::objfun::entry_extent(t[k])
            <= crate::objfun::table_extent(t) by {
            if k < d.len() {
                assert(t[k] == d[k]);
            }
        }
        let w = choose|k: int| 0 <= k < d.len() && #[trigger] crate::objfun::entry_extent(d[k])
            == crate::objfun::table_extent(d);
        if crate::objfun::table_extent(t) == crate::objfun::entry_extent(t[t.len() - 1]) {
            assert(crate::objfun::entry_extent(t[t.len() - 1]) == crate::objfun::table_extent(t));
        } else {
            assert(t[w] == d[w]);
            assert(crate::objfun::entry_extent(t[w]) == crate::objfun::table_extent(t));
        }
    } else {
        assert(crate::objfun::entry_extent(t[0]) == crate::objfun::table_extent(t));
    }
}

/// The single-spin table addresses the whole single-spin block and nothing
/// beyond it: the block dimension that `single_spin_dim` reads off it is 4
/// in Liouville space and 2 in Hilbert space.
pub proof fn law_single_spin_block(space: StateSpace, basis: Basis)
    requires
        tabulated(space, basis, 1),
    ensures
        crate::objfun::table_extent(propagator_table(space, basis, 1, 0)) + 1 == composite_dim(space, 1),
{
    reveal_with_fuel(pow4, 2);
    reveal_with_fuel(pow2, 2);
    let t = propagator_table(space, basis, 1, 0);
    lemma_table_extent(t);
    assert forall|k: int| 0 <= k < t.len() implies #[trigger] crate::objfun::entry_extent(t[k]) + 1 <= composite_dim(space, 1) by {
        law_entries_inside_composite_space(space, basis, 1, 0, k);
    }
    let last = t.len() - 1;
    assert(crate::objfun::entry_extent(t[last]) + 1 == composite_dim(space, 1)) by {
        if space == StateSpace::Liouville && basis == Basis::Sphten {
            assert(t[last] == sphten_entry(1, 0, 8));
            assert(sphten_order(1, 0, 0) == 1);
            assert(sphten_sum(1, 0, 8, 1, true) == sphten_sum(1, 0, 8, 0, true) + pow4(0) * rank1_row(8));
        }
    }
}

/// The single-spin tables hold one entry per stored propagator element,
/// plus, for spherical tensors, the leading unit-state entry.
pub proof fn law_single_spin_table_length(space: StateSpace, basis: Basis)
    requires
        tabulated(space, basis, 1),
    ensures
        crate::rodrigues::spec_elements_per_point(space, basis) matches Some(e)
            && propagator_table(space, basis, 1, 0).len() == e + if basis == Basis::Sphten { 1nat } else { 0nat },
{
    reveal_with_fuel(pow4, 2);
}


proof fn lemma_rank1_range(k: int)
    requires
        0 <= k,
    ensures
        1 <= rank1_row(k) <= 3,
        1 <= rank1_col(k) <= 3,
{
}

proof fn lemma_first_power(n_spins: nat, m: nat)
    requires
        n_spins == 3 || n_spins == 4,
        m < n_spins,
    ensures
        zeeman_powers(n_spins, m)[0] == n_spins - 1 - m,
        forall|j: int| 0 <= j < n_spins ==> #[trigger] zeeman_powers(n_spins, m)[j] <= 3,
        pow4(0) == 1 && pow4(1) == 4 && pow4(2) == 16 && pow4(3) == 64,
{
    reveal_with_fuel(pow4, 4);
}

/// The weighted sum of entry `k`, split into spin 1's part and the rest.
proof fn lemma_weighted_split(n_spins: nat, m: nat, k: int, first: int)
    requires
        n_spins == 3 || n_spins == 4,
        m < n_spins,
        0 <= k,
        1 <= first <= 3,
    ensures
        zeeman_weighted(n_spins, m, k, first) == pow4((n_spins - 1 - m) as nat) * first + (
        zeeman_weighted(n_spins, m, k, 1) - pow4((n_spins - 1 - m) as nat)),
        1 <= zeeman_weighted(n_spins, m, k, first) <= 255,
        k < 9 ==> zeeman_weighted(n_spins, m, k, first) == pow4((n_spins - 1 - m) as nat) * first,
{
    lemma_first_power(n_spins, m);
    let p = zeeman_powers(n_spins, m);
    lemma_tensor_digit_range(k, 2);
    lemma_tensor_digit_range(k, 3);
    lemma_tensor_digit_range(k, 4);
    let w1 = pow4(p[0]);
    let w2 = pow4(p[1]);
    let w3 = pow4(p[2]);
    assert(1 <= w1 <= 64 && 1 <= w2 <= 64 && 1 <= w3 <= 64);
    let d2 = tensor_digit(k, 2);
    let d3 = tensor_digit(k, 3);
    let d4 = tensor_digit(k, 4);
    assert(w1 * first <= 64 * 3 && w1 * first >= 1) by (nonlinear_arith)
        requires 1 <= w1 <= 64, 1 <= first <= 3;
    assert(0 <= w2 * d2 <= 64 * 3) by (nonlinear_arith)
        requires 1 <= w2 <= 64, 0 <= d2 <= 3;
    assert(0 <= w3 * d3 <= 64 * 3) by (nonlinear_arith)
        requires 1 <= w3 <= 64, 0 <= d3 <= 3;
    if n_spins == 4 {
        let w4 = pow4(p[3]);
        assert(1 <= w4 <= 64);
        assert(0 <= w4 * d4 <= 64 * 3) by (nonlinear_arith)
            requires 1 <= w4 <= 64, 0 <= d4 <= 3;
        // The four weights are 1, 4, 16 and 64 in some order.
        assert(w1 + w2 + w3 + w4 == 85);
        assert(w1 * first + w2 * d2 + w3 * d3 + w4 * d4 <= 3 * (w1 + w2 + w3 + w4)) by (nonlinear_arith)
            requires 1 <= first <= 3, 0 <= d2 <= 3, 0 <= d3 <= 3, 0 <= d4 <= 3, w1 >= 0, w2 >= 0, w3 >= 0, w4 >= 0;
    } else {
        assert(w1 + w2 + w3 == 21);
        assert(w1 * first + w2 * d2 + w3 * d3 <= 3 * (w1 + w2 + w3)) by (nonlinear_arith)
            requires 1 <= first <= 3, 0 <= d2 <= 3, 0 <= d3 <= 3, w1 >= 0, w2 >= 0, w3 >= 0;
    }
    if k < 9 {
        lemma_pow4_pos(0);
        lemma_pow4_pos(1);
        lemma_pow4_pos(2);
        assert(pow4((2 - 2) as nat) == 1);
        assert(pow4((3 - 2) as nat) == 4);
        assert(pow4((4 - 2) as nat) == 16);
        lemma_fundamental_div_mod_converse(k, 9, 0, k);
        lemma_fundamental_div_mod_converse(k, 36, 0, k);
        lemma_fundamental_div_mod_converse(k, 144, 0, k);
        assert(d2 == 0 && d3 == 0 && d4 == 0);
        assert(w2 * d2 == 0 && w3 * d3 == 0) by (nonlinear_arith)
            requires d2 == 0, d3 == 0;
        if n_spins == 4 {
            let w4 = pow4(p[3]);
            assert(w4 * d4 == 0) by (nonlinear_arith)
                requires d4 == 0;
        }
    }
}

/// In the Zeeman-basis Liouville tables of three and four spins, table `m`
/// weights spin 1's rank-1 block coordinate by `4^(n - 1 - m)`: the row and
/// column of every entry differ by that weight times the difference of the
/// block row and column, the other spins' digits cancelling; the first
/// nine entries, with every other spin in its first state, are spin 1's
/// block itself at that stride; and so the tables of different spins
/// differ.
pub proof fn law_zeeman_tables_weight_spin_one_by_table(n_spins: nat, m: nat, k: int)
    requires
        n_spins == 3 || n_spins == 4,
        m < n_spins,
        0 <= k < zeeman_liouville_len(n_spins),
    ensures
        zeeman_liouville_entry(n_spins, m, k).0 - zeeman_liouville_entry(n_spins, m, k).1 == pow4(
            (n_spins - 1 - m) as nat,
        ) * (rank1_row(k) - rank1_col(k)),
        k < 9 ==> zeeman_liouville_entry(n_spins, m, k) == (
            (pow4((n_spins - 1 - m) as nat) * rank1_row(k) - 1) as usize,
            (pow4((n_spins - 1 - m) as nat) * rank1_col(k) - 1) as usize,
        ),
        forall|m2: nat| m2 < n_spins && m2 != m ==> zeeman_liouville_table(n_spins, m) != #[trigger] zeeman_liouville_table(
            n_spins,
            m2,
        ),
{
    lemma_rank1_range(k);
    lemma_weighted_split(n_spins, m, k, rank1_row(k));
    lemma_weighted_split(n_spins, m, k, rank1_col(k));
    let w = pow4((n_spins - 1 - m) as nat);
    assert(w * rank1_row(k) - w * rank1_col(k) == w * (rank1_row(k) - rank1_col(k))) by (nonlinear_arith);
    assert forall|m2: nat| m2 < n_spins && m2 != m implies zeeman_liouville_table(n_spins, m) != #[trigger] zeeman_liouville_table(
        n_spins,
        m2,
    ) by {
        lemma_rank1_range(1);
        assert(rank1_row(1) == 2 && rank1_col(1) == 1);
        lemma_weighted_split(n_spins, m, 1, 2);
        lemma_weighted_split(n_spins, m2, 1, 2);
        lemma_first_power(n_spins, m);
        lemma_first_power(n_spins, m2);
        let t1 = zeeman_liouville_table(n_spins, m);
        let t2 = zeeman_liouville_table(n_spins, m2);
        assert(t1[1].0 != t2[1].0);
    }
}


/// Base-4 numerals of three digits are unique.
proof fn lemma_base4_three(x1: int, y1: int, z1: int, x2: int, y2: int, z2: int)
    requires
        0 <= x1 <= 3, 0 <= y1 <= 3, 0 <= z1 <= 3,
        0 <= x2 <= 3, 0 <= y2 <= 3, 0 <= z2 <= 3,
        16 * x1 + 4 * y1 + z1 == 16 * x2 + 4 * y2 + z2,
    ensures
        x1 == x2 && y1 == y2 && z1 == z2,
{
}

/// Base-4 numerals of four digits are unique.
proof fn lemma_base4_four(x1: int, y1: int, z1: int, v1: int, x2: int, y2: int, z2: int, v2: int)
    requires
        0 <= x1 <= 3, 0 <= y1 <= 3, 0 <= z1 <= 3, 0 <= v1 <= 3,
        0 <= x2 <= 3, 0 <= y2 <= 3, 0 <= z2 <= 3, 0 <= v2 <= 3,
        64 * x1 + 16 * y1 + 4 * z1 + v1 == 64 * x2 + 16 * y2 + 4 * z2 + v2,
    ensures
        x1 == x2 && y1 == y2 && z1 == z2 && v1 == v2,
{
}

/// An entry of a Zeeman-basis Liouville table for three or four spins
/// determines the element it addresses: two entries at the same row and
/// column address the same rank-1 block row and column of spin 1 and the
/// same state of every other spin.  No element is listed twice.
#[verifier::spinoff_prover]
pub proof fn law_zeeman_entries_determine_their_element(n_spins: nat, m: nat, k1: int, k2: int)
    requires
        n_spins == 3 || n_spins == 4,
        m < n_spins,
        0 <= k1,
        0 <= k2,
        zeeman_liouville_entry(n_spins, m, k1) == zeeman_liouville_entry(n_spins, m, k2),
    ensures
        rank1_row(k1) == rank1_row(k2),
        rank1_col(k1) == rank1_col(k2),
        tensor_digit(k1, 2) == tensor_digit(k2, 2),
        tensor_digit(k1, 3) == tensor_digit(k2, 3),
        n_spins == 4 ==> tensor_digit(k1, 4) == tensor_digit(k2, 4),
{
    lemma_rank1_range(k1);
    lemma_rank1_range(k2);
    lemma_weighted_split(n_spins, m, k1, rank1_row(k1));
    lemma_weighted_split(n_spins, m, k1, rank1_col(k1));
    lemma_weighted_split(n_spins, m, k2, rank1_row(k2));
    lemma_weighted_split(n_spins, m, k2, rank1_col(k2));
    lemma_tensor_digit_range(k1, 2);
    lemma_tensor_digit_range(k1, 3);
    lemma_tensor_digit_range(k1, 4);
    lemma_tensor_digit_range(k2, 2);
    lemma_tensor_digit_range(k2, 3);
    lemma_tensor_digit_range(k2, 4);
    lemma_weighted_digits(n_spins, m, k1, rank1_row(k1));
    lemma_weighted_digits(n_spins, m, k1, rank1_col(k1));
    lemma_weighted_digits(n_spins, m, k2, rank1_row(k2));
    lemma_weighted_digits(n_spins, m, k2, rank1_col(k2));
    let e1 = if n_spins == 4 { tensor_digit(k1, 4) } else { 0 };
    let e2 = if n_spins == 4 { tensor_digit(k2, 4) } else { 0 };
    lemma_digit_value_unique(
        n_spins,
        m,
        rank1_row(k1) - 1,
        tensor_digit(k1, 2),
        tensor_digit(k1, 3),
        e1,
        rank1_row(k2) - 1,
        tensor_digit(k2, 2),
        tensor_digit(k2, 3),
        e2,
    );
    lemma_digit_value_unique(
        n_spins,
        m,
        rank1_col(k1) - 1,
        tensor_digit(k1, 2),
        tensor_digit(k1, 3),
        e1,
        rank1_col(k2) - 1,
        tensor_digit(k2, 2),
        tensor_digit(k2, 3),
        e2,
    );
}

/// The weighted digit sum of table `m` with the powers of four written
/// out: spin 1's zero-based block coordinate `x` and the other spins'
/// digits `a`, `b`, `e`.
spec fn digit_value(n_spins: nat, m: nat, x: int, a: int, b: int, e: int) -> int {
    if n_spins == 3 {
        if m == 0 {
            16 * x + 4 * b + a
        } else if m == 1 {
            16 * b + 4 * x + a
        } else {
            16 * b + 4 * a + x
        }
    } else {
        if m == 0 {
            64 * x + 16 * b + 4 * a + e
        } else if m == 1 {
            64 * b + 16 * x + 4 * a + e
        } else if m == 2 {
            64 * e + 16 * b + 4 * x + a
        } else {
            64 * e + 16 * b + 4 * a + x
        }
    }
}

proof fn lemma_weighted_digits(n_spins: nat, m: nat, k: int, first: int)
    requires
        n_spins == 3 || n_spins == 4,
        m < n_spins,
    ensures
        zeeman_weighted(n_spins, m, k, first) == digit_value(
            n_spins,
            m,
            first - 1,
            tensor_digit(k, 2),
            tensor_digit(k, 3),
            if n_spins == 4 { tensor_digit(k, 4) } else { 0 },
        ) + pow4((n_spins - 1 - m) as nat),
{
    reveal_with_fuel(pow4, 4);
    assert(pow4(0) == 1 && pow4(1) == 4 && pow4(2) == 16 && pow4(3) == 64);
    let p = zeeman_powers(n_spins, m);
    let a = tensor_digit(k, 2);
    let b = tensor_digit(k, 3);
    let e = tensor_digit(k, 4);
    if n_spins == 3 {
        if m == 0 {
            assert(p[0] == 2 && p[1] == 0 && p[2] == 1);
            assert(pow4(p[0]) * first == 16 * first && pow4(p[1]) * a == a && pow4(p[2]) * b == 4 * b);
            assert(pow4((n_spins - 1 - m) as nat) == 16);
        } else if m == 1 {
            assert(p[0] == 1 && p[1] == 0 && p[2] == 2);
            assert(pow4(p[0]) * first == 4 * first && pow4(p[1]) * a == a && pow4(p[2]) * b == 16 * b);
            assert(pow4((n_spins - 1 - m) as nat) == 4);
        } else {
            assert(p[0] == 0 && p[1] == 1 && p[2] == 2);
            assert(pow4(p[0]) * first == first && pow4(p[1]) * a == 4 * a && pow4(p[2]) * b == 16 * b);
            assert(pow4((n_spins - 1 - m) as nat) == 1);
        }
        assert(zeeman_weighted(n_spins, m, k, first) == pow4(p[0]) * first + pow4(p[1]) * a + pow4(p[2]) * b);
    } else {
        if m == 0 {
            assert(p[0] == 3 && p[1] == 1 && p[2] == 2 && p[3] == 0);
            assert(pow4(p[0]) * first == 64 * first && pow4(p[1]) * a == 4 * a && pow4(p[2]) * b == 16 * b
                && pow4(p[3]) * e == e);
            assert(pow4((n_spins - 1 - m) as nat) == 64);
        } else if m == 1 {
            assert(p[0] == 2 && p[1] == 1 && p[2] == 3 && p[3] == 0);
            assert(pow4(p[0]) * first == 16 * first && pow4(p[1]) * a == 4 * a && pow4(p[2]) * b == 64 * b
                && pow4(p[3]) * e == e);
            assert(pow4((n_spins - 1 - m) as nat) == 16);
        } else if m == 2 {
            assert(p[0] == 1 && p[1] == 0 && p[2] == 2 && p[3] == 3);
            assert(pow4(p[0]) * first == 4 * first && pow4(p[1]) * a == a && pow4(p[2]) * b == 16 * b
                && pow4(p[3]) * e == 64 * e);
            assert(pow4((n_spins - 1 - m) as nat) == 4);
        } else {
            assert(p[0] == 0 && p[1] == 1 && p[2] == 2 && p[3] == 3);
            assert(pow4(p[0]) * first == first && pow4(p[1]) * a == 4 * a && pow4(p[2]) * b == 16 * b
                && pow4(p[3]) * e == 64 * e);
            assert(pow4((n_spins - 1 - m) as nat) == 1);
        }
        assert(zeeman_weighted(n_spins, m, k, first) == pow4(p[0]) * first + pow4(p[1]) * a + pow4(p[2]) * b
            + pow4(p[3]) * e);
    }
}

proof fn lemma_digit_value_unique(
    n_spins: nat,
    m: nat,
    x1: int,
    a1: int,
    b1: int,
    e1: int,
    x2: int,
    a2: int,
    b2: int,
    e2: int,
)
    requires
        n_spins == 3 || n_spins == 4,
        m < n_spins,
        0 <= x1 <= 3, 0 <= a1 <= 3, 0 <= b1 <= 3, 0 <= e1 <= 3,
        0 <= x2 <= 3, 0 <= a2 <= 3, 0 <= b2 <= 3, 0 <= e2 <= 3,
        digit_value(n_spins, m, x1, a1, b1, e1) == digit_value(n_spins, m, x2, a2, b2, e2),
    ensures
        x1 == x2 && a1 == a2 && b1 == b2,
        n_spins == 4 ==> e1 == e2,
{
    if n_spins == 3 {
        if m == 0 {
            lemma_base4_three(x1, b1, a1, x2, b2, a2);
        } else if m == 1 {
            lemma_base4_three(b1, x1, a1, b2, x2, a2);
        } else {
            lemma_base4_three(b1, a1, x1, b2, a2, x2);
        }
    } else {
        if m == 0 {
            lemma_base4_four(x1, b1, a1, e1, x2, b2, a2, e2);
        } else if m == 1 {
            lemma_base4_four(b1, x1, a1, e1, b2, x2, a2, e2);
        } else if m == 2 {
            lemma_base4_four(e1, b1, x1, a1, e2, b2, x2, a2);
        } else {
            lemma_base4_four(e1, b1, a1, x1, e2, b2, a2, x2);
        }
    }
}

} // verus!
