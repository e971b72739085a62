//! Operator splittings of the interaction Hamiltonian: the order in which
//! the single-spin and interaction propagators of one time step are
//! applied.  Orders 0 (interaction ignored), 1 (Lie-Trotter), 2 (Strang),
//! 3 and 4 (Blanes) and 6 (Omelyan) are implemented.
use vstd::prelude::*;
use crate::error::{QoalaError, Result};
use crate::text::{digits, digits_string};

verus! {

/// The one-based index sequences of a splitting order: the single-spin
/// stages that open a step, the interaction stages that open it, the
/// single-spin and interaction stages repeated for every further Trotter
/// step, and the closing interaction stage.
pub open spec fn split_table(order: nat) -> (Seq<usize>, Seq<usize>, Seq<usize>, Seq<usize>, usize) {
    if order == 0 {
        (seq![1], seq![1], seq![1], seq![1], 1)
    } else if order == 1 {
        (seq![1], seq![1], seq![1], seq![2], 2)
    } else if order == 2 {
        (seq![1], seq![1], seq![1], seq![2], 1)
    } else if order == 3 {
        (seq![1, 2, 1], seq![1, 2, 3], seq![1, 2, 1], seq![5, 2, 3], 4)
    } else if order == 4 {
        (seq![1, 2, 3, 3, 2, 1], seq![1, 2, 3, 4, 3, 2], seq![1, 2, 3, 3, 2, 1], seq![5, 2, 3, 4, 3, 2], 1)
    } else {
        (
            seq![1, 2, 3, 4, 5, 5, 4, 3, 2, 1],
            seq![1, 2, 3, 4, 5, 6, 5, 4, 3, 2],
            seq![1, 2, 3, 4, 5, 5, 4, 3, 2, 1],
            seq![7, 2, 3, 4, 5, 6, 5, 4, 3, 2],
            1,
        )
    }
}

/// `open` followed by `times` copies of `repeat`.
pub open spec fn repeated(open: Seq<usize>, repeat: Seq<usize>, times: nat) -> Seq<usize>
    decreases times,
{
    if times == 0 { open } else { repeated(open, repeat, (times - 1) as nat) + repeat }
}

/// Every element less one: one-based indices made zero-based.
pub open spec fn zero_based(s: Seq<usize>) -> Seq<usize> {
    s.map_values(|i: usize| (i - 1) as usize)
}

/// The zero-based single-spin stage sequence of `trotter` Trotter steps.
pub open spec fn spin_stages(order: nat, trotter: nat) -> Seq<usize> {
    let t = split_table(order);
    zero_based(repeated(t.0, t.2, (trotter - 1) as nat))
}

/// The zero-based interaction stage sequence of `trotter` Trotter steps,
/// closing stage included.
pub open spec fn interaction_stages(order: nat, trotter: nat) -> Seq<usize> {
    let t = split_table(order);
    zero_based(repeated(t.1, t.3, (trotter - 1) as nat).push(t.4))
}

/// Distinct single-spin propagators of a splitting order.
pub open spec fn spin_constant_count(order: nat) -> nat {
    if order <= 2 { 1 } else if order == 3 { 2 } else if order == 4 { 3 } else { 5 }
}

/// Interaction propagators a splitting order stores: its coupling
/// constants, with one merged half step more beyond order 1 when the
/// Trotter number is above one.
pub open spec fn interaction_propagator_count(order: nat, trotter: nat) -> nat {
    if order == 0 {
        1
    } else if order == 1 {
        2
    } else {
        (if order == 2 { 1nat } else if order == 3 { 4nat } else if order == 4 { 4nat } else { 6nat })
            + if trotter > 1 { 1nat } else { 0nat }
    }
}

/// The one-based sequences of an order, as vectors.
fn table(order: usize) -> (r: (Vec<usize>, Vec<usize>, Vec<usize>, Vec<usize>, usize))
    requires
        order <= 4 || order == 6,
    ensures
        (r.0@, r.1@, r.2@, r.3@, r.4) == split_table(order as nat),
{
    let r = if order == 0 {
        (vec![1], vec![1], vec![1], vec![1], 1)
    } else if order == 1 {
        (vec![1], vec![1], vec![1], vec![2], 2)
    } else if order == 2 {
        (vec![1], vec![1], vec![1], vec![2], 1)
    } else if order == 3 {
        (vec![1, 2, 1], vec![1, 2, 3], vec![1, 2, 1], vec![5, 2, 3], 4)
    } else if order == 4 {
        (vec![1, 2, 3, 3, 2, 1], vec![1, 2, 3, 4, 3, 2], vec![1, 2, 3, 3, 2, 1], vec![5, 2, 3, 4, 3, 2], 1)
    } else {
        (
            vec![1, 2, 3, 4, 5, 5, 4, 3, 2, 1],
            vec![1, 2, 3, 4, 5, 6, 5, 4, 3, 2],
            vec![1, 2, 3, 4, 5, 5, 4, 3, 2, 1],
            vec![7, 2, 3, 4, 5, 6, 5, 4, 3, 2],
            1,
        )
    };
    assert((r.0@, r.1@, r.2@, r.3@, r.4) =~~= split_table(order as nat));
    r
}

/// `open` followed by `times` copies of `repeat`, made zero-based.
fn repeat_zero_based(open: &Vec<usize>, repeat: &Vec<usize>, times: usize, tail: Option<usize>) -> (r: Vec<usize>)
    requires
        forall|k: int| 0 <= k < open@.len() ==> #[trigger] open@[k] >= 1,
        forall|k: int| 0 <= k < repeat@.len() ==> #[trigger] repeat@[k] >= 1,
        tail matches Some(t) ==> t >= 1,
    ensures
        r@ == zero_based(match tail {
            Some(t) => repeated(open@, repeat@, times as nat).push(t),
            None => repeated(open@, repeat@, times as nat),
        }),
{
    let mut out: Vec<usize> = Vec::new();
    let mut k: usize = 0;
    while k < open.len()
        invariant
            k <= open@.len(),
            forall|j: int| 0 <= j < open@.len() ==> #[trigger] open@[j] >= 1,
            out@ == zero_based(open@.take(k as int)),
        decreases open@.len() - k,
    {
        out.push(open[k] - 1);
        k = k + 1;
        assert(out@ =~= zero_based(open@.take(k as int)));
    }
    assert(open@.take(k as int) =~= open@);
    let mut t: usize = 0;
    while t < times
        invariant
            t <= times,
            forall|j: int| 0 <= j < repeat@.len() ==> #[trigger] repeat@[j] >= 1,
            out@ == zero_based(repeated(open@, repeat@, t as nat)),
        decreases times - t,
    {
        let ghost before = out@;
        let mut j: usize = 0;
        while j < repeat.len()
            invariant
                j <= repeat@.len(),
                forall|i: int| 0 <= i < repeat@.len() ==> #[trigger] repeat@[i] >= 1,
                out@ == before + zero_based(repeat@.take(j as int)),
            decreases repeat@.len() - j,
        {
            out.push(repeat[j] - 1);
            j = j + 1;
            assert(out@ =~= before + zero_based(repeat@.take(j as int)));
        }
        assert(repeat@.take(j as int) =~= repeat@);
        t = t + 1;
        assert(out@ =~= zero_based(repeated(open@, repeat@, t as nat)));
    }
    match tail {
        Some(last) => {
            let ghost before = out@;
            out.push(last - 1);
            assert(out@ =~= zero_based(repeated(open@, repeat@, times as nat).push(last)));
        },
        None => {},
    }
    out
}

/// The message for an order the splittings do not implement.
pub open spec fn uncoded_order(order: nat) -> Seq<char> {
    "splitting order "@ + digits(order) + " is not coded"@
}

/// The zero-based single-spin and interaction stage sequences of a
/// splitting order over `trotter` Trotter steps: the opening stages, the
/// repeated stages once per further step, and, for the interaction, the
/// closing stage.
pub fn split_indices(order: usize, trotter: usize) -> (r: Result<(Vec<usize>, Vec<usize>)>)
    ensures
        trotter == 0 ==> (r matches Err(QoalaError::BadValue(m)) && m@ == "Trotter number must be at least 1"@),
        trotter >= 1 && !(order <= 4 || order == 6) ==> (r matches Err(QoalaError::BadValue(m))
            && m@ == uncoded_order(order as nat)),
        trotter >= 1 && (order <= 4 || order == 6) ==> (r matches Ok((spin, inter))
            && spin@ == spin_stages(order as nat, trotter as nat)
            && inter@ == interaction_stages(order as nat, trotter as nat)),
{
    if trotter == 0 {
        return Err(QoalaError::BadValue(String::from_str("Trotter number must be at least 1")));
    }
    if !(order <= 4 || order == 6) {
        let mut m = String::from_str("splitting order ");
        let d = digits_string(order as u64);
        m.append(d.as_str());
        m.append(" is not coded");
        return Err(QoalaError::BadValue(m));
    }
    let (open_spn, open_int, repeat_spn, repeat_int, tail) = table(order);
    proof {
        lemma_table_one_based(order as nat);
    }
    let spin = repeat_zero_based(&open_spn, &repeat_spn, trotter - 1, None);
    let inter = repeat_zero_based(&open_int, &repeat_int, trotter - 1, Some(tail));
    Ok((spin, inter))
}

/// The tables hold one-based indices: each at least one.
proof fn lemma_table_one_based(order: nat)
    requires
        order <= 4 || order == 6,
    ensures
        forall|k: int| 0 <= k < split_table(order).0.len() ==> #[trigger] split_table(order).0[k] >= 1,
        forall|k: int| 0 <= k < split_table(order).1.len() ==> #[trigger] split_table(order).1[k] >= 1,
        forall|k: int| 0 <= k < split_table(order).2.len() ==> #[trigger] split_table(order).2[k] >= 1,
        forall|k: int| 0 <= k < split_table(order).3.len() ==> #[trigger] split_table(order).3[k] >= 1,
        split_table(order).4 >= 1,
{
}

/// Every element of `repeated(open, repeat, n)` is one of `open`'s or
/// `repeat`'s.
proof fn lemma_repeated_bound(open: Seq<usize>, repeat: Seq<usize>, n: nat, bound: nat)
    requires
        forall|k: int| 0 <= k < open.len() ==> 1 <= #[trigger] open[k] <= bound,
        forall|k: int| 0 <= k < repeat.len() ==> 1 <= #[trigger] repeat[k] <= bound,
    ensures
        forall|k: int| 0 <= k < repeated(open, repeat, n).len() ==> 1 <= #[trigger] repeated(open, repeat, n)[k]
            <= bound,
        repeated(open, repeat, n).len() == open.len() + n * repeat.len(),
    decreases n,
{
    if n > 0 {
        lemma_repeated_bound(open, repeat, (n - 1) as nat, bound);
        let prev = repeated(open, repeat, (n - 1) as nat);
        assert forall|k: int| 0 <= k < repeated(open, repeat, n).len() implies 1 <= #[trigger] repeated(
            open,
            repeat,
            n,
        )[k] <= bound by {
            if k < prev.len() {
                assert(repeated(open, repeat, n)[k] == prev[k]);
            } else {
                assert(repeated(open, repeat, n)[k] == repeat[k - prev.len()]);
            }
        }
        assert(open.len() + (n - 1) * repeat.len() + repeat.len() == open.len() + n * repeat.len()) by (nonlinear_arith);
    } else {
        assert(n * repeat.len() == 0) by (nonlinear_arith)
            requires n == 0;
    }
}

/// Every stage names a propagator that exists: single-spin stages index
/// the order's single-spin constants, and interaction stages index the
/// interaction propagators stored for that order and Trotter number.  A
/// time step has as many single-spin stages as the opening sequence plus
/// one repeat per further Trotter step.
pub proof fn law_stages_index_existing_propagators(order: nat, trotter: nat)
    requires
        order <= 4 || order == 6,
        trotter >= 1,
    ensures
        forall|k: int| 0 <= k < spin_stages(order, trotter).len() ==> #[trigger] spin_stages(order, trotter)[k]
            < spin_constant_count(order),
        forall|k: int| 0 <= k < interaction_stages(order, trotter).len() ==> #[trigger] interaction_stages(
            order,
            trotter,
        )[k] < interaction_propagator_count(order, trotter),
        spin_stages(order, trotter).len() == split_table(order).0.len() + (trotter - 1) * split_table(order).2.len(),
        interaction_stages(order, trotter).len() == split_table(order).1.len() + (trotter - 1) * split_table(order).3.len() + 1,
{
    let t = split_table(order);
    let n = (trotter - 1) as nat;
    let sb = spin_constant_count(order);
    let ib = interaction_propagator_count(order, trotter);
    if trotter > 1 {
        lemma_repeated_bound(t.0, t.2, n, sb);
        lemma_repeated_bound(t.1, t.3, n, ib);
    } else {
        assert(repeated(t.0, t.2, 0) == t.0);
        assert(repeated(t.1, t.3, 0) == t.1);
        lemma_repeated_bound(t.0, seq![], 0, sb);
        lemma_repeated_bound(t.1, seq![], 0, ib);
    }
    let inter = repeated(t.1, t.3, n).push(t.4);
    assert forall|k: int| 0 <= k < inter.len() implies 1 <= #[trigger] inter[k] <= ib by {
        if k < inter.len() - 1 {
            assert(inter[k] == repeated(t.1, t.3, n)[k]);
        }
    }
}


/// Reads `s` the same forwards and backwards.
pub open spec fn is_palindrome(s: Seq<usize>) -> bool {
    forall|k: int| 0 <= k < s.len() ==> #[trigger] s[k] == s[s.len() - 1 - k]
}

/// Element `k` of `open` followed by `n` copies of `repeat`, both of length
/// `l`: from `open` in the first block, else from `repeat` at `k % l`.
proof fn lemma_repeated_index(open: Seq<usize>, repeat: Seq<usize>, n: nat, l: nat, k: int)
    requires
        l >= 1,
        open.len() == l,
        repeat.len() == l,
        0 <= k < (n + 1) * l,
    ensures
        repeated(open, repeat, n).len() == (n + 1) * l,
        repeated(open, repeat, n)[k] == if k < l { open[k] } else { repeat[k % (l as int)] },
    decreases n,
{
    if n == 0 {
        assert((n + 1) * l == l) by (nonlinear_arith)
            requires n == 0;
    } else {
        let prev = repeated(open, repeat, (n - 1) as nat);
        assert((n + 1) * l == n * l + l) by (nonlinear_arith);
        assert(n * l >= l) by (nonlinear_arith)
            requires n >= 1, l >= 1;
        if k < n * l {
            lemma_repeated_index(open, repeat, (n - 1) as nat, l, k);
        } else {
            lemma_repeated_index(open, repeat, (n - 1) as nat, l, 0);
            vstd::arithmetic::div_mod::lemma_fundamental_div_mod_converse(k, l as int, n as int, k - n * l);
        }
    }
}

/// `k = q l + r` with `j = (n + 1) l - k`: `j % l` is `0` when `r` is, else
/// `l - r`.
proof fn lemma_mirror_mod(n: nat, l: nat, k: int)
    requires
        l >= 1,
        0 < k < (n + 1) * l,
    ensures
        ((n + 1) * l - k) % (l as int) == if k % (l as int) == 0 { 0 } else { l - k % (l as int) },
{
    let li = l as int;
    vstd::arithmetic::div_mod::lemma_fundamental_div_mod(k, li);
    let q = k / li;
    let r = k % li;
    assert(0 <= r < li);
    assert(q <= n) by (nonlinear_arith)
        requires k == li * q + r, 0 <= r, k < (n + 1) * li, li >= 1;
    let j = (n + 1) * l - k;
    if r == 0 {
        assert(j == (n + 1 - q) * li + 0) by (nonlinear_arith)
            requires j == (n + 1) * l - k, k == li * q + r, r == 0, li == l;
        vstd::arithmetic::div_mod::lemma_fundamental_div_mod_converse(j, li, n + 1 - q, 0);
    } else {
        assert(j == (n - q) * li + (li - r)) by (nonlinear_arith)
            requires j == (n + 1) * l - k, k == li * q + r, li == l;
        vstd::arithmetic::div_mod::lemma_fundamental_div_mod_converse(j, li, n - q, li - r);
    }
}

/// `k = q l + r` with `j = (n + 1) l - 1 - k`: `j % l` is `l - 1 - r`.
proof fn lemma_mirror_mod_closed(n: nat, l: nat, k: int)
    requires
        l >= 1,
        0 <= k < (n + 1) * l,
    ensures
        ((n + 1) * l - 1 - k) % (l as int) == l - 1 - k % (l as int),
{
    let li = l as int;
    vstd::arithmetic::div_mod::lemma_fundamental_div_mod(k, li);
    let q = k / li;
    let r = k % li;
    assert(q <= n) by (nonlinear_arith)
        requires k == li * q + r, 0 <= r, k < (n + 1) * li, li >= 1;
    let j = (n + 1) * l - 1 - k;
    assert(j == (n - q) * li + (li - 1 - r)) by (nonlinear_arith)
        requires j == (n + 1) * l - 1 - k, k == li * q + r, li == l;
    vstd::arithmetic::div_mod::lemma_fundamental_div_mod_converse(j, li, n - q, li - 1 - r);
}

/// A splitting whose repeated block is its opening block with a merged
/// first stage, closed by the opening stage, reads the same both ways.
proof fn lemma_closed_palindrome(open: Seq<usize>, repeat: Seq<usize>, n: nat, tail: usize)
    requires
        open.len() >= 1,
        repeat.len() == open.len(),
        tail == open[0],
        forall|j: int| 1 <= j < open.len() ==> #[trigger] open[j] == repeat[j],
        forall|r: int| 1 <= r < repeat.len() ==> #[trigger] repeat[r] == repeat[repeat.len() - r],
    ensures
        is_palindrome(repeated(open, repeat, n).push(tail)),
{
    let l = open.len();
    let s = repeated(open, repeat, n).push(tail);
    assert((n + 1) * l >= l) by (nonlinear_arith)
        requires l >= 1;
    lemma_repeated_index(open, repeat, n, l, 0);
    let body = (n + 1) * l;
    assert(s.len() == body + 1);
    assert forall|k: int| 0 <= k < s.len() implies #[trigger] s[k] == s[s.len() - 1 - k] by {
        if k == 0 || k == body {
            lemma_repeated_index(open, repeat, n, l, 0);
        } else {
            let j = body - k;
            lemma_repeated_index(open, repeat, n, l, k);
            lemma_repeated_index(open, repeat, n, l, j);
            lemma_mirror_mod(n, l, k);
            lemma_mirror_mod(n, l, j);
            if k < l {
                assert(k % (l as int) == k) by {
                    vstd::arithmetic::div_mod::lemma_fundamental_div_mod_converse(k, l as int, 0, k);
                }
            }
            if j < l {
                assert(j % (l as int) == j) by {
                    vstd::arithmetic::div_mod::lemma_fundamental_div_mod_converse(j, l as int, 0, j);
                }
            }
            assert(s[k] == repeat[k % (l as int)]);
            assert(s[j] == repeat[j % (l as int)]);
        }
    }
}

/// Repeating a palindromic block gives a palindrome.
proof fn lemma_open_palindrome(open: Seq<usize>, n: nat)
    requires
        open.len() >= 1,
        is_palindrome(open),
    ensures
        is_palindrome(repeated(open, open, n)),
{
    let l = open.len();
    let s = repeated(open, open, n);
    assert((n + 1) * l >= l) by (nonlinear_arith)
        requires l >= 1;
    lemma_repeated_index(open, open, n, l, 0);
    assert forall|k: int| 0 <= k < s.len() implies #[trigger] s[k] == s[s.len() - 1 - k] by {
        let j = s.len() - 1 - k;
        lemma_repeated_index(open, open, n, l, k);
        lemma_repeated_index(open, open, n, l, j);
        lemma_mirror_mod_closed(n, l, k);
        if k < l {
            vstd::arithmetic::div_mod::lemma_fundamental_div_mod_converse(k, l as int, 0, k);
        }
        if j < l {
            vstd::arithmetic::div_mod::lemma_fundamental_div_mod_converse(j, l as int, 0, j);
        }
        assert(s[k] == open[k % (l as int)]);
        assert(s[j] == open[j % (l as int)]);
    }
}

proof fn lemma_zero_based_palindrome(s: Seq<usize>)
    requires
        is_palindrome(s),
    ensures
        is_palindrome(zero_based(s)),
{
    let z = zero_based(s);
    assert forall|k: int| 0 <= k < z.len() implies #[trigger] z[k] == z[z.len() - 1 - k] by {
        assert(s[k] == s[s.len() - 1 - k]);
    }
}

/// The symmetric splittings (orders 0, 2, 4 and 6) are symmetric in time:
/// for every Trotter number, the single-spin and the interaction stage
/// sequences read the same backwards, so a step closes with the
/// interaction stage it opened with, the first coupling constant.
pub proof fn law_symmetric_splittings_read_the_same_backwards(order: nat, trotter: nat)
    requires
        order == 0 || order == 2 || order == 4 || order == 6,
        trotter >= 1,
    ensures
        is_palindrome(spin_stages(order, trotter)),
        is_palindrome(interaction_stages(order, trotter)),
        interaction_stages(order, trotter)[0] == 0,
        interaction_stages(order, trotter).last() == 0,
{
    let t = split_table(order);
    let n = (trotter - 1) as nat;
    assert(is_palindrome(t.0));
    assert(t.0 == t.2);
    lemma_open_palindrome(t.0, n);
    lemma_zero_based_palindrome(repeated(t.0, t.2, n));
    assert(forall|j: int| 1 <= j < t.1.len() ==> #[trigger] t.1[j] == t.3[j]);
    assert(forall|r: int| 1 <= r < t.3.len() ==> #[trigger] t.3[r] == t.3[t.3.len() - r]);
    lemma_closed_palindrome(t.1, t.3, n, t.4);
    lemma_zero_based_palindrome(repeated(t.1, t.3, n).push(t.4));
    assert((n + 1) * t.1.len() >= t.1.len()) by (nonlinear_arith)
        requires t.1.len() >= 1;
    lemma_repeated_index(t.1, t.3, n, t.1.len(), 0);
}

} // verus!
