//! The cost functions the optimisers drive, and the shape checks on the
//! single-spin Cartesian operator array they are handed.
use vstd::prelude::*;
use crate::error::{QoalaError, Result};
use crate::text::{digits, digits_string};

verus! {

/// The GRAPE cost over `x`/`y` control channels: the objective function's
/// fidelity and the penalties, kept apart so the optimiser can report and
/// combine them itself.
#[derive(Debug, Clone, Copy)]
pub struct GrapeXyCost;

impl Default for GrapeXyCost {
    /// The cost carries no state.
    fn default() -> (c: GrapeXyCost)
        ensures
            c == GrapeXyCost,
    {
        GrapeXyCost
    }
}

/// Number of `(x, y)` control pairs implied by the Cartesian operator
/// array: its first row holds three operators (x, y, z) per pair.
pub fn pair_count<C>(cartops: &[Vec<Option<C>>]) -> (r: Result<usize>)
    ensures
        cartops@.len() == 0 ==> (r matches Err(QoalaError::MissingField(m)) && m@ == "cartops"@),
        cartops@.len() > 0 && cartops@[0]@.len() % 3 != 0 ==> (r matches Err(QoalaError::Dimension(m))
            && m@ == "cartops needs three columns (x, y, z) per control pair"@),
        cartops@.len() > 0 && cartops@[0]@.len() % 3 == 0 ==> r == Ok::<usize, QoalaError>(
            (cartops@[0]@.len() / 3) as usize,
        ),
{
    if cartops.len() == 0 {
        return Err(QoalaError::MissingField(String::from_str("cartops")));
    }
    let n = cartops[0].len();
    if n % 3 != 0 {
        return Err(QoalaError::Dimension(String::from_str("cartops needs three columns (x, y, z) per control pair")));
    }
    Ok(n / 3)
}

/// Appends the decimal digits of `n`.
fn append_number(s: &mut String, n: usize)
    ensures
        final(s)@ == old(s)@ + digits(n as nat),
{
    let d = digits_string(n as u64);
    s.append(d.as_str());
}

/// The first row of `cartops` whose length is not `3 * npairs`, if any.
pub open spec fn first_bad_row<C>(cartops: Seq<Vec<Option<C>>>, npairs: nat) -> Option<nat>
    decreases cartops.len(),
{
    if cartops.len() == 0 {
        None
    } else if cartops.last()@.len() != 3 * npairs {
        match first_bad_row(cartops.drop_last(), npairs) {
            Some(m) => Some(m),
            None => Some((cartops.len() - 1) as nat),
        }
    } else {
        first_bad_row(cartops.drop_last(), npairs)
    }
}

/// Whether the operator array, the spin count, the pair count and the
/// amplitudes agree: one row per spin, three operators per pair in every
/// row, one amplitude per pair.
pub fn check_shapes<C>(cartops: &[Vec<Option<C>>], nspins: usize, npairs: usize, namps: usize) -> (r: Result<()>)
    requires
        cartops@.len() == nspins && nspins > 0 ==> 3 * npairs <= usize::MAX,
    ensures
        cartops@.len() != nspins ==> (r matches Err(QoalaError::Dimension(m)) && m@ == "cartops has "@ + digits(
            cartops@.len(),
        ) + " rows but there are "@ + digits(nspins as nat) + " spins"@),
        cartops@.len() == nspins && first_bad_row(cartops@, npairs as nat) is Some ==> (r matches Err(
            QoalaError::Dimension(m),
        ) && m@ == "cartops row "@ + digits(first_bad_row(cartops@, npairs as nat).unwrap()) + " has "@ + digits(
            cartops@[first_bad_row(cartops@, npairs as nat).unwrap() as int]@.len(),
        ) + " entries, expected "@ + digits(3 * npairs as nat)),
        cartops@.len() == nspins && first_bad_row(cartops@, npairs as nat) is None && namps != npairs ==> (r matches Err(
            QoalaError::Dimension(m),
        ) && m@ == digits(namps as nat) + " amplitudes for "@ + digits(npairs as nat) + " control pairs"@),
        cartops@.len() == nspins && first_bad_row(cartops@, npairs as nat) is None && namps == npairs ==> r is Ok,
{
    if cartops.len() != nspins {
        let mut m = String::from_str("cartops has ");
        append_number(&mut m, cartops.len());
        m.append(" rows but there are ");
        append_number(&mut m, nspins);
        m.append(" spins");
        return Err(QoalaError::Dimension(m));
    }
    let want: usize = if cartops.len() > 0 { 3 * npairs } else { 0 };
    let mut k: usize = 0;
    while k < cartops.len()
        invariant
            cartops@.len() > 0 ==> want == 3 * npairs,
            cartops@.len() == nspins,
            k <= cartops@.len(),
            first_bad_row(cartops@.take(k as int), npairs as nat) is None,
        decreases cartops@.len() - k,
    {
        proof {
            let t = cartops@.take(k as int + 1);
            assert(t.drop_last() =~= cartops@.take(k as int));
            assert(t.last() == cartops@[k as int]);
        }
        if cartops[k].len() != want {
            proof {
                lemma_first_bad_row_prefix(cartops@, npairs as nat, k as nat);
            }
            let mut m = String::from_str("cartops row ");
            append_number(&mut m, k);
            m.append(" has ");
            append_number(&mut m, cartops[k].len());
            m.append(" entries, expected ");
            append_number(&mut m, want);
            return Err(QoalaError::Dimension(m));
        }
        k = k + 1;
    }
    assert(cartops@.take(k as int) =~= cartops@);
    if namps != npairs {
        let mut m = String::new();
        append_number(&mut m, namps);
        m.append(" amplitudes for ");
        append_number(&mut m, npairs);
        m.append(" control pairs");
        return Err(QoalaError::Dimension(m));
    }
    Ok(())
}

/// A bad row after a good prefix is the first bad row of the whole array.
proof fn lemma_first_bad_row_prefix<C>(cartops: Seq<Vec<Option<C>>>, npairs: nat, k: nat)
    requires
        k < cartops.len(),
        first_bad_row(cartops.take(k as int), npairs) is None,
        cartops[k as int]@.len() != 3 * npairs,
    ensures
        first_bad_row(cartops, npairs) == Some(k),
    decreases cartops.len(),
{
    if cartops.len() == k + 1 {
        assert(cartops.drop_last() =~= cartops.take(k as int));
    } else {
        let d = cartops.drop_last();
        assert(d.take(k as int) =~= cartops.take(k as int));
        assert(d[k as int] == cartops[k as int]);
        lemma_first_bad_row_prefix(d, npairs, k);
    }
}

} // verus!
