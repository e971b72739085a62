//! The problem description the user edits: product-operator labels, spin
//! pair indices and the penalty menu.
use vstd::prelude::*;
use crate::text::{digits, decimal, digits_string, decimal_string, push_char};
use crate::types::Penalty;

verus! {

/// Largest register the browser build will attempt.
pub const MAX_WEB_SPINS: usize = 3;

/// Largest register the native build offers.
pub const MAX_SPINS: usize = 4;

/// Which Cartesian component a product-operator term uses.
#[derive(Debug, Clone, Copy, PartialEq, Eq, Structural)]
pub enum Component {
    /// x magnetisation.
    X,
    /// y magnetisation.
    Y,
    /// z magnetisation.
    Z,
}

/// The menu label of a component.
pub open spec fn component_name(c: Component) -> Seq<char> {
    match c {
        Component::X => "x"@,
        Component::Y => "y"@,
        Component::Z => "z"@,
    }
}

impl Component {
    /// The three components, in menu order.
    pub const ALL: [Component; 3] = [Component::X, Component::Y, Component::Z];

    /// Label for a menu.
    pub fn name(self) -> (s: &'static str)
        ensures
            s@ == component_name(self),
    {
        match self {
            Component::X => "x",
            Component::Y => "y",
            Component::Z => "z",
        }
    }
}

/// A product operator: a Cartesian component on each of a set of spins,
/// unit on the rest.
#[derive(Debug, Clone, PartialEq)]
pub struct ProductOperator {
    /// `(spin, component)` for each spin the operator acts on.
    pub terms: Vec<(usize, Component)>,
}

/// `x` placed into `s` after every term whose spin is no greater than its
/// own, counting from the back: one step of a stable insertion sort.
pub open spec fn insert_by_spin(s: Seq<(usize, Component)>, x: (usize, Component)) -> Seq<(usize, Component)>
    decreases s.len(),
{
    if s.len() == 0 {
        seq![x]
    } else if s.last().0 <= x.0 {
        s.push(x)
    } else {
        insert_by_spin(s.drop_last(), x).push(s.last())
    }
}

/// The terms stably sorted by spin.
pub open spec fn sort_by_spin(s: Seq<(usize, Component)>) -> Seq<(usize, Component)>
    decreases s.len(),
{
    if s.len() == 0 {
        s
    } else {
        insert_by_spin(sort_by_spin(s.drop_last()), s.last())
    }
}

/// `I`, the one-based spin number and the component: `I1z`.
pub open spec fn term_text(t: (usize, Component)) -> Seq<char> {
    seq!['I'] + digits((t.0 + 1) as nat) + component_name(t.1)
}

/// The terms' texts separated by single spaces.
pub open spec fn joined_terms(s: Seq<(usize, Component)>) -> Seq<char>
    decreases s.len(),
{
    if s.len() == 0 {
        Seq::empty()
    } else if s.len() == 1 {
        term_text(s[0])
    } else {
        joined_terms(s.drop_last()) + seq![' '] + term_text(s.last())
    }
}

/// The numeric prefix of an `n`-term product, `2^(n-1)`, as an `i32`
/// computes it: for 32 terms the shift reaches the sign bit.
pub open spec fn product_prefix(n: nat) -> int {
    if n <= 31 { crate::prop_index::pow2((n - 1) as nat) as int } else { -2147483648 }
}

/// The label of a product operator: `unit`, `I1z`, or `2 I1z I2z`.
pub open spec fn operator_label(terms: Seq<(usize, Component)>) -> Seq<char> {
    let s = sort_by_spin(terms);
    if s.len() == 0 {
        "unit"@
    } else if s.len() == 1 {
        term_text(s[0])
    } else {
        decimal(product_prefix(s.len())) + seq![' '] + joined_terms(s)
    }
}

/// Inserting where the keys after position `j` all exceed `x`'s and the
/// key before it does not is what `insert_by_spin` does.
proof fn lemma_insert_at(s: Seq<(usize, Component)>, x: (usize, Component), j: int)
    requires
        0 <= j <= s.len(),
        forall|k: int| j <= k < s.len() ==> #[trigger] s[k].0 > x.0,
        j > 0 ==> s[j - 1].0 <= x.0,
    ensures
        insert_by_spin(s, x) == s.insert(j, x),
    decreases s.len(),
{
    if s.len() == 0 {
        assert(s.insert(j, x) =~= seq![x]);
    } else if j == s.len() {
        assert(s.insert(j, x) =~= s.push(x));
    } else {
        let d = s.drop_last();
        assert(s[s.len() - 1].0 > x.0);
        assert forall|k: int| j <= k < d.len() implies #[trigger] d[k].0 > x.0 by {
            assert(d[k] == s[k]);
        }
        if j > 0 {
            assert(d[j - 1] == s[j - 1]);
        }
        lemma_insert_at(d, x, j);
        assert(s.insert(j, x) =~= d.insert(j, x).push(s.last()));
    }
}

impl ProductOperator {
    /// Magnetisation of one spin along one axis.
    pub fn single(spin: usize, component: Component) -> (op: ProductOperator)
        ensures
            op.terms@ == seq![(spin, component)],
    {
        let mut terms = Vec::new();
        terms.push((spin, component));
        ProductOperator { terms }
    }

    /// The terms stably sorted by spin.
    fn sorted_terms(&self) -> (out: Vec<(usize, Component)>)
        ensures
            out@ == sort_by_spin(self.terms@),
    {
        let mut out: Vec<(usize, Component)> = Vec::new();
        let mut i: usize = 0;
        while i < self.terms.len()
            invariant
                i <= self.terms.len(),
                out@ == sort_by_spin(self.terms@.subrange(0, i as int)),
            decreases self.terms.len() - i,
        {
            let x = self.terms[i];
            let mut j = out.len();
            while j > 0 && out[j - 1].0 > x.0
                invariant
                    j <= out.len(),
                    forall|k: int| j <= k < out.len() ==> #[trigger] out[k].0 > x.0,
                decreases j,
            {
                j = j - 1;
            }
            proof {
                lemma_insert_at(out@, x, j as int);
                let pre = self.terms@.subrange(0, i as int + 1);
                assert(pre.drop_last() =~= self.terms@.subrange(0, i as int));
            }
            out.insert(j, x);
            i = i + 1;
        }
        assert(self.terms@.subrange(0, i as int) =~= self.terms@);
        out
    }

    /// A short label, e.g. `I1z` or `2 I1z I2z`: the terms sorted by spin,
    /// with the product's factor `2^(n-1)` in front of two or more.
    pub fn label(&self) -> (s: String)
        requires
            self.terms.len() <= 32,
            forall|k: int| 0 <= k < self.terms.len() ==> #[trigger] self.terms[k].0 < usize::MAX,
        ensures
            s@ == operator_label(self.terms@),
    {
        let sorted = self.sorted_terms();
        proof {
            lemma_sort_keeps_terms(self.terms@);
            assert forall|m: int| 0 <= m < sorted.len() implies #[trigger] sorted[m].0 < usize::MAX by {
                assert(self.terms@.contains(sorted@[m]));
                let idx = choose|idx: int| 0 <= idx < self.terms@.len() && self.terms@[idx] == sorted@[m];
                assert(self.terms[idx].0 < usize::MAX);
            }
        }
        let n = sorted.len();
        if n == 0 {
            return String::from_str("unit");
        }
        let mut body = String::new();
        let mut k: usize = 0;
        while k < n
            invariant
                n == sorted.len(),
                k <= n,
                forall|m: int| 0 <= m < n ==> #[trigger] sorted[m].0 < usize::MAX,
                body@ == joined_terms(sorted@.subrange(0, k as int)),
            decreases n - k,
        {
            if k > 0 {
                push_char(&mut body, ' ');
            }
            push_char(&mut body, 'I');
            let (spin, c) = sorted[k];
            let number = digits_string((spin + 1) as u64);
            body.append(number.as_str());
            body.append(c.name());
            proof {
                let pre = sorted@.subrange(0, k as int + 1);
                assert(pre.drop_last() =~= sorted@.subrange(0, k as int));
                assert(pre.last() == sorted@[k as int]);
            }
            k = k + 1;
        }
        assert(sorted@.subrange(0, n as int) =~= sorted@);
        if n == 1 {
            body
        } else {
            let prefix: i64 = if n <= 31 { pow2_exec((n - 1) as u32) } else { -2147483648 };
            let mut out = decimal_string(prefix);
            push_char(&mut out, ' ');
            out.append(body.as_str());
            out
        }
    }
}

/// `2^e` for `e <= 30`.
fn pow2_exec(e: u32) -> (r: i64)
    requires
        e <= 30,
    ensures
        r == crate::prop_index::pow2(e as nat),
{
    let mut r: i64 = 1;
    let mut k: u32 = 0;
    while k < e
        invariant
            k <= e <= 30,
            r == crate::prop_index::pow2(k as nat),
            r <= 0x4000_0000,
        decreases e - k,
    {
        proof {
            lemma_pow2_bound(k as nat);
        }
        r = 2 * r;
        k = k + 1;
    }
    r
}

/// `2^e <= 2^30` for `e <= 30`, strictly below it before.
proof fn lemma_pow2_bound(e: nat)
    requires
        e < 30,
    ensures
        crate::prop_index::pow2(e) < 0x4000_0000,
        crate::prop_index::pow2(e + 1) <= 0x4000_0000,
    decreases 30 - e,
{
    if e + 1 < 30 {
        lemma_pow2_bound(e + 1);
        assert(crate::prop_index::pow2(e + 2) == 2 * crate::prop_index::pow2(e + 1));
    } else {
        reveal_with_fuel(crate::prop_index::pow2, 31);
    }
}

/// Sorting keeps every term: the sorted terms are the same multiset, so in
/// particular every spin in them comes from the operator.
pub proof fn lemma_sort_keeps_terms(s: Seq<(usize, Component)>)
    ensures
        sort_by_spin(s).to_multiset() == s.to_multiset(),
        sort_by_spin(s).len() == s.len(),
        forall|k: int| 0 <= k < sort_by_spin(s).len() ==> #[trigger] s.contains(sort_by_spin(s)[k]),
    decreases s.len(),
{
    broadcast use vstd::seq_lib::group_seq_properties;
    broadcast use vstd::multiset::group_multiset_axioms;
    if s.len() > 0 {
        let d = s.drop_last();
        lemma_sort_keeps_terms(d);
        lemma_insert_keeps_terms(sort_by_spin(d), s.last());
        assert(s =~= d.push(s.last()));
        assert forall|k: int| 0 <= k < sort_by_spin(s).len() implies #[trigger] s.contains(sort_by_spin(s)[k]) by {
            let v = sort_by_spin(s)[k];
            assert(sort_by_spin(s).to_multiset().count(v) > 0);
            assert(s.to_multiset().count(v) > 0);
        }
    }
}

/// Inserting adds exactly the inserted term.
proof fn lemma_insert_keeps_terms(s: Seq<(usize, Component)>, x: (usize, Component))
    ensures
        insert_by_spin(s, x).to_multiset() == s.to_multiset().insert(x),
        insert_by_spin(s, x).len() == s.len() + 1,
    decreases s.len(),
{
    broadcast use vstd::seq_lib::group_seq_properties;
    broadcast use vstd::multiset::group_multiset_axioms;
    if s.len() > 0 && s.last().0 > x.0 {
        let d = s.drop_last();
        lemma_insert_keeps_terms(d, x);
        assert(s =~= d.push(s.last()));
        assert(insert_by_spin(s, x).to_multiset() =~= s.to_multiset().insert(x));
    }
}

/// Terms in order of spin.
pub open spec fn sorted_by_spin(s: Seq<(usize, Component)>) -> bool {
    forall|i: int, j: int| 0 <= i < j < s.len() ==> #[trigger] s[i].0 <= #[trigger] s[j].0
}

/// Inserting into terms in order of spin keeps them in order.
proof fn lemma_insert_sorted(s: Seq<(usize, Component)>, x: (usize, Component))
    requires
        sorted_by_spin(s),
    ensures
        sorted_by_spin(insert_by_spin(s, x)),
        forall|k: int| 0 <= k < insert_by_spin(s, x).len() ==> #[trigger] insert_by_spin(s, x)[k] == x
            || s.contains(insert_by_spin(s, x)[k]),
    decreases s.len(),
{
    if s.len() == 0 {
    } else if s.last().0 <= x.0 {
        let r = s.push(x);
        assert forall|k: int| 0 <= k < r.len() implies #[trigger] r[k] == x || s.contains(r[k]) by {
            if k < s.len() {
                assert(r[k] == s[k]);
            }
        }
    } else {
        let d = s.drop_last();
        assert forall|i: int, j: int| 0 <= i < j < d.len() implies #[trigger] d[i].0 <= #[trigger] d[j].0 by {
            assert(d[i] == s[i] && d[j] == s[j]);
        }
        lemma_insert_sorted(d, x);
        let m = insert_by_spin(d, x);
        let r = m.push(s.last());
        assert forall|k: int| 0 <= k < m.len() implies #[trigger] m[k].0 <= s.last().0 by {
            if m[k] != x {
                assert(d.contains(m[k]));
                let j = choose|j: int| 0 <= j < d.len() && d[j] == m[k];
                assert(s[j] == d[j]);
            }
        }
        assert forall|i: int, j: int| 0 <= i < j < r.len() implies #[trigger] r[i].0 <= #[trigger] r[j].0 by {
            if j == r.len() - 1 {
                assert(r[i] == m[i]);
            } else {
                assert(r[i] == m[i] && r[j] == m[j]);
            }
        }
        assert forall|k: int| 0 <= k < r.len() implies #[trigger] r[k] == x || s.contains(r[k]) by {
            if k < m.len() {
                assert(r[k] == m[k]);
                if m[k] != x {
                    assert(d.contains(m[k]));
                    let j = choose|j: int| 0 <= j < d.len() && d[j] == m[k];
                    assert(s[j] == d[j]);
                }
            } else {
                assert(s[s.len() - 1] == s.last());
            }
        }
    }
}

/// A label lists the operator's terms in order of spin: sorting puts the
/// terms in order and keeps each of them, as often as it occurs.
pub proof fn law_label_terms_are_sorted_by_spin(terms: Seq<(usize, Component)>)
    ensures
        sorted_by_spin(sort_by_spin(terms)),
        sort_by_spin(terms).to_multiset() == terms.to_multiset(),
    decreases terms.len(),
{
    lemma_sort_keeps_terms(terms);
    if terms.len() > 0 {
        law_label_terms_are_sorted_by_spin(terms.drop_last());
        lemma_insert_sorted(sort_by_spin(terms.drop_last()), terms.last());
    }
}

/// No two terms act on the same spin.
pub open spec fn distinct_spins(s: Seq<(usize, Component)>) -> bool {
    forall|i: int, j: int| 0 <= i < s.len() && 0 <= j < s.len() && i != j ==> #[trigger] s[i].0 != #[trigger] s[j].0
}

/// Terms in strictly increasing order of spin.
pub open spec fn strictly_sorted_by_spin(s: Seq<(usize, Component)>) -> bool {
    forall|i: int, j: int| 0 <= i < j < s.len() ==> #[trigger] s[i].0 < #[trigger] s[j].0
}

/// Terms in order of spin that are a rearrangement of terms on distinct
/// spins are in strictly increasing order of spin.
proof fn lemma_sorted_distinct(s: Seq<(usize, Component)>, t: Seq<(usize, Component)>)
    requires
        sorted_by_spin(s),
        distinct_spins(t),
        s.to_multiset() == t.to_multiset(),
    ensures
        strictly_sorted_by_spin(s),
{
    broadcast use vstd::seq_lib::group_seq_properties;
    broadcast use vstd::multiset::group_multiset_axioms;

    assert forall|i: int, j: int| 0 <= i < t.len() && 0 <= j < t.len() && i != j implies t[i] != t[j] by {
        assert(t[i].0 != t[j].0);
    }
    assert(t.no_duplicates());
    t.lemma_multiset_has_no_duplicates();
    s.lemma_multiset_has_no_duplicates_conv();
    assert forall|i: int, j: int| 0 <= i < j < s.len() implies #[trigger] s[i].0 < #[trigger] s[j].0 by {
        assert(s[i] != s[j]);
        assert(s.to_multiset().count(s[i]) > 0);
        assert(s.to_multiset().count(s[j]) > 0);
        assert(t.contains(s[i]));
        assert(t.contains(s[j]));
        let p = choose|p: int| 0 <= p < t.len() && t[p] == s[i];
        let q = choose|q: int| 0 <= q < t.len() && t[q] == s[j];
        assert(p != q);
        assert(t[p].0 != t[q].0);
    }
}

/// Two rearrangements of the same terms, each in strictly increasing order
/// of spin, are the same sequence.
proof fn lemma_strictly_sorted_unique(a: Seq<(usize, Component)>, b: Seq<(usize, Component)>)
    requires
        strictly_sorted_by_spin(a),
        strictly_sorted_by_spin(b),
        a.to_multiset() == b.to_multiset(),
    ensures
        a == b,
    decreases a.len(),
{
    broadcast use vstd::seq_lib::group_seq_properties;
    broadcast use vstd::multiset::group_multiset_axioms;

    assert(a.len() == a.to_multiset().len());
    assert(b.len() == b.to_multiset().len());
    if a.len() == 0 {
        assert(a =~= b);
    } else {
        let n = a.len() - 1;
        assert(a.to_multiset().count(a[n]) > 0);
        assert(b.contains(a[n]));
        let j = choose|j: int| 0 <= j < b.len() && b[j] == a[n];
        assert(b.to_multiset().count(b[n]) > 0);
        assert(a.contains(b[n]));
        let q = choose|q: int| 0 <= q < a.len() && a[q] == b[n];
        if j < n {
            assert(b[j].0 < b[n].0);
            if q < n {
                assert(a[q].0 < a[n].0);
            }
        }
        assert(j == n);
        let da = a.drop_last();
        let db = b.drop_last();
        assert(da.push(a[n]) =~= a);
        assert(db.push(b[n]) =~= b);
        assert(da.to_multiset().insert(a[n]) == a.to_multiset());
        assert(db.to_multiset().insert(a[n]) == b.to_multiset());
        assert(da.to_multiset() =~= db.to_multiset()) by {
            assert forall|x| da.to_multiset().count(x) == db.to_multiset().count(x) by {
                assert(a.to_multiset().count(x) == b.to_multiset().count(x));
                assert(da.to_multiset().insert(a[n]).count(x) == da.to_multiset().count(x) + if x == a[n] {
                    1nat
                } else {
                    0nat
                });
                assert(db.to_multiset().insert(a[n]).count(x) == db.to_multiset().count(x) + if x == a[n] {
                    1nat
                } else {
                    0nat
                });
            }
        }
        lemma_strictly_sorted_unique(da, db);
        assert(a =~= b);
    }
}

/// The label of an operator whose terms act on distinct spins does not
/// depend on the order in which its terms are listed.
pub proof fn law_label_ignores_term_order(a: Seq<(usize, Component)>, b: Seq<(usize, Component)>)
    requires
        distinct_spins(a),
        a.to_multiset() == b.to_multiset(),
    ensures
        operator_label(a) == operator_label(b),
{
    law_label_terms_are_sorted_by_spin(a);
    law_label_terms_are_sorted_by_spin(b);
    lemma_sorted_distinct(sort_by_spin(a), a);
    lemma_sorted_distinct(sort_by_spin(b), a);
    lemma_strictly_sorted_unique(sort_by_spin(a), sort_by_spin(b));
}

/// A penalty term from the menu.
#[derive(Debug, Clone, Copy, PartialEq, Eq, Structural)]
pub enum PenaltyChoice {
    /// No penalty.
    NoPenalty,
    /// Norm square.
    Ns,
    /// Norm square of the second derivative.
    Dns,
    /// Spillout norm square.
    Sns,
    /// Spillout norm square on the polar amplitude of an (x, y) pair.
    Snsa,
    /// Spillout norm square on the summed channel magnitude.
    Snsm,
}

/// The menu label of a penalty choice.
pub open spec fn penalty_choice_name(p: PenaltyChoice) -> Seq<char> {
    match p {
        PenaltyChoice::NoPenalty => "none"@,
        PenaltyChoice::Ns => "NS - norm square"@,
        PenaltyChoice::Dns => "DNS - smoothing"@,
        PenaltyChoice::Sns => "SNS - spillout"@,
        PenaltyChoice::Snsa => "SNSA - polar spillout"@,
        PenaltyChoice::Snsm => "SNSM - summed spillout"@,
    }
}

impl PenaltyChoice {
    /// The menu, in order.
    pub const MENU: [PenaltyChoice; 6] = [
        PenaltyChoice::NoPenalty,
        PenaltyChoice::Ns,
        PenaltyChoice::Dns,
        PenaltyChoice::Sns,
        PenaltyChoice::Snsa,
        PenaltyChoice::Snsm,
    ];

    /// The library penalty this stands for.
    pub fn penalty(self) -> (p: Penalty)
        ensures
            p == match self {
                PenaltyChoice::NoPenalty => Penalty::NoPenalty,
                PenaltyChoice::Ns => Penalty::Ns,
                PenaltyChoice::Dns => Penalty::Dns,
                PenaltyChoice::Sns => Penalty::Sns,
                PenaltyChoice::Snsa => Penalty::Snsa,
                PenaltyChoice::Snsm => Penalty::Snsm,
            },
    {
        match self {
            PenaltyChoice::NoPenalty => Penalty::NoPenalty,
            PenaltyChoice::Ns => Penalty::Ns,
            PenaltyChoice::Dns => Penalty::Dns,
            PenaltyChoice::Sns => Penalty::Sns,
            PenaltyChoice::Snsa => Penalty::Snsa,
            PenaltyChoice::Snsm => Penalty::Snsm,
        }
    }

    /// Label for a menu.
    pub fn name(self) -> (s: &'static str)
        ensures
            s@ == penalty_choice_name(self),
    {
        match self {
            PenaltyChoice::NoPenalty => "none",
            PenaltyChoice::Ns => "NS - norm square",
            PenaltyChoice::Dns => "DNS - smoothing",
            PenaltyChoice::Sns => "SNS - spillout",
            PenaltyChoice::Snsa => "SNSA - polar spillout",
            PenaltyChoice::Snsm => "SNSM - summed spillout",
        }
    }
}

/// Distinct menu choices stand for distinct library penalties.
pub proof fn law_penalty_choices_are_distinct(a: PenaltyChoice, b: PenaltyChoice)
    ensures
        a != b ==> (match a {
            PenaltyChoice::NoPenalty => Penalty::NoPenalty,
            PenaltyChoice::Ns => Penalty::Ns,
            PenaltyChoice::Dns => Penalty::Dns,
            PenaltyChoice::Sns => Penalty::Sns,
            PenaltyChoice::Snsa => Penalty::Snsa,
            PenaltyChoice::Snsm => Penalty::Snsm,
        }) != (match b {
            PenaltyChoice::NoPenalty => Penalty::NoPenalty,
            PenaltyChoice::Ns => Penalty::Ns,
            PenaltyChoice::Dns => Penalty::Dns,
            PenaltyChoice::Sns => Penalty::Sns,
            PenaltyChoice::Snsa => Penalty::Snsa,
            PenaltyChoice::Snsm => Penalty::Snsm,
        }),
{
}

// ------------------------------------------------------------ spin pairs ----

/// Pairs before row `i` of the upper triangle of an `n`-spin pair table:
/// `(n - 1) + (n - 2) + ... + (n - i)`.
pub open spec fn rows_before(n: nat, i: nat) -> int
    decreases i,
{
    if i == 0 { 0 } else { rows_before(n, (i - 1) as nat) + (n - i) }
}

/// Position of the pair `{i, j}` in the row-by-row layout of the upper
/// triangle: `(0,1) (0,2) ... (1,2) ...`.
pub open spec fn pair_position(n: nat, i: nat, j: nat) -> int {
    let (lo, hi) = if i < j { (i, j) } else { (j, i) };
    rows_before(n, lo) + (hi - lo - 1)
}

/// Number of distinct pairs of `n` spins.
pub open spec fn pair_total(n: nat) -> nat {
    n * (if n >= 1 { (n - 1) as nat } else { 0nat }) / 2
}

/// Closed form of the rows before row `i`.
proof fn lemma_rows_before(n: nat, i: nat)
    requires
        i <= n,
    ensures
        2 * rows_before(n, i) == i * (2 * n - i - 1),
        rows_before(n, i) >= 0,
    decreases i,
{
    if i > 0 {
        lemma_rows_before(n, (i - 1) as nat);
        assert(i * (2 * n - i - 1) == (i - 1) * (2 * n - (i - 1) - 1) + 2 * (n - i)) by (nonlinear_arith);
    }
}

/// Index into the couplings for the pair `(i, j)`: pairs are laid out row by
/// row of the upper triangle, so for four spins `(0,1) (0,2) (0,3) (1,2)
/// (1,3) (2,3)`.  The order of `i` and `j` does not matter.
pub fn pair_index(nspins: usize, i: usize, j: usize) -> (index: usize)
    requires
        i != j,
        (if i < j { i } else { j }) <= nspins,
        pair_position(nspins as nat, i as nat, j as nat) <= usize::MAX,
    ensures
        index == pair_position(nspins as nat, i as nat, j as nat),
        i < nspins && j < nspins ==> index < pair_total(nspins as nat),
{
    let (i, j) = if i < j { (i, j) } else { (j, i) };
    proof {
        if j < nspins {
            lemma_pair_in_range(nspins as nat, i as nat, j as nat);
        }
    }
    let mut index: usize = 0;
    let mut a: usize = 0;
    while a < i
        invariant
            a <= i < j,
            i <= nspins,
            index == rows_before(nspins as nat, a as nat),
            rows_before(nspins as nat, i as nat) <= usize::MAX,
        decreases i - a,
    {
        proof {
            lemma_rows_monotone(nspins as nat, (a + 1) as nat, i as nat);
        }
        index = index + (nspins - 1 - a);
        a = a + 1;
    }
    index + (j - i - 1)
}

/// Rows accumulate: fewer rows, fewer pairs.
proof fn lemma_rows_monotone(n: nat, a: nat, b: nat)
    requires
        a <= b <= n,
    ensures
        rows_before(n, a) <= rows_before(n, b),
    decreases b,
{
    if a < b {
        lemma_rows_monotone(n, a, (b - 1) as nat);
    }
}

/// A pair `i < j < n` sits below the pair total.
proof fn lemma_pair_in_range(n: nat, i: nat, j: nat)
    requires
        i < j < n,
    ensures
        0 <= rows_before(n, i) + (j - i - 1) < pair_total(n),
        rows_before(n, i) + (j - i - 1) < rows_before(n, i + 1),
{
    lemma_rows_before(n, i + 1);
    lemma_rows_monotone(n, i + 1, n);
    lemma_rows_before(n, n);
    assert(2 * rows_before(n, n) == n * (n - 1)) by (nonlinear_arith)
        requires 2 * rows_before(n, n) == n * (2 * n - n - 1), n >= 1;
    assert(pair_total(n) == rows_before(n, n)) by {
        assert(n * (n - 1) / 2 == rows_before(n, n));
    }
    lemma_rows_before(n, i);
}

/// Number of distinct spin pairs in an `nspins` system.
pub fn pair_count(nspins: usize) -> (count: usize)
    requires
        nspins * (if nspins >= 1 { nspins - 1 } else { 0 }) <= usize::MAX,
    ensures
        count == pair_total(nspins as nat),
{
    let below: usize = if nspins >= 1 { nspins - 1 } else { 0 };
    nspins * below / 2
}

/// The pair layout is one-to-one onto `0..pair_count`, in row-by-row
/// order: lexicographically later pairs get larger indices, the first pair
/// is 0 and the last is one less than the number of pairs.
pub proof fn law_pairs_are_laid_out_in_order(n: nat, i: nat, j: nat, k: nat, l: nat)
    requires
        i < j < n,
        k < l < n,
        i < k || (i == k && j < l),
    ensures
        pair_position(n, i, j) < pair_position(n, k, l),
        pair_position(n, 0, 1) == 0,
        pair_position(n, (n - 2) as nat, (n - 1) as nat) == pair_total(n) - 1,
{
    lemma_pair_in_range(n, i, j);
    lemma_pair_in_range(n, k, l);
    if i < k {
        lemma_rows_monotone(n, i + 1, k);
    }
    lemma_pair_in_range(n, (n - 2) as nat, (n - 1) as nat);
    lemma_rows_before(n, (n - 2) as nat);
    lemma_rows_before(n, n);
    let m = (n - 2) as nat;
    assert(2 * rows_before(n, m) == m * (2 * n - m - 1));
    assert(2 * (rows_before(n, m) + 1) == n * (n - 1)) by (nonlinear_arith)
        requires 2 * rows_before(n, m) == m * (2 * n - m - 1), m == n - 2, n >= 2;
    assert(pair_total(n) == rows_before(n, m) + 1) by {
        assert(n * (n - 1) / 2 == rows_before(n, m) + 1);
    }
}

proof fn lemma_pair_total_rows(n: nat)
    ensures
        pair_total(n) == rows_before(n, n),
{
    if n >= 1 {
        lemma_rows_before(n, n);
        assert(2 * rows_before(n, n) == n * (n - 1)) by (nonlinear_arith)
            requires 2 * rows_before(n, n) == n * (2 * n - n - 1), n >= 1;
        assert(n * (n - 1) / 2 == rows_before(n, n));
    }
}

/// The pair of row `i` or a later row whose position is `p`.
proof fn lemma_pair_at(n: nat, p: int, i: nat) -> (r: (nat, nat))
    requires
        i < n,
        rows_before(n, i) <= p < rows_before(n, n),
    ensures
        r.0 < r.1 < n,
        pair_position(n, r.0, r.1) == p,
    decreases n - i,
{
    if p < rows_before(n, i) + (n - i - 1) {
        (i, (p - rows_before(n, i) + i + 1) as nat)
    } else {
        if i + 1 >= n {
            assert(rows_before(n, n) == rows_before(n, i) + (n - n));
        }
        lemma_pair_at(n, p, i + 1)
    }
}

/// Every index below the pair count belongs to some pair: the layout is
/// onto `0..pair_count`.
pub proof fn law_every_pair_index_is_taken(n: nat, p: nat)
    requires
        p < pair_total(n),
    ensures
        exists|i: nat, j: nat| i < j < n && #[trigger] pair_position(n, i, j) == p,
{
    lemma_pair_total_rows(n);
    if n == 0 {
        assert(false);
    }
    let r = lemma_pair_at(n, p as int, 0);
    assert(pair_position(n, r.0, r.1) == p);
}

/// Swapping the two spins of a pair does not move it.
pub proof fn law_pair_index_is_symmetric(n: nat, i: nat, j: nat)
    ensures
        pair_position(n, i, j) == pair_position(n, j, i),
{
}

// ------------------------------------------------------------- problems ----

/// What a product-operator or basis-coefficient operator holds, as far as
/// the checks on a setup read it.
#[derive(Debug, Clone)]
pub enum OperatorFacts {
    /// A product operator's spins, one per term.
    Product { spins: Vec<usize> },
    /// A basis-coefficient operator's basis indices.
    Basis { indices: Vec<usize> },
}

/// What the target of a setup holds, as far as the checks read it.
#[derive(Debug, Clone)]
pub enum TargetFacts {
    /// A transfer between two operators; `same` says they are equal.
    Transfer { same: bool, from: OperatorFacts, to: OperatorFacts },
    /// A gate acting on `wanted` qubits, given the `qubits` listed.
    Gate { wanted: usize, qubits: Vec<usize> },
}

/// What the checks on a setup read of it; the conditions on real numbers
/// come already decided.
#[derive(Debug, Clone)]
pub struct SetupFacts {
    /// Number of spins.
    pub nspins: usize,
    /// Number of `(x, y)` control pairs.
    pub npairs: usize,
    /// `spin_control[spin][pair]`: does control pair `pair` drive `spin`?
    pub spin_control: Vec<Vec<bool>>,
    /// The pulse duration is positive.
    pub positive_duration: bool,
    /// Number of time slices.
    pub nslices: usize,
    /// Every control pair's maximum amplitude is positive.
    pub positive_amplitudes: bool,
    /// Some coupling is non-zero.
    pub any_coupling: bool,
    /// The target.
    pub target: TargetFacts,
}

/// Something that would make a run fail or be meaningless.
#[derive(Debug, Clone, Copy, PartialEq, Eq, Structural)]
pub enum SetupProblem {
    /// The spin count is outside `2..=MAX_SPINS`.
    SpinCount,
    /// There is no control pair.
    NoControlPair,
    /// Control pair `k` (counting from zero) drives no spin.
    PairDrivesNoSpin(usize),
    /// Spin `s` (counting from zero) has no control.
    SpinHasNoControl(usize),
    /// The pulse has no positive duration.
    NoDuration,
    /// The pulse has no time slice.
    NoSlices,
    /// Some control pair's maximum amplitude is not positive.
    NonPositiveAmplitude,
    /// Every coupling is zero.
    NoCoupling,
    /// The initial and target operators are the same.
    SameOperators,
    /// A product operator has no term.
    EmptyProduct,
    /// A product operator names a spin that does not exist.
    ProductSpinOutside,
    /// A basis-coefficient operator is empty.
    EmptyBasis,
    /// A basis-coefficient operator points outside the space.
    BasisOutside,
    /// A target gate is given the wrong number of qubits.
    GateQubitCount,
    /// A target gate names a qubit that does not exist.
    GateQubitOutside,
    /// A two-qubit gate is given one qubit twice.
    GateSameQubits,
}

/// The message a problem is shown with; `gate_name` and `gate_qubits`
/// describe the target gate, when there is one.
pub open spec fn problem_text(p: SetupProblem, gate_name: Seq<char>, gate_qubits: nat) -> Seq<char> {
    match p {
        SetupProblem::SpinCount => "between 2 and "@ + digits(MAX_SPINS as nat) + " spins, please"@,
        SetupProblem::NoControlPair => "at least one control pair is needed"@,
        SetupProblem::PairDrivesNoSpin(k) => "control pair "@ + digits((k + 1) as nat) + " drives no spin"@,
        SetupProblem::SpinHasNoControl(s) => "spin "@ + digits((s + 1) as nat) + " has no control"@,
        SetupProblem::NoDuration => "the pulse needs a positive duration"@,
        SetupProblem::NoSlices => "the pulse needs at least one time slice"@,
        SetupProblem::NonPositiveAmplitude => "every control pair needs a positive maximum amplitude"@,
        SetupProblem::NoCoupling => "with no couplings the spins cannot talk to each other"@,
        SetupProblem::SameOperators => "the initial and target operators are the same"@,
        SetupProblem::EmptyProduct => "a product operator needs at least one term"@,
        SetupProblem::ProductSpinOutside => "a product operator names a spin that does not exist"@,
        SetupProblem::EmptyBasis => "a basis-coefficient operator is empty"@,
        SetupProblem::BasisOutside => "a basis-coefficient operator points outside the space"@,
        SetupProblem::GateQubitCount => gate_name + " acts on "@ + digits(gate_qubits) + " qubit(s)"@,
        SetupProblem::GateQubitOutside => "the "@ + "gate names a qubit that does not exist"@,
        SetupProblem::GateSameQubits => "a two-qubit gate needs two different qubits"@,
    }
}

fn text_around(before: &str, n: usize, after: &str) -> (out: String)
    ensures
        out@ == before@ + digits(n as nat) + after@,
{
    let mut out = String::from_str(before);
    let d = digits_string(n as u64);
    out.append(d.as_str());
    out.append(after);
    out
}

impl SetupProblem {
    /// The message the problem is shown with; `gate_name` and
    /// `gate_qubits` describe the target gate, when there is one.
    pub fn message(&self, gate_name: &str, gate_qubits: usize) -> (m: String)
        requires
            *self matches SetupProblem::PairDrivesNoSpin(k) ==> k < usize::MAX,
            *self matches SetupProblem::SpinHasNoControl(k) ==> k < usize::MAX,
        ensures
            m@ == problem_text(*self, gate_name@, gate_qubits as nat),
    {
        match self {
            SetupProblem::SpinCount => text_around("between 2 and ", MAX_SPINS, " spins, please"),
            SetupProblem::NoControlPair => String::from_str("at least one control pair is needed"),
            SetupProblem::PairDrivesNoSpin(k) => text_around("control pair ", *k + 1, " drives no spin"),
            SetupProblem::SpinHasNoControl(s) => text_around("spin ", *s + 1, " has no control"),
            SetupProblem::NoDuration => String::from_str("the pulse needs a positive duration"),
            SetupProblem::NoSlices => String::from_str("the pulse needs at least one time slice"),
            SetupProblem::NonPositiveAmplitude => String::from_str(
                "every control pair needs a positive maximum amplitude",
            ),
            SetupProblem::NoCoupling => String::from_str("with no couplings the spins cannot talk to each other"),
            SetupProblem::SameOperators => String::from_str("the initial and target operators are the same"),
            SetupProblem::EmptyProduct => String::from_str("a product operator needs at least one term"),
            SetupProblem::ProductSpinOutside => String::from_str(
                "a product operator names a spin that does not exist",
            ),
            SetupProblem::EmptyBasis => String::from_str("a basis-coefficient operator is empty"),
            SetupProblem::BasisOutside => String::from_str("a basis-coefficient operator points outside the space"),
            SetupProblem::GateQubitCount => {
                let mut out = String::from_str(gate_name);
                let t = text_around(" acts on ", gate_qubits, " qubit(s)");
                out.append(t.as_str());
                out
            },
            SetupProblem::GateQubitOutside => {
                let mut out = String::from_str("the ");
                out.append("gate names a qubit that does not exist");
                out
            },
            SetupProblem::GateSameQubits => String::from_str("a two-qubit gate needs two different qubits"),
        }
    }
}

/// Some spin below `nspins` is driven by control pair `k`.
pub open spec fn pair_drives_some_spin(grid: Seq<Vec<bool>>, nspins: nat, k: int) -> bool {
    exists|s: int| 0 <= s < nspins && #[trigger] grid[s]@[k]
}

/// Some control pair below `npairs` drives spin `s`.
pub open spec fn spin_has_some_control(grid: Seq<Vec<bool>>, npairs: nat, s: int) -> bool {
    exists|k: int| 0 <= k < npairs && #[trigger] grid[s]@[k]
}

/// The control pairs below `n` that drive no spin, in order.
pub open spec fn undriven_pairs(grid: Seq<Vec<bool>>, nspins: nat, n: nat) -> Seq<SetupProblem>
    decreases n,
{
    if n == 0 {
        Seq::empty()
    } else {
        undriven_pairs(grid, nspins, (n - 1) as nat) + if pair_drives_some_spin(grid, nspins, n - 1) {
            Seq::empty()
        } else {
            seq![SetupProblem::PairDrivesNoSpin((n - 1) as usize)]
        }
    }
}

/// The spins below `n` that no control pair drives, in order.
pub open spec fn uncontrolled_spins(grid: Seq<Vec<bool>>, npairs: nat, n: nat) -> Seq<SetupProblem>
    decreases n,
{
    if n == 0 {
        Seq::empty()
    } else {
        uncontrolled_spins(grid, npairs, (n - 1) as nat) + if spin_has_some_control(grid, npairs, n - 1) {
            Seq::empty()
        } else {
            seq![SetupProblem::SpinHasNoControl((n - 1) as usize)]
        }
    }
}

/// `p` if `c`, else nothing.
pub open spec fn problem_if(c: bool, p: SetupProblem) -> Seq<SetupProblem> {
    if c { seq![p] } else { Seq::empty() }
}

/// The problems of one operator of a transfer.
pub open spec fn operator_problems(op: OperatorFacts, nspins: nat) -> Seq<SetupProblem> {
    match op {
        OperatorFacts::Product { spins } => problem_if(spins@.len() == 0, SetupProblem::EmptyProduct)
            + problem_if(exists|k: int| 0 <= k < spins@.len() && #[trigger] spins@[k] >= nspins, SetupProblem::ProductSpinOutside),
        OperatorFacts::Basis { indices } => problem_if(indices@.len() == 0, SetupProblem::EmptyBasis)
            + problem_if(
                exists|k: int| 0 <= k < indices@.len() && #[trigger] indices@[k] >= crate::prop_index::pow4(nspins),
                SetupProblem::BasisOutside,
            ),
    }
}

/// The problems of a target.
pub open spec fn target_problems(t: TargetFacts, nspins: nat) -> Seq<SetupProblem> {
    match t {
        TargetFacts::Transfer { same, from, to } => problem_if(same, SetupProblem::SameOperators)
            + operator_problems(from, nspins) + operator_problems(to, nspins),
        TargetFacts::Gate { wanted, qubits } => if qubits@.len() != wanted {
            seq![SetupProblem::GateQubitCount]
        } else if exists|k: int| 0 <= k < qubits@.len() && #[trigger] qubits@[k] >= nspins {
            seq![SetupProblem::GateQubitOutside]
        } else if wanted == 2 && qubits@[0] == qubits@[1] {
            seq![SetupProblem::GateSameQubits]
        } else {
            Seq::empty()
        },
    }
}

/// Everything wrong with a setup, in the order the checks are made.
pub open spec fn setup_problem_list(f: SetupFacts) -> Seq<SetupProblem> {
    problem_if(!(2 <= f.nspins <= MAX_SPINS), SetupProblem::SpinCount)
        + problem_if(f.npairs == 0, SetupProblem::NoControlPair)
        + undriven_pairs(f.spin_control@, f.nspins as nat, f.npairs as nat)
        + uncontrolled_spins(f.spin_control@, f.npairs as nat, f.nspins as nat)
        + problem_if(!f.positive_duration, SetupProblem::NoDuration)
        + problem_if(f.nslices == 0, SetupProblem::NoSlices)
        + problem_if(!f.positive_amplitudes, SetupProblem::NonPositiveAmplitude)
        + problem_if(!f.any_coupling, SetupProblem::NoCoupling)
        + target_problems(f.target, f.nspins as nat)
}

/// The control grid covers every spin and pair.
pub open spec fn grid_covers(f: SetupFacts) -> bool {
    f.spin_control@.len() >= f.nspins
        && forall|s: int| 0 <= s < f.nspins ==> (#[trigger] f.spin_control@[s])@.len() >= f.npairs
}

/// A basis-coefficient operator with coefficients in the target, whose
/// indices are checked against the dimension `4^nspins`.
pub open spec fn has_basis_operator(t: TargetFacts) -> bool {
    match t {
        TargetFacts::Transfer { from, to, .. } => reads_dimension(from) || reads_dimension(to),
        TargetFacts::Gate { .. } => false,
    }
}

/// A basis-coefficient operator with coefficients, whose indices are
/// compared with the dimension.
pub open spec fn reads_dimension(op: OperatorFacts) -> bool {
    match op {
        OperatorFacts::Basis { indices } => indices@.len() > 0,
        OperatorFacts::Product { .. } => false,
    }
}

/// Whether any element of `v` is at least `bound`.
fn any_at_least(v: &Vec<usize>, bound: usize) -> (r: bool)
    ensures
        r == exists|k: int| 0 <= k < v@.len() && #[trigger] v@[k] >= bound,
{
    let mut k: usize = 0;
    while k < v.len()
        invariant
            k <= v@.len(),
            forall|j: int| 0 <= j < k ==> #[trigger] v@[j] < bound,
        decreases v@.len() - k,
    {
        if v[k] >= bound {
            return true;
        }
        k = k + 1;
    }
    false
}

/// `4^n`.
fn pow4_usize(n: usize) -> (r: usize)
    requires
        crate::prop_index::pow4(n as nat) <= usize::MAX,
    ensures
        r == crate::prop_index::pow4(n as nat),
{
    let mut r: usize = 1;
    let mut k: usize = 0;
    while k < n
        invariant
            k <= n,
            r == crate::prop_index::pow4(k as nat),
            crate::prop_index::pow4(n as nat) <= usize::MAX,
        decreases n - k,
    {
        proof {
            crate::prop_index::lemma_pow4_monotone((k + 1) as nat, n as nat);
        }
        r = 4 * r;
        k = k + 1;
    }
    r
}

/// Appends the problems of one operator.
fn push_operator_problems(out: &mut Vec<SetupProblem>, op: &OperatorFacts, nspins: usize)
    requires
        reads_dimension(*op) ==> crate::prop_index::pow4(nspins as nat) <= usize::MAX,
    ensures
        final(out)@ == old(out)@ + operator_problems(*op, nspins as nat),
{
    match op {
        OperatorFacts::Product { spins } => {
            if spins.len() == 0 {
                out.push(SetupProblem::EmptyProduct);
            }
            if any_at_least(spins, nspins) {
                out.push(SetupProblem::ProductSpinOutside);
            }
        },
        OperatorFacts::Basis { indices } => {
            if indices.len() == 0 {
                out.push(SetupProblem::EmptyBasis);
            } else {
                let dim = pow4_usize(nspins);
                if any_at_least(indices, dim) {
                    out.push(SetupProblem::BasisOutside);
                }
            }
        },
    }
    proof {
        assert(out@ =~= old(out)@ + operator_problems(*op, nspins as nat));
    }
}

/// Appends a problem for each control pair that drives no spin.
fn push_undriven_pairs(out: &mut Vec<SetupProblem>, f: &SetupFacts)
    requires
        grid_covers(*f),
    ensures
        final(out)@ == old(out)@ + undriven_pairs(f.spin_control@, f.nspins as nat, f.npairs as nat),
{
    let ghost head = out@;
    let mut k: usize = 0;
    while k < f.npairs
        invariant
            grid_covers(*f),
            k <= f.npairs,
            out@ == head + undriven_pairs(f.spin_control@, f.nspins as nat, k as nat),
        decreases f.npairs - k,
    {
        let mut s: usize = 0;
        let mut driven = false;
        while s < f.nspins && !driven
            invariant
                grid_covers(*f),
                k < f.npairs,
                s <= f.nspins,
                driven ==> pair_drives_some_spin(f.spin_control@, f.nspins as nat, k as int),
                !driven ==> forall|t: int| 0 <= t < s ==> !(#[trigger] f.spin_control@[t]@[k as int]),
            decreases f.nspins - s + if driven { 0int } else { 1int },
        {
            if f.spin_control[s][k] {
                driven = true;
            } else {
                s = s + 1;
            }
        }
        if !driven {
            out.push(SetupProblem::PairDrivesNoSpin(k));
        }
        proof {
            if !driven {
                assert(!pair_drives_some_spin(f.spin_control@, f.nspins as nat, k as int));
            }
            assert(out@ =~= head + undriven_pairs(f.spin_control@, f.nspins as nat, (k + 1) as nat));
        }
        k = k + 1;
    }
}

/// Appends a problem for each spin that no control pair drives.
fn push_uncontrolled_spins(out: &mut Vec<SetupProblem>, f: &SetupFacts)
    requires
        grid_covers(*f),
    ensures
        final(out)@ == old(out)@ + uncontrolled_spins(f.spin_control@, f.npairs as nat, f.nspins as nat),
{
    let ghost head = out@;
    let mut s: usize = 0;
    while s < f.nspins
        invariant
            grid_covers(*f),
            s <= f.nspins,
            out@ == head + uncontrolled_spins(f.spin_control@, f.npairs as nat, s as nat),
        decreases f.nspins - s,
    {
        let mut k: usize = 0;
        let mut driven = false;
        while k < f.npairs && !driven
            invariant
                grid_covers(*f),
                s < f.nspins,
                k <= f.npairs,
                driven ==> spin_has_some_control(f.spin_control@, f.npairs as nat, s as int),
                !driven ==> forall|j: int| 0 <= j < k ==> !(#[trigger] f.spin_control@[s as int]@[j]),
            decreases f.npairs - k + if driven { 0int } else { 1int },
        {
            if f.spin_control[s][k] {
                driven = true;
            } else {
                k = k + 1;
            }
        }
        if !driven {
            out.push(SetupProblem::SpinHasNoControl(s));
        }
        proof {
            if !driven {
                assert(!spin_has_some_control(f.spin_control@, f.npairs as nat, s as int));
            }
            assert(out@ =~= head + uncontrolled_spins(f.spin_control@, f.npairs as nat, (s + 1) as nat));
        }
        s = s + 1;
    }
}

/// Appends the problems of a target.
fn push_target_problems(out: &mut Vec<SetupProblem>, t: &TargetFacts, nspins: usize)
    requires
        has_basis_operator(*t) ==> crate::prop_index::pow4(nspins as nat) <= usize::MAX,
    ensures
        final(out)@ == old(out)@ + target_problems(*t, nspins as nat),
{
    let ghost head = out@;
    match t {
        TargetFacts::Transfer { same, from, to } => {
            if *same {
                out.push(SetupProblem::SameOperators);
            }
            push_operator_problems(out, from, nspins);
            push_operator_problems(out, to, nspins);
        },
        TargetFacts::Gate { wanted, qubits } => {
            if qubits.len() != *wanted {
                out.push(SetupProblem::GateQubitCount);
            } else if any_at_least(qubits, nspins) {
                out.push(SetupProblem::GateQubitOutside);
            } else if *wanted == 2 && qubits[0] == qubits[1] {
                out.push(SetupProblem::GateSameQubits);
            }
        },
    }
    proof {
        assert(out@ =~= head + target_problems(*t, nspins as nat));
    }
}

/// Anything that would make the run fail or be meaningless, in the order
/// the checks are made: the register, the control grid, the pulse, the
/// couplings and the target.
#[verifier::spinoff_prover]
#[verifier::rlimit(40)]
pub fn setup_problems(f: &SetupFacts) -> (out: Vec<SetupProblem>)
    requires
        grid_covers(*f),
        has_basis_operator(f.target) ==> crate::prop_index::pow4(f.nspins as nat) <= usize::MAX,
    ensures
        out@ == setup_problem_list(*f),
{
    let mut out: Vec<SetupProblem> = Vec::new();
    if !(2 <= f.nspins && f.nspins <= MAX_SPINS) {
        out.push(SetupProblem::SpinCount);
    }
    if f.npairs == 0 {
        out.push(SetupProblem::NoControlPair);
    }
    let ghost a = out@;
    push_undriven_pairs(&mut out, f);
    let ghost b = out@;
    push_uncontrolled_spins(&mut out, f);
    let ghost c = out@;
    if !f.positive_duration {
        out.push(SetupProblem::NoDuration);
    }
    if f.nslices == 0 {
        out.push(SetupProblem::NoSlices);
    }
    if !f.positive_amplitudes {
        out.push(SetupProblem::NonPositiveAmplitude);
    }
    if !f.any_coupling {
        out.push(SetupProblem::NoCoupling);
    }
    let ghost d = out@;
    push_target_problems(&mut out, &f.target, f.nspins);
    proof {
        assert(a =~= problem_if(!(2 <= f.nspins <= MAX_SPINS), SetupProblem::SpinCount)
            + problem_if(f.npairs == 0, SetupProblem::NoControlPair));
        assert(d =~= c + problem_if(!f.positive_duration, SetupProblem::NoDuration)
            + problem_if(f.nslices == 0, SetupProblem::NoSlices)
            + problem_if(!f.positive_amplitudes, SetupProblem::NonPositiveAmplitude)
            + problem_if(!f.any_coupling, SetupProblem::NoCoupling));
        assert(out@ =~= setup_problem_list(*f));
    }
    out
}

// ------------------------------------------------------------- resizing ----

/// A sequence resized to `n`: what fits kept, the rest filled with `fill`.
pub open spec fn resized<T>(old: Seq<T>, n: nat, fill: T) -> Seq<T> {
    if n <= old.len() {
        old.take(n as int)
    } else {
        old + Seq::new((n - old.len()) as nat, |i: int| fill)
    }
}

/// Resizes `v` to `n` entries, keeping what fits and filling with `fill`.
pub fn resize_keeping<T: Copy>(v: &mut Vec<T>, n: usize, fill: T)
    ensures
        final(v)@ == resized(old(v)@, n as nat, fill),
{
    if n <= v.len() {
        v.truncate(n);
        return;
    }
    let ghost o = v@;
    while v.len() < n
        invariant
            o.len() <= v@.len() <= n,
            v@ == o + Seq::new((v@.len() - o.len()) as nat, |i: int| fill),
        decreases n - v@.len(),
    {
        v.push(fill);
        assert(v@ =~= o + Seq::new((v@.len() - o.len()) as nat, |i: int| fill));
    }
}

/// Resizes the per-spin offsets and the per-pair couplings to a register of
/// `nspins` spins, and the amplitudes to `npairs` control pairs, keeping
/// what was there: new offsets are `zero`, new couplings `no_coupling` and
/// new amplitudes `default_amplitude`.
pub fn resize_fields<F: Copy, C: Copy>(
    offsets: &mut Vec<F>,
    couplings: &mut Vec<C>,
    amplitudes: &mut Vec<F>,
    nspins: usize,
    npairs: usize,
    zero: F,
    no_coupling: C,
    default_amplitude: F,
)
    requires
        nspins * (if nspins >= 1 { nspins - 1 } else { 0 }) <= usize::MAX,
    ensures
        final(offsets)@ == resized(old(offsets)@, nspins as nat, zero),
        final(couplings)@ == resized(old(couplings)@, pair_total(nspins as nat), no_coupling),
        final(amplitudes)@ == resized(old(amplitudes)@, npairs as nat, default_amplitude),
{
    resize_keeping(offsets, nspins, zero);
    let pairs = pair_count(nspins);
    resize_keeping(couplings, pairs, no_coupling);
    resize_keeping(amplitudes, npairs, default_amplitude);
}

/// The control grid resized to `nspins x npairs`: entries inside the old
/// grid kept, new ones off.
pub open spec fn resized_entry(old_grid: Seq<Vec<bool>>, s: int, k: int) -> bool {
    s < old_grid.len() && k < old_grid[s]@.len() && old_grid[s]@[k]
}

/// Resizes the control grid to one row per spin and one column per pair,
/// keeping what fits and switching new entries off.
pub fn resize_grid(grid: &mut Vec<Vec<bool>>, nspins: usize, npairs: usize)
    ensures
        final(grid)@.len() == nspins,
        forall|s: int| 0 <= s < nspins ==> (#[trigger] final(grid)@[s])@.len() == npairs
            && forall|k: int| 0 <= k < npairs ==> final(grid)@[s]@[k] == resized_entry(old(grid)@, s, k),
{
    let mut out: Vec<Vec<bool>> = Vec::new();
    let mut s: usize = 0;
    while s < nspins
        invariant
            s <= nspins,
            out@.len() == s,
            forall|t: int| 0 <= t < s ==> (#[trigger] out@[t])@.len() == npairs
                && forall|k: int| 0 <= k < npairs ==> out@[t]@[k] == resized_entry(old(grid)@, t, k),
        decreases nspins - s,
    {
        let mut row: Vec<bool> = Vec::new();
        let mut k: usize = 0;
        while k < npairs
            invariant
                s < nspins,
                k <= npairs,
                row@.len() == k,
                forall|j: int| 0 <= j < k ==> #[trigger] row@[j] == resized_entry(old(grid)@, s as int, j),
            decreases npairs - k,
        {
            let v = s < grid.len() && k < grid[s].len() && grid[s][k];
            row.push(v);
            k = k + 1;
        }
        out.push(row);
        s = s + 1;
    }
    *grid = out;
}

/// The terms of `terms` on spins below `nspins`, in order.
pub open spec fn terms_inside(terms: Seq<(usize, Component)>, nspins: nat) -> Seq<(usize, Component)>
    decreases terms.len(),
{
    if terms.len() == 0 {
        Seq::empty()
    } else {
        terms_inside(terms.drop_last(), nspins) + if terms.last().0 < nspins {
            seq![terms.last()]
        } else {
            Seq::empty()
        }
    }
}

impl ProductOperator {
    /// Keeps the operator inside an `nspins` register: terms on spins that
    /// no longer exist are dropped, and an operator left with no term
    /// becomes z magnetisation on the first spin.
    pub fn keep_inside(&mut self, nspins: usize)
        ensures
            final(self).terms@ == if terms_inside(old(self).terms@, nspins as nat).len() == 0 {
                seq![(0usize, Component::Z)]
            } else {
                terms_inside(old(self).terms@, nspins as nat)
            },
    {
        let mut kept: Vec<(usize, Component)> = Vec::new();
        let mut i: usize = 0;
        while i < self.terms.len()
            invariant
                i <= self.terms@.len(),
                kept@ == terms_inside(self.terms@.take(i as int), nspins as nat),
            decreases self.terms@.len() - i,
        {
            proof {
                let t = self.terms@.take(i as int + 1);
                assert(t.drop_last() =~= self.terms@.take(i as int));
                assert(t.last() == self.terms@[i as int]);
            }
            if self.terms[i].0 < nspins {
                kept.push(self.terms[i]);
            }
            proof {
                let t = self.terms@.take(i as int + 1);
                assert(kept@ =~= terms_inside(t, nspins as nat));
            }
            i = i + 1;
        }
        assert(self.terms@.take(i as int) =~= self.terms@);
        if kept.len() == 0 {
            kept.push((0, Component::Z));
        }
        self.terms = kept;
    }
}

/// The qubit a target gate is given in position `n` after a resize: the
/// old one where there was one (else 0), moved to `min(n, nspins - 1)` when
/// it no longer exists.
pub open spec fn clamped_qubit(old_qubits: Seq<usize>, n: int, nspins: nat) -> usize {
    let q: usize = if n < old_qubits.len() { old_qubits[n] } else { 0 };
    if q >= nspins {
        if n < nspins - 1 { n as usize } else { (nspins - 1) as usize }
    } else {
        q
    }
}

/// Gives a target gate the number of qubits it acts on and keeps them
/// inside the register.
pub fn clamp_qubits(qubits: &mut Vec<usize>, wanted: usize, nspins: usize)
    requires
        nspins > 0 || wanted == 0,
    ensures
        final(qubits)@.len() == wanted,
        forall|n: int| 0 <= n < wanted ==> #[trigger] final(qubits)@[n] == clamped_qubit(old(qubits)@, n, nspins as nat),
{
    let mut out: Vec<usize> = Vec::new();
    let mut n: usize = 0;
    while n < wanted
        invariant
            nspins > 0 || wanted == 0,
            n <= wanted,
            out@.len() == n,
            forall|j: int| 0 <= j < n ==> #[trigger] out@[j] == clamped_qubit(old(qubits)@, j, nspins as nat),
        decreases wanted - n,
    {
        let q: usize = if n < qubits.len() { qubits[n] } else { 0 };
        let v = if q >= nspins {
            if n < nspins - 1 { n } else { nspins - 1 }
        } else {
            q
        };
        out.push(v);
        n = n + 1;
    }
    *qubits = out;
}

// ------------------------------------------------------------- channels ----

/// The names of the waveform channels, in column order: `x-control k` and
/// `y-control k` for each control pair `k`, counting from one.
pub open spec fn channel_name(k: nat) -> Seq<char> {
    if k % 2 == 0 {
        "x-control "@ + digits(k / 2 + 1)
    } else {
        "y-control "@ + digits(k / 2 + 1)
    }
}

/// Names for the waveform channels, two per control pair, in column order.
pub fn channel_names(npairs: usize) -> (names: Vec<String>)
    requires
        2 * npairs <= usize::MAX,
    ensures
        names@.len() == 2 * npairs,
        forall|k: int| 0 <= k < 2 * npairs ==> (#[trigger] names@[k])@ == channel_name(k as nat),
{
    let mut names: Vec<String> = Vec::new();
    let mut k: usize = 0;
    while k < npairs
        invariant
            2 * npairs <= usize::MAX,
            k <= npairs,
            names@.len() == 2 * k,
            forall|j: int| 0 <= j < 2 * k ==> (#[trigger] names@[j])@ == channel_name(j as nat),
        decreases npairs - k,
    {
        let number = digits_string((k + 1) as u64);
        let mut x = String::from_str("x-control ");
        x.append(number.as_str());
        let mut y = String::from_str("y-control ");
        y.append(number.as_str());
        proof {
            assert((2 * k) as nat / 2 + 1 == k + 1);
            assert(((2 * k + 1) as nat) / 2 + 1 == k + 1);
        }
        names.push(x);
        names.push(y);
        k = k + 1;
    }
    names
}

} // verus!
