//! Restartable step functions over index combinations and permutations.
//!
//! `next_combination` maps an index combination to its lexicographic
//! successor over a fixed population, and `next_permutation` maps an index
//! sequence to its next lexicographic rearrangement; both signal exhaustion
//! with `None`. The candidate search drives them to enumerate every tile
//! subset and every ordering of a rack.

use vstd::prelude::*;

verus! {

/// A strictly increasing sequence of indices drawn from `[0, n)`.
pub open spec fn is_combination(s: Seq<usize>, n: int) -> bool {
    &&& forall|i: int, j: int| 0 <= i < j < s.len() ==> s[i] < s[j]
    &&& forall|i: int| 0 <= i < s.len() ==> s[i] < n
}

/// Every entry from `from` onward sits at its maximal possible value
/// `n - len + index`.
pub open spec fn combination_tail_maxed(s: Seq<usize>, n: int, from: int) -> bool {
    forall|j: int| from <= j < s.len() ==> s[j] == n - s.len() + j
}

/// The successor of a combination whose rightmost non-maximal entry is at
/// `i`: that entry advances by one and the entries after it close up behind
/// it consecutively.
pub open spec fn combination_step(s: Seq<usize>, i: int) -> Seq<usize> {
    Seq::new(s.len(), |j: int| if j < i { s[j] } else { (s[i] + 1 + j - i) as usize })
}

proof fn lemma_increasing_gap(s: Seq<usize>, i: int, j: int)
    requires
        forall|a: int, b: int| 0 <= a < b < s.len() ==> s[a] < s[b],
        0 <= i <= j < s.len(),
    ensures
        s[j] >= s[i] + (j - i),
    decreases j - i,
{
    if i < j {
        lemma_increasing_gap(s, i, j - 1);
    }
}

proof fn lemma_combination_upper_bounds(s: Seq<usize>, n: int)
    requires
        is_combination(s, n),
        s.len() >= 1,
    ensures
        forall|i: int| 0 <= i < s.len() ==> s[i] <= n - s.len() + i,
{
    assert forall|i: int| 0 <= i < s.len() implies s[i] <= n - s.len() + i by {
        lemma_increasing_gap(s, i, s.len() - 1);
    }
}

/// The lexicographic successor of `selection` among the size-`selection.len()`
/// combinations of `[0, population_size)`, or `None` when `selection` is the
/// last one.
pub fn next_combination(selection: Vec<usize>, population_size: usize) -> (r: Option<Vec<usize>>)
    requires
        selection@.len() >= 1,
        population_size >= selection@.len(),
        is_combination(selection@, population_size as int),
    ensures
        (r is None) <==> combination_tail_maxed(selection@, population_size as int, 0),
        r matches Some(t) ==> {
            &&& t@.len() == selection@.len()
            &&& is_combination(t@, population_size as int)
            &&& (exists|i: int|
                {
                    &&& 0 <= i < selection@.len()
                    &&& selection@[i] != population_size - selection@.len() + i
                    &&& combination_tail_maxed(selection@, population_size as int, i + 1)
                    &&& t@[i] == selection@[i] + 1
                    &&& (forall|m: int| 0 <= m < i ==> t@[m] == selection@[m])
                    &&& (forall|m: int| i < m < t@.len() ==> t@[m] == t@[i] + (m - i))
                    &&& t@ =~= combination_step(selection@, i)
                })
        },
{
    let ghost s = selection@;
    let ghost n = population_size as int;
    let selection_size: usize = selection.len();
    let mut sel = selection;
    let mut i: usize = selection_size - 1;
    while sel[i] == population_size - selection_size + i
        invariant
            s == selection@,
            sel@ == s,
            selection_size == s.len(),
            population_size == n,
            n >= s.len() >= 1,
            is_combination(s, n),
            i < s.len(),
            combination_tail_maxed(s, n, i + 1),
        decreases i,
    {
        if i == 0 {
            proof {
                assert(combination_tail_maxed(s, n, 0));
            }
            return None;
        }
        i = i - 1;
    }
    proof {
        lemma_combination_upper_bounds(s, n);
    }
    let ghost pivot = i as int;
    let pivot_value: usize = sel[i];
    sel.set(i, pivot_value + 1);
    let mut j: usize = i + 1;
    while j < selection_size
        invariant
            s == selection@,
            i < j <= s.len(),
            sel@.len() == s.len(),
            selection_size == s.len(),
            population_size == n,
            pivot == i as int,
            is_combination(s, n),
            s[pivot] < n - s.len() + pivot,
            forall|m: int| 0 <= m < pivot ==> sel@[m] == s[m],
            forall|m: int| pivot <= m < j ==> sel@[m] == s[pivot] + 1 + m - pivot,
            forall|m: int| j <= m < s.len() ==> sel@[m] == s[m],
        decreases s.len() - j,
    {
        let step: usize = sel[i] + (j - i);
        sel.set(j, step);
        j = j + 1;
    }
    proof {
        assert(sel@ =~= combination_step(s, pivot));
        assert forall|a: int, b: int| 0 <= a < b < sel@.len() implies sel@[a] < sel@[b] by {
            if a < pivot && b >= pivot {
                assert(s[a] < s[pivot]);
            }
        }
        assert(is_combination(sel@, n));
    }
    Some(sel)
}

/// The value of an index sequence read as a base-`base` numeral. Each
/// step function returns a sequence of strictly greater rank, which bounds
/// how often it can be applied.
pub open spec fn seq_rank(s: Seq<usize>, base: int) -> int
    decreases s.len(),
{
    if s.len() == 0 {
        0
    } else {
        seq_rank(s.drop_last(), base) * base + s.last()
    }
}

pub proof fn lemma_rank_bounds(s: Seq<usize>, base: int)
    requires
        base >= 1,
        forall|m: int| 0 <= m < s.len() ==> s[m] < base,
    ensures
        0 <= seq_rank(s, base) < vstd::arithmetic::power::pow(base, s.len()),
    decreases s.len(),
{
    vstd::arithmetic::power::lemma_pow_positive(base, s.len());
    if s.len() > 0 {
        lemma_rank_bounds(s.drop_last(), base);
        let prev = seq_rank(s.drop_last(), base);
        let cap = vstd::arithmetic::power::pow(base, (s.len() - 1) as nat);
        vstd::arithmetic::power::lemma_pow1(base);
        vstd::arithmetic::power::lemma_pow_adds(base, (s.len() - 1) as nat, 1nat);
        assert((s.len() - 1) as nat + 1nat == s.len());
        assert(vstd::arithmetic::power::pow(base, s.len()) == cap * base);
        assert(s.drop_last().len() == (s.len() - 1) as nat);
        assert(0 <= prev * base && prev * base + base <= cap * base) by (nonlinear_arith)
            requires
                0 <= prev,
                prev + 1 <= cap,
                base >= 1,
        ;
        assert(s.last() < base);
    }
}

/// Two equal-length numerals that agree before position `i`, where the
/// second is larger, compare by rank.
pub proof fn lemma_rank_increases(s: Seq<usize>, t: Seq<usize>, base: int, i: int)
    requires
        base >= 1,
        s.len() == t.len(),
        0 <= i < s.len(),
        forall|m: int| 0 <= m < i ==> s[m] == t[m],
        s[i] < t[i],
        forall|m: int| 0 <= m < s.len() ==> s[m] < base,
    ensures
        seq_rank(s, base) < seq_rank(t, base),
    decreases s.len(),
{
    if i == s.len() - 1 {
        assert(s.drop_last() =~= t.drop_last());
    } else {
        assert forall|m: int| 0 <= m < s.drop_last().len() implies s.drop_last()[m] < base by {
            assert(s.drop_last()[m] == s[m]);
        }
        lemma_rank_increases(s.drop_last(), t.drop_last(), base, i);
        let ps = seq_rank(s.drop_last(), base);
        let pt = seq_rank(t.drop_last(), base);
        assert(ps * base + base <= pt * base) by (nonlinear_arith)
            requires
                ps < pt,
                base >= 1,
        ;
        assert(s.last() < base);
    }
}

/// Strict lexicographic order on equal-length index sequences: the order
/// in which the step functions enumerate.
pub open spec fn lex_lt(s: Seq<usize>, t: Seq<usize>) -> bool
    decreases s.len(),
{
    s.len() > 0 && (s[0] < t[0] || (s[0] == t[0] && lex_lt(s.drop_first(), t.drop_first())))
}

pub proof fn lemma_lex_asymmetric(s: Seq<usize>, t: Seq<usize>)
    requires
        s.len() == t.len(),
        lex_lt(s, t),
    ensures
        !lex_lt(t, s),
    decreases s.len(),
{
    if s.len() > 0 && s[0] == t[0] && lex_lt(s.drop_first(), t.drop_first()) {
        lemma_lex_asymmetric(s.drop_first(), t.drop_first());
    }
}

pub proof fn lemma_lex_trichotomy(s: Seq<usize>, t: Seq<usize>)
    requires
        s.len() == t.len(),
        !lex_lt(s, t),
        !lex_lt(t, s),
    ensures
        s =~= t,
    decreases s.len(),
{
    if s.len() > 0 {
        lemma_lex_trichotomy(s.drop_first(), t.drop_first());
        assert forall|m: int| 0 <= m < s.len() implies s[m] == t[m] by {
            if m > 0 {
                assert(s.drop_first()[m - 1] == t.drop_first()[m - 1]);
            }
        }
    }
}

/// A difference at `d` below equal prefixes decides the order.
pub proof fn lemma_lex_from_diff(s: Seq<usize>, t: Seq<usize>, d: int)
    requires
        s.len() == t.len(),
        0 <= d < s.len(),
        forall|m: int| 0 <= m < d ==> s[m] == t[m],
        s[d] < t[d],
    ensures
        lex_lt(s, t),
    decreases d,
{
    if d > 0 {
        assert forall|m: int| 0 <= m < d - 1 implies s.drop_first()[m] == t.drop_first()[m] by {
            assert(s.drop_first()[m] == s[m + 1]);
        }
        assert(s.drop_first()[d - 1] == s[d]);
        assert(t.drop_first()[d - 1] == t[d]);
        lemma_lex_from_diff(s.drop_first(), t.drop_first(), d - 1);
    }
}

/// The ordered sequences differ first at some position.
pub proof fn lemma_lex_to_diff(s: Seq<usize>, t: Seq<usize>)
    requires
        s.len() == t.len(),
        lex_lt(s, t),
    ensures
        exists|d: int|
            {
                &&& 0 <= d < s.len()
                &&& #[trigger] s[d] < t[d]
                &&& (forall|m: int| 0 <= m < d ==> s[m] == t[m])
            },
    decreases s.len(),
{
    if s[0] < t[0] {
        assert(s[0int] < t[0int]);
    } else {
        lemma_lex_to_diff(s.drop_first(), t.drop_first());
        let d0 = choose|d: int|
            {
                &&& 0 <= d < s.drop_first().len()
                &&& #[trigger] s.drop_first()[d] < t.drop_first()[d]
                &&& (forall|m: int| 0 <= m < d ==> s.drop_first()[m] == t.drop_first()[m])
            };
        assert forall|m: int| 0 <= m < d0 + 1 implies s[m] == t[m] by {
            if m > 0 {
                assert(s.drop_first()[m - 1] == t.drop_first()[m - 1]);
            }
        }
        assert(s[d0 + 1] < t[d0 + 1]);
    }
}

/// The positions `0, 1, …, len - 1` in order: where both enumerations
/// start.
pub open spec fn spec_identity_indices(len: int) -> Seq<usize> {
    Seq::new(len as nat, |i: int| i as usize)
}

/// An arrangement of the positions `0, …, l - 1`: the orderings the
/// permutation stepper ranges over.
pub open spec fn is_index_permutation(o: Seq<usize>, l: int) -> bool {
    &&& o.len() == l
    &&& o.to_multiset() == spec_identity_indices(l).to_multiset()
}

/// An index permutation holds each position below `l` exactly once.
pub proof fn lemma_index_permutation_values(o: Seq<usize>, l: int)
    requires
        is_index_permutation(o, l),
        0 <= l <= usize::MAX as int,
    ensures
        forall|m: int| 0 <= m < o.len() ==> #[trigger] o[m] < l,
        forall|m1: int, m2: int| 0 <= m1 < m2 < o.len() ==> o[m1] != o[m2],
{
    let ident = spec_identity_indices(l);
    o.to_multiset_ensures();
    ident.to_multiset_ensures();
    assert forall|m: int| 0 <= m < o.len() implies #[trigger] o[m] < l by {
        assert(o.contains(o[m]));
        assert(o.to_multiset().count(o[m]) > 0);
        assert(ident.to_multiset().count(o[m]) > 0);
        assert(ident.contains(o[m]));
        let w = choose|w: int| 0 <= w < ident.len() && ident[w] == o[m];
    }
    assert forall|m1: int, m2: int|
        0 <= m1 < m2 < ident.len() implies ident[m1] != ident[m2] by {
        assert(ident[m1] as int == m1);
        assert(ident[m2] as int == m2);
    }
    assert(ident.no_duplicates());
    ident.lemma_multiset_has_no_duplicates();
    o.lemma_multiset_has_no_duplicates_conv();
    assert forall|m1: int, m2: int| 0 <= m1 < m2 < o.len() implies o[m1] != o[m2] by {
        assert(o.no_duplicates());
    }
}

/// With equal multisets and equal prefixes, the suffixes hold the same
/// values.
pub proof fn lemma_suffix_multisets(s: Seq<usize>, t: Seq<usize>, d: int)
    requires
        s.len() == t.len(),
        s.to_multiset() == t.to_multiset(),
        0 <= d <= s.len(),
        forall|m: int| 0 <= m < d ==> s[m] == t[m],
    ensures
        s.skip(d).to_multiset() == t.skip(d).to_multiset(),
{
    assert(s =~= s.take(d) + s.skip(d));
    assert(t =~= t.take(d) + t.skip(d));
    assert(s.take(d) =~= t.take(d));
    vstd::seq_lib::lemma_multiset_commutative(s.take(d), s.skip(d));
    vstd::seq_lib::lemma_multiset_commutative(t.take(d), t.skip(d));
    assert forall|x: usize|
        #[trigger] s.skip(d).to_multiset().count(x) == t.skip(d).to_multiset().count(x) by {
        assert(s.to_multiset().count(x) == s.take(d).to_multiset().count(x) + s.skip(
            d,
        ).to_multiset().count(x));
        assert(t.to_multiset().count(x) == t.take(d).to_multiset().count(x) + t.skip(
            d,
        ).to_multiset().count(x));
    }
    assert(s.skip(d).to_multiset() =~= t.skip(d).to_multiset());
}

/// A value counted by a sequence's multiset sits at some index.
pub proof fn lemma_multiset_index(s: Seq<usize>, x: usize)
    requires
        s.to_multiset().count(x) > 0,
    ensures
        exists|idx: int| 0 <= idx < s.len() && s[idx] == x,
{
    s.to_multiset_ensures();
    assert(s.contains(x));
}

/// Swapping two entries keeps the multiset.
pub proof fn lemma_swap_multiset(s: Seq<usize>, k: int, j: int)
    requires
        0 <= k < j < s.len(),
    ensures
        s.update(k, s[j]).update(j, s[k]).to_multiset() == s.to_multiset(),
{
    broadcast use vstd::multiset::group_multiset_axioms;

    let u1 = s.update(k, s[j]);
    let u2 = u1.update(j, s[k]);
    assert(u1 =~= s.remove(k).insert(k, s[j]));
    vstd::seq_lib::to_multiset_remove(s, k);
    vstd::seq_lib::to_multiset_insert(s.remove(k), k, s[j]);
    assert(u1[j] == s[j]);
    assert(u2 =~= u1.remove(j).insert(j, s[k]));
    vstd::seq_lib::to_multiset_remove(u1, j);
    vstd::seq_lib::to_multiset_insert(u1.remove(j), j, s[k]);
    s.to_multiset_ensures();
    assert(s.contains(s[k]));
    assert(s.contains(s[j]));
    assert(u2.to_multiset() =~= s.to_multiset());
}

/// The permutation step keeps the multiset: it swaps two entries and
/// reverses a suffix.
pub proof fn lemma_permutation_step_multiset(s: Seq<usize>, k: int, j: int)
    requires
        0 <= k < j < s.len(),
    ensures
        permutation_step(s, k, j).to_multiset() == s.to_multiset(),
{
    let u = s.update(k, s[j]).update(j, s[k]);
    let t = permutation_step(s, k, j);
    lemma_swap_multiset(s, k, j);
    assert(t =~= u.take(k + 1) + u.skip(k + 1).reverse());
    assert(u =~= u.take(k + 1) + u.skip(k + 1));
    vstd::seq_lib::lemma_multiset_commutative(u.take(k + 1), u.skip(k + 1).reverse());
    vstd::seq_lib::lemma_multiset_commutative(u.take(k + 1), u.skip(k + 1));
    u.skip(k + 1).lemma_reverse_to_multiset();
    assert(t.to_multiset() =~= s.to_multiset());
}

/// The identity arrangement is the least combination in enumeration
/// order.
pub proof fn lemma_combination_first(c: Seq<usize>, n: int)
    requires
        is_combination(c, n),
    ensures
        !lex_lt(c, spec_identity_indices(c.len() as int)),
{
    let ident = spec_identity_indices(c.len() as int);
    if lex_lt(c, ident) {
        lemma_lex_to_diff(c, ident);
        let d = choose|d: int|
            {
                &&& 0 <= d < c.len()
                &&& #[trigger] c[d] < ident[d]
                &&& (forall|m: int| 0 <= m < d ==> c[m] == ident[m])
            };
        lemma_increasing_gap(c, 0, d);
        assert(ident[d] as int == d);
    }
}

/// The identity arrangement is the least index permutation in enumeration
/// order.
pub proof fn lemma_permutation_first(o: Seq<usize>, l: int)
    requires
        is_index_permutation(o, l),
        0 <= l <= usize::MAX as int,
    ensures
        !lex_lt(o, spec_identity_indices(l)),
{
    let ident = spec_identity_indices(l);
    lemma_index_permutation_values(o, l);
    if lex_lt(o, ident) {
        lemma_lex_to_diff(o, ident);
        let d = choose|d: int|
            {
                &&& 0 <= d < o.len()
                &&& #[trigger] o[d] < ident[d]
                &&& (forall|m: int| 0 <= m < d ==> o[m] == ident[m])
            };
        assert(ident[d] as int == d);
        assert((o[d] as int) < d);
        assert(o[o[d] as int] == ident[o[d] as int]);
        assert(o[o[d] as int] as int == o[d] as int);
        assert(o[o[d] as int] == o[d]);
    }
}

/// A combination with every entry at its cap is the last: none comes
/// later.
pub proof fn lemma_combination_last(s: Seq<usize>, u: Seq<usize>, n: int)
    requires
        is_combination(s, n),
        is_combination(u, n),
        s.len() == u.len(),
        combination_tail_maxed(s, n, 0),
    ensures
        !lex_lt(s, u),
{
    if lex_lt(s, u) {
        lemma_lex_to_diff(s, u);
        let d = choose|d: int|
            {
                &&& 0 <= d < s.len()
                &&& #[trigger] s[d] < u[d]
                &&& (forall|m: int| 0 <= m < d ==> s[m] == u[m])
            };
        lemma_combination_upper_bounds(u, n);
    }
}

/// A non-increasing arrangement is the last among the arrangements of its
/// entries: none comes later.
pub proof fn lemma_permutation_last(s: Seq<usize>, u: Seq<usize>)
    requires
        s.len() == u.len(),
        u.to_multiset() == s.to_multiset(),
        non_increasing_from(s, 0),
    ensures
        !lex_lt(s, u),
{
    if lex_lt(s, u) {
        lemma_lex_to_diff(s, u);
        let d = choose|d: int|
            {
                &&& 0 <= d < s.len()
                &&& #[trigger] s[d] < u[d]
                &&& (forall|m: int| 0 <= m < d ==> s[m] == u[m])
            };
        lemma_suffix_multisets(s, u, d);
        assert(u.skip(d).to_multiset().count(u[d]) > 0) by {
            u.skip(d).to_multiset_ensures();
            assert(u.skip(d)[0] == u[d]);
            assert(u.skip(d).contains(u[d]));
        }
        lemma_multiset_index(s.skip(d), u[d]);
        let idx = choose|idx: int| 0 <= idx < s.skip(d).len() && s.skip(d)[idx] == u[d];
        assert(s[d + idx] == u[d]);
        if idx > 0 {
            assert(s[d] >= s[d + idx]) by {
                lemma_non_increasing_gap(s, d, d + idx);
            }
        }
    }
}

proof fn lemma_non_increasing_gap(s: Seq<usize>, a: int, b: int)
    requires
        non_increasing_from(s, 0),
        0 <= a <= b < s.len(),
    ensures
        s[a] >= s[b],
    decreases b - a,
{
    if a < b {
        lemma_non_increasing_gap(s, a, b - 1);
    }
}

/// The stepped combination is the immediate successor: no combination
/// lies strictly between a combination and its step.
pub proof fn lemma_combination_successor_tight(
    s: Seq<usize>,
    t: Seq<usize>,
    u: Seq<usize>,
    n: int,
    i: int,
)
    requires
        is_combination(s, n),
        is_combination(t, n),
        is_combination(u, n),
        s.len() == t.len() == u.len(),
        0 <= i < s.len(),
        combination_tail_maxed(s, n, i + 1),
        t[i] == s[i] + 1,
        forall|m: int| 0 <= m < i ==> t[m] == s[m],
        forall|m: int| i < m < t.len() ==> t[m] == t[i] + (m - i),
        lex_lt(s, u),
    ensures
        !lex_lt(u, t),
{
    lemma_lex_to_diff(s, u);
    let d = choose|d: int|
        {
            &&& 0 <= d < s.len()
            &&& #[trigger] s[d] < u[d]
            &&& (forall|m: int| 0 <= m < d ==> s[m] == u[m])
        };
    if d < i {
        lemma_lex_from_diff(t, u, d);
        lemma_lex_asymmetric(t, u);
    } else if d > i {
        lemma_combination_upper_bounds(u, n);
        assert(u[d] <= n - u.len() + d);
        assert(s[d] == n - s.len() + d);
        assert(false);
    } else {
        if u[i] > t[i] {
            lemma_lex_from_diff(t, u, i);
            lemma_lex_asymmetric(t, u);
        } else {
            assert(u[i] == t[i]);
            if lex_lt(u, t) {
                lemma_lex_to_diff(u, t);
                let d2 = choose|d2: int|
                    {
                        &&& 0 <= d2 < u.len()
                        &&& #[trigger] u[d2] < t[d2]
                        &&& (forall|m: int| 0 <= m < d2 ==> u[m] == t[m])
                    };
                assert(d2 > i) by {
                    if d2 < i {
                        assert(u[d2] == s[d2]);
                        assert(t[d2] == s[d2]);
                    }
                }
                lemma_increasing_gap(u, i, d2);
                assert(u[d2] >= u[i] + (d2 - i));
                assert(t[d2] == t[i] + (d2 - i));
                assert(false);
            }
        }
    }
}

/// The stepped permutation is the immediate successor: no arrangement of
/// the same entries lies strictly between a permutation and its step.
pub proof fn lemma_permutation_successor_tight(
    s: Seq<usize>,
    t: Seq<usize>,
    u: Seq<usize>,
    k: int,
    j: int,
)
    requires
        s.len() == t.len() == u.len(),
        0 <= k < j < s.len(),
        s[k] < s[k + 1],
        non_increasing_from(s, k + 1),
        s[j] > s[k],
        forall|m: int| j < m < s.len() ==> s[m] <= s[k],
        t =~= permutation_step(s, k, j),
        u.to_multiset() == s.to_multiset(),
        lex_lt(s, u),
    ensures
        !lex_lt(u, t),
{
    let len = s.len() as int;
    let w = s.update(k, s[j]).update(j, s[k]);
    lemma_permutation_step_multiset(s, k, j);
    // The step's shape: prefix kept, the pivot raised to the smallest
    // larger entry, the suffix after the pivot in ascending order.
    assert(t[k] == s[j]);
    assert forall|m: int| 0 <= m < k implies t[m] == s[m] by {
        assert(t[m] == w[m]);
    }
    assert forall|a: int, b: int| k < a && a <= b && b < len implies t[a] <= t[b] by {
        let wa = len + k - a;
        let wb = len + k - b;
        assert(t[a] == w[wa]);
        assert(t[b] == w[wb]);
        assert(k < wb <= wa < len);
        // The swapped suffix is non-increasing, and the step reverses it.
        if wa != wb {
            lemma_swapped_suffix_non_increasing(s, k, j, wb, wa);
        }
    }
    lemma_lex_to_diff(s, u);
    let d = choose|d: int|
        {
            &&& 0 <= d < s.len()
            &&& #[trigger] s[d] < u[d]
            &&& (forall|m: int| 0 <= m < d ==> s[m] == u[m])
        };
    if d < k {
        lemma_lex_from_diff(t, u, d);
        lemma_lex_asymmetric(t, u);
    } else if d > k {
        // Beyond the pivot the walked suffix is non-increasing, so no
        // entry there can grow while the prefix is kept.
        lemma_suffix_multisets(s, u, d);
        assert(u.skip(d).to_multiset().count(u[d]) > 0) by {
            u.skip(d).to_multiset_ensures();
            assert(u.skip(d)[0] == u[d]);
            assert(u.skip(d).contains(u[d]));
        }
        lemma_multiset_index(s.skip(d), u[d]);
        let idx = choose|idx: int| 0 <= idx < s.skip(d).len() && s.skip(d)[idx] == u[d];
        assert(s[d + idx] == u[d]);
        if idx > 0 {
            assert(s[d] >= s[d + idx]) by {
                lemma_non_increasing_from_gap(s, k + 1, d, d + idx);
            }
        }
        assert(false);
    } else {
        // At the pivot: the raised entry is the least entry above the old
        // one, so the rival is at least it.
        assert(u[k] > s[k]);
        lemma_suffix_multisets(s, u, k);
        assert(u.skip(k).to_multiset().count(u[k]) > 0) by {
            u.skip(k).to_multiset_ensures();
            assert(u.skip(k)[0] == u[k]);
            assert(u.skip(k).contains(u[k]));
        }
        lemma_multiset_index(s.skip(k), u[k]);
        let idx = choose|idx: int| 0 <= idx < s.skip(k).len() && s.skip(k)[idx] == u[k];
        assert(s[k + idx] == u[k]);
        assert(idx > 0);
        assert(k + idx <= j) by {
            if k + idx > j {
                assert(s[k + idx] <= s[k]);
            }
        }
        assert(s[k + idx] >= s[j]) by {
            if k + idx < j {
                lemma_non_increasing_from_gap(s, k + 1, k + idx, j);
            }
        }
        assert(u[k] >= t[k]);
        if u[k] > t[k] {
            lemma_lex_from_diff(t, u, k);
            lemma_lex_asymmetric(t, u);
        } else {
            if lex_lt(u, t) {
                lemma_lex_to_diff(u, t);
                let d2 = choose|d2: int|
                    {
                        &&& 0 <= d2 < u.len()
                        &&& #[trigger] u[d2] < t[d2]
                        &&& (forall|m: int| 0 <= m < d2 ==> u[m] == t[m])
                    };
                assert(d2 > k) by {
                    if d2 < k {
                        assert(u[d2] == s[d2]);
                        assert(t[d2] == s[d2]);
                    }
                }
                // The rival's entry at the first difference sits in the
                // step's ascending suffix, so it cannot be smaller.
                lemma_suffix_multisets(u, t, d2);
                assert(t.skip(d2).to_multiset().count(u[d2]) > 0) by {
                    u.skip(d2).to_multiset_ensures();
                    assert(u.skip(d2)[0] == u[d2]);
                    assert(u.skip(d2).contains(u[d2]));
                }
                lemma_multiset_index(t.skip(d2), u[d2]);
                let target = u[d2];
                let idx2 = choose|idx2: int|
                    0 <= idx2 < t.skip(d2).len() && t.skip(d2)[idx2] == target;
                assert(t[d2 + idx2] == u[d2]);
                if idx2 > 0 {
                    let wa = len + k - (d2 + idx2);
                    let wb = len + k - d2;
                    lemma_swapped_suffix_non_increasing(s, k, j, wa, wb);
                    assert(t[d2] == w[wb]);
                    assert(t[d2 + idx2] == w[wa]);
                }
                assert(false);
            }
        }
    }
}

/// The suffix after the pivot, with the pivot's old entry swapped in, is
/// still non-increasing.
proof fn lemma_swapped_suffix_non_increasing(s: Seq<usize>, k: int, j: int, a: int, b: int)
    requires
        0 <= k < j < s.len(),
        s[k] < s[k + 1],
        non_increasing_from(s, k + 1),
        s[j] > s[k],
        forall|m: int| j < m < s.len() ==> s[m] <= s[k],
        k < a <= b < s.len(),
    ensures
        s.update(k, s[j]).update(j, s[k])[a] >= s.update(k, s[j]).update(j, s[k])[b],
{
    let w = s.update(k, s[j]).update(j, s[k]);
    if a == b {
    } else if a == j {
        assert(w[a] == s[k]);
        assert(w[b] == s[b]);
    } else if b == j {
        assert(w[b] == s[k]);
        assert(w[a] == s[a]);
        lemma_non_increasing_from_gap(s, k + 1, a, j);
        assert(s[a] >= s[j]);
    } else {
        assert(w[a] == s[a]);
        assert(w[b] == s[b]);
        if b < j {
            lemma_non_increasing_from_gap(s, k + 1, a, b);
        } else if a > j {
            lemma_non_increasing_from_gap(s, k + 1, a, b);
        } else {
            lemma_non_increasing_from_gap(s, k + 1, a, j);
            assert(s[a] >= s[j]);
            assert(s[b] <= s[k]);
        }
    }
}

proof fn lemma_non_increasing_from_gap(s: Seq<usize>, from: int, a: int, b: int)
    requires
        non_increasing_from(s, from),
        from <= a <= b < s.len(),
        0 <= from,
    ensures
        s[a] >= s[b],
    decreases b - a,
{
    if a < b {
        lemma_non_increasing_from_gap(s, from, a, b - 1);
    }
}

/// Every suffix pair from `from` onward is non-increasing; the sequence
/// admits no later rearrangement exactly when this holds from the start.
pub open spec fn non_increasing_from(s: Seq<usize>, from: int) -> bool {
    forall|m: int| from <= m && m + 1 < s.len() ==> #[trigger] s[m] >= s[m + 1]
}

/// The successor of a permutation with pivot `k` and swap position `j`: the
/// two entries exchange and the suffix after `k` reverses.
pub open spec fn permutation_step(s: Seq<usize>, k: int, j: int) -> Seq<usize> {
    let u = s.update(k, s[j]).update(j, s[k]);
    Seq::new(s.len(), |m: int| if m <= k { u[m] } else { u[s.len() + k - m] })
}

/// The pivot of the next-permutation step: the rightmost position followed
/// by a strictly larger entry, or `None` for a non-increasing sequence.
pub fn get_first(permutation: &Vec<usize>) -> (r: Option<usize>)
    requires
        permutation@.len() >= 1,
    ensures
        match r {
            Some(k) => {
                &&& k + 1 < permutation@.len()
                &&& permutation@[k as int] < permutation@[k as int + 1]
                &&& non_increasing_from(permutation@, k as int + 1)
            },
            None => non_increasing_from(permutation@, 0),
        },
{
    if permutation.len() == 1 {
        return None;
    }
    let mut index: usize = permutation.len() - 1;
    while index > 0
        invariant
            index < permutation@.len(),
            non_increasing_from(permutation@, index as int),
        decreases index,
    {
        index = index - 1;
        if permutation[index] < permutation[index + 1] {
            return Some(index);
        }
    }
    None
}

/// Exchanges the entries at `i` and `j`.
pub fn swap(permutation: &mut Vec<usize>, i: usize, j: usize)
    requires
        i < old(permutation)@.len(),
        j < old(permutation)@.len(),
    ensures
        final(permutation)@ == old(permutation)@.update(
            i as int,
            old(permutation)@[j as int],
        ).update(j as int, old(permutation)@[i as int]),
{
    let value_i: usize = permutation[i];
    let value_j: usize = permutation[j];
    permutation.set(i, value_j);
    permutation.set(j, value_i);
    proof {
        assert(permutation@ =~= old(permutation)@.update(
            i as int,
            old(permutation)@[j as int],
        ).update(j as int, old(permutation)@[i as int]));
    }
}

/// The next lexicographic rearrangement of `permutation`, or `None` when it
/// is already non-increasing. Entries are preserved: the result draws every
/// value from the input.
pub fn next_permutation(permutation: Vec<usize>) -> (r: Option<Vec<usize>>)
    requires
        permutation@.len() >= 1,
    ensures
        (r is None) <==> non_increasing_from(permutation@, 0),
        r matches Some(t) ==> {
            &&& t@.len() == permutation@.len()
            &&& t@.to_multiset() == permutation@.to_multiset()
            &&& (forall|m: int| 0 <= m < t@.len() ==> permutation@.contains(t@[m]))
            &&& (exists|k: int, j: int|
                {
                    &&& 0 <= k < j < permutation@.len()
                    &&& permutation@[k] < permutation@[k + 1]
                    &&& non_increasing_from(permutation@, k + 1)
                    &&& permutation@[j] > permutation@[k]
                    &&& (forall|m: int| j < m < permutation@.len() ==> permutation@[m]
                        <= permutation@[k])
                    &&& t@ =~= permutation_step(permutation@, k, j)
                })
        },
{
    let ghost s = permutation@;
    let first: usize = match get_first(&permutation) {
        None => {
            return None;
        },
        Some(k) => k,
    };
    let mut p = permutation;
    let length: usize = p.len();
    let mut to_swap: usize = length - 1;
    while p[first] >= p[to_swap]
        invariant
            s == permutation@,
            p@ == s,
            length == s.len(),
            first + 1 < s.len(),
            s[first as int] < s[first as int + 1],
            non_increasing_from(s, first as int + 1),
            first < to_swap < s.len(),
            forall|m: int| to_swap < m < s.len() ==> s[m] <= s[first as int],
        decreases to_swap,
    {
        proof {
            if to_swap == first + 1 {
                assert(false);
            }
        }
        to_swap = to_swap - 1;
    }
    let ghost k = first as int;
    let ghost jj = to_swap as int;
    swap(&mut p, first, to_swap);
    let ghost u = s.update(k, s[jj]).update(jj, s[k]);
    let mut lo: usize = first + 1;
    let mut hi: usize = length - 1;
    while lo < hi
        invariant
            s == permutation@,
            p@.len() == s.len(),
            length == s.len(),
            0 <= k,
            k + 1 <= lo as int,
            lo as int <= hi as int + 1,
            hi < s.len(),
            u.len() == s.len(),
            lo as int - (k + 1) == (s.len() - 1) - hi as int,
            forall|m: int| 0 <= m <= k ==> p@[m] == u[m],
            forall|m: int| k < m && m < lo as int ==> p@[m] == u[s.len() + k - m],
            forall|m: int| lo as int <= m <= hi as int ==> p@[m] == u[m],
            forall|m: int| (hi as int) < m && m < s.len() ==> p@[m] == u[s.len() + k - m],
        decreases hi + 1 - lo,
    {
        let ghost before = p@;
        let ghost old_lo = lo as int;
        let ghost old_hi = hi as int;
        swap(&mut p, lo, hi);
        lo = lo + 1;
        hi = hi - 1;
        proof {
            let chain = before.update(old_lo, before[old_hi]).update(old_hi, before[old_lo]);
            assert(p@ == chain);
            assert(chain[old_lo] == before[old_hi]);
            assert(s.len() + k - old_lo == old_hi);
            assert(s.len() + k - old_hi == old_lo);
            assert forall|m: int| k < m && m < lo as int implies p@[m] == u[s.len() + k - m] by {
                if m < old_lo {
                    assert(chain[m] == before[m]);
                } else {
                    assert(m == old_lo);
                    assert(before[old_hi] == u[old_hi]);
                }
            }
            assert forall|m: int| (hi as int) < m && m < s.len() implies p@[m] == u[s.len() + k - m] by {
                if m > old_hi {
                    assert(chain[m] == before[m]);
                } else {
                    assert(m == old_hi);
                    assert(chain[m] == before[old_lo]);
                    assert(before[old_lo] == u[old_lo]);
                }
            }
            assert forall|m: int| lo as int <= m <= hi as int implies p@[m] == u[m] by {
                assert(chain[m] == before[m]);
            }
            assert forall|m: int| 0 <= m <= k implies p@[m] == u[m] by {
                assert(chain[m] == before[m]);
            }
        }
    }
    proof {
        assert(p@ =~= permutation_step(s, k, jj));
        lemma_permutation_step_multiset(s, k, jj);
        assert forall|m: int| 0 <= m < p@.len() implies s.contains(p@[m]) by {
            let source = if m <= k {
                m
            } else {
                s.len() + k - m
            };
            assert(p@[m] == u[source]);
            if source == k {
                assert(u[source] == s[jj]);
            } else if source == jj {
                assert(u[source] == s[k]);
            } else {
                assert(u[source] == s[source]);
            }
        }
    }
    Some(p)
}

} // verus!
