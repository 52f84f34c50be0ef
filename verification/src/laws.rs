use vstd::prelude::*;

use crate::values::{Value, Val, val_of, vals_of, lemma_vals_of};
use crate::primitive::Cycle;
use crate::enumerators::{Subsequences, CartesianPower, lemma_mask_val_bound, lemma_digits_val_bound,
    select, mask_select};
use crate::enumerators::{mask_val, mask_inc, lemma_mask_inc_val, digits_val, digits_inc,
    lemma_digits_inc_val, is_last_ascent, is_last_larger, no_ascent, perm_next_of, count_larger,
    fact, perm_rem_sum, perm_remaining};
use crate::stream::{Stream, Callable, pull_rel, stream_eq, stream_wf};

verus! {

broadcast use vstd::std_specs::vec::group_vec_axioms, vstd::seq::group_seq_axioms;

/// Law: a cycle that started at the beginning of its buffer and was pulled
/// `i` times (so that its cursor reads `i` modulo the buffer length) indexes
/// at offset zero to the buffer element `i` modulo the length.
pub proof fn lemma_cycle_index_after_pulls(c: Cycle, i: nat)
    requires
        c.wf(),
        c.1 as int == i as int % (c.0@.len() as int),
    ensures
        c.item(0) == val_of(c.0@[i as int % (c.0@.len() as int)]),
{
    let n = c.0@.len() as int;
    vstd::arithmetic::div_mod::lemma_mod_bound(i as int, n);
    vstd::arithmetic::div_mod::lemma_small_mod(c.1 as nat, n as nat);
}

/// Pulling a cycle once carries a cursor reading `i mod n` to one reading
/// `(i + 1) mod n`, so the hypothesis of `lemma_cycle_index_after_pulls`
/// propagates across pulls.
pub proof fn lemma_cycle_cursor_steps(n: int, i: int)
    requires
        0 < n,
        0 <= i,
    ensures
        (i % n + 1) % n == (i + 1) % n,
{
    vstd::arithmetic::div_mod::lemma_mod_bound(i, n);
    vstd::arithmetic::div_mod::lemma_mod_twice(i, n);
    vstd::arithmetic::div_mod::lemma_mod_adds(i % n, 1, n);
    vstd::arithmetic::div_mod::lemma_mod_adds(i, 1, n);
    vstd::arithmetic::div_mod::lemma_mod_bound(1, n);
    if n == 1 {
        vstd::arithmetic::div_mod::lemma_mod_self_0(n);
    } else {
        vstd::arithmetic::div_mod::lemma_small_mod(1nat, n as nat);
    }
}

/// Law: the reversal of a cycle mirrors it exactly: the item the reversed
/// cycle yields on its `j`-th pull is the item the original yields on its
/// `(n - 1 - j)`-th pull, for every `j` within one revolution.
pub proof fn lemma_cycle_reverse_mirror(c: Cycle, r: Cycle, j: int)
    requires
        c.wf(),
        r.0@.len() == c.0@.len(),
        vals_of(r.0@) == vals_of(c.0@).reverse(),
        r.1 as int == (c.0@.len() - c.1) % (c.0@.len() as int),
        0 <= j < c.0@.len(),
    ensures
        r.wf(),
        r.item(j) == c.item(c.0@.len() - 1 - j),
{
    broadcast use lemma_vals_of;

    let n = c.0@.len() as int;
    let a = c.1 as int;
    vstd::arithmetic::div_mod::lemma_mod_bound(n - a, n);
    let x = (r.1 + j) % n;
    let y = (a + (n - 1 - j)) % n;
    vstd::arithmetic::div_mod::lemma_mod_bound(r.1 + j, n);
    vstd::arithmetic::div_mod::lemma_mod_bound(a + (n - 1 - j), n);
    assert(x == (n - a + j) % n) by {
        vstd::arithmetic::div_mod::lemma_mod_twice(n - a, n);
        vstd::arithmetic::div_mod::lemma_mod_adds(n - a, j, n);
        vstd::arithmetic::div_mod::lemma_mod_adds((n - a) % n, j, n);
        vstd::arithmetic::div_mod::lemma_mod_bound(j, n);
        vstd::arithmetic::div_mod::lemma_small_mod(j as nat, n as nat);
        vstd::arithmetic::div_mod::lemma_mod_bound((n - a) % n + j, n);
        vstd::arithmetic::div_mod::lemma_mod_twice((n - a) % n + j, n);
    }
    assert((x + y) % n == (n - 1) % n) by {
        vstd::arithmetic::div_mod::lemma_mod_adds(n - a + j, a + (n - 1 - j), n);
        vstd::arithmetic::div_mod::lemma_mod_adds((n - a + j) % n, (a + (n - 1 - j)) % n, n);
        vstd::arithmetic::div_mod::lemma_mod_twice(n - a + j, n);
        vstd::arithmetic::div_mod::lemma_mod_twice(a + (n - 1 - j), n);
        assert((n - a + j) + (a + (n - 1 - j)) == 2 * n - 1);
        vstd::arithmetic::div_mod::lemma_mod_sub_multiples_vanish(2 * n - 1, n);
        vstd::arithmetic::div_mod::lemma_mod_sub_multiples_vanish(n - 1, n);
        vstd::arithmetic::div_mod::lemma_mod_twice((n - a + j) % n + (a + (n - 1 - j)) % n, n);
    }
    vstd::arithmetic::div_mod::lemma_small_mod((n - 1) as nat, n as nat);
    assert(x + y == n - 1) by {
        if x + y < n {
            vstd::arithmetic::div_mod::lemma_small_mod((x + y) as nat, n as nat);
        } else {
            vstd::arithmetic::div_mod::lemma_mod_sub_multiples_vanish(x + y, n);
            vstd::arithmetic::div_mod::lemma_small_mod((x + y - n) as nat, n as nat);
        }
    }
    assert(vals_of(r.0@)[x] == vals_of(c.0@).reverse()[x]);
    assert(vals_of(c.0@).reverse()[x] == vals_of(c.0@)[n - 1 - x]);
    assert(r.item(j) == val_of(r.0@[x]));
    assert(c.item(n - 1 - j) == val_of(c.0@[y]));
}

/// Law: the subsequences enumerator's remaining count starts at the full
/// subset count (the all-clear mask encodes zero) and goes down by exactly
/// one with each mask successor.
pub proof fn lemma_subsequences_count(m: Seq<bool>)
    ensures
        (forall|i: int| 0 <= i < m.len() ==> !m[i]) ==> mask_val(m) == 0,
        (exists|i: int| 0 <= i < m.len() && !m[i]) ==> mask_val(mask_inc(m)) == mask_val(m) + 1,
    decreases m.len(),
{
    if m.len() > 0 {
        lemma_subsequences_count(m.drop_last());
        if forall|i: int| 0 <= i < m.len() ==> !m[i] {
            assert(forall|i: int| 0 <= i < m.drop_last().len() ==> !(m.drop_last()[i]));
            assert(!m.last());
        }
    }
    if exists|i: int| 0 <= i < m.len() && !m[i] {
        lemma_mask_inc_val(m);
    }
}

/// Law: the Cartesian-power enumerator's remaining count starts at the full
/// tuple count (the all-zero digits encode zero) and goes down by exactly
/// one with each odometer successor.
pub proof fn lemma_cartesian_count(d: Seq<usize>, m: nat)
    requires
        m <= usize::MAX,
        forall|i: int| 0 <= i < d.len() ==> d[i] < m,
    ensures
        (forall|i: int| 0 <= i < d.len() ==> d[i] == 0) ==> digits_val(d, m) == 0,
        (exists|i: int| 0 <= i < d.len() && d[i] + 1 < m) ==> digits_val(digits_inc(d, m), m)
            == digits_val(d, m) + 1,
    decreases d.len(),
{
    if d.len() > 0 {
        assert(forall|i: int| 0 <= i < d.drop_last().len() ==> d.drop_last()[i] < m);
        lemma_cartesian_count(d.drop_last(), m);
        if forall|i: int| 0 <= i < d.len() ==> d[i] == 0 {
            assert(forall|i: int| 0 <= i < d.drop_last().len() ==> d.drop_last()[i] == 0);
            assert(d.last() == 0);
            assert(m * digits_val(d.drop_last(), m) == 0) by (nonlinear_arith)
                requires
                    digits_val(d.drop_last(), m) == 0,
            ;
        }
    }
    if exists|i: int| 0 <= i < d.len() && d[i] + 1 < m {
        lemma_digits_inc_val(d, m);
    }
}

/// The exact number of pulls the subsequences enumerator still yields.
pub open spec fn subseq_remaining(x: Subsequences) -> nat {
    match x.1 {
        None => 0,
        Some(m) => (vstd::arithmetic::power2::pow2(m@.len() as nat) - mask_val(m@)) as nat,
    }
}

/// Law: every productive pull of the subsequences enumerator brings its
/// remaining count down by exactly one, so from the all-clear mask over an
/// `n`-element buffer it yields exactly `2^n` items and then goes terminal.
pub proof fn lemma_subsequences_pull_decrements(pre: Subsequences, post: Subsequences)
    requires
        pre.1 is Some,
        ({
            let m = pre.1->Some_0;
            if forall|i: int| 0 <= i < m@.len() ==> m@[i] {
                post.1 is None
            } else {
                post.1 matches Some(m2) && m2@ == mask_inc(m@)
            }
        }),
    ensures
        subseq_remaining(post) + 1 == subseq_remaining(pre),
{
    let m = pre.1->Some_0;
    lemma_mask_val_bound(m@);
    if forall|i: int| 0 <= i < m@.len() ==> m@[i] {
    } else {
        assert(exists|i: int| 0 <= i < m@.len() && !m@[i]) by {
            let i = choose|i: int| 0 <= i < m@.len() && !m@[i];
            assert(!m@[i]);
        }
        lemma_mask_inc_val(m@);
    }
}

/// The exact number of pulls the Cartesian-power enumerator still yields.
pub open spec fn cartesian_remaining(x: CartesianPower) -> nat {
    match x.1 {
        None => 0,
        Some(d) => (vstd::arithmetic::power::pow(x.0@.len() as int, d@.len() as nat)
            - digits_val(d@, x.0@.len() as nat)) as nat,
    }
}

/// An all-maximal digit vector encodes the last value of its width.
pub proof fn lemma_digits_val_all_max(d: Seq<usize>, m: nat)
    requires
        1 <= m,
        forall|i: int| 0 <= i < d.len() ==> #[trigger] d[i] + 1 == m,
    ensures
        digits_val(d, m) == vstd::arithmetic::power::pow(m as int, d.len() as nat) - 1,
    decreases d.len(),
{
    if d.len() == 0 {
        assert(vstd::arithmetic::power::pow(m as int, 0) == 1) by {
            vstd::arithmetic::power::lemma_pow0(m as int);
        }
    } else {
        assert(forall|i: int|
            0 <= i < d.drop_last().len() ==> #[trigger] d.drop_last()[i] + 1 == m);
        lemma_digits_val_all_max(d.drop_last(), m);
        let p1 = vstd::arithmetic::power::pow(m as int, (d.len() - 1) as nat);
        let p2 = vstd::arithmetic::power::pow(m as int, d.len() as nat);
        assert(p2 == m * p1) by {
            vstd::arithmetic::power::lemma_pow1(m as int);
            vstd::arithmetic::power::lemma_pow_adds(m as int, 1, (d.len() - 1) as nat);
        }
        assert(d.last() + 1 == m);
        assert(m * (p1 - 1) + (m - 1) == m * p1 - 1) by (nonlinear_arith);
    }
}

/// Law: every productive pull of the Cartesian-power enumerator brings its
/// remaining count down by exactly one, so from the all-zero digits over
/// an `m`-element buffer with `n` slots it yields exactly `m^n` items and
/// then goes terminal.
pub proof fn lemma_cartesian_pull_decrements(pre: CartesianPower, post: CartesianPower)
    requires
        pre.wf(),
        pre.1 is Some,
        post.0@.len() == pre.0@.len(),
        ({
            let d = pre.1->Some_0;
            if forall|i: int| 0 <= i < d@.len() ==> d@[i] + 1 == pre.0@.len() {
                post.1 is None
            } else {
                post.1 matches Some(d2) && d2@ == digits_inc(d@, pre.0@.len() as nat)
            }
        }),
    ensures
        cartesian_remaining(post) + 1 == cartesian_remaining(pre),
{
    let d = pre.1->Some_0;
    let m = pre.0@.len() as nat;
    assert(pre.0.len() == pre.0@.len());
    lemma_digits_val_bound(d@, m);
    if forall|i: int| 0 <= i < d@.len() ==> d@[i] + 1 == m {
        if d@.len() > 0 {
            assert(d@[0] < m);
        }
        assert(1 <= m || d@.len() == 0);
        if d@.len() == 0 {
            assert(vstd::arithmetic::power::pow(m as int, 0) == 1) by {
                vstd::arithmetic::power::lemma_pow0(m as int);
            }
            assert(digits_val(d@, m) == 0);
        } else {
            assert(forall|i: int| 0 <= i < d@.len() ==> #[trigger] d@[i] + 1 == m);
            lemma_digits_val_all_max(d@, m);
        }
    } else {
        assert(exists|i: int| 0 <= i < d@.len() && d@[i] + 1 < m) by {
            let i = choose|i: int| 0 <= i < d@.len() && d@[i] + 1 != m;
            assert(d@[i] < m);
            assert(d@[i] + 1 < m);
        }
        lemma_digits_inc_val(d@, m);
    }
}

/// Strictly-before in lexicographic order.
pub open spec fn lex_lt(a: Seq<usize>, b: Seq<usize>) -> bool {
    exists|k: int|
        0 <= k < a.len() && k < b.len() && (forall|j: int| 0 <= j < k ==> a[j] == b[j])
            && #[trigger] a[k] < #[trigger] b[k]
}

/// Law: each next-permutation step yields a strictly lexicographically
/// larger index vector, so the arrangements come out in strictly increasing
/// lexicographic order with no repeats.
pub proof fn lemma_perm_step_increases(v: Seq<usize>, inc: int, linc: int)
    requires
        is_last_ascent(v, inc),
        is_last_larger(v, inc, linc),
    ensures
        lex_lt(v, perm_next_of(v, inc, linc)),
{
    let w = perm_next_of(v, inc, linc);
    assert(w[inc] == v[linc]);
    assert(forall|j: int| 0 <= j < inc ==> v[j] == w[j]);
    assert(0 <= inc < v.len() && inc < w.len() && (forall|j: int| 0 <= j < inc ==> v[j] == w[j])
        && v[inc] < w[inc]);
}

/// Law: the rightmost-ascent pivot pair is unique, so the next-permutation
/// relation is a function of the state: pulling a cloned enumerator can
/// only reproduce the original's successor states and items.
pub proof fn lemma_perm_pivot_unique(v: Seq<usize>, i1: int, l1: int, i2: int, l2: int)
    requires
        is_last_ascent(v, i1),
        is_last_larger(v, i1, l1),
        is_last_ascent(v, i2),
        is_last_larger(v, i2, l2),
    ensures
        i1 == i2,
        l1 == l2,
{
    if i1 < i2 {
        assert(v[i2] >= v[i2 + 1]);
    }
    if i2 < i1 {
        assert(v[i1] >= v[i1 + 1]);
    }
    if l1 < l2 {
        assert(v[l2] <= v[i1]);
    }
    if l2 < l1 {
        assert(v[l1] <= v[i2]);
    }
}

/// Law: the next-permutation step only rearranges the index vector, so
/// with the strict lexicographic increase every pulled arrangement selects
/// the same positions of the buffer, each exactly once per state.
pub proof fn lemma_perm_step_preserves_contents(v: Seq<usize>, inc: int, linc: int)
    requires
        is_last_ascent(v, inc),
        is_last_larger(v, inc, linc),
    ensures
        perm_next_of(v, inc, linc).to_multiset() == v.to_multiset(),
{
    broadcast use vstd::seq_lib::to_multiset_update, vstd::seq_lib::lemma_multiset_commutative,
        vstd::seq_lib::to_multiset_contains, vstd::multiset::group_multiset_axioms,
        vstd::multiset::group_multiset_properties;

    let a = v[inc];
    let b = v[linc];
    let v1 = v.update(inc, b);
    let sw = v.update(inc, v[linc]).update(linc, v[inc]);
    let w = perm_next_of(v, inc, linc);
    assert(v1.to_multiset() == v.to_multiset().insert(b).remove(a));
    assert(v1[linc] == b);
    assert(sw.to_multiset() == v1.to_multiset().insert(a).remove(b));
    assert(v.contains(a) && v.contains(b));
    assert(sw.to_multiset() =~= v.to_multiset());
    let head = sw.take(inc + 1);
    let tail = sw.skip(inc + 1);
    assert(sw =~= head + tail);
    assert(w =~= head + tail.reverse());
    tail.lemma_reverse_to_multiset();
    assert((head + tail.reverse()).to_multiset() =~= head.to_multiset().add(
        tail.reverse().to_multiset(),
    ));
    assert((head + tail).to_multiset() =~= head.to_multiset().add(tail.to_multiset()));
    assert(w.to_multiset() =~= v.to_multiset());
}

/// Every entry at or after `lo` exceeding `x` is counted.
pub proof fn lemma_count_larger_all(v: Seq<usize>, lo: int, x: usize)
    requires
        0 <= lo <= v.len(),
        forall|j: int| lo <= j < v.len() ==> v[j] > x,
    ensures
        count_larger(v, lo, x) == v.len() - lo,
    decreases v.len() - lo,
{
    if lo < v.len() {
        lemma_count_larger_all(v, lo + 1, x);
    }
}

/// Law: at the first arrangement (the identity index vector) the
/// permutations enumerator's remaining count is the full factorial of the
/// buffer size.
pub proof fn lemma_permutations_initial_count(v: Seq<usize>)
    requires
        forall|j: int| 0 <= j < v.len() ==> v[j] == j,
    ensures
        perm_remaining(v) == fact(v.len() as nat),
{
    if v.len() == 0 {
    } else {
        lemma_perm_identity_sum(v, (v.len() - 1) as nat);
    }
}

/// At the identity vector the window sums telescope to a factorial.
proof fn lemma_perm_identity_sum(v: Seq<usize>, i: nat)
    requires
        i < v.len(),
        forall|j: int| 0 <= j < v.len() ==> v[j] == j,
    ensures
        perm_rem_sum(v, i) == fact((i + 1) as nat) - 1,
    decreases i,
{
    if i == 0 {
        assert(fact(1) == 1 * fact(0));
        assert(fact(0) == 1);
    } else {
        lemma_perm_identity_sum(v, (i - 1) as nat);
        let n = v.len() as int;
        assert(forall|j: int| n - i <= j < n ==> #[trigger] v[j] > v[n - 1 - i]);
        lemma_count_larger_all(v, n - i, v[n - 1 - i]);
        assert(count_larger(v, n - i, v[n - 1 - i]) == i);
        assert(fact((i + 1) as nat) == (i + 1) * fact(i));
        assert(fact(i) == i * fact((i - 1) as nat));
        assert(perm_rem_sum(v, i) == perm_rem_sum(v, (i - 1) as nat) + fact(i) * count_larger(
            v,
            v.len() - i,
            v[v.len() - 1 - i],
        ));
        assert(count_larger(v, v.len() - i, v[v.len() - 1 - i]) == i);
        assert(fact(i) * i + (fact(i) - 1) == (i + 1) * fact(i) - 1) by (nonlinear_arith);
        assert(fact(i) * count_larger(v, v.len() - i, v[v.len() - 1 - i]) == fact(i) * i);
    }
}

/// Selection only reads buffer contents: content-equal buffers select the
/// same items.
proof fn lemma_select_congruent(b1: Seq<Value>, b2: Seq<Value>, v: Seq<usize>)
    requires
        vals_of(b1) == vals_of(b2),
        forall|i: int| 0 <= i < v.len() ==> v[i] < b1.len(),
    ensures
        select(b1, v) == select(b2, v),
{
    broadcast use lemma_vals_of;

    assert forall|i: int| 0 <= i < v.len() implies select(b1, v)[i] == select(b2, v)[i] by {
        assert(vals_of(b1)[v[i] as int] == val_of(b1[v[i] as int]));
        assert(vals_of(b2)[v[i] as int] == val_of(b2[v[i] as int]));
    }
    assert(select(b1, v) =~= select(b2, v));
}

/// Masked selection only reads buffer contents.
proof fn lemma_mask_select_congruent(b1: Seq<Value>, b2: Seq<Value>, m: Seq<bool>)
    requires
        vals_of(b1) == vals_of(b2),
    ensures
        mask_select(b1, m) == mask_select(b2, m),
    decreases m.len(),
{
    broadcast use lemma_vals_of;

    if m.len() == 0 || b1.len() != m.len() {
    } else {
        assert(vals_of(b1).drop_last() =~= vals_of(b1.drop_last()));
        assert(vals_of(b2).drop_last() =~= vals_of(b2.drop_last()));
        lemma_mask_select_congruent(b1.drop_last(), b2.drop_last(), m.drop_last());
        assert(val_of(b1.last()) == vals_of(b1)[b1.len() - 1]);
        assert(val_of(b2.last()) == vals_of(b2)[b2.len() - 1]);
    }
}

/// Law: for the kinds that hold no callable, pulls from content-equal
/// streams — a clone and its source in particular — yield the same
/// outcome.
pub proof fn lemma_pull_congruent<F: Callable>(
    p: Stream<F>,
    q: Stream<F>,
    p2: Stream<F>,
    o1: Option<Result<Val, crate::values::Fault>>,
    n1: nat,
    q2: Stream<F>,
    o2: Option<Result<Val, crate::values::Fault>>,
    n2: nat,
)
    requires
        p is Repeat || p is Cycle || p is Range || p is Permutations || p is Combinations
            || p is Subsequences || p is CartesianPower,
        stream_wf(p),
        stream_wf(q),
        stream_eq(p, q),
        pull_rel(p, p2, o1, n1),
        pull_rel(q, q2, o2, n2),
    ensures
        o1 == o2,
{
    broadcast use lemma_vals_of;

    match (p, q) {
        (Stream::Cycle(c1), Stream::Cycle(c2)) => {
            let n = c1.0@.len() as int;
            vstd::arithmetic::div_mod::lemma_small_mod(c1.1 as nat, n as nat);
            assert(c1.item(0) == val_of(c1.0@[c1.1 as int]));
            assert(c2.item(0) == val_of(c2.0@[c2.1 as int]));
            assert(vals_of(c1.0@)[c1.1 as int] == val_of(c1.0@[c1.1 as int]));
            assert(vals_of(c2.0@)[c2.1 as int] == val_of(c2.0@[c2.1 as int]));
        },
        (Stream::Permutations(x1), Stream::Permutations(x2)) => {
            match (x1.1, x2.1) {
                (Some(v1), Some(v2)) => {
                    lemma_select_congruent(x1.0@, x2.0@, v1@);
                },
                _ => {},
            }
        },
        (Stream::Combinations(x1), Stream::Combinations(x2)) => {
            match (x1.1, x2.1) {
                (Some(v1), Some(v2)) => {
                    if v1@.len() <= x1.0@.len() {
                        assert(forall|i: int|
                            0 <= i < v1@.len() ==> #[trigger] v1@[i] < x1.0@.len());
                        lemma_select_congruent(x1.0@, x2.0@, v1@);
                    }
                },
                _ => {},
            }
        },
        (Stream::Subsequences(x1), Stream::Subsequences(x2)) => {
            match (x1.1, x2.1) {
                (Some(m1), Some(m2)) => {
                    lemma_mask_select_congruent(x1.0@, x2.0@, m1@);
                },
                _ => {},
            }
        },
        (Stream::CartesianPower(x1), Stream::CartesianPower(x2)) => {
            match (x1.1, x2.1) {
                (Some(d1), Some(d2)) => {
                    lemma_select_congruent(x1.0@, x2.0@, d1@);
                },
                _ => {},
            }
        },
        _ => {},
    }
}

/// Law: for the kinds that hold no callable, the item a pull yields is a
/// function of the stream's state alone. A clone carries a state with the
/// same content, so pulling the clone yields what the original would
/// yield, and the original — never borrowed by the clone — is unaffected.
pub proof fn lemma_pull_deterministic<F: Callable>(
    pre: Stream<F>,
    p1: Stream<F>,
    o1: Option<Result<Val, crate::values::Fault>>,
    n1: nat,
    p2: Stream<F>,
    o2: Option<Result<Val, crate::values::Fault>>,
    n2: nat,
)
    requires
        pre is Repeat || pre is Cycle || pre is Range || pre is Permutations
            || pre is Combinations || pre is Subsequences || pre is CartesianPower,
        pull_rel(pre, p1, o1, n1),
        pull_rel(pre, p2, o2, n2),
    ensures
        o1 == o2,
        pre is Repeat || pre is Cycle ==> p1 == p2,
{
}

} // verus!
