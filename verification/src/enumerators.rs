use vstd::prelude::*;

use crate::values::{Value, Val, Fault, val_of, vals_of, lemma_vals_of, clone_values};

verus! {

broadcast use vstd::std_specs::vec::group_vec_axioms, vstd::seq::group_seq_axioms;

/// The items of `buf` selected by the index vector `v`, in `v`'s order.
pub open spec fn select(buf: Seq<Value>, v: Seq<usize>) -> Seq<Val> {
    Seq::new(v.len(), |i: int| val_of(buf[v[i] as int]))
}

/// Materializes the selection `buf[v[0]], buf[v[1]], ...` as a list value.
#[verifier::loop_isolation(false)]
fn materialize_indices(buf: &Vec<Value>, v: &Vec<usize>) -> (out: Value)
    requires
        forall|i: int| 0 <= i < v@.len() ==> v@[i] < buf@.len(),
    ensures
        out.deep() == Val::List(select(buf@, v@)),
{
    broadcast use lemma_vals_of;

    let mut items: Vec<Value> = Vec::new();
    let mut i: usize = 0;
    while i < v.len()
        invariant
            i <= v@.len(),
            items@.len() == i,
            forall|j: int| 0 <= j < i ==> val_of(#[trigger] items@[j]) == val_of(
                buf@[v@[j] as int],
            ),
        decreases v@.len() - i,
    {
        items.push(buf[v[i]].clone());
        i += 1;
    }
    proof {
        assert(vals_of(items@) =~= select(buf@, v@));
    }
    Value::List(items)
}

/// The big-endian binary number a boolean mask encodes.
pub open spec fn mask_val(m: Seq<bool>) -> nat
    decreases m.len(),
{
    if m.len() == 0 {
        0
    } else {
        2 * mask_val(m.drop_last()) + (if m.last() {
            1nat
        } else {
            0nat
        })
    }
}

/// The mask's binary successor: set the rightmost clear bit and clear
/// everything to its right. On the all-set mask the result is unspecified
/// by its users (the enumerator goes terminal instead).
pub open spec fn mask_inc(m: Seq<bool>) -> Seq<bool>
    decreases m.len(),
{
    if m.len() == 0 {
        m
    } else if !m.last() {
        m.update(m.len() - 1, true)
    } else {
        mask_inc(m.drop_last()).push(false)
    }
}

/// The elements of `buf` whose mask bit is set, in buffer order.
pub open spec fn mask_select(buf: Seq<Value>, m: Seq<bool>) -> Seq<Val>
    decreases m.len(),
{
    if m.len() == 0 || buf.len() != m.len() {
        Seq::empty()
    } else {
        let rest = mask_select(buf.drop_last(), m.drop_last());
        if m.last() {
            rest.push(val_of(buf.last()))
        } else {
            rest
        }
    }
}

/// Incrementing a mask that still has a clear bit adds one to its value.
pub proof fn lemma_mask_inc_val(m: Seq<bool>)
    requires
        exists|i: int| 0 <= i < m.len() && !m[i],
    ensures
        mask_inc(m).len() == m.len(),
        mask_val(mask_inc(m)) == mask_val(m) + 1,
    decreases m.len(),
{
    if m.len() > 0 {
        if !m.last() {
            assert(mask_inc(m).drop_last() =~= m.drop_last());
            assert(mask_inc(m).last());
        } else {
            assert(exists|i: int| 0 <= i < m.drop_last().len() && !m.drop_last()[i]) by {
                let i = choose|i: int| 0 <= i < m.len() && !m[i];
                assert(!m.drop_last()[i]);
            }
            lemma_mask_inc_val(m.drop_last());
            assert(mask_inc(m).drop_last() =~= mask_inc(m.drop_last()));
            assert(!mask_inc(m).last());
        }
    }
}

/// A mask's value is below the count of masks of its length, with equality
/// to the maximum exactly on the all-set mask.
pub proof fn lemma_mask_val_bound(m: Seq<bool>)
    ensures
        mask_val(m) < vstd::arithmetic::power2::pow2(m.len() as nat),
        (mask_val(m) == vstd::arithmetic::power2::pow2(m.len() as nat) - 1) <==> (forall|i: int|
            0 <= i < m.len() ==> m[i]),
    decreases m.len(),
{
    if m.len() == 0 {
        assert(vstd::arithmetic::power2::pow2(0) == 1) by {
            vstd::arithmetic::power::lemma_pow0(2);
        }
    } else {
        vstd::arithmetic::power2::lemma_pow2_unfold(m.len() as nat);
        lemma_mask_val_bound(m.drop_last());
        if mask_val(m) == vstd::arithmetic::power2::pow2(m.len() as nat) - 1 {
            assert forall|i: int| 0 <= i < m.len() implies m[i] by {
                if i < m.len() - 1 {
                    assert(m.drop_last()[i]);
                }
            }
        }
        if forall|i: int| 0 <= i < m.len() ==> m[i] {
            assert forall|i: int| 0 <= i < m.drop_last().len() implies m.drop_last()[i] by {
                assert(m[i]);
            }
        }
    }
}

/// A mask's value splits off its first bit.
pub proof fn lemma_mask_val_first(m: Seq<bool>)
    requires
        m.len() > 0,
    ensures
        mask_val(m) == (if m[0] {
            vstd::arithmetic::power2::pow2((m.len() - 1) as nat)
        } else {
            0nat
        }) + mask_val(m.drop_first()),
    decreases m.len(),
{
    if m.len() == 1 {
        assert(m.drop_last().len() == 0);
        assert(m.drop_first().len() == 0);
        assert(vstd::arithmetic::power2::pow2(0) == 1) by {
            vstd::arithmetic::power::lemma_pow0(2);
        }
        assert(m.last() == m[0]);
    } else {
        vstd::arithmetic::power2::lemma_pow2_unfold((m.len() - 1) as nat);
        lemma_mask_val_first(m.drop_last());
        assert(m.drop_last()[0] == m[0]);
        assert(m.drop_last().drop_first() =~= m.drop_first().drop_last());
        assert(m.drop_first().last() == m.last());
        assert(mask_val(m.drop_first()) == 2 * mask_val(m.drop_first().drop_last()) + (
        if m.drop_first().last() {
            1nat
        } else {
            0nat
        }));
        assert(2 * vstd::arithmetic::power2::pow2((m.len() - 2) as nat)
            == vstd::arithmetic::power2::pow2((m.len() - 1) as nat));
        if m[0] {
            assert(mask_val(m.drop_last()) == vstd::arithmetic::power2::pow2((m.len() - 2) as nat)
                + mask_val(m.drop_last().drop_first()));
            assert(2 * mask_val(m.drop_last()) == 2 * vstd::arithmetic::power2::pow2(
                (m.len() - 2) as nat,
            ) + 2 * mask_val(m.drop_first().drop_last()));
        } else {
            assert(mask_val(m.drop_last()) == mask_val(m.drop_last().drop_first()));
        }
    }
}

/// `pow2` is monotone.
pub proof fn lemma_pow2_le(a: nat, b: nat)
    requires
        a <= b,
    ensures
        vstd::arithmetic::power2::pow2(a) <= vstd::arithmetic::power2::pow2(b),
{
    if a < b {
        vstd::arithmetic::power2::lemma_pow2_strictly_increases(a, b);
    }
}

/// Lazily enumerates the subsequences of a fixed buffer, in big-endian
/// binary order of their membership masks; `None` is the terminal state.
pub struct Subsequences(pub Vec<Value>, pub Option<Vec<bool>>);

impl Subsequences {
    /// Construction-time invariant: a live mask covers the buffer exactly.
    pub open spec fn wf(self) -> bool {
        match self.1 {
            Some(m) => m@.len() == self.0@.len(),
            None => true,
        }
    }

    /// Pulls the next subsequence: the one the current mask selects; the
    /// mask then advances to its binary successor, or the state goes
    /// terminal after the all-set mask.
    #[verifier::loop_isolation(false)]
    pub fn next(&mut self) -> (r: Option<Result<Value, Fault>>)
        requires
            old(self).wf(),
        ensures
            final(self).wf(),
            final(self).0 == old(self).0,
            old(self).1 is None ==> r is None && *final(self) == *old(self),
            old(self).1 matches Some(m) ==> {
                &&& r matches Some(Ok(out)) && out.deep() == Val::List(
                    mask_select(old(self).0@, m@),
                )
                &&& if forall|i: int| 0 <= i < m@.len() ==> m@[i] {
                    final(self).1 is None
                } else {
                    final(self).1 matches Some(m2) && m2@ == mask_inc(m@)
                }
            },
    {
        let buf_snapshot = &self.0;
        let out;
        match &self.1 {
            None => {
                return None;
            },
            Some(m) => {
                out = materialize_mask(buf_snapshot, m);
            },
        }
        let m = match &mut self.1 {
            None => {
                return None;
            },
            Some(m) => m,
        };
        let ghost m0 = m@;
        let mut j = m.len();
        while j > 0
            invariant
                j <= m@.len(),
                m@ == m0,
                forall|k: int| j <= k < m0.len() ==> m0[k],
            decreases j,
        {
            j -= 1;
            if !m[j] {
                m.set(j, true);
                let mut t = j + 1;
                while t < m.len()
                    invariant
                        j < t <= m@.len(),
                        m@.len() == m0.len(),
                        forall|k: int| 0 <= k < j ==> m@[k] == m0[k],
                        m@[j as int],
                        forall|k: int| j < k < t ==> !m@[k],
                        forall|k: int| t <= k < m@.len() ==> m@[k] == m0[k],
                    decreases m@.len() - t,
                {
                    m.set(t, false);
                    t += 1;
                }
                proof {
                    lemma_mask_inc_trailing(m0, j as int);
                    assert(m@ =~= mask_inc(m0));
                }
                return Some(Ok(out));
            }
        }
        self.1 = None;
        Some(Ok(out))
    }

    /// Reports the exact number of pulls that remain: the count of masks
    /// from the current one to the all-set one, inclusive.
    #[verifier::loop_isolation(false)]
    pub fn len(&self) -> (r: Option<usize>)
        requires
            self.wf(),
            self.1 is Some ==> vstd::arithmetic::power2::pow2(self.0@.len() as nat)
                <= usize::MAX,
        ensures
            match self.1 {
                None => r == Some(0usize),
                Some(m) => r matches Some(u) && u as nat == vstd::arithmetic::power2::pow2(
                    m@.len() as nat,
                ) - mask_val(m@),
            },
    {
        let m = match &self.1 {
            None => {
                return Some(0);
            },
            Some(m) => m,
        };
        let ghost n = m@.len() as nat;
        let mut cur: usize = 1;
        let mut acc: usize = 0;
        let mut i = m.len();
        proof {
            assert(vstd::arithmetic::power2::pow2(0) == 1) by {
                vstd::arithmetic::power::lemma_pow0(2);
            }
            assert(m@.skip(m@.len() as int) =~= Seq::<bool>::empty());
        }
        while i > 0
            invariant
                i <= m@.len(),
                cur as nat == vstd::arithmetic::power2::pow2((m@.len() - i) as nat),
                acc as nat + 1 + mask_val(m@.skip(i as int)) == cur as nat,
            decreases i,
        {
            proof {
                let k = (m@.len() - i) as nat;
                vstd::arithmetic::power2::lemma_pow2_unfold((k + 1) as nat);
                lemma_pow2_le((k + 1) as nat, n);
                lemma_mask_val_first(m@.skip(i - 1));
                assert(m@.skip(i - 1).drop_first() =~= m@.skip(i as int));
                assert(m@.skip(i - 1)[0] == m@[i - 1]);
                assert(m@.skip(i - 1).len() - 1 == k);
            }
            i -= 1;
            if !m[i] {
                acc = acc + cur;
            }
            cur = cur * 2;
        }
        proof {
            assert(m@.skip(0) =~= m@);
            lemma_mask_val_bound(m@);
        }
        Some(acc + 1)
    }
}

/// A mask whose bits right of `j` are all set, and clear at `j`, increments
/// to: unchanged left of `j`, set at `j`, clear right of `j`.
pub proof fn lemma_mask_inc_trailing(m: Seq<bool>, j: int)
    requires
        0 <= j < m.len(),
        !m[j],
        forall|k: int| j < k < m.len() ==> m[k],
    ensures
        mask_inc(m) =~= Seq::new(
            m.len(),
            |i: int|
                if i < j {
                    m[i]
                } else {
                    i == j
                },
        ),
    decreases m.len(),
{
    if j == m.len() - 1 {
    } else {
        lemma_mask_inc_trailing(m.drop_last(), j);
    }
}

/// Materializes the masked selection of the buffer as a list value.
#[verifier::loop_isolation(false)]
fn materialize_mask(buf: &Vec<Value>, m: &Vec<bool>) -> (out: Value)
    requires
        m@.len() == buf@.len(),
    ensures
        out.deep() == Val::List(mask_select(buf@, m@)),
{
    broadcast use lemma_vals_of;

    let mut items: Vec<Value> = Vec::new();
    let mut i: usize = 0;
    while i < m.len()
        invariant
            i <= m@.len(),
            vals_of(items@) == mask_select(buf@.take(i as int), m@.take(i as int)),
        decreases m@.len() - i,
    {
        proof {
            assert(buf@.take(i + 1).drop_last() =~= buf@.take(i as int));
            assert(m@.take(i + 1).drop_last() =~= m@.take(i as int));
            assert(buf@.take(i + 1).last() == buf@[i as int]);
            assert(m@.take(i + 1).last() == m@[i as int]);
        }
        let ghost prev = items@;
        if m[i] {
            items.push(buf[i].clone());
            proof {
                assert(items@.drop_last() =~= prev);
                assert(vals_of(items@) == vals_of(prev).push(val_of(items@.last())));
                assert(vals_of(items@) == mask_select(buf@.take(i + 1), m@.take(i + 1)));
            }
        } else {
            proof {
                assert(vals_of(items@) == mask_select(buf@.take(i + 1), m@.take(i + 1)));
            }
        }
        i += 1;
    }
    proof {
        assert(buf@.take(buf@.len() as int) =~= buf@);
        assert(m@.take(m@.len() as int) =~= m@);
    }
    Value::List(items)
}

/// The big-endian base-`m` number a digit vector encodes.
pub open spec fn digits_val(d: Seq<usize>, m: nat) -> nat
    decreases d.len(),
{
    if d.len() == 0 {
        0
    } else {
        (m * digits_val(d.drop_last(), m) + d.last()) as nat
    }
}

/// The odometer successor: increment the last digit, carrying leftward past
/// digits that overflow back to zero. On the all-maximal vector the result
/// is unspecified by its users (the enumerator goes terminal instead).
pub open spec fn digits_inc(d: Seq<usize>, m: nat) -> Seq<usize>
    decreases d.len(),
{
    if d.len() == 0 {
        d
    } else if d.last() + 1 < m {
        d.update(d.len() - 1, (d.last() + 1) as usize)
    } else {
        digits_inc(d.drop_last(), m).push(0)
    }
}

/// A digit vector's value splits off its first digit.
pub proof fn lemma_digits_val_first(d: Seq<usize>, m: nat)
    requires
        d.len() > 0,
        0 < m,
    ensures
        digits_val(d, m) == d[0] * vstd::arithmetic::power::pow(m as int, (d.len() - 1) as nat)
            + digits_val(d.drop_first(), m),
    decreases d.len(),
{
    vstd::arithmetic::power::lemma_pow_positive(m as int, (d.len() - 1) as nat);
    if d.len() == 1 {
        assert(d.drop_last().len() == 0);
        assert(d.drop_first().len() == 0);
        assert(vstd::arithmetic::power::pow(m as int, 0) == 1) by {
            vstd::arithmetic::power::lemma_pow0(m as int);
        }
        assert(d.last() == d[0]);
        assert((d[0] as int) * 1 == d[0]) by (nonlinear_arith);
        assert(digits_val(d.drop_last(), m) == 0);
        assert(m * digits_val(d.drop_last(), m) == 0) by (nonlinear_arith)
            requires
                digits_val(d.drop_last(), m) == 0,
        ;
        assert(digits_val(d, m) == d.last());
        assert((d[0] as int) * vstd::arithmetic::power::pow(m as int, 0) == d[0]);
    } else {
        lemma_digits_val_first(d.drop_last(), m);
        assert(d.drop_last()[0] == d[0]);
        assert(d.drop_last().drop_first() =~= d.drop_first().drop_last());
        assert(d.drop_first().last() == d.last());
        let p1 = vstd::arithmetic::power::pow(m as int, (d.len() - 2) as nat);
        let p2 = vstd::arithmetic::power::pow(m as int, (d.len() - 1) as nat);
        assert(p2 == m * p1) by {
            vstd::arithmetic::power::lemma_pow1(m as int);
            vstd::arithmetic::power::lemma_pow_adds(m as int, 1, (d.len() - 2) as nat);
        }
        assert(digits_val(d.drop_first(), m) == m * digits_val(d.drop_first().drop_last(), m)
            + d.drop_first().last());
        assert(digits_val(d, m) == m * digits_val(d.drop_last(), m) + d.last());
        assert(digits_val(d.drop_last(), m) == (d[0] as int) * p1 + digits_val(
            d.drop_first().drop_last(),
            m,
        ));
        assert(m * ((d[0] as int) * p1 + digits_val(d.drop_first().drop_last(), m)) == (
        d[0] as int) * (m * p1) + m * digits_val(d.drop_first().drop_last(), m))
            by (nonlinear_arith);
        assert(digits_val(d.drop_first(), m) == m * digits_val(d.drop_first().drop_last(), m)
            + d.drop_first().last());
        assert(digits_val(d, m) == (d[0] as int) * p2 + digits_val(d.drop_first(), m))
            by (nonlinear_arith)
            requires
                digits_val(d, m) == m * digits_val(d.drop_last(), m) + d.last(),
                digits_val(d.drop_last(), m) == (d[0] as int) * p1 + digits_val(
                    d.drop_first().drop_last(),
                    m,
                ),
                digits_val(d.drop_first(), m) == m * digits_val(d.drop_first().drop_last(), m)
                    + d.drop_first().last(),
                d.drop_first().last() == d.last(),
                p2 == m * p1,
        ;
    }
}

/// A digit vector with all digits below `m` encodes a value below `m` to
/// the vector's length.
pub proof fn lemma_digits_val_bound(d: Seq<usize>, m: nat)
    requires
        forall|i: int| 0 <= i < d.len() ==> d[i] < m,
    ensures
        digits_val(d, m) < vstd::arithmetic::power::pow(m as int, d.len() as nat),
    decreases d.len(),
{
    if d.len() == 0 {
        assert(vstd::arithmetic::power::pow(m as int, 0) == 1) by {
            vstd::arithmetic::power::lemma_pow0(m as int);
        }
    } else {
        assert(forall|i: int| 0 <= i < d.drop_last().len() ==> d.drop_last()[i] < m);
        lemma_digits_val_bound(d.drop_last(), m);
        let p1 = vstd::arithmetic::power::pow(m as int, (d.len() - 1) as nat);
        let p2 = vstd::arithmetic::power::pow(m as int, d.len() as nat);
        assert(p2 == m * p1) by {
            vstd::arithmetic::power::lemma_pow1(m as int);
            vstd::arithmetic::power::lemma_pow_adds(m as int, 1, (d.len() - 1) as nat);
        }
        assert(digits_val(d.drop_last(), m) + 1 <= p1);
        assert(m * digits_val(d.drop_last(), m) + m <= m * p1) by (nonlinear_arith)
            requires
                digits_val(d.drop_last(), m) + 1 <= p1,
                m >= 0,
        ;
    }
}

/// Incrementing a digit vector that is not all-maximal adds one to its value.
pub proof fn lemma_digits_inc_val(d: Seq<usize>, m: nat)
    requires
        m <= usize::MAX,
        forall|i: int| 0 <= i < d.len() ==> d[i] < m,
        exists|i: int| 0 <= i < d.len() && d[i] + 1 < m,
    ensures
        digits_inc(d, m).len() == d.len(),
        forall|i: int| 0 <= i < d.len() ==> digits_inc(d, m)[i] < m,
        digits_val(digits_inc(d, m), m) == digits_val(d, m) + 1,
    decreases d.len(),
{
    if d.len() > 0 {
        if d.last() + 1 < m {
            assert(digits_inc(d, m).drop_last() =~= d.drop_last());
            assert(digits_inc(d, m).last() == d.last() + 1);
        } else {
            assert(exists|i: int| 0 <= i < d.drop_last().len() && d.drop_last()[i] + 1 < m) by {
                let i = choose|i: int| 0 <= i < d.len() && d[i] + 1 < m;
                assert(d.drop_last()[i] + 1 < m);
            }
            lemma_digits_inc_val(d.drop_last(), m);
            assert(digits_inc(d, m).drop_last() =~= digits_inc(d.drop_last(), m));
            assert(digits_inc(d, m).last() == 0);
            assert(d.last() + 1 == m);
            assert(m * (digits_val(d.drop_last(), m) + 1) == m * digits_val(d.drop_last(), m)
                + m) by (nonlinear_arith);
            assert(digits_val(digits_inc(d, m), m) == m * digits_val(
                digits_inc(d.drop_last(), m),
                m,
            ) + 0);
        }
    }
}

/// A digit vector whose digits right of `j` are all maximal, with room at
/// `j`, increments to: unchanged left of `j`, one more at `j`, zero right
/// of `j`.
pub proof fn lemma_digits_inc_trailing(d: Seq<usize>, m: nat, j: int)
    requires
        m <= usize::MAX,
        0 <= j < d.len(),
        d[j] + 1 < m,
        forall|k: int| j < k < d.len() ==> d[k] + 1 == m,
    ensures
        digits_inc(d, m) =~= Seq::new(
            d.len(),
            |i: int|
                if i < j {
                    d[i]
                } else if i == j {
                    (d[j] + 1) as usize
                } else {
                    0usize
                },
        ),
    decreases d.len(),
{
    if j == d.len() - 1 {
    } else {
        lemma_digits_inc_trailing(d.drop_last(), m, j);
    }
}

/// Lazily enumerates the `n`-fold Cartesian power of a fixed buffer in
/// odometer (base-`m` counting) order; `None` is the terminal state.
pub struct CartesianPower(pub Vec<Value>, pub Option<Vec<usize>>);

impl CartesianPower {
    /// Construction-time invariant: every digit indexes the buffer.
    pub open spec fn wf(self) -> bool {
        match self.1 {
            Some(d) => forall|i: int| 0 <= i < d@.len() ==> d@[i] < self.0@.len(),
            None => true,
        }
    }

    /// Pulls the next tuple: the one the current digits select; the digits
    /// then advance odometer-fashion, or the state goes terminal after the
    /// all-maximal vector.
    #[verifier::loop_isolation(false)]
    pub fn next(&mut self) -> (r: Option<Result<Value, Fault>>)
        requires
            old(self).wf(),
        ensures
            final(self).wf(),
            final(self).0 == old(self).0,
            old(self).1 is None ==> r is None && *final(self) == *old(self),
            old(self).1 matches Some(d) ==> {
                &&& r matches Some(Ok(out)) && out.deep() == Val::List(select(old(self).0@, d@))
                &&& if forall|i: int| 0 <= i < d@.len() ==> d@[i] + 1 == old(self).0@.len() {
                    final(self).1 is None
                } else {
                    final(self).1 matches Some(d2) && d2@ == digits_inc(
                        d@,
                        old(self).0@.len() as nat,
                    )
                }
            },
    {
        let buf_snapshot = &self.0;
        let out;
        match &self.1 {
            None => {
                return None;
            },
            Some(d) => {
                out = materialize_indices(buf_snapshot, d);
            },
        }
        let n = self.0.len();
        let d = match &mut self.1 {
            None => {
                return None;
            },
            Some(d) => d,
        };
        let ghost d0 = d@;
        let mut j = d.len();
        while j > 0
            invariant
                j <= d@.len(),
                d@ == d0,
                forall|k: int| j <= k < d0.len() ==> d0[k] + 1 == n,
            decreases j,
        {
            j -= 1;
            let dj = d[j];
            if dj + 1 < n {
                d.set(j, dj + 1);
                let mut t = j + 1;
                while t < d.len()
                    invariant
                        j < t <= d@.len(),
                        d@.len() == d0.len(),
                        forall|k: int| 0 <= k < j ==> d@[k] == d0[k],
                        d@[j as int] == d0[j as int] + 1,
                        forall|k: int| j < k < t ==> d@[k] == 0,
                        forall|k: int| t <= k < d@.len() ==> d@[k] == d0[k],
                    decreases d@.len() - t,
                {
                    d.set(t, 0);
                    t += 1;
                }
                proof {
                    lemma_digits_inc_trailing(d0, n as nat, j as int);
                    assert(d@ =~= digits_inc(d0, n as nat));
                }
                return Some(Ok(out));
            }
        }
        self.1 = None;
        Some(Ok(out))
    }

    /// Reports the exact number of pulls that remain: the count of digit
    /// vectors from the current one to the all-maximal one, inclusive.
    #[verifier::loop_isolation(false)]
    pub fn len(&self) -> (r: Option<usize>)
        requires
            self.wf(),
            self.1 matches Some(d) ==> vstd::arithmetic::power::pow(
                self.0@.len() as int,
                d@.len() as nat,
            ) <= usize::MAX,
        ensures
            match self.1 {
                None => r == Some(0usize),
                Some(d) => r matches Some(u) && u as int == vstd::arithmetic::power::pow(
                    self.0@.len() as int,
                    d@.len() as nat,
                ) - digits_val(d@, self.0@.len() as nat),
            },
    {
        let d = match &self.1 {
            None => {
                return Some(0);
            },
            Some(d) => d,
        };
        let ghost m = self.0@.len() as nat;
        let ghost n = d@.len() as nat;
        let mbuf = self.0.len();
        let mut cur: usize = 1;
        let mut acc: usize = 0;
        let mut i = d.len();
        proof {
            assert(vstd::arithmetic::power::pow(m as int, 0) == 1) by {
                vstd::arithmetic::power::lemma_pow0(m as int);
            }
            assert(d@.skip(d@.len() as int) =~= Seq::<usize>::empty());
        }
        while i > 0
            invariant
                i <= d@.len(),
                cur as int == vstd::arithmetic::power::pow(m as int, (d@.len() - i) as nat),
                acc as nat + 1 + digits_val(d@.skip(i as int), m) == cur as nat,
            decreases i,
        {
            proof {
                let k = (d@.len() - i) as nat;
                assert(d@[i - 1] < m);
                let p1 = vstd::arithmetic::power::pow(m as int, k);
                let p2 = vstd::arithmetic::power::pow(m as int, (k + 1) as nat);
                assert(p2 == m * p1) by {
                    vstd::arithmetic::power::lemma_pow1(m as int);
                    vstd::arithmetic::power::lemma_pow_adds(m as int, 1, k);
                }
                assert(p2 <= vstd::arithmetic::power::pow(m as int, n)) by {
                    if k + 1 < n {
                        vstd::arithmetic::power::lemma_pow_increases(m, (k + 1) as nat, n);
                    }
                }
                vstd::arithmetic::power::lemma_pow_positive(m as int, k);
                lemma_digits_val_first(d@.skip(i - 1), m);
                assert(d@.skip(i - 1).drop_first() =~= d@.skip(i as int));
                assert(d@.skip(i - 1)[0] == d@[i - 1]);
                assert(d@.skip(i - 1).len() - 1 == k);
                let dg = d@[i - 1] as int;
                let c = cur as int;
                assert((m - 1 - dg) * c + dg * c == (m - 1) * c) by (nonlinear_arith);
                assert(dg * c >= 0) by (nonlinear_arith)
                    requires
                        c >= 0,
                        dg >= 0,
                ;
                assert((m - 1 - dg) * c <= (m - 1) * c) by (nonlinear_arith)
                    requires
                        c >= 0,
                        0 <= dg,
                ;
                assert((m - 1) * c + c == m * c) by (nonlinear_arith);
            }
            i -= 1;
            let digit = d[i];
            acc = acc + (mbuf - 1 - digit) * cur;
            cur = cur * mbuf;
        }
        proof {
            assert(d@.skip(0) =~= d@);
        }
        Some(acc + 1)
    }
}

/// The lexicographic successor of a strictly increasing index vector into
/// `0..n`: the rightmost index with room below its slot bound advances, and
/// the following indices become its consecutive successors; `None` when the
/// vector is the last one.
pub open spec fn comb_succ(v: Seq<usize>, n: nat) -> Option<Seq<usize>>
    decreases v.len(),
{
    if v.len() == 0 {
        None
    } else if v.last() + 1 < n {
        Some(v.update(v.len() - 1, (v.last() + 1) as usize))
    } else {
        match comb_succ(v.drop_last(), (n - 1) as nat) {
            None => None,
            Some(w) => if w.len() > 0 {
                Some(w.push((w.last() + 1) as usize))
            } else {
                None
            },
        }
    }
}

/// Slot-boundedness of a combination's index vector: each index leaves room
/// for the slots after it.
pub open spec fn comb_wf(v: Seq<usize>, n: nat) -> bool {
    forall|i: int| 0 <= i < v.len() ==> v[i] + (v.len() - 1 - i) < n
}

/// Where the rightmost advanceable slot is `j`, the successor advances `j`
/// and makes the following slots consecutive.
pub proof fn lemma_comb_succ_at(v: Seq<usize>, n: nat, j: int)
    requires
        n <= usize::MAX,
        0 <= j < v.len(),
        v[j] + 1 < n - (v.len() - 1 - j),
        forall|k: int| j < k < v.len() ==> v[k] + 1 >= n - (v.len() - 1 - k),
    ensures
        comb_succ(v, n) == Some(
            Seq::new(
                v.len(),
                |i: int|
                    if i < j {
                        v[i]
                    } else {
                        (v[j] + 1 + (i - j)) as usize
                    },
            ),
        ),
    decreases v.len(),
{
    let w = Seq::new(
        v.len(),
        |i: int|
            if i < j {
                v[i]
            } else {
                (v[j] + 1 + (i - j)) as usize
            },
    );
    if j == v.len() - 1 {
        assert(v.last() + 1 < n);
        assert(w =~= v.update(v.len() - 1, (v.last() + 1) as usize));
    } else {
        assert(v.last() + 1 >= n);
        lemma_comb_succ_at(v.drop_last(), (n - 1) as nat, j);
        let w1 = Seq::new(
            v.drop_last().len(),
            |i: int|
                if i < j {
                    v.drop_last()[i]
                } else {
                    (v.drop_last()[j] + 1 + (i - j)) as usize
                },
        );
        assert(w1.len() > 0);
        assert(w1.last() == (v[j] + 1 + (v.len() - 2 - j)) as usize);
        assert(w =~= w1.push((w1.last() + 1) as usize));
    }
}

/// Where no slot can advance, the vector is the last one.
pub proof fn lemma_comb_succ_none(v: Seq<usize>, n: nat)
    requires
        v.len() <= n,
        forall|k: int| 0 <= k < v.len() ==> v[k] + 1 >= n - (v.len() - 1 - k),
    ensures
        comb_succ(v, n) is None,
    decreases v.len(),
{
    if v.len() > 0 {
        assert(v.last() + 1 >= n);
        assert forall|k: int| 0 <= k < v.drop_last().len() implies v.drop_last()[k] + 1 >= ((n
            - 1) as nat) - (v.drop_last().len() - 1 - k) by {
            assert(v[k] + 1 >= n - (v.len() - 1 - k));
        }
        lemma_comb_succ_none(v.drop_last(), (n - 1) as nat);
    }
}

/// Lazily enumerates the size-`k` combinations of a fixed buffer in
/// lexicographic index order; `None` is the terminal state. A vector longer
/// than the buffer is immediately stuck (no items). The exact remaining
/// count is an open gap inherited from the design: `Combinations` reports
/// no length.
pub struct Combinations(pub Vec<Value>, pub Option<Vec<usize>>);

impl Combinations {
    /// Construction-time invariant: a live vector that fits the buffer is
    /// slot-bounded.
    pub open spec fn wf(self) -> bool {
        match self.1 {
            Some(v) => v@.len() <= self.0@.len() ==> comb_wf(v@, self.0@.len() as nat),
            None => true,
        }
    }

    /// Pulls the next combination: the one the current vector selects; the
    /// vector then advances to its lexicographic successor, or the state
    /// goes terminal after the last one.
    #[verifier::loop_isolation(false)]
    pub fn next(&mut self) -> (r: Option<Result<Value, Fault>>)
        requires
            old(self).wf(),
        ensures
            final(self).wf(),
            final(self).0 == old(self).0,
            old(self).1 is None ==> r is None && *final(self) == *old(self),
            old(self).1 matches Some(v) ==> (v@.len() > old(self).0@.len() ==> r is None
                && *final(self) == *old(self)),
            old(self).1 matches Some(v) ==> (v@.len() <= old(self).0@.len() ==> {
                &&& r matches Some(Ok(out)) && out.deep() == Val::List(select(old(self).0@, v@))
                &&& match comb_succ(v@, old(self).0@.len() as nat) {
                    Some(w) => final(self).1 matches Some(v2) && v2@ == w,
                    None => final(self).1 is None,
                }
            }),
    {
        let buf_snapshot = &self.0;
        let out;
        match &self.1 {
            None => {
                return None;
            },
            Some(v) => {
                if v.len() > buf_snapshot.len() {
                    return None;
                }
                proof {
                    assert(forall|i: int| 0 <= i < v@.len() ==> v@[i] < buf_snapshot@.len());
                }
                out = materialize_indices(buf_snapshot, v);
            },
        }
        let n = self.0.len();
        let v = match &mut self.1 {
            None => {
                return None;
            },
            Some(v) => v,
        };
        let ghost v0 = v@;
        let mut last = n;
        let mut i = v.len();
        while i > 0
            invariant
                i <= v@.len(),
                v@ == v0,
                last == n - (v@.len() - i),
                forall|k: int| i <= k < v0.len() ==> v0[k] + 1 >= n - (v0.len() - 1 - k),
            decreases i,
        {
            i -= 1;
            let vi = v[i];
            if vi + 1 < last {
                v.set(i, vi + 1);
                let mut t = i + 1;
                while t < v.len()
                    invariant
                        i < t <= v@.len(),
                        v@.len() == v0.len(),
                        forall|k: int| 0 <= k < i ==> v@[k] == v0[k],
                        forall|k: int| i <= k < t ==> v@[k] == v0[i as int] + 1 + (k - i),
                        forall|k: int| t <= k < v@.len() ==> v@[k] == v0[k],
                    decreases v@.len() - t,
                {
                    let prev = v[t - 1];
                    v.set(t, prev + 1);
                    t += 1;
                }
                proof {
                    lemma_comb_succ_at(v0, n as nat, i as int);
                    assert(v@ =~= comb_succ(v0, n as nat)->Some_0);
                    assert(comb_wf(v@, n as nat));
                }
                return Some(Ok(out));
            }
            last -= 1;
        }
        proof {
            lemma_comb_succ_none(v0, n as nat);
        }
        self.1 = None;
        Some(Ok(out))
    }
}

/// `i` is the rightmost ascent of the index vector.
pub open spec fn is_last_ascent(v: Seq<usize>, i: int) -> bool {
    &&& 0 <= i < v.len() - 1
    &&& v[i] < v[i + 1]
    &&& forall|k: int| i < k < v.len() - 1 ==> #[trigger] v[k] >= v[k + 1]
}

/// The vector has no ascent: it is the lexicographically last arrangement
/// of its items.
pub open spec fn no_ascent(v: Seq<usize>) -> bool {
    forall|k: int| 0 <= k < v.len() - 1 ==> #[trigger] v[k] >= v[k + 1]
}

/// `l` is the rightmost position after `i` holding something larger than
/// `v[i]`.
pub open spec fn is_last_larger(v: Seq<usize>, i: int, l: int) -> bool {
    &&& i < l < v.len()
    &&& v[l] > v[i]
    &&& forall|k: int| l < k < v.len() ==> #[trigger] v[k] <= v[i]
}

/// The classic next-permutation step: swap positions `inc` and `linc`, then
/// reverse everything after `inc`.
pub open spec fn perm_next_of(v: Seq<usize>, inc: int, linc: int) -> Seq<usize> {
    let sw = v.update(inc, v[linc]).update(linc, v[inc]);
    Seq::new(
        v.len(),
        |i: int|
            if i <= inc {
                sw[i]
            } else {
                sw[v.len() + inc - i]
            },
    )
}

/// Lazily enumerates the arrangements of a fixed buffer in lexicographic
/// index order; `None` is the terminal state.
pub struct Permutations(pub Vec<Value>, pub Option<Vec<usize>>);

impl Permutations {
    /// Construction-time invariant: every live index points into the buffer.
    pub open spec fn wf(self) -> bool {
        match self.1 {
            Some(v) => forall|i: int| 0 <= i < v@.len() ==> v@[i] < self.0@.len(),
            None => true,
        }
    }

    /// Pulls the next arrangement: the one the current vector selects; the
    /// vector then advances by the classic next-permutation step (swap at
    /// the rightmost ascent, reverse the suffix), or the state goes
    /// terminal when no ascent is left.
    #[verifier::loop_isolation(false)]
    pub fn next(&mut self) -> (r: Option<Result<Value, Fault>>)
        requires
            old(self).wf(),
        ensures
            final(self).wf(),
            final(self).0 == old(self).0,
            old(self).1 is None ==> r is None && *final(self) == *old(self),
            old(self).1 matches Some(v) ==> {
                &&& r matches Some(Ok(out)) && out.deep() == Val::List(select(old(self).0@, v@))
                &&& if no_ascent(v@) {
                    final(self).1 is None
                } else {
                    exists|inc: int, linc: int|
                        {
                            &&& is_last_ascent(v@, inc)
                            &&& is_last_larger(v@, inc, linc)
                            &&& final(self).1 matches Some(v2) && v2@ == perm_next_of(
                                v@,
                                inc,
                                linc,
                            )
                        }
                }
            },
    {
        let buf_snapshot = &self.0;
        let out;
        match &self.1 {
            None => {
                return None;
            },
            Some(v) => {
                out = materialize_indices(buf_snapshot, v);
            },
        }
        let v = match &mut self.1 {
            None => {
                return None;
            },
            Some(v) => v,
        };
        let ghost v0 = v@;
        match find_pivot(v) {
            None => {
                self.1 = None;
                Some(Ok(out))
            },
            Some((inc, linc)) => {
                apply_perm_step(v, inc, linc);
                proof {
                    assert(is_last_ascent(v0, inc as int));
                    assert(is_last_larger(v0, inc as int, linc as int));
                    assert(self.1 is Some);
                    assert(self.1->Some_0@ == perm_next_of(v0, inc as int, linc as int));
                }
                Some(Ok(out))
            },
        }
    }
}

/// Finds the rightmost ascent and, after it, the rightmost entry larger
/// than the ascent point, as the next-permutation step needs them; `None`
/// when the vector has no ascent.
#[verifier::loop_isolation(false)]
fn find_pivot(v: &Vec<usize>) -> (r: Option<(usize, usize)>)
    ensures
        match r {
            None => no_ascent(v@),
            Some(p) => is_last_ascent(v@, p.0 as int) && is_last_larger(
                v@,
                p.0 as int,
                p.1 as int,
            ),
        },
{
    let n = v.len();
    let mut have = false;
    let mut inc: usize = 0;
    let mut linc: usize = 0;
    let mut i: usize = 0;
    if n == 0 {
        return None;
    }
    while i < n - 1
        invariant
            n == v@.len(),
            n >= 1,
            i <= n - 1,
            !have ==> forall|k: int| 0 <= k < i ==> #[trigger] v@[k] >= v@[k + 1],
            have ==> {
                &&& inc < i
                &&& v@[inc as int] < v@[inc + 1]
                &&& forall|k: int| inc < k < i ==> #[trigger] v@[k] >= v@[k + 1]
                &&& inc < linc <= i
                &&& v@[linc as int] > v@[inc as int]
                &&& forall|k: int| linc < k <= i ==> #[trigger] v@[k] <= v@[inc as int]
            },
        decreases n - i,
    {
        if v[i] < v[i + 1] {
            have = true;
            inc = i;
            linc = i + 1;
        } else if have && v[i + 1] > v[inc] {
            linc = i + 1;
        }
        i += 1;
    }
    if have {
        Some((inc, linc))
    } else {
        None
    }
}

/// Applies the next-permutation step in place: swap `inc` with `linc`, then
/// reverse everything after `inc`.
#[verifier::loop_isolation(false)]
fn apply_perm_step(v: &mut Vec<usize>, inc: usize, linc: usize)
    requires
        inc < linc < old(v)@.len(),
    ensures
        final(v)@ == perm_next_of(old(v)@, inc as int, linc as int),
        final(v)@.len() == old(v)@.len(),
        forall|i: int|
            0 <= i < final(v)@.len() ==> exists|j: int|
                0 <= j < old(v)@.len() && #[trigger] final(v)@[i] == old(v)@[j],
{
    let ghost v0 = v@;
    let n = v.len();
    let a = v[inc];
    let b = v[linc];
    v.set(inc, b);
    v.set(linc, a);
    let ghost sw = v@;
    proof {
        assert(sw == v0.update(inc as int, v0[linc as int]).update(linc as int, v0[inc as int]));
    }
    let mut lo = inc + 1;
    let mut hi = n - 1;
    while lo < hi
        invariant
            n == v@.len(),
            inc < lo,
            lo + hi == inc + n,
            hi <= n - 1,
            forall|k: int| 0 <= k <= inc ==> #[trigger] v@[k] == sw[k],
            forall|k: int| inc < k < lo ==> #[trigger] v@[k] == sw[n + inc - k],
            forall|k: int| hi < k < n ==> #[trigger] v@[k] == sw[n + inc - k],
            forall|k: int| lo <= k <= hi ==> #[trigger] v@[k] == sw[k],
        decreases hi + n - lo,
    {
        let x = v[lo];
        let y = v[hi];
        v.set(lo, y);
        v.set(hi, x);
        lo += 1;
        hi -= 1;
    }
    proof {
        assert(v@ =~= perm_next_of(v0, inc as int, linc as int));
        assert forall|i: int| 0 <= i < v@.len() implies exists|j: int|
            0 <= j < v0.len() && #[trigger] v@[i] == v0[j] by {
            if i <= inc {
                if i == inc {
                    assert(v@[i] == v0[linc as int]);
                } else {
                    assert(v@[i] == v0[i]);
                }
            } else {
                let src = n + inc - i;
                assert(v@[i] == sw[src]);
                if src == inc {
                    assert(v@[i] == v0[linc as int]);
                } else if src == linc {
                    assert(v@[i] == v0[inc as int]);
                } else {
                    assert(v@[i] == v0[src]);
                }
            }
        }
    }
}

/// The factorial function.
pub open spec fn fact(n: nat) -> nat
    decreases n,
{
    if n == 0 {
        1
    } else {
        n * fact((n - 1) as nat)
    }
}

/// How many entries of `v` at or after position `lo` exceed `x`.
pub open spec fn count_larger(v: Seq<usize>, lo: int, x: usize) -> nat
    decreases v.len() - lo,
{
    if lo < 0 || lo >= v.len() {
        0
    } else {
        ((if v[lo] > x {
            1nat
        } else {
            0nat
        }) + count_larger(v, lo + 1, x)) as nat
    }
}

/// The terms of the remaining-arrangements sum, for windows `1..=i`: each
/// way of replacing `v[len-1-i]` by a larger later entry accounts for
/// `fact(i)` arrangements.
pub open spec fn perm_rem_sum(v: Seq<usize>, i: nat) -> nat
    decreases i,
{
    if i == 0 || i >= v.len() {
        0
    } else {
        (perm_rem_sum(v, (i - 1) as nat) + fact(i) * count_larger(
            v,
            v.len() - i,
            v[v.len() - 1 - i],
        )) as nat
    }
}

/// The exact number of arrangements from the current one to the last,
/// inclusive.
pub open spec fn perm_remaining(v: Seq<usize>) -> nat {
    if v.len() == 0 {
        1
    } else {
        (1 + perm_rem_sum(v, (v.len() - 1) as nat)) as nat
    }
}

/// `fact` is positive and monotone.
pub proof fn lemma_fact_le(a: nat, b: nat)
    requires
        a <= b,
    ensures
        1 <= fact(a) <= fact(b),
    decreases b,
{
    if b == 0 {
    } else if a == b {
        lemma_fact_le((b - 1) as nat, (b - 1) as nat);
        assert(fact(b) == b * fact((b - 1) as nat));
        assert(b * fact((b - 1) as nat) >= 1 * fact((b - 1) as nat)) by (nonlinear_arith)
            requires
                b >= 1,
                fact((b - 1) as nat) >= 0,
        ;
    } else {
        lemma_fact_le(a, (b - 1) as nat);
        assert(fact(b) == b * fact((b - 1) as nat));
        assert(b * fact((b - 1) as nat) >= 1 * fact((b - 1) as nat)) by (nonlinear_arith)
            requires
                b >= 1,
                fact((b - 1) as nat) >= 0,
        ;
    }
}

/// The remaining-arrangements terms accumulate monotonically.
pub proof fn lemma_perm_rem_sum_le(v: Seq<usize>, i: nat, j: nat)
    requires
        i <= j,
        j < v.len() || j == 0,
    ensures
        perm_rem_sum(v, i) <= perm_rem_sum(v, j),
    decreases j,
{
    if i < j {
        lemma_perm_rem_sum_le(v, i, (j - 1) as nat);
        if j < v.len() {
            assert(fact(j) * count_larger(v, v.len() - j, v[v.len() - 1 - j]) >= 0);
        }
    }
}

impl Permutations {
    /// Reports the exact number of pulls that remain, by the closed-form
    /// rank-from-the-end sum.
    #[verifier::loop_isolation(false)]
    pub fn len(&self) -> (r: Option<usize>)
        requires
            self.wf(),
            self.1 matches Some(v) ==> (v@.len() > 0 ==> fact((v@.len() - 1) as nat)
                <= usize::MAX && perm_remaining(v@) <= usize::MAX),
        ensures
            match self.1 {
                None => r == Some(0usize),
                Some(v) => r matches Some(u) && u as nat == perm_remaining(v@),
            },
    {
        let v = match &self.1 {
            None => {
                return Some(0);
            },
            Some(v) => v,
        };
        let n = v.len();
        if n == 0 {
            return Some(1);
        }
        let mut cur: usize = 1;
        let mut acc: usize = 0;
        let mut i: usize = 1;
        while i < n
            invariant
                1 <= i <= n,
                n == v@.len(),
                cur as nat == fact((i - 1) as nat),
                acc as nat == perm_rem_sum(v@, (i - 1) as nat),
            decreases n - i,
        {
            proof {
                lemma_fact_le(i as nat, (n - 1) as nat);
                assert(fact(i as nat) == i * fact((i - 1) as nat));
                assert((cur as int) * (i as int) == fact(i as nat)) by (nonlinear_arith)
                    requires
                        cur as nat == fact((i - 1) as nat),
                        fact(i as nat) == i * fact((i - 1) as nat),
                ;
            }
            cur = cur * i;
            let x = v[n - 1 - i];
            let mut cnt: usize = 0;
            let mut j = n - i;
            while j < n
                invariant
                    n - i <= j <= n,
                    n == v@.len(),
                    1 <= i < n,
                    x == v@[n - 1 - i],
                    cnt as nat + count_larger(v@, j as int, x) == count_larger(
                        v@,
                        (n - i) as int,
                        x,
                    ),
                    cnt <= j - (n - i),
                decreases n - j,
            {
                if v[j] > x {
                    cnt = cnt + 1;
                }
                j += 1;
            }
            proof {
                lemma_perm_rem_sum_le(v@, i as nat, (n - 1) as nat);
                assert(perm_rem_sum(v@, i as nat) == perm_rem_sum(v@, (i - 1) as nat) + fact(
                    i as nat,
                ) * count_larger(v@, n - i, v@[n - 1 - i]));
                assert(perm_remaining(v@) == 1 + perm_rem_sum(v@, (n - 1) as nat));
                assert(fact(i as nat) * count_larger(v@, n - i, v@[n - 1 - i]) == (cur as nat) * (
                count_larger(v@, n - i, v@[n - 1 - i])));
            }
            acc = acc + cur * cnt;
            i += 1;
        }
        Some(acc + 1)
    }
}

/// Clones an enumerator's index-vector state; the copy reads the same.
fn clone_index_state(state: &Option<Vec<usize>>) -> (r: Option<Vec<usize>>)
    ensures
        r is Some <==> state is Some,
        r matches Some(v2) ==> state matches Some(v) && v2@ == v@,
{
    match state {
        Some(v) => {
            let c = v.clone();
            proof {
                assert(c@ =~= v@);
            }
            Some(c)
        },
        None => None,
    }
}

/// Clones an enumerator's mask state; the copy reads the same.
fn clone_mask_state(state: &Option<Vec<bool>>) -> (r: Option<Vec<bool>>)
    ensures
        r is Some <==> state is Some,
        r matches Some(m2) ==> state matches Some(m) && m2@ == m@,
{
    match state {
        Some(m) => {
            let c = m.clone();
            proof {
                assert(c@ =~= m@);
            }
            Some(c)
        },
        None => None,
    }
}

impl Clone for Permutations {
    fn clone(&self) -> (r: Self)
        ensures
            vals_of(r.0@) == vals_of(self.0@),
            r.0@.len() == self.0@.len(),
            r.1 is Some <==> self.1 is Some,
            r.1 matches Some(v2) ==> self.1 matches Some(v) && v2@ == v@,
            self.wf() ==> r.wf(),
    {
        Permutations(clone_values(&self.0), clone_index_state(&self.1))
    }
}

impl Clone for Combinations {
    fn clone(&self) -> (r: Self)
        ensures
            vals_of(r.0@) == vals_of(self.0@),
            r.0@.len() == self.0@.len(),
            r.1 is Some <==> self.1 is Some,
            r.1 matches Some(v2) ==> self.1 matches Some(v) && v2@ == v@,
            self.wf() ==> r.wf(),
    {
        Combinations(clone_values(&self.0), clone_index_state(&self.1))
    }
}

impl Clone for Subsequences {
    fn clone(&self) -> (r: Self)
        ensures
            vals_of(r.0@) == vals_of(self.0@),
            r.0@.len() == self.0@.len(),
            r.1 is Some <==> self.1 is Some,
            r.1 matches Some(m2) ==> self.1 matches Some(m) && m2@ == m@,
            self.wf() ==> r.wf(),
    {
        Subsequences(clone_values(&self.0), clone_mask_state(&self.1))
    }
}

impl Clone for CartesianPower {
    fn clone(&self) -> (r: Self)
        ensures
            vals_of(r.0@) == vals_of(self.0@),
            r.0@.len() == self.0@.len(),
            r.1 is Some <==> self.1 is Some,
            r.1 matches Some(d2) ==> self.1 matches Some(d) && d2@ == d@,
            self.wf() ==> r.wf(),
    {
        CartesianPower(clone_values(&self.0), clone_index_state(&self.1))
    }
}

} // verus!
