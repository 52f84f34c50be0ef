use vstd::prelude::*;

use num::bigint::BigInt;

use crate::bignum::{big_value, big_clone, big_add, big_sub, big_lt, big_eq, big_div, big_from_i64,
    big_to_usize};
use crate::values::{Value, Val, Fault, val_of, vals_of, lemma_vals_of};
use crate::rem_euclid_isize;

verus! {

broadcast use vstd::std_specs::vec::group_vec_axioms, vstd::seq::group_seq_axioms;

/// The infinite constant stream: every pull yields the same value.
pub struct Repeat(pub Value);

impl Repeat {
    /// Pulls the next item: always the held value, and the stream is unchanged.
    pub fn next(&mut self) -> (r: Option<Result<Value, Fault>>)
        ensures
            *final(self) == *old(self),
            r matches Some(Ok(v)) && v.deep() == old(self).0.deep(),
    {
        Some(Ok(self.0.clone()))
    }

    /// The length is unknown: the stream is infinite.
    pub fn len(&self) -> (r: Option<usize>)
        ensures
            r is None,
    {
        None
    }

    /// Materializing an infinite stream is refused.
    pub fn force(&self) -> (r: Result<Vec<Value>, Fault>)
        ensures
            r matches Err(f) && f == Fault::ForcedInfinite,
    {
        Err(Fault::ForcedInfinite)
    }

    /// Indexed access at any signed index yields the held value.
    pub fn pythonic_index_isize(&self, i: isize) -> (r: Result<Value, Fault>)
        ensures
            r matches Ok(v) && v.deep() == self.0.deep(),
    {
        let _ = i;
        Ok(self.0.clone())
    }

    /// Reversing an infinite constant stream yields an equal stream.
    pub fn reversed(&self) -> (r: Repeat)
        ensures
            r.0.deep() == self.0.deep(),
    {
        Repeat(self.0.clone())
    }
}

impl Clone for Repeat {
    fn clone(&self) -> (r: Self)
        ensures
            r.0.deep() == self.0.deep(),
    {
        Repeat(self.0.clone())
    }
}

/// The infinite cyclic stream over a non-empty buffer, with a cursor always
/// inside the buffer.
pub struct Cycle(pub Vec<Value>, pub usize);

impl Cycle {
    /// Construction-time invariant: the buffer is non-empty and the cursor is
    /// inside it.
    pub open spec fn wf(self) -> bool {
        0 < self.0@.len() && self.1 < self.0@.len()
    }

    /// The item the cycle yields `k` pulls from now (`k` may be any signed
    /// offset; resolution is by floored modulo).
    pub open spec fn item(self, k: int) -> Val {
        val_of(self.0@[(self.1 + k) % (self.0@.len() as int)])
    }

    /// Pulls the next item: the element under the cursor, then the cursor
    /// advances cyclically.
    pub fn next(&mut self) -> (r: Option<Result<Value, Fault>>)
        requires
            old(self).wf(),
        ensures
            final(self).wf(),
            final(self).0 == old(self).0,
            final(self).1 as int == (old(self).1 + 1) % (old(self).0@.len() as int),
            r matches Some(Ok(v)) && v.deep() == old(self).item(0),
    {
        proof {
            vstd::arithmetic::div_mod::lemma_small_mod(self.1 as nat, self.0@.len() as nat);
            assert(self.0.len() == self.0@.len());
        }
        let ret = self.0[self.1].clone();
        self.1 = (self.1 + 1) % self.0.len();
        Some(Ok(ret))
    }

    /// The length is unknown: the stream is infinite.
    pub fn len(&self) -> (r: Option<usize>)
        ensures
            r is None,
    {
        None
    }

    /// Materializing an infinite stream is refused.
    pub fn force(&self) -> (r: Result<Vec<Value>, Fault>)
        ensures
            r matches Err(f) && f == Fault::ForcedInfinite,
    {
        Err(Fault::ForcedInfinite)
    }

    /// Indexed access at signed offset `i`, resolved from the cursor by
    /// floored modulo.
    pub fn pythonic_index_isize(&self, i: isize) -> (r: Result<Value, Fault>)
        requires
            self.wf(),
            self.0@.len() <= isize::MAX,
        ensures
            r matches Ok(v) && v.deep() == self.item(i as int),
    {
        let n = self.0.len();
        let k = rem_euclid_isize(i, n);
        let idx = (self.1 + k) % n;
        proof {
            let ni = n as int;
            vstd::arithmetic::div_mod::lemma_small_mod(self.1 as nat, n as nat);
            vstd::arithmetic::div_mod::lemma_mod_adds(self.1 as int, i as int, ni);
            vstd::arithmetic::div_mod::lemma_mod_adds(self.1 as int, k as int, ni);
            vstd::arithmetic::div_mod::lemma_mod_twice(i as int, ni);
            vstd::arithmetic::div_mod::lemma_mod_bound(self.1 as int + i, ni);
            vstd::arithmetic::div_mod::lemma_mod_bound(self.1 as int + k, ni);
        }
        Ok(self.0[idx].clone())
    }

    /// Reversal: a cycle over the reversed buffer whose cursor is remapped so
    /// that iteration mirrors the original's remaining sequence.
    pub fn reversed(&self) -> (r: Cycle)
        requires
            self.wf(),
        ensures
            r.wf(),
            r.0@.len() == self.0@.len(),
            vals_of(r.0@) == vals_of(self.0@).reverse(),
            r.1 as int == (self.0@.len() - self.1) % (self.0@.len() as int),
    {
        broadcast use lemma_vals_of;

        let n = self.0.len();
        let mut out: Vec<Value> = Vec::new();
        let mut i: usize = 0;
        while i < n
            invariant
                i <= n,
                n == self.0@.len(),
                out@.len() == i,
                forall|j: int| 0 <= j < i ==> val_of(#[trigger] out@[j]) == val_of(
                    self.0@[n - 1 - j],
                ),
            decreases n - i,
        {
            out.push(self.0[n - 1 - i].clone());
            i += 1;
        }
        let cur = (n - self.1) % n;
        proof {
            assert(vals_of(out@) =~= vals_of(self.0@).reverse());
            vstd::arithmetic::div_mod::lemma_mod_bound((n - self.1) as int, n as int);
        }
        Cycle(out, cur)
    }
}

impl Clone for Cycle {
    fn clone(&self) -> (r: Self)
        ensures
            vals_of(r.0@) == vals_of(self.0@),
            r.1 == self.1,
            self.wf() ==> r.wf(),
    {
        broadcast use lemma_vals_of;

        let mut out: Vec<Value> = Vec::new();
        let mut i: usize = 0;
        while i < self.0.len()
            invariant
                i <= self.0@.len(),
                out@.len() == i,
                forall|j: int| 0 <= j < i ==> val_of(#[trigger] out@[j]) == val_of(self.0@[j]),
            decreases self.0@.len() - i,
        {
            out.push(self.0[i].clone());
            i += 1;
        }
        proof {
            assert(vals_of(out@) =~= vals_of(self.0@));
        }
        Cycle(out, self.1)
    }
}

/// The arithmetic progression `start, start + step, ...`, stopping before
/// `end` if an end is present, infinite otherwise.
pub struct Range(pub BigInt, pub Option<BigInt>, pub BigInt);

/// How many pulls a finite progression yields: the number of times `step`
/// can be added to `start` before the emptiness test holds.
pub open spec fn range_count(start: int, end: int, step: int) -> nat
    decreases
            vstd::math::max(
                if step > 0 {
                    end - start
                } else {
                    start - end
                },
                0,
            ),
    when step != 0
{
    if step > 0 {
        if start >= end {
            0
        } else {
            1 + range_count(start + step, end, step)
        }
    } else {
        if start <= end {
            0
        } else {
            1 + range_count(start + step, end, step)
        }
    }
}

impl Range {
    /// The held start, as a mathematical integer.
    pub open spec fn start_v(self) -> int {
        big_value(self.0)
    }

    /// The held end, if any, as a mathematical integer.
    pub open spec fn end_v(self) -> Option<int> {
        match self.1 {
            Some(e) => Some(big_value(e)),
            None => None,
        }
    }

    /// The held step, as a mathematical integer.
    pub open spec fn step_v(self) -> int {
        big_value(self.2)
    }

    /// The emptiness test: with no end the progression never ends; a negative
    /// step ends once `start <= end`; a zero or positive step ends once
    /// `start >= end`.
    pub open spec fn spec_empty(self) -> bool {
        match self.end_v() {
            None => false,
            Some(e) => if self.step_v() < 0 {
                self.start_v() <= e
            } else {
                self.start_v() >= e
            },
        }
    }

    /// Whether the progression has ended.
    pub fn empty(&self) -> (r: bool)
        ensures
            r == self.spec_empty(),
    {
        match &self.1 {
            None => false,
            Some(e) => {
                let zero = big_from_i64(0);
                if big_lt(&self.2, &zero) {
                    !big_lt(e, &self.0)
                } else {
                    !big_lt(&self.0, e)
                }
            },
        }
    }

    /// Pulls the next item: the current start if the progression has not
    /// ended, advancing the start by the step.
    pub fn next(&mut self) -> (r: Option<Result<Value, Fault>>)
        ensures
            final(self).1 == old(self).1,
            final(self).2 == old(self).2,
            old(self).spec_empty() ==> r is None && *final(self) == *old(self),
            !old(self).spec_empty() ==> {
                &&& final(self).start_v() == old(self).start_v() + old(self).step_v()
                &&& r matches Some(Ok(v)) && v.deep() == Val::Int(old(self).start_v())
            },
    {
        if self.empty() {
            None
        } else {
            let ret = big_clone(&self.0);
            self.0 = big_add(&self.0, &self.2);
            Some(Ok(Value::Int(ret)))
        }
    }

    /// The length report the stream gives without consuming itself, as a
    /// mathematical value: `None` stands for "unknown" (an infinite or
    /// undecided case). A zero step with a remaining end is reported
    /// unknown. With a non-zero step the closed form is the exact pull
    /// count (`lemma_range_count_pos`, `lemma_range_count_neg`).
    pub open spec fn spec_len(self) -> Option<int> {
        match self.end_v() {
            None => None,
            Some(e) => {
                let s = self.start_v();
                let p = self.step_v();
                if p == 0 {
                    if s < e {
                        None
                    } else {
                        Some(0)
                    }
                } else if p < 0 {
                    Some(vstd::math::max(s - e - p - 1, 0) / -p)
                } else {
                    Some(vstd::math::max(e - s + p - 1, 0) / p)
                }
            },
        }
    }

    /// Reports the length: the closed form when an end is present and it fits
    /// in `usize`, `None` for the unknown and unrepresentable cases.
    pub fn len(&self) -> (r: Option<usize>)
        ensures
            match self.spec_len() {
                None => r is None,
                Some(c) => match r {
                    Some(u) => u as int == c,
                    None => !(c <= usize::MAX),
                },
            },
    {
        let end = match &self.1 {
            None => {
                return None;
            },
            Some(e) => e,
        };
        let zero = big_from_i64(0);
        if big_eq(&self.2, &zero) {
            if big_lt(&self.0, end) {
                None
            } else {
                Some(0)
            }
        } else if big_lt(&self.2, &zero) {
            let one = big_from_i64(1);
            let num = big_sub(&big_sub(&big_sub(&self.0, end), &self.2), &one);
            let clamped = if big_lt(&num, &zero) {
                zero
            } else {
                num
            };
            let divisor = big_sub(&big_from_i64(0), &self.2);
            let q = big_div(&clamped, &divisor);
            big_to_usize(&q)
        } else {
            let one = big_from_i64(1);
            let num = big_sub(&big_add(&big_sub(end, &self.0), &self.2), &one);
            let clamped = if big_lt(&num, &zero) {
                zero
            } else {
                num
            };
            let q = big_div(&clamped, &self.2);
            big_to_usize(&q)
        }
    }
}

impl Clone for Range {
    fn clone(&self) -> (r: Self)
        ensures
            r.start_v() == self.start_v(),
            r.end_v() == self.end_v(),
            r.step_v() == self.step_v(),
    {
        let end = match &self.1 {
            Some(e) => Some(big_clone(e)),
            None => None,
        };
        Range(big_clone(&self.0), end, big_clone(&self.2))
    }
}

/// With a negative step the reported closed form counts the pulls exactly.
pub proof fn lemma_range_count_neg(start: int, end: int, step: int)
    requires
        step < 0,
    ensures
        vstd::math::max(start - end - step - 1, 0) / -step == range_count(start, end, step),
    decreases vstd::math::max(start - end, 0),
{
    if start <= end {
        assert(start - end - step - 1 < -step);
        if start - end - step - 1 > 0 {
            vstd::arithmetic::div_mod::lemma_basic_div(start - end - step - 1, -step);
        }
    } else {
        lemma_range_count_neg(start + step, end, step);
        vstd::arithmetic::div_mod::lemma_div_plus_one((start + step) - end - step - 1, -step);
        assert(vstd::math::max(start - end - step - 1, 0) == start - end - step - 1);
        if (start + step) - end - step - 1 < 0 {
            assert(start - end - 1 < -step);
            assert(range_count(start + step, end, step) == 0);
            vstd::arithmetic::div_mod::lemma_basic_div(start - end - step - 1, -step);
        }
    }
}

/// With a positive step the reported closed form counts the pulls exactly.
pub proof fn lemma_range_count_pos(start: int, end: int, step: int)
    requires
        step > 0,
    ensures
        vstd::math::max(end - start + step - 1, 0) / step == range_count(start, end, step),
    decreases vstd::math::max(end - start, 0),
{
    if start >= end {
        assert(end - start + step - 1 < step);
        if end - start + step - 1 > 0 {
            vstd::arithmetic::div_mod::lemma_basic_div(end - start + step - 1, step);
        }
    } else {
        lemma_range_count_pos(start + step, end, step);
        vstd::arithmetic::div_mod::lemma_div_plus_one(end - (start + step) + step - 1, step);
        assert(vstd::math::max(end - start + step - 1, 0) == end - start + step - 1);
        assert(end - (start + step) + step - 1 >= 0 ==> vstd::math::max(
            end - (start + step) + step - 1,
            0,
        ) == end - (start + step) + step - 1);
        if end - (start + step) + step - 1 < 0 {
            assert(end - start - 1 < step);
            assert(range_count(start + step, end, step) == 0);
            vstd::arithmetic::div_mod::lemma_basic_div(end - start + step - 1, step);
        }
    }
}

} // verus!
