use vstd::prelude::*;

use num::bigint::BigInt;

use crate::bignum::{big_value, big_clone, big_lt, big_eq};

verus! {

broadcast use vstd::std_specs::vec::group_vec_axioms, vstd::seq::group_seq_axioms;

/// A fault that a pull can produce. `Terminated` is the distinguished
/// graceful-termination signal: a combinator stores it to mean "source
/// exhausted" and its own consumer simply sees no further items, never this
/// value. The other variants are genuine errors and are replayed on every
/// later pull of a poisoned combinator.
#[derive(Clone, Copy, PartialEq, Eq, Structural, Debug)]
pub enum Fault {
    /// Graceful end of data; purely an internal control signal.
    Terminated,
    /// An infinite stream was asked to materialize itself.
    ForcedInfinite,
    /// A frontier callable returned something other than a list.
    ExpandedNotList,
    /// A fault raised by user code inside a callable, tagged by the user.
    Custom(u64),
}

/// Result of comparing two values under their partial order.
#[derive(Clone, Copy, PartialEq, Eq, Structural, Debug)]
pub enum Order {
    Lt,
    Eq,
    Gt,
}

/// The mathematical content of a `Value`: an unbounded integer or a finite
/// sequence of such contents.
pub enum Val {
    Int(int),
    List(Seq<Val>),
}

/// The dynamic value the streams produce and consume: an arbitrary-precision
/// integer or a list of values.
pub enum Value {
    Int(BigInt),
    List(Vec<Value>),
}

/// The mathematical content of a value.
pub open spec fn val_of(v: Value) -> Val
    decreases v,
    via val_of_dec
{
    match v {
        Value::Int(b) => Val::Int(big_value(b)),
        Value::List(vs) => Val::List(vals_of(vs@)),
    }
}

/// The contents of a buffer of values, in order.
pub open spec fn vals_of(s: Seq<Value>) -> Seq<Val>
    decreases s,
{
    if s.len() == 0 {
        Seq::empty()
    } else {
        vals_of(s.drop_last()).push(val_of(s.last()))
    }
}

#[via_fn]
proof fn val_of_dec(v: Value) {
    match v {
        Value::Int(_) => {},
        Value::List(vs) => {
            assert(decreases_to!(v => vs));
            assert(decreases_to!(vs => vs@));
        },
    }
}

/// `vals_of` maps the buffer pointwise.
pub broadcast proof fn lemma_vals_of(s: Seq<Value>)
    ensures
        (#[trigger] vals_of(s)).len() == s.len(),
        forall|i: int| 0 <= i < s.len() ==> vals_of(s)[i] == val_of(s[i]),
    decreases s,
{
    if s.len() > 0 {
        lemma_vals_of(s.drop_last());
    }
}

impl Value {
    /// The mathematical content of this value.
    pub open spec fn deep(self) -> Val {
        val_of(self)
    }
}

impl View for Value {
    type V = Val;

    open spec fn view(&self) -> Val {
        val_of(*self)
    }
}

impl DeepView for Value {
    type V = Val;

    open spec fn deep_view(&self) -> Val {
        val_of(*self)
    }
}

impl Clone for Value {
    #[verifier::loop_isolation(false)]
    fn clone(&self) -> (r: Self)
        ensures
            r.deep() == self.deep(),
        decreases self,
    {
        broadcast use lemma_vals_of;

        match self {
            Value::Int(b) => Value::Int(big_clone(b)),
            Value::List(vs) => {
                let mut out: Vec<Value> = Vec::new();
                let mut i: usize = 0;
                while i < vs.len()
                    invariant
                        i <= vs.len(),
                        out@.len() == i,
                        forall|j: int| 0 <= j < i ==> val_of(#[trigger] out@[j]) == val_of(
                            vs@[j],
                        ),
                        *self is List,
                        self->List_0@ == vs@,
                    decreases vs.len() - i,
                {
                    proof {
                        assert(decreases_to!(*self => self->List_0));
                        assert(decreases_to!(self->List_0 => self->List_0@));
                    }
                    out.push(vs[i].clone());
                    i += 1;
                }
                let r = Value::List(out);
                proof {
                    assert(vals_of(out@) =~= vals_of(vs@));
                }
                r
            },
        }
    }
}

/// Clones a buffer of values element by element: the copy holds the same
/// contents in the same order.
#[verifier::loop_isolation(false)]
pub fn clone_values(buf: &Vec<Value>) -> (r: Vec<Value>)
    ensures
        r@.len() == buf@.len(),
        vals_of(r@) == vals_of(buf@),
{
    broadcast use lemma_vals_of;

    let mut out: Vec<Value> = Vec::new();
    let mut i: usize = 0;
    while i < buf.len()
        invariant
            i <= buf@.len(),
            out@.len() == i,
            forall|j: int| 0 <= j < i ==> val_of(#[trigger] out@[j]) == val_of(buf@[j]),
        decreases buf@.len() - i,
    {
        out.push(buf[i].clone());
        i += 1;
    }
    proof {
        assert(vals_of(out@) =~= vals_of(buf@));
    }
    out
}

/// The partial order on values: integers compare by magnitude, lists compare
/// lexicographically, and values of different shapes are incomparable.
pub open spec fn val_cmp(a: Val, b: Val) -> Option<Order>
    decreases a,
{
    match (a, b) {
        (Val::Int(x), Val::Int(y)) => Some(
            if x < y {
                Order::Lt
            } else if x == y {
                Order::Eq
            } else {
                Order::Gt
            },
        ),
        (Val::List(x), Val::List(y)) => seq_cmp(x, y),
        _ => None,
    }
}

/// Lexicographic comparison of two sequences of values.
pub open spec fn seq_cmp(x: Seq<Val>, y: Seq<Val>) -> Option<Order>
    decreases x,
{
    if x.len() == 0 && y.len() == 0 {
        Some(Order::Eq)
    } else if x.len() == 0 {
        Some(Order::Lt)
    } else if y.len() == 0 {
        Some(Order::Gt)
    } else {
        match val_cmp(x[0], y[0]) {
            Some(Order::Eq) => seq_cmp(x.drop_first(), y.drop_first()),
            o => o,
        }
    }
}

/// The total order the frontier's priority queue derives from the partial
/// one: incomparable values count as equal.
pub open spec fn total_cmp(a: Val, b: Val) -> Order {
    match val_cmp(a, b) {
        Some(o) => o,
        None => Order::Eq,
    }
}

/// Compares two values under their partial order.
#[verifier::loop_isolation(false)]
pub fn value_cmp(a: &Value, b: &Value) -> (r: Option<Order>)
    ensures
        r == val_cmp(a.deep(), b.deep()),
    decreases *a,
{
    broadcast use lemma_vals_of;

    match (a, b) {
        (Value::Int(x), Value::Int(y)) => {
            if big_lt(x, y) {
                Some(Order::Lt)
            } else if big_eq(x, y) {
                Some(Order::Eq)
            } else {
                Some(Order::Gt)
            }
        },
        (Value::List(x), Value::List(y)) => {
            let ghost xs = vals_of(x@);
            let ghost ys = vals_of(y@);
            proof {
                assert(xs.skip(0) =~= xs);
                assert(ys.skip(0) =~= ys);
            }
            let mut i: usize = 0;
            loop
                invariant
                    i <= x.len(),
                    i <= y.len(),
                    xs == vals_of(x@),
                    ys == vals_of(y@),
                    *a is List,
                    a->List_0@ == x@,
                    a.deep() == Val::List(xs),
                    b.deep() == Val::List(ys),
                    xs.len() == x.len(),
                    ys.len() == y.len(),
                    seq_cmp(xs, ys) == seq_cmp(xs.skip(i as int), ys.skip(i as int)),
                decreases x.len() - i,
            {
                if i == x.len() && i == y.len() {
                    return Some(Order::Eq);
                } else if i == x.len() {
                    return Some(Order::Lt);
                } else if i == y.len() {
                    return Some(Order::Gt);
                }
                proof {
                    assert(decreases_to!(*a => a->List_0));
                    assert(decreases_to!(a->List_0 => a->List_0@));
                }
                let c = value_cmp(&x[i], &y[i]);
                proof {
                    assert(xs.skip(i as int)[0] == xs[i as int]);
                    assert(ys.skip(i as int)[0] == ys[i as int]);
                    assert(xs.skip(i as int).drop_first() =~= xs.skip(i as int + 1));
                    assert(ys.skip(i as int).drop_first() =~= ys.skip(i as int + 1));
                }
                match c {
                    Some(Order::Eq) => {
                        i += 1;
                    },
                    o => {
                        return o;
                    },
                }
            }
        },
        (Value::Int(_), Value::List(_)) => None,
        (Value::List(_), Value::Int(_)) => None,
    }
}

/// Compares two values under the derived total order, treating incomparable
/// pairs as equal.
pub fn value_cmp_total(a: &Value, b: &Value) -> (r: Order)
    ensures
        r == total_cmp(a.deep(), b.deep()),
{
    match value_cmp(a, b) {
        Some(o) => o,
        None => Order::Eq,
    }
}

/// Whether two values hold the same content.
#[verifier::loop_isolation(false)]
pub fn value_eq(a: &Value, b: &Value) -> (r: bool)
    ensures
        r == (a.deep() == b.deep()),
    decreases *a,
{
    broadcast use lemma_vals_of;

    match (a, b) {
        (Value::Int(x), Value::Int(y)) => big_eq(x, y),
        (Value::List(x), Value::List(y)) => {
            let ghost xs = vals_of(x@);
            let ghost ys = vals_of(y@);
            if x.len() != y.len() {
                return false;
            }
            let mut i: usize = 0;
            while i < x.len()
                invariant
                    i <= x.len(),
                    x.len() == y.len(),
                    xs == vals_of(x@),
                    ys == vals_of(y@),
                    *a is List,
                    a->List_0@ == x@,
                    a.deep() == Val::List(xs),
                    b.deep() == Val::List(ys),
                    xs.len() == x.len(),
                    ys.len() == y.len(),
                    forall|j: int| 0 <= j < i ==> xs[j] == ys[j],
                decreases x.len() - i,
            {
                proof {
                    assert(decreases_to!(*a => a->List_0));
                    assert(decreases_to!(a->List_0 => a->List_0@));
                }
                if !value_eq(&x[i], &y[i]) {
                    proof {
                        assert(xs[i as int] != ys[i as int]);
                        assert(xs != ys);
                    }
                    return false;
                }
                i += 1;
            }
            proof {
                assert(xs =~= ys);
            }
            true
        },
        (Value::Int(_), Value::List(_)) => false,
        (Value::List(_), Value::Int(_)) => false,
    }
}

/// Comparing as equal is equality of contents.
pub proof fn lemma_val_cmp_eq_is_eq(a: Val, b: Val)
    requires
        val_cmp(a, b) == Some(Order::Eq),
    ensures
        a == b,
    decreases a,
{
    match (a, b) {
        (Val::Int(_), Val::Int(_)) => {},
        (Val::List(x), Val::List(y)) => {
            lemma_seq_cmp_eq_is_eq(x, y);
        },
        _ => {},
    }
}

/// Comparing as equal, elementwise, is equality of sequences.
pub proof fn lemma_seq_cmp_eq_is_eq(x: Seq<Val>, y: Seq<Val>)
    requires
        seq_cmp(x, y) == Some(Order::Eq),
    ensures
        x == y,
    decreases x,
{
    if x.len() == 0 && y.len() == 0 {
        assert(x =~= y);
    } else if x.len() == 0 || y.len() == 0 {
    } else {
        match val_cmp(x[0], y[0]) {
            Some(Order::Eq) => {
                lemma_val_cmp_eq_is_eq(x[0], y[0]);
                lemma_seq_cmp_eq_is_eq(x.drop_first(), y.drop_first());
                assert(x.len() == y.len());
                assert forall|i: int| 0 <= i < x.len() implies x[i] == y[i] by {
                    if i > 0 {
                        assert(x.drop_first()[i - 1] == x[i]);
                        assert(y.drop_first()[i - 1] == y[i]);
                    }
                }
                assert(x =~= y);
            },
            _ => {},
        }
    }
}

/// Every value compares as equal to itself.
pub proof fn lemma_val_cmp_refl(a: Val)
    ensures
        val_cmp(a, a) == Some(Order::Eq),
    decreases a,
{
    match a {
        Val::Int(_) => {},
        Val::List(x) => {
            lemma_seq_cmp_refl(x);
        },
    }
}

/// Every sequence compares as equal to itself.
pub proof fn lemma_seq_cmp_refl(x: Seq<Val>)
    ensures
        seq_cmp(x, x) == Some(Order::Eq),
    decreases x,
{
    if x.len() > 0 {
        lemma_val_cmp_refl(x[0]);
        lemma_seq_cmp_refl(x.drop_first());
    }
}

/// Strictly-greater comparisons chain: the partial order is transitive
/// within each shape.
pub proof fn lemma_val_gt_trans(a: Val, b: Val, c: Val)
    requires
        val_cmp(a, b) == Some(Order::Gt),
        val_cmp(b, c) == Some(Order::Gt),
    ensures
        val_cmp(a, c) == Some(Order::Gt),
    decreases a,
{
    match (a, b, c) {
        (Val::Int(_), Val::Int(_), Val::Int(_)) => {},
        (Val::List(x), Val::List(y), Val::List(z)) => {
            lemma_seq_gt_trans(x, y, z);
        },
        _ => {},
    }
}

/// Strictly-greater lexicographic comparisons chain.
pub proof fn lemma_seq_gt_trans(x: Seq<Val>, y: Seq<Val>, z: Seq<Val>)
    requires
        seq_cmp(x, y) == Some(Order::Gt),
        seq_cmp(y, z) == Some(Order::Gt),
    ensures
        seq_cmp(x, z) == Some(Order::Gt),
    decreases x,
{
    if z.len() == 0 {
        assert(y.len() > 0);
        assert(x.len() > 0);
    } else {
        assert(y.len() > 0);
        assert(x.len() > 0);
        let cxy = val_cmp(x[0], y[0]);
        let cyz = val_cmp(y[0], z[0]);
        if cxy == Some(Order::Eq) {
            lemma_val_cmp_eq_is_eq(x[0], y[0]);
            if cyz == Some(Order::Eq) {
                lemma_val_cmp_eq_is_eq(y[0], z[0]);
                lemma_seq_gt_trans(x.drop_first(), y.drop_first(), z.drop_first());
            }
        } else {
            if cyz == Some(Order::Eq) {
                lemma_val_cmp_eq_is_eq(y[0], z[0]);
            } else {
                lemma_val_gt_trans(x[0], y[0], z[0]);
            }
        }
    }
}

} // verus!
