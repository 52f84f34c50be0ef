use vstd::prelude::*;

use crate::values::{Value, Val, Fault, Order, val_of, vals_of, lemma_vals_of, total_cmp,
    clone_values};
use crate::primitive::{Repeat, Cycle, Range};
use crate::enumerators::{Permutations, Combinations, Subsequences, CartesianPower, select,
    mask_select, mask_inc, comb_succ, no_ascent, is_last_ascent, is_last_larger, perm_next_of,
    digits_inc};

verus! {

broadcast use vstd::std_specs::vec::group_vec_axioms, vstd::seq::group_seq_axioms;

/// The model of one pull's outcome: `None` is end of data, `Err` a fault.
pub open spec fn out_model(r: Option<Result<Value, Fault>>) -> Option<Result<Val, Fault>> {
    match r {
        None => None,
        Some(Ok(v)) => Some(Ok(v.deep())),
        Some(Err(e)) => Some(Err(e)),
    }
}

/// The one-element argument list the combinators pass.
pub open spec fn args1(a: Val) -> Seq<Val> {
    seq![a]
}

/// The two-element argument list the running fold passes.
pub open spec fn args2(a: Val, b: Val) -> Seq<Val> {
    seq![a, b]
}

/// A user callable with its captured environment: the functional
/// combinators invoke it with a fixed argument list. `allows` is the
/// relation between arguments and outcomes that the implementation is
/// proved to satisfy; a fault outcome of `Fault::Terminated` is the
/// graceful-termination signal.
pub trait Callable: Sized {
    /// The input-output relation this callable satisfies.
    spec fn allows(&self, args: Seq<Val>, out: Result<Val, Fault>) -> bool;

    /// Invokes the callable.
    fn call(&self, args: Vec<Value>) -> (r: Result<Value, Fault>)
        ensures
            self.allows(
                args.deep_view(),
                match r {
                    Ok(v) => Ok(v.deep()),
                    Err(e) => Err(e),
                },
            ),
    ;

    /// Duplicates the callable: the copy allows exactly the outcomes the
    /// original allows, so a cloned stream behaves as the one it was
    /// cloned from.
    fn duplicate(&self) -> (r: Self)
        ensures
            forall|args: Seq<Val>, out: Result<Val, Fault>|
                #[trigger] r.allows(args, out) <==> #[trigger] self.allows(args, out),
    ;
}

/// Two callables that allow exactly the same outcomes on every argument
/// list.
pub open spec fn callable_equiv<F: Callable>(a: F, b: F) -> bool {
    forall|args: Seq<Val>, out: Result<Val, Fault>|
        #[trigger] a.allows(args, out) <==> #[trigger] b.allows(args, out)
}

/// Yields the orbit of a seed under a callable: the current value, then
/// its image, and so on. Each pull invokes the callable on the current
/// value: an image lets the pull yield that value and stores the image; a
/// graceful termination ends the very pull that observed it, with no item;
/// a genuine fault is surfaced at the observing pull and then replayed.
pub struct Iterate<F: Callable>(pub Result<(Value, F), Fault>);

/// Applies a callable to each item of an inner stream.
pub struct MappedStream<F: Callable>(pub Result<(Box<Stream<F>>, F), Fault>);

/// Keeps every item of the inner stream whose ordinal position is a
/// multiple of the stride. The position is kept reduced modulo the stride,
/// which the keep-test alone observes.
pub struct StridedStream<F: Callable>(pub Result<(Box<Stream<F>>, usize, usize), Fault>);

/// A running fold: yields the initial value first, then each new
/// accumulator obtained by combining the previous one with the next inner
/// item. The second field is the accumulator, absent before the first pull.
pub struct ScannedStream<F: Callable>(pub Result<(Box<Stream<F>>, Value, F), Fault>, pub Option<
    Value,
>);

/// Best-first frontier: pops the greatest value under the derived total
/// order, expands it through the callable (which must return a list of
/// successors, all enqueued), and yields the popped value. A fault from
/// the callable, or a non-list expansion, poisons the stream.
pub struct HeapStream<F: Callable>(pub Result<(Vec<Value>, F), Fault>);

/// Any lazy stream, closed over the generator kinds the engine offers so
/// that combinators can wrap arbitrary nested streams.
pub enum Stream<F: Callable> {
    Repeat(Repeat),
    Cycle(Cycle),
    Range(Range),
    Permutations(Permutations),
    Combinations(Combinations),
    Subsequences(Subsequences),
    CartesianPower(CartesianPower),
    Iterate(Iterate<F>),
    Mapped(MappedStream<F>),
    Strided(StridedStream<F>),
    Scanned(ScannedStream<F>),
    Heap(HeapStream<F>),
}

/// A materialized list or a boxed stream: the two sequence representations
/// the surrounding system sees.
pub enum Sequence<F: Callable> {
    List(Vec<Value>),
    Stream(Box<Stream<F>>),
}

/// Well-formedness of a stream and everything it wraps.
pub open spec fn stream_wf<F: Callable>(s: Stream<F>) -> bool
    decreases s,
{
    match s {
        Stream::Repeat(_) => true,
        Stream::Cycle(c) => c.wf(),
        Stream::Range(_) => true,
        Stream::Permutations(p) => p.wf(),
        Stream::Combinations(c) => c.wf(),
        Stream::Subsequences(x) => x.wf(),
        Stream::CartesianPower(x) => x.wf(),
        Stream::Iterate(_) => true,
        Stream::Mapped(m) => match m.0 {
            Ok(t) => stream_wf(*t.0),
            Err(_) => true,
        },
        Stream::Strided(st) => match st.0 {
            Ok(t) => 1 <= t.1 && t.2 < t.1 && stream_wf(*t.0),
            Err(_) => true,
        },
        Stream::Scanned(sc) => match sc.0 {
            Ok(t) => stream_wf(*t.0),
            Err(_) => true,
        },
        Stream::Heap(_) => true,
    }
}

/// Nesting depth of combinators; pulls never increase it.
pub open spec fn depth<F: Callable>(s: Stream<F>) -> nat
    decreases s,
{
    match s {
        Stream::Mapped(m) => match m.0 {
            Ok(t) => 1 + depth(*t.0),
            Err(_) => 0,
        },
        Stream::Strided(st) => match st.0 {
            Ok(t) => 1 + depth(*t.0),
            Err(_) => 0,
        },
        Stream::Scanned(sc) => match sc.0 {
            Ok(t) => 1 + depth(*t.0),
            Err(_) => 0,
        },
        _ => 0,
    }
}

/// How many skipped inner pulls a strided stream may still make before its
/// next keep; a termination measure for the skip recursion.
pub open spec fn strided_slack<F: Callable>(s: Stream<F>) -> nat {
    match s {
        Stream::Strided(st) => match st.0 {
            Ok(t) => if t.2 == 0 {
                0
            } else {
                (t.1 - t.2) as nat
            },
            Err(_) => 0,
        },
        _ => 0,
    }
}

/// A poisoned strided stream holding the given fault.
pub open spec fn strided_poison<F: Callable>(s: Stream<F>, e: Fault) -> bool {
    s matches Stream::Strided(st) && st.0 == Err::<(Box<Stream<F>>, usize, usize), Fault>(e)
}

/// A live strided stream over `mid` with the given stride and position.
pub open spec fn strided_live<F: Callable>(
    s: Stream<F>,
    mid: Stream<F>,
    k: usize,
    pos: usize,
) -> bool {
    s matches Stream::Strided(st) && st.0 matches Ok(t) && *t.0 == mid && t.1 == k && t.2 == pos
}

/// The reduced position after one inner pull.
pub open spec fn stride_pos2(k: usize, pos: usize) -> usize {
    if pos + 1 >= k {
        0
    } else {
        (pos + 1) as usize
    }
}

/// What one pull of a strided stream does, given the inner pull's outcome,
/// apart from the retry after a skip.
pub open spec fn strided_step<F: Callable>(
    k: usize,
    pos: usize,
    mid: Stream<F>,
    io: Option<Result<Val, Fault>>,
    post: Stream<F>,
    out: Option<Result<Val, Fault>>,
) -> bool {
    match io {
        None => out is None && strided_poison(post, Fault::Terminated),
        Some(Err(e)) => out == Some(Err::<Val, Fault>(e)) && strided_poison(post, e),
        Some(Ok(x)) => pos == 0 ==> out == Some(Ok::<Val, Fault>(x)) && strided_live(
            post,
            mid,
            k,
            stride_pos2(k, pos),
        ),
    }
}

/// What one pull of a mapped stream does, given the inner pull's outcome
/// `io` and the inner stream's new state `mid`.
pub open spec fn mapped_step<F: Callable>(
    f: F,
    mid: Stream<F>,
    io: Option<Result<Val, Fault>>,
    post: Stream<F>,
    out: Option<Result<Val, Fault>>,
) -> bool {
    match io {
        None => {
            &&& out is None
            &&& post matches Stream::Mapped(m2) && m2.0 == Err::<(Box<Stream<F>>, F), Fault>(
                Fault::Terminated,
            )
        },
        Some(Err(e)) => {
            &&& out == Some(Err::<Val, Fault>(e))
            &&& post matches Stream::Mapped(m2) && m2.0 == Err::<(Box<Stream<F>>, F), Fault>(e)
        },
        Some(Ok(x)) => exists|fr: Result<Val, Fault>|
            #[trigger] f.allows(args1(x), fr) && match fr {
                Ok(y) => {
                    &&& out == Some(Ok::<Val, Fault>(y))
                    &&& post matches Stream::Mapped(m2) && m2.0 matches Ok(t) && *t.0 == mid
                        && t.1 == f
                },
                Err(e) => {
                    &&& out == Some(Err::<Val, Fault>(e))
                    &&& post matches Stream::Mapped(m2) && m2.0 == Err::<
                        (Box<Stream<F>>, F),
                        Fault,
                    >(e)
                },
            },
    }
}

/// What one pull of a scanned stream does once an accumulator `acc` is
/// live, given the inner pull's outcome.
pub open spec fn scanned_step<F: Callable>(
    init: Value,
    f: F,
    acc: Value,
    mid: Stream<F>,
    io: Option<Result<Val, Fault>>,
    post: Stream<F>,
    out: Option<Result<Val, Fault>>,
) -> bool {
    match io {
        None => {
            &&& out is None
            &&& post matches Stream::Scanned(s2) && s2.0 == Err::<
                (Box<Stream<F>>, Value, F),
                Fault,
            >(Fault::Terminated) && s2.1 is None
        },
        Some(Err(e)) => {
            &&& out == Some(Err::<Val, Fault>(e))
            &&& post matches Stream::Scanned(s2) && s2.0 == Err::<
                (Box<Stream<F>>, Value, F),
                Fault,
            >(e) && s2.1 is None
        },
        Some(Ok(x)) => exists|fr: Result<Val, Fault>|
            #[trigger] f.allows(args2(acc.deep(), x), fr) && match fr {
                Ok(y) => {
                    &&& out == Some(Ok::<Val, Fault>(y))
                    &&& post matches Stream::Scanned(s2) && s2.0 matches Ok(t) && *t.0 == mid
                        && t.1.deep() == init.deep() && t.2 == f && (s2.1 matches Some(a2)
                        && a2.deep() == y)
                },
                Err(e) => {
                    &&& out == Some(Err::<Val, Fault>(e))
                    &&& post matches Stream::Scanned(s2) && s2.0 == Err::<
                        (Box<Stream<F>>, Value, F),
                        Fault,
                    >(e) && s2.1 is None
                },
            },
    }
}

/// The index the frontier's scan pops: the first position holding a value
/// that every later one fails to exceed under the derived total order.
pub open spec fn best_index(s: Seq<Val>) -> int
    decreases s.len(),
{
    if s.len() <= 1 {
        0
    } else {
        let b = best_index(s.drop_last());
        if total_cmp(s.last(), s[b]) == Order::Gt {
            s.len() - 1
        } else {
            b
        }
    }
}

/// The scan's pick is inside the sequence.
pub proof fn lemma_best_index_in_range(s: Seq<Val>)
    requires
        s.len() > 0,
    ensures
        0 <= best_index(s) < s.len(),
    decreases s.len(),
{
    if s.len() > 1 {
        lemma_best_index_in_range(s.drop_last());
    }
}

/// Law: the scan's pick is a maximum under the derived total order: no
/// queue element strictly exceeds it. (Strict comparisons only relate
/// values of one shape, where the order is transitive.)
pub proof fn lemma_best_index_is_max(s: Seq<Val>)
    requires
        s.len() > 0,
    ensures
        forall|i: int|
            0 <= i < s.len() ==> total_cmp(#[trigger] s[i], s[best_index(s)]) != Order::Gt,
    decreases s.len(),
{
    lemma_best_index_in_range(s);
    if s.len() == 1 {
        crate::values::lemma_val_cmp_refl(s[0]);
    } else {
        lemma_best_index_is_max(s.drop_last());
        let b = best_index(s.drop_last());
        lemma_best_index_in_range(s.drop_last());
        assert(s.drop_last()[b] == s[b]);
        crate::values::lemma_val_cmp_refl(s.last());
        assert forall|i: int|
            0 <= i < s.len() implies total_cmp(#[trigger] s[i], s[best_index(s)])
            != Order::Gt by {
            if i < s.len() - 1 {
                assert(s.drop_last()[i] == s[i]);
                assert(total_cmp(s.drop_last()[i], s.drop_last()[b]) != Order::Gt);
                if total_cmp(s.last(), s[b]) == Order::Gt {
                    if total_cmp(s[i], s.last()) == Order::Gt {
                        crate::values::lemma_val_gt_trans(s[i], s.last(), s[b]);
                    }
                }
            }
        }
    }
}

/// What one pull of a frontier does, given the expansion outcome `fr` for
/// the popped value.
pub open spec fn heap_step<F: Callable>(
    q: Seq<Value>,
    f: F,
    fr: Result<Val, Fault>,
    post: Stream<F>,
    out: Option<Result<Val, Fault>>,
) -> bool {
    let bi = best_index(vals_of(q));
    match fr {
        Ok(Val::List(children)) => {
            &&& out == Some(Ok::<Val, Fault>(vals_of(q)[bi]))
            &&& post matches Stream::Heap(h2) && h2.0 matches Ok(t) && vals_of(t.0@) == vals_of(
                q,
            ).remove(bi) + children && t.1 == f
        },
        Ok(_) => {
            &&& out == Some(Err::<Val, Fault>(Fault::ExpandedNotList))
            &&& post matches Stream::Heap(h2) && h2.0 == Err::<(Vec<Value>, F), Fault>(
                Fault::ExpandedNotList,
            )
        },
        Err(Fault::Terminated) => {
            &&& out is None
            &&& post matches Stream::Heap(h2) && h2.0 == Err::<(Vec<Value>, F), Fault>(
                Fault::Terminated,
            )
        },
        Err(e) => {
            &&& out == Some(Err::<Val, Fault>(e))
            &&& post matches Stream::Heap(h2) && h2.0 == Err::<(Vec<Value>, F), Fault>(e)
        },
    }
}

/// The one-pull relation between a stream's state before and after, and
/// the pull's outcome. `fuel` bounds the inner pulls a composite pull may
/// make; the observable relation is its existential closure, `pulls_to`.
pub open spec fn pull_rel<F: Callable>(
    pre: Stream<F>,
    post: Stream<F>,
    out: Option<Result<Val, Fault>>,
    fuel: nat,
) -> bool
    decreases fuel,
{
    match pre {
        Stream::Repeat(p) => post == pre && out == Some(Ok::<Val, Fault>(p.0.deep())),
        Stream::Cycle(c) => {
            &&& out == Some(Ok::<Val, Fault>(c.item(0)))
            &&& post matches Stream::Cycle(c2) && c2.0 == c.0 && c2.1 as int == (c.1 + 1) % (
            c.0@.len() as int)
        },
        Stream::Range(g) => if g.spec_empty() {
            post == pre && out is None
        } else {
            &&& post matches Stream::Range(g2) && g2.start_v() == g.start_v() + g.step_v()
                && g2.end_v() == g.end_v() && g2.step_v() == g.step_v()
            &&& out == Some(Ok::<Val, Fault>(Val::Int(g.start_v())))
        },
        Stream::Permutations(p) => match p.1 {
            None => post == pre && out is None,
            Some(v) => {
                &&& out == Some(Ok::<Val, Fault>(Val::List(select(p.0@, v@))))
                &&& post matches Stream::Permutations(p2) && p2.0 == p.0 && (if no_ascent(v@) {
                    p2.1 is None
                } else {
                    exists|inc: int, linc: int|
                        is_last_ascent(v@, inc) && is_last_larger(v@, inc, linc) && (p2.1 matches
                        Some(w) && w@ == perm_next_of(v@, inc, linc))
                })
            },
        },
        Stream::Combinations(c) => match c.1 {
            None => post == pre && out is None,
            Some(v) => if v@.len() > c.0@.len() {
                post == pre && out is None
            } else {
                &&& out == Some(Ok::<Val, Fault>(Val::List(select(c.0@, v@))))
                &&& post matches Stream::Combinations(c2) && c2.0 == c.0 && (match comb_succ(
                    v@,
                    c.0@.len() as nat,
                ) {
                    Some(w) => c2.1 matches Some(v2) && v2@ == w,
                    None => c2.1 is None,
                })
            },
        },
        Stream::Subsequences(x) => match x.1 {
            None => post == pre && out is None,
            Some(m) => {
                &&& out == Some(Ok::<Val, Fault>(Val::List(mask_select(x.0@, m@))))
                &&& post matches Stream::Subsequences(x2) && x2.0 == x.0 && (if forall|i: int|
                    0 <= i < m@.len() ==> m@[i] {
                    x2.1 is None
                } else {
                    x2.1 matches Some(m2) && m2@ == mask_inc(m@)
                })
            },
        },
        Stream::CartesianPower(x) => match x.1 {
            None => post == pre && out is None,
            Some(d) => {
                &&& out == Some(Ok::<Val, Fault>(Val::List(select(x.0@, d@))))
                &&& post matches Stream::CartesianPower(x2) && x2.0 == x.0 && (if forall|i: int|
                    0 <= i < d@.len() ==> d@[i] + 1 == x.0@.len() {
                    x2.1 is None
                } else {
                    x2.1 matches Some(d2) && d2@ == digits_inc(d@, x.0@.len() as nat)
                })
            },
        },
        Stream::Iterate(it) => match it.0 {
            Ok(t) => exists|fr: Result<Val, Fault>|
                #[trigger] t.1.allows(args1(t.0.deep()), fr) && (match fr {
                    Ok(y) => {
                        &&& out == Some(Ok::<Val, Fault>(t.0.deep()))
                        &&& post matches Stream::Iterate(it2) && it2.0 matches Ok(t2)
                            && t2.0.deep() == y && t2.1 == t.1
                    },
                    Err(Fault::Terminated) => {
                        &&& out is None
                        &&& post matches Stream::Iterate(it2) && it2.0 == Err::<
                            (Value, F),
                            Fault,
                        >(Fault::Terminated)
                    },
                    Err(e) => {
                        &&& out == Some(Err::<Val, Fault>(e))
                        &&& post matches Stream::Iterate(it2) && it2.0 == Err::<
                            (Value, F),
                            Fault,
                        >(e)
                    },
                }),
            Err(Fault::Terminated) => post == pre && out is None,
            Err(e) => post == pre && out == Some(Err::<Val, Fault>(e)),
        },
        Stream::Mapped(m) => match m.0 {
            Ok(t) => fuel > 0 && exists|mid: Stream<F>, io: Option<Result<Val, Fault>>|
                #[trigger] mapped_step(t.1, mid, io, post, out) && pull_rel(
                    *t.0,
                    mid,
                    io,
                    (fuel - 1) as nat,
                ),
            Err(Fault::Terminated) => post == pre && out is None,
            Err(e) => post == pre && out == Some(Err::<Val, Fault>(e)),
        },
        Stream::Scanned(sc) => match sc.0 {
            Ok(t) => match sc.1 {
                None => {
                    &&& out == Some(Ok::<Val, Fault>(t.1.deep()))
                    &&& post matches Stream::Scanned(s2) && s2.0 matches Ok(t2) && *t2.0 == *t.0
                        && t2.1.deep() == t.1.deep() && t2.2 == t.2 && (s2.1 matches Some(a)
                        && a.deep() == t.1.deep())
                },
                Some(acc) => fuel > 0 && exists|mid: Stream<F>, io: Option<Result<Val, Fault>>|
                    #[trigger] scanned_step(t.1, t.2, acc, mid, io, post, out) && pull_rel(
                        *t.0,
                        mid,
                        io,
                        (fuel - 1) as nat,
                    ),
            },
            Err(Fault::Terminated) => post == pre && out is None,
            Err(e) => post == pre && out == Some(Err::<Val, Fault>(e)),
        },
        Stream::Strided(st) => match st.0 {
            Ok(t) => fuel > 0 && exists|mid: Stream<F>, io: Option<Result<Val, Fault>>|
                #[trigger] strided_step(t.1, t.2, mid, io, post, out) && pull_rel(
                    *t.0,
                    mid,
                    io,
                    (fuel - 1) as nat,
                ) && (match io {
                    Some(Ok(x)) => t.2 != 0 ==> exists|nxt: Stream<F>|
                        #[trigger] strided_live(nxt, mid, t.1, stride_pos2(t.1, t.2)) && pull_rel(
                            nxt,
                            post,
                            out,
                            (fuel - 1) as nat,
                        ),
                    _ => true,
                }),
            Err(Fault::Terminated) => post == pre && out is None,
            Err(e) => post == pre && out == Some(Err::<Val, Fault>(e)),
        },
        Stream::Heap(h) => match h.0 {
            Ok(t) => if t.0@.len() == 0 {
                post == pre && out is None
            } else {
                exists|fr: Result<Val, Fault>|
                    #[trigger] t.1.allows(
                        args1(vals_of(t.0@)[best_index(vals_of(t.0@))]),
                        fr,
                    ) && heap_step(t.0@, t.1, fr, post, out)
            },
            Err(Fault::Terminated) => post == pre && out is None,
            Err(e) => post == pre && out == Some(Err::<Val, Fault>(e)),
        },
    }
}

/// The observable one-pull relation: some bound on inner pulls suffices.
pub open spec fn pulls_to<F: Callable>(
    pre: Stream<F>,
    post: Stream<F>,
    out: Option<Result<Val, Fault>>,
) -> bool {
    exists|fuel: nat| pull_rel(pre, post, out, fuel)
}


/// More fuel never invalidates the pull relation.
pub proof fn lemma_pull_rel_mono<F: Callable>(
    pre: Stream<F>,
    post: Stream<F>,
    out: Option<Result<Val, Fault>>,
    n: nat,
    m: nat,
)
    requires
        pull_rel(pre, post, out, n),
        n <= m,
    ensures
        pull_rel(pre, post, out, m),
    decreases n,
{
    match pre {
        Stream::Mapped(mm) => match mm.0 {
            Ok(t) => {
                let (mid, io) = choose|mid: Stream<F>, io: Option<Result<Val, Fault>>|
                    #[trigger] mapped_step(t.1, mid, io, post, out) && pull_rel(
                        *t.0,
                        mid,
                        io,
                        (n - 1) as nat,
                    );
                lemma_pull_rel_mono(*t.0, mid, io, (n - 1) as nat, (m - 1) as nat);
            },
            Err(_) => {},
        },
        Stream::Scanned(sc) => match sc.0 {
            Ok(t) => match sc.1 {
                None => {},
                Some(acc) => {
                    let (mid, io) = choose|mid: Stream<F>, io: Option<Result<Val, Fault>>|
                        #[trigger] scanned_step(t.1, t.2, acc, mid, io, post, out) && pull_rel(
                            *t.0,
                            mid,
                            io,
                            (n - 1) as nat,
                        );
                    lemma_pull_rel_mono(*t.0, mid, io, (n - 1) as nat, (m - 1) as nat);
                },
            },
            Err(_) => {},
        },
        Stream::Strided(st) => match st.0 {
            Ok(t) => {
                let (mid, io) = choose|mid: Stream<F>, io: Option<Result<Val, Fault>>|
                    #[trigger] strided_step(t.1, t.2, mid, io, post, out) && pull_rel(
                        *t.0,
                        mid,
                        io,
                        (n - 1) as nat,
                    ) && (match io {
                        Some(Ok(x)) => t.2 != 0 ==> exists|nxt: Stream<F>|
                            #[trigger] strided_live(nxt, mid, t.1, stride_pos2(t.1, t.2))
                                && pull_rel(nxt, post, out, (n - 1) as nat),
                        _ => true,
                    });
                lemma_pull_rel_mono(*t.0, mid, io, (n - 1) as nat, (m - 1) as nat);
                match io {
                    Some(Ok(x)) => {
                        if t.2 != 0 {
                            let nxt = choose|nxt: Stream<F>|
                                #[trigger] strided_live(nxt, mid, t.1, stride_pos2(t.1, t.2))
                                    && pull_rel(nxt, post, out, (n - 1) as nat);
                            lemma_pull_rel_mono(nxt, post, out, (n - 1) as nat, (m - 1) as nat);
                        }
                    },
                    _ => {},
                }
            },
            Err(_) => {},
        },
        _ => {},
    }
}

/// Packages one inner pull into the mapped stream's pull relation.
pub proof fn lemma_mapped_intro<F: Callable>(
    pre: Stream<F>,
    post: Stream<F>,
    out: Option<Result<Val, Fault>>,
    mid: Stream<F>,
    io: Option<Result<Val, Fault>>,
    n: nat,
)
    requires
        pre is Mapped,
        pre->Mapped_0.0 is Ok,
        pull_rel(*pre->Mapped_0.0->Ok_0.0, mid, io, n),
        mapped_step(pre->Mapped_0.0->Ok_0.1, mid, io, post, out),
    ensures
        pull_rel(pre, post, out, (n + 1) as nat),
{
    let t = pre->Mapped_0.0->Ok_0;
    assert(mapped_step(t.1, mid, io, post, out) && pull_rel(*t.0, mid, io, n));
}

/// Packages one inner pull into the running fold's pull relation.
pub proof fn lemma_scanned_intro<F: Callable>(
    pre: Stream<F>,
    post: Stream<F>,
    out: Option<Result<Val, Fault>>,
    mid: Stream<F>,
    io: Option<Result<Val, Fault>>,
    n: nat,
)
    requires
        pre is Scanned,
        pre->Scanned_0.0 is Ok,
        pre->Scanned_0.1 is Some,
        pull_rel(*pre->Scanned_0.0->Ok_0.0, mid, io, n),
        scanned_step(
            pre->Scanned_0.0->Ok_0.1,
            pre->Scanned_0.0->Ok_0.2,
            pre->Scanned_0.1->Some_0,
            mid,
            io,
            post,
            out,
        ),
    ensures
        pull_rel(pre, post, out, (n + 1) as nat),
{
    let t = pre->Scanned_0.0->Ok_0;
    let acc = pre->Scanned_0.1->Some_0;
    assert(scanned_step(t.1, t.2, acc, mid, io, post, out) && pull_rel(*t.0, mid, io, n));
}

/// Packages one kept or faulted inner pull into the strided stream's pull
/// relation.
pub proof fn lemma_strided_intro<F: Callable>(
    pre: Stream<F>,
    post: Stream<F>,
    out: Option<Result<Val, Fault>>,
    mid: Stream<F>,
    io: Option<Result<Val, Fault>>,
    n: nat,
)
    requires
        pre is Strided,
        pre->Strided_0.0 is Ok,
        pull_rel(*pre->Strided_0.0->Ok_0.0, mid, io, n),
        io matches Some(Ok(x)) ==> pre->Strided_0.0->Ok_0.2 == 0,
        strided_step(pre->Strided_0.0->Ok_0.1, pre->Strided_0.0->Ok_0.2, mid, io, post, out),
    ensures
        pull_rel(pre, post, out, (n + 1) as nat),
{
    let t = pre->Strided_0.0->Ok_0;
    assert(strided_step(t.1, t.2, mid, io, post, out) && pull_rel(*t.0, mid, io, n));
}

/// Packages a skipped inner pull and the retry into the strided stream's
/// pull relation.
pub proof fn lemma_strided_skip_intro<F: Callable>(
    pre: Stream<F>,
    post: Stream<F>,
    out: Option<Result<Val, Fault>>,
    mid: Stream<F>,
    x: Val,
    nxt: Stream<F>,
    n: nat,
    m: nat,
)
    requires
        pre is Strided,
        pre->Strided_0.0 is Ok,
        pre->Strided_0.0->Ok_0.2 != 0,
        pull_rel(*pre->Strided_0.0->Ok_0.0, mid, Some(Ok(x)), n),
        strided_live(
            nxt,
            mid,
            pre->Strided_0.0->Ok_0.1,
            stride_pos2(pre->Strided_0.0->Ok_0.1, pre->Strided_0.0->Ok_0.2),
        ),
        pull_rel(nxt, post, out, m),
    ensures
        pull_rel(pre, post, out, (n + m + 1) as nat),
{
    let t = pre->Strided_0.0->Ok_0;
    let w = if n <= m {
        m
    } else {
        n
    };
    lemma_pull_rel_mono(*t.0, mid, Some(Ok(x)), n, w);
    lemma_pull_rel_mono(nxt, post, out, m, w);
    let io = Some(Ok::<Val, Fault>(x));
    assert(strided_step(t.1, t.2, mid, io, post, out));
    assert(strided_live(nxt, mid, t.1, stride_pos2(t.1, t.2)) && pull_rel(nxt, post, out, w));
    assert(strided_step(t.1, t.2, mid, io, post, out) && pull_rel(*t.0, mid, io, w));
    assert(pull_rel(pre, post, out, (w + 1) as nat));
    lemma_pull_rel_mono(pre, post, out, (w + 1) as nat, (n + m + 1) as nat);
}

/// Finds the position the frontier pops: a left-to-right scan keeping the
/// strictly greatest value so far under the derived total order.
#[verifier::loop_isolation(false)]
fn best_pos(q: &Vec<Value>) -> (r: usize)
    requires
        q@.len() > 0,
    ensures
        r < q@.len(),
        r as int == best_index(vals_of(q@)),
{
    broadcast use lemma_vals_of;

    let mut best: usize = 0;
    let mut i: usize = 1;
    proof {
        assert(vals_of(q@).take(1).len() == 1);
    }
    while i < q.len()
        invariant
            1 <= i <= q@.len(),
            best < i,
            best as int == best_index(vals_of(q@).take(i as int)),
        decreases q@.len() - i,
    {
        proof {
            assert(vals_of(q@).take(i + 1).drop_last() =~= vals_of(q@).take(i as int));
            assert(vals_of(q@).take(i + 1).last() == vals_of(q@)[i as int]);
            assert(vals_of(q@).take(i + 1)[best as int] == vals_of(q@)[best as int]);
        }
        if matches!(crate::values::value_cmp_total(&q[i], &q[best]), crate::values::Order::Gt) {
            best = i;
        }
        i += 1;
    }
    proof {
        assert(vals_of(q@).take(q@.len() as int) =~= vals_of(q@));
    }
    best
}

impl<F: Callable> HeapStream<F> {
    /// Seeds a frontier with one initial value and its expansion callable.
    pub fn new(o: Value, f: F) -> (h: HeapStream<F>)
        ensures
            h.0 matches Ok(t) && vals_of(t.0@) == seq![o.deep()] && t.1 == f,
    {
        broadcast use lemma_vals_of;

        let ghost ov = o.deep();
        let q = vec![o];
        proof {
            assert(vals_of(q@) =~= seq![ov]);
        }
        HeapStream(Ok((q, f)))
    }
}

impl<F: Callable> Stream<F> {
    /// Pulls the next item, relating the stream's old and new states and
    /// the outcome by the one-pull relation.
    #[verifier::loop_isolation(false)]
    pub fn next(&mut self) -> (r: Option<Result<Value, Fault>>)
        requires
            stream_wf(*old(self)),
        ensures
            stream_wf(*final(self)),
            depth(*final(self)) <= depth(*old(self)),
            pulls_to(*old(self), *final(self), out_model(r)),
        decreases depth(*old(self)), strided_slack(*old(self)), 1nat,
    {
        broadcast use lemma_vals_of;

        let ghost pre = *self;
        if matches!(self, Stream::Strided(_)) {
            return self.next_strided();
        }
        match self {
            Stream::Repeat(p) => {
                let r = p.next();
                proof {
                    assert(pull_rel(pre, *self, out_model(r), 0));
                }
                r
            },
            Stream::Cycle(c) => {
                let r = c.next();
                proof {
                    assert(pull_rel(pre, *self, out_model(r), 0));
                }
                r
            },
            Stream::Range(g) => {
                let r = g.next();
                proof {
                    assert(pull_rel(pre, *self, out_model(r), 0));
                }
                r
            },
            Stream::Permutations(p) => {
                let r = p.next();
                proof {
                    assert(pull_rel(pre, *self, out_model(r), 0));
                }
                r
            },
            Stream::Combinations(c) => {
                let r = c.next();
                proof {
                    assert(pull_rel(pre, *self, out_model(r), 0));
                }
                r
            },
            Stream::Subsequences(x) => {
                let r = x.next();
                proof {
                    assert(pull_rel(pre, *self, out_model(r), 0));
                }
                r
            },
            Stream::CartesianPower(x) => {
                let r = x.next();
                proof {
                    assert(pull_rel(pre, *self, out_model(r), 0));
                }
                r
            },
            Stream::Iterate(it) => {
                let mut fault: Option<Fault> = None;
                let out_r: Option<Result<Value, Fault>>;
                let mut live = false;
                let ghost mut g_fr: Result<Val, Fault> = Err(Fault::Terminated);
                match &mut it.0 {
                    Ok(pair) => {
                        live = true;
                        let ret = pair.0.clone();
                        let args = vec![pair.0.clone()];
                        proof {
                            assert(args.deep_view() =~= args1(pair.0.deep()));
                        }
                        let res = pair.1.call(args);
                        proof {
                            g_fr = (match &res {
                                Ok(v) => Ok(v.deep()),
                                Err(e) => Err(*e),
                            });
                        }
                        match res {
                            Ok(nxt) => {
                                pair.0 = nxt;
                                out_r = Some(Ok(ret));
                            },
                            Err(Fault::Terminated) => {
                                fault = Some(Fault::Terminated);
                                out_r = None;
                            },
                            Err(e) => {
                                fault = Some(e);
                                out_r = Some(Err(e));
                            },
                        }
                    },
                    Err(Fault::Terminated) => {
                        out_r = None;
                    },
                    Err(e) => {
                        out_r = Some(Err(*e));
                    },
                }
                if let Some(e) = fault {
                    it.0 = Err(e);
                }
                proof {
                    if live {
                        let t = pre->Iterate_0.0->Ok_0;
                        assert(t.1.allows(args1(t.0.deep()), g_fr));
                    }
                    assert(pull_rel(pre, *self, out_model(out_r), 0));
                }
                out_r
            },
            Stream::Mapped(m) => {
                let mut poison: Option<Fault> = None;
                let out_r: Option<Result<Value, Fault>>;
                let mut live = false;
                let ghost mut g_mid: Stream<F> = pre;
                let ghost mut g_io: Option<Result<Val, Fault>> = None;
                let ghost mut g_n: nat = 0;
                let ghost mut g_i0: Stream<F> = pre;
                match &mut m.0 {
                    Ok(pair) => {
                        live = true;
                        let ghost i0 = *pair.0;
                        proof {
                            g_i0 = i0;
                        }
                        let io = pair.0.next();
                        proof {
                            g_mid = *pair.0;
                            g_io = out_model(io);
                            g_n = choose|nn: nat| pull_rel(i0, g_mid, out_model(io), nn);
                            assert(pull_rel(i0, g_mid, g_io, g_n));
                        }
                        match io {
                            None => {
                                poison = Some(Fault::Terminated);
                                out_r = None;
                            },
                            Some(Err(e)) => {
                                poison = Some(e);
                                out_r = Some(Err(e));
                            },
                            Some(Ok(x)) => {
                                let ghost xv = x.deep();
                                let args = vec![x];
                                proof {
                                    assert(args.deep_view() =~= args1(xv));
                                }
                                let fr = pair.1.call(args);
                                match fr {
                                    Ok(y) => {
                                        out_r = Some(Ok(y));
                                    },
                                    Err(e) => {
                                        poison = Some(e);
                                        out_r = Some(Err(e));
                                    },
                                }
                            },
                        }
                    },
                    Err(Fault::Terminated) => {
                        out_r = None;
                    },
                    Err(e) => {
                        out_r = Some(Err(*e));
                    },
                }
                if let Some(e) = poison {
                    m.0 = Err(e);
                }
                proof {
                    if live {
                        lemma_mapped_intro(pre, *self, out_model(out_r), g_mid, g_io, g_n);
                    } else {
                        assert(pull_rel(pre, *self, out_model(out_r), 0));
                    }
                }
                out_r
            },
            Stream::Scanned(sc) => {
                let mut poison: Option<Fault> = None;
                let out_r: Option<Result<Value, Fault>>;
                let mut live = false;
                let ghost mut g_mid: Stream<F> = pre;
                let ghost mut g_io: Option<Result<Val, Fault>> = None;
                let ghost mut g_n: nat = 0;
                let ghost mut g_i0: Stream<F> = pre;
                let mut new_acc: Option<Value> = None;
                match &mut sc.0 {
                    Ok(trip) => {
                        let acc_opt = sc.1.take();
                        match acc_opt {
                            None => {
                                let ret = trip.1.clone();
                                new_acc = Some(trip.1.clone());
                                out_r = Some(Ok(ret));
                            },
                            Some(acc) => {
                                live = true;
                                let ghost i0 = *trip.0;
                                let ghost accv = acc.deep();
                                proof {
                                    g_i0 = i0;
                                }
                                let io = trip.0.next();
                                proof {
                                    g_mid = *trip.0;
                                    g_io = out_model(io);
                                    g_n = choose|nn: nat| pull_rel(i0, g_mid, out_model(io), nn);
                                    assert(pull_rel(i0, g_mid, g_io, g_n));
                                }
                                match io {
                                    None => {
                                        poison = Some(Fault::Terminated);
                                        out_r = None;
                                    },
                                    Some(Err(e)) => {
                                        poison = Some(e);
                                        out_r = Some(Err(e));
                                    },
                                    Some(Ok(x)) => {
                                        let ghost xv = x.deep();
                                        let args = vec![acc, x];
                                        proof {
                                            assert(args.deep_view() =~= args2(accv, xv));
                                        }
                                        let fr = trip.2.call(args);
                                        match fr {
                                            Ok(y) => {
                                                new_acc = Some(y.clone());
                                                out_r = Some(Ok(y));
                                            },
                                            Err(e) => {
                                                poison = Some(e);
                                                out_r = Some(Err(e));
                                            },
                                        }
                                    },
                                }
                            },
                        }
                    },
                    Err(Fault::Terminated) => {
                        out_r = None;
                    },
                    Err(e) => {
                        out_r = Some(Err(*e));
                    },
                }
                if new_acc.is_some() {
                    sc.1 = new_acc;
                }
                if let Some(e) = poison {
                    sc.0 = Err(e);
                }
                proof {
                    if live {
                        lemma_scanned_intro(pre, *self, out_model(out_r), g_mid, g_io, g_n);
                    } else {
                        assert(pull_rel(pre, *self, out_model(out_r), 0));
                    }
                }
                out_r
            },
            Stream::Strided(_) => {
                // Dispatched to `next_strided` before the match; provably
                // not reached.
                proof {
                    assert(false);
                }
                None
            },
            Stream::Heap(h) => {
                let mut poison: Option<Fault> = None;
                let out_r: Option<Result<Value, Fault>>;
                let mut live = false;
                let ghost mut g_q0: Seq<Value> = Seq::empty();
                let ghost mut g_fr: Result<Val, Fault> = Err(Fault::Terminated);
                match &mut h.0 {
                    Ok(pair) => {
                        if pair.0.len() == 0 {
                            out_r = None;
                        } else {
                            live = true;
                            let ghost q0 = pair.0@;
                            let ghost f0 = pair.1;
                            proof {
                                g_q0 = q0;
                            }
                            let bi = best_pos(&pair.0);
                            let popped = pair.0.remove(bi);
                            let ghost pv = popped.deep();
                            proof {
                                assert(pv == vals_of(q0)[best_index(vals_of(q0))]);
                                assert(vals_of(pair.0@) =~= vals_of(q0).remove(
                                    best_index(vals_of(q0)),
                                ));
                            }
                            let args = vec![popped.clone()];
                            proof {
                                assert(args.deep_view() =~= args1(pv));
                            }
                            let fr = pair.1.call(args);
                            proof {
                                g_fr = (match &fr {
                                    Ok(v) => Ok(v.deep()),
                                    Err(e) => Err(*e),
                                });
                            }
                            match fr {
                                Ok(Value::List(children)) => {
                                    let ghost midq = pair.0@;
                                    let ghost chv = vals_of(children@);
                                    let mut ci: usize = 0;
                                    while ci < children.len()
                                        invariant
                                            ci <= children@.len(),
                                            pair.1 == f0,
                                            pair.0@.len() == midq.len() + ci,
                                            forall|k: int| 0 <= k < midq.len() ==> pair.0@[k]
                                                == midq[k],
                                            forall|k: int| 0 <= k < ci ==> val_of(
                                                #[trigger] pair.0@[midq.len() + k],
                                            ) == val_of(children@[k]),
                                        decreases children@.len() - ci,
                                    {
                                        pair.0.push(children[ci].clone());
                                        ci += 1;
                                    }
                                    proof {
                                        lemma_vals_of(pair.0@);
                                        lemma_vals_of(midq);
                                        lemma_vals_of(children@);
                                        assert forall|k: int|
                                            0 <= k < vals_of(pair.0@).len() implies vals_of(
                                            pair.0@,
                                        )[k] == (vals_of(midq) + chv)[k] by {
                                            if k < midq.len() {
                                                assert(pair.0@[k] == midq[k]);
                                            } else {
                                                assert(pair.0@[midq.len() + (k - midq.len())]
                                                    == pair.0@[k]);
                                                assert(val_of(pair.0@[k]) == val_of(
                                                    children@[k - midq.len()],
                                                ));
                                            }
                                        }
                                        assert(vals_of(pair.0@) =~= vals_of(midq) + chv);
                                    }
                                    out_r = Some(Ok(popped));
                                },
                                Ok(other) => {
                                    let _ = other;
                                    poison = Some(Fault::ExpandedNotList);
                                    out_r = Some(Err(Fault::ExpandedNotList));
                                },
                                Err(Fault::Terminated) => {
                                    poison = Some(Fault::Terminated);
                                    out_r = None;
                                },
                                Err(e) => {
                                    poison = Some(e);
                                    out_r = Some(Err(e));
                                },
                            }
                        }
                    },
                    Err(Fault::Terminated) => {
                        out_r = None;
                    },
                    Err(e) => {
                        out_r = Some(Err(*e));
                    },
                }
                if let Some(e) = poison {
                    h.0 = Err(e);
                }
                proof {
                    if live {
                        let t = pre->Heap_0.0->Ok_0;
                        assert(t.0@ == g_q0);
                        assert(t.1.allows(
                            args1(vals_of(t.0@)[best_index(vals_of(t.0@))]),
                            g_fr,
                        ));
                        if g_fr is Ok && g_fr->Ok_0 is List {
                            let cv = g_fr->Ok_0;
                            assert(out_model(out_r) == Some(Ok::<Val, Fault>(vals_of(t.0@)[
                            best_index(vals_of(t.0@))])));
                            assert(*self is Heap);
                            assert((*self)->Heap_0.0 is Ok);
                            assert(vals_of((*self)->Heap_0.0->Ok_0.0@) == vals_of(t.0@).remove(
                                best_index(vals_of(t.0@)),
                            ) + cv->List_0);
                            assert((*self)->Heap_0.0->Ok_0.1 == t.1);
                        }
                        assert(heap_step(t.0@, t.1, g_fr, *self, out_model(out_r)));
                    }
                    assert(pull_rel(pre, *self, out_model(out_r), 0));
                }
                out_r
            },
        }
    }

    /// One pull of a strided stream: pull the inner stream, keep or skip by
    /// the reduced position, and on a skip try again.
    #[verifier::loop_isolation(false)]
    fn next_strided(&mut self) -> (r: Option<Result<Value, Fault>>)
        requires
            stream_wf(*old(self)),
            *old(self) is Strided,
        ensures
            stream_wf(*final(self)),
            depth(*final(self)) <= depth(*old(self)),
            pulls_to(*old(self), *final(self), out_model(r)),
        decreases depth(*old(self)), strided_slack(*old(self)), 0nat,
    {
        let ghost pre = *self;
        let mut poison: Option<Fault> = None;
        let mut out_r: Option<Result<Value, Fault>> = None;
        let mut skip = false;
        let mut live = false;
        let ghost mut g_mid: Stream<F> = pre;
        let ghost mut g_io: Option<Result<Val, Fault>> = None;
        let ghost mut g_n: nat = 0;
        let ghost mut g_i0: Stream<F> = pre;
        match self {
            Stream::Strided(st) => {
                match &mut st.0 {
                    Ok(trip) => {
                        live = true;
                        let ghost i0 = *trip.0;
                        proof {
                            g_i0 = i0;
                        }
                        let io = trip.0.next();
                        proof {
                            g_mid = *trip.0;
                            g_io = out_model(io);
                            g_n = choose|nn: nat| pull_rel(i0, g_mid, out_model(io), nn);
                            assert(pull_rel(i0, g_mid, g_io, g_n));
                        }
                        match io {
                            None => {
                                poison = Some(Fault::Terminated);
                            },
                            Some(Err(e)) => {
                                poison = Some(e);
                                out_r = Some(Err(e));
                            },
                            Some(Ok(x)) => {
                                let keep = trip.2 == 0;
                                let newpos = if trip.2 + 1 >= trip.1 {
                                    0
                                } else {
                                    trip.2 + 1
                                };
                                trip.2 = newpos;
                                if keep {
                                    out_r = Some(Ok(x));
                                } else {
                                    skip = true;
                                }
                            },
                        }
                    },
                    Err(Fault::Terminated) => {},
                    Err(e) => {
                        out_r = Some(Err(*e));
                    },
                }
                if let Some(e) = poison {
                    st.0 = Err(e);
                }
            },
            _ => {
                proof {
                    assert(false);
                }
            },
        }
        if skip {
            let ghost nxt = *self;
            let r2 = self.next();
            proof {
                let g_m = choose|nn: nat| pull_rel(nxt, *self, out_model(r2), nn);
                assert(pull_rel(nxt, *self, out_model(r2), g_m));
                let t = pre->Strided_0.0->Ok_0;
                assert(*t.0 == g_i0);
                assert(strided_live(nxt, g_mid, t.1, nxt->Strided_0.0->Ok_0.2));
                lemma_strided_skip_intro(
                    pre,
                    *self,
                    out_model(r2),
                    g_mid,
                    g_io->Some_0->Ok_0,
                    nxt,
                    g_n,
                    g_m,
                );
            }
            return r2;
        }
        proof {
            if live {
                lemma_strided_intro(pre, *self, out_model(out_r), g_mid, g_io, g_n);
            } else {
                assert(pull_rel(pre, *self, out_model(out_r), 0));
            }
        }
        out_r
    }
}

impl Repeat {
    /// Slices the infinite constant stream with pythonic, possibly absent,
    /// possibly negative bounds. Negative bounds are normalized one past
    /// the end; an absent lower bound means the start and an absent upper
    /// bound means the open end. Bounds on the same side of zero give a
    /// finite run of copies, a negative lower with a non-negative upper
    /// gives the empty list, and a non-negative lower with a negative
    /// upper leaves an infinite tail.
    #[verifier::loop_isolation(false)]
    pub fn pythonic_slice<F: Callable>(&self, lo: Option<isize>, hi: Option<isize>) -> (r: Result<
        Sequence<F>,
        Fault,
    >)
        requires
            lo matches Some(x) ==> x > isize::MIN,
            hi matches Some(x) ==> x > isize::MIN,
        ensures
            ({
                let l: int = match lo {
                    Some(x) => if x < 0 {
                        x - 1
                    } else {
                        x as int
                    },
                    None => 0,
                };
                let h: int = match hi {
                    Some(x) => if x < 0 {
                        x - 1
                    } else {
                        x as int
                    },
                    None => -1,
                };
                match r {
                    Ok(sq) => if (l < 0) == (h < 0) {
                        sq matches Sequence::List(v) && vals_of(v@) == Seq::new(
                            (if h - l > 0 {
                                h - l
                            } else {
                                0
                            }) as nat,
                            |i: int| self.0.deep(),
                        )
                    } else if l < 0 {
                        sq matches Sequence::List(v) && v@.len() == 0
                    } else {
                        sq matches Sequence::Stream(b) && *b matches Stream::Repeat(rp)
                            && rp.0.deep() == self.0.deep()
                    },
                    Err(_) => false,
                }
            }),
    {
        broadcast use lemma_vals_of;

        let l: isize = match lo {
            Some(x) => if x < 0 {
                x - 1
            } else {
                x
            },
            None => 0,
        };
        let h: isize = match hi {
            Some(x) => if x < 0 {
                x - 1
            } else {
                x
            },
            None => -1,
        };
        if (l < 0) == (h < 0) {
            let count: usize = if h > l {
                (h - l) as usize
            } else {
                0
            };
            let mut out: Vec<Value> = Vec::new();
            let mut i: usize = 0;
            while i < count
                invariant
                    i <= count,
                    out@.len() == i,
                    forall|j: int| 0 <= j < i ==> val_of(#[trigger] out@[j]) == self.0.deep(),
                decreases count - i,
            {
                out.push(self.0.clone());
                i += 1;
            }
            proof {
                assert(vals_of(out@) =~= Seq::new(count as nat, |j: int| self.0.deep()));
            }
            Ok(Sequence::List(out))
        } else if l < 0 {
            Ok(Sequence::List(Vec::new()))
        } else {
            Ok(Sequence::Stream(Box::new(Stream::Repeat(Repeat(self.0.clone())))))
        }
    }
}

/// Content equality of two streams: the same kind, the same buffer and
/// state contents, equivalent callables, and content-equal wrapped streams.
/// This is what cloning establishes between the copy and its source.
pub open spec fn stream_eq<F: Callable>(a: Stream<F>, b: Stream<F>) -> bool
    decreases a,
{
    match (a, b) {
        (Stream::Repeat(x), Stream::Repeat(y)) => x.0.deep() == y.0.deep(),
        (Stream::Cycle(x), Stream::Cycle(y)) => vals_of(x.0@) == vals_of(y.0@) && x.1 == y.1,
        (Stream::Range(x), Stream::Range(y)) => x.start_v() == y.start_v() && x.end_v()
            == y.end_v() && x.step_v() == y.step_v(),
        (Stream::Permutations(x), Stream::Permutations(y)) => vals_of(x.0@) == vals_of(y.0@)
            && idx_state_eq(x.1, y.1),
        (Stream::Combinations(x), Stream::Combinations(y)) => vals_of(x.0@) == vals_of(y.0@)
            && idx_state_eq(x.1, y.1),
        (Stream::Subsequences(x), Stream::Subsequences(y)) => vals_of(x.0@) == vals_of(y.0@)
            && mask_state_eq(x.1, y.1),
        (Stream::CartesianPower(x), Stream::CartesianPower(y)) => vals_of(x.0@) == vals_of(
            y.0@,
        ) && idx_state_eq(x.1, y.1),
        (Stream::Iterate(x), Stream::Iterate(y)) => match (x.0, y.0) {
            (Ok(t1), Ok(t2)) => t1.0.deep() == t2.0.deep() && callable_equiv(t1.1, t2.1),
            (Err(e1), Err(e2)) => e1 == e2,
            _ => false,
        },
        (Stream::Mapped(x), Stream::Mapped(y)) => match (x.0, y.0) {
            (Ok(t1), Ok(t2)) => stream_eq(*t1.0, *t2.0) && callable_equiv(t1.1, t2.1),
            (Err(e1), Err(e2)) => e1 == e2,
            _ => false,
        },
        (Stream::Strided(x), Stream::Strided(y)) => match (x.0, y.0) {
            (Ok(t1), Ok(t2)) => stream_eq(*t1.0, *t2.0) && t1.1 == t2.1 && t1.2 == t2.2,
            (Err(e1), Err(e2)) => e1 == e2,
            _ => false,
        },
        (Stream::Scanned(x), Stream::Scanned(y)) => (match (x.0, y.0) {
            (Ok(t1), Ok(t2)) => stream_eq(*t1.0, *t2.0) && t1.1.deep() == t2.1.deep()
                && callable_equiv(t1.2, t2.2),
            (Err(e1), Err(e2)) => e1 == e2,
            _ => false,
        }) && (match (x.1, y.1) {
            (Some(a1), Some(a2)) => a1.deep() == a2.deep(),
            (None, None) => true,
            _ => false,
        }),
        (Stream::Heap(x), Stream::Heap(y)) => match (x.0, y.0) {
            (Ok(t1), Ok(t2)) => vals_of(t1.0@) == vals_of(t2.0@) && callable_equiv(t1.1, t2.1),
            (Err(e1), Err(e2)) => e1 == e2,
            _ => false,
        },
        _ => false,
    }
}

/// Content equality of two index-vector states.
pub open spec fn idx_state_eq(a: Option<Vec<usize>>, b: Option<Vec<usize>>) -> bool {
    match (a, b) {
        (Some(v1), Some(v2)) => v1@ == v2@,
        (None, None) => true,
        _ => false,
    }
}

/// Content equality of two mask states.
pub open spec fn mask_state_eq(a: Option<Vec<bool>>, b: Option<Vec<bool>>) -> bool {
    match (a, b) {
        (Some(m1), Some(m2)) => m1@ == m2@,
        (None, None) => true,
        _ => false,
    }
}

impl<F: Callable> Iterate<F> {
    /// The length is unknown: the orbit may never end.
    pub fn len(&self) -> (r: Option<usize>)
        ensures
            r is None,
    {
        None
    }
}

impl<F: Callable> Clone for Iterate<F> {
    fn clone(&self) -> (r: Self)
        ensures
            stream_eq(Stream::Iterate(r), Stream::Iterate(*self)),
    {
        match &self.0 {
            Ok(t) => Iterate(Ok((t.0.clone(), t.1.duplicate()))),
            Err(e) => Iterate(Err(*e)),
        }
    }
}

impl<F: Callable> Clone for MappedStream<F> {
    fn clone(&self) -> (r: Self)
        ensures
            stream_eq(Stream::Mapped(r), Stream::Mapped(*self)),
        decreases self,
    {
        match &self.0 {
            Ok(t) => MappedStream(Ok((Box::new((*t.0).clone()), t.1.duplicate()))),
            Err(e) => MappedStream(Err(*e)),
        }
    }
}

impl<F: Callable> Clone for StridedStream<F> {
    fn clone(&self) -> (r: Self)
        ensures
            stream_eq(Stream::Strided(r), Stream::Strided(*self)),
        decreases self,
    {
        match &self.0 {
            Ok(t) => StridedStream(Ok((Box::new((*t.0).clone()), t.1, t.2))),
            Err(e) => StridedStream(Err(*e)),
        }
    }
}

impl<F: Callable> Clone for ScannedStream<F> {
    fn clone(&self) -> (r: Self)
        ensures
            stream_eq(Stream::Scanned(r), Stream::Scanned(*self)),
        decreases self,
    {
        let acc = match &self.1 {
            Some(a) => Some(a.clone()),
            None => None,
        };
        match &self.0 {
            Ok(t) => ScannedStream(
                Ok((Box::new((*t.0).clone()), t.1.clone(), t.2.duplicate())),
                acc,
            ),
            Err(e) => ScannedStream(Err(*e), acc),
        }
    }
}

impl<F: Callable> Clone for HeapStream<F> {
    fn clone(&self) -> (r: Self)
        ensures
            stream_eq(Stream::Heap(r), Stream::Heap(*self)),
    {
        match &self.0 {
            Ok(t) => HeapStream(Ok((clone_values(&t.0), t.1.duplicate()))),
            Err(e) => HeapStream(Err(*e)),
        }
    }
}

impl<F: Callable> Clone for Stream<F> {
    /// Clones any stream into an independently advanceable copy with the
    /// same content; pulling the copy cannot touch the source.
    fn clone(&self) -> (r: Self)
        ensures
            stream_eq(r, *self),
        decreases self,
    {
        match self {
            Stream::Repeat(p) => Stream::Repeat(p.clone()),
            Stream::Cycle(c) => Stream::Cycle(c.clone()),
            Stream::Range(g) => Stream::Range(g.clone()),
            Stream::Permutations(p) => Stream::Permutations(p.clone()),
            Stream::Combinations(c) => Stream::Combinations(c.clone()),
            Stream::Subsequences(x) => Stream::Subsequences(x.clone()),
            Stream::CartesianPower(x) => Stream::CartesianPower(x.clone()),
            Stream::Iterate(it) => Stream::Iterate(it.clone()),
            Stream::Mapped(m) => Stream::Mapped(m.clone()),
            Stream::Strided(st) => Stream::Strided(st.clone()),
            Stream::Scanned(sc) => Stream::Scanned(sc.clone()),
            Stream::Heap(h) => Stream::Heap(h.clone()),
        }
    }
}

} // verus!
