use num::bigint::BigInt;

use lazy_streams::values::{Value, Fault, Order, value_eq, value_cmp, value_cmp_total};
use lazy_streams::primitive::{Repeat, Cycle, Range};
use lazy_streams::enumerators::{Permutations, Combinations, Subsequences, CartesianPower};
use lazy_streams::stream::{Stream, Sequence, HeapStream, Iterate, MappedStream, StridedStream,
    ScannedStream};
use lazy_streams::callables::{Successor, Squarer, BoundedSuccessor, CountdownSplit, Summer, Halt};

fn num_val(x: i64) -> Value {
    Value::Int(BigInt::from(x))
}

fn big(x: i64) -> BigInt {
    BigInt::from(x)
}

fn ints(xs: &[i64]) -> Vec<Value> {
    xs.iter().map(|x| num_val(*x)).collect()
}

fn expect_num_val(r: Option<Result<Value, Fault>>, x: i64) {
    match r {
        Some(Ok(v)) => assert!(value_eq(&v, &num_val(x))),
        other => panic!("expected integer item, got {:?}", other.map(|q| q.map(|_| ()))),
    }
}

fn expect_list(r: Option<Result<Value, Fault>>, xs: &[i64]) {
    match r {
        Some(Ok(v)) => assert!(value_eq(&v, &Value::List(ints(xs)))),
        _ => panic!("expected a list item"),
    }
}

fn expect_end(r: Option<Result<Value, Fault>>) {
    assert!(r.is_none());
}

fn expect_fault(r: Option<Result<Value, Fault>>, f: Fault) {
    match r {
        Some(Err(e)) => assert_eq!(e, f),
        _ => panic!("expected a fault"),
    }
}

#[test]
fn repeat_yields_constant() {
    let mut s = Repeat(num_val(7));
    expect_num_val(s.next(), 7);
    expect_num_val(s.next(), 7);
    assert_eq!(s.len(), None);
    match s.force() {
        Err(e) => assert_eq!(e, Fault::ForcedInfinite),
        Ok(_) => panic!("force should be refused"),
    }
    match s.pythonic_index_isize(-12) {
        Ok(v) => assert!(value_eq(&v, &num_val(7))),
        Err(_) => panic!("indexing a constant stream cannot fail"),
    }
}

#[test]
fn cycle_pull_then_index() {
    // Pulling i times then indexing at 0 reads buffer[i mod len].
    let mut c = Cycle(ints(&[10, 20, 30]), 0);
    for _ in 0..4 {
        c.next();
    }
    match c.pythonic_index_isize(0) {
        Ok(v) => assert!(value_eq(&v, &num_val(20))),
        Err(_) => panic!("indexing a cycle cannot fail"),
    }
    match c.pythonic_index_isize(-1) {
        Ok(v) => assert!(value_eq(&v, &num_val(10))),
        Err(_) => panic!("indexing a cycle cannot fail"),
    }
    assert_eq!(c.len(), None);
    match c.force() {
        Err(e) => assert_eq!(e, Fault::ForcedInfinite),
        Ok(_) => panic!("force should be refused"),
    }
}

#[test]
fn cycle_next_wraps() {
    let mut c = Cycle(ints(&[1, 2]), 0);
    expect_num_val(c.next(), 1);
    expect_num_val(c.next(), 2);
    expect_num_val(c.next(), 1);
}

#[test]
fn cycle_reversed_mirrors() {
    let c = Cycle(ints(&[1, 2, 3, 4]), 1);
    let mut fwd = Cycle(ints(&[1, 2, 3, 4]), 1);
    let mut rev = c.reversed();
    let mut forward = Vec::new();
    for _ in 0..4 {
        if let Some(Ok(v)) = fwd.next() {
            forward.push(v);
        }
    }
    let mut backward = Vec::new();
    for _ in 0..4 {
        if let Some(Ok(v)) = rev.next() {
            backward.push(v);
        }
    }
    backward.reverse();
    for (a, b) in forward.iter().zip(backward.iter()) {
        assert!(value_eq(a, b));
    }
}

#[test]
fn range_positive_step() {
    let mut r = Range(big(0), Some(big(10)), big(3));
    assert_eq!(r.len(), Some(4));
    expect_num_val(r.next(), 0);
    expect_num_val(r.next(), 3);
    assert_eq!(r.len(), Some(2));
    expect_num_val(r.next(), 6);
    expect_num_val(r.next(), 9);
    expect_end(r.next());
    assert_eq!(r.len(), Some(0));
}

#[test]
fn range_negative_step_pulls() {
    let mut r = Range(big(2), Some(big(0)), big(-1));
    expect_num_val(r.next(), 2);
    expect_num_val(r.next(), 1);
    expect_end(r.next());
}

#[test]
fn range_negative_step_len() {
    // The reported length equals the pull count for descending spans too.
    let mut r = Range(big(3), Some(big(0)), big(-1));
    assert_eq!(r.len(), Some(3));
    expect_num_val(r.next(), 3);
    assert_eq!(r.len(), Some(2));
    expect_num_val(r.next(), 2);
    expect_num_val(r.next(), 1);
    expect_end(r.next());
    assert_eq!(r.len(), Some(0));
    let done = Range(big(0), Some(big(0)), big(-1));
    assert_eq!(done.len(), Some(0));
    let wide = Range(big(10), Some(big(0)), big(-4));
    assert_eq!(wide.len(), Some(3));
}

#[test]
fn range_zero_step() {
    let mut stuck = Range(big(0), Some(big(5)), big(0));
    assert_eq!(stuck.len(), None);
    expect_num_val(stuck.next(), 0);
    expect_num_val(stuck.next(), 0);
    let done = Range(big(5), Some(big(5)), big(0));
    assert_eq!(done.len(), Some(0));
}

#[test]
fn range_open_ended() {
    let mut r = Range(big(4), None, big(-2));
    assert_eq!(r.len(), None);
    expect_num_val(r.next(), 4);
    expect_num_val(r.next(), 2);
    expect_num_val(r.next(), 0);
}

#[test]
fn permutations_of_three() {
    let mut p = Permutations(ints(&[5, 6, 7]), Some(vec![0, 1, 2]));
    assert_eq!(p.len(), Some(6));
    expect_list(p.next(), &[5, 6, 7]);
    expect_list(p.next(), &[5, 7, 6]);
    expect_list(p.next(), &[6, 5, 7]);
    expect_list(p.next(), &[6, 7, 5]);
    expect_list(p.next(), &[7, 5, 6]);
    assert_eq!(p.len(), Some(1));
    expect_list(p.next(), &[7, 6, 5]);
    assert_eq!(p.len(), Some(0));
    expect_end(p.next());
}

#[test]
fn permutations_len_counts_down() {
    let mut p = Permutations(ints(&[1, 2, 3, 4]), Some(vec![0, 1, 2, 3]));
    let mut expected = 24;
    while let Some(u) = p.len() {
        assert_eq!(u, expected);
        if p.next().is_none() {
            break;
        }
        if expected > 0 {
            expected -= 1;
        }
    }
    assert_eq!(expected, 0);
}

#[test]
fn combinations_pairs() {
    let mut c = Combinations(ints(&[1, 2, 3]), Some(vec![0, 1]));
    expect_list(c.next(), &[1, 2]);
    expect_list(c.next(), &[1, 3]);
    expect_list(c.next(), &[2, 3]);
    expect_end(c.next());
}

#[test]
fn combinations_oversized_vector_is_stuck() {
    let mut c = Combinations(ints(&[1]), Some(vec![0, 1]));
    expect_end(c.next());
    expect_end(c.next());
}

#[test]
fn subsequences_enumerate_and_count() {
    let mut s = Subsequences(ints(&[8, 9]), Some(vec![false, false]));
    assert_eq!(s.len(), Some(4));
    expect_list(s.next(), &[]);
    assert_eq!(s.len(), Some(3));
    expect_list(s.next(), &[9]);
    assert_eq!(s.len(), Some(2));
    expect_list(s.next(), &[8]);
    assert_eq!(s.len(), Some(1));
    expect_list(s.next(), &[8, 9]);
    assert_eq!(s.len(), Some(0));
    expect_end(s.next());
}

#[test]
fn cartesian_power_odometer() {
    let mut c = CartesianPower(ints(&[1, 2]), Some(vec![0, 0]));
    assert_eq!(c.len(), Some(4));
    expect_list(c.next(), &[1, 1]);
    expect_list(c.next(), &[1, 2]);
    expect_list(c.next(), &[2, 1]);
    assert_eq!(c.len(), Some(1));
    expect_list(c.next(), &[2, 2]);
    expect_end(c.next());
    assert_eq!(c.len(), Some(0));
}

#[test]
fn iterate_orbit() {
    let orbit: Iterate<Successor> = Iterate(Ok((num_val(0), Successor)));
    assert_eq!(orbit.len(), None);
    let mut s = Stream::Iterate(orbit);
    for k in 0..5 {
        expect_num_val(s.next(), k);
    }
}

#[test]
fn iterate_graceful_termination() {
    // The callable terminates on its third call, so exactly two items come
    // out: the terminating pull itself yields nothing.
    let mut s: Stream<BoundedSuccessor> = Stream::Iterate(
        Iterate(Ok((num_val(0), BoundedSuccessor(big(2))))),
    );
    expect_num_val(s.next(), 0);
    expect_num_val(s.next(), 1);
    expect_end(s.next());
    expect_end(s.next());
}

#[test]
fn mapped_squares() {
    let inner: Stream<Squarer> = Stream::Range(Range(big(0), Some(big(3)), big(1)));
    let mut s = Stream::Mapped(MappedStream(Ok((Box::new(inner), Squarer))));
    expect_num_val(s.next(), 0);
    expect_num_val(s.next(), 1);
    expect_num_val(s.next(), 4);
    expect_end(s.next());
    expect_end(s.next());
}

#[test]
fn mapped_fault_poisons_and_replays() {
    let inner: Stream<Squarer> = Stream::Repeat(Repeat(Value::List(Vec::new())));
    let mut s = Stream::Mapped(MappedStream(Ok((Box::new(inner), Squarer))));
    expect_fault(s.next(), Fault::Custom(0));
    expect_fault(s.next(), Fault::Custom(0));
}

#[test]
fn strided_keeps_multiples() {
    let inner: Stream<Halt> = Stream::Range(Range(big(0), Some(big(10)), big(1)));
    let mut s = Stream::Strided(StridedStream(Ok((Box::new(inner), 3, 0))));
    expect_num_val(s.next(), 0);
    expect_num_val(s.next(), 3);
    expect_num_val(s.next(), 6);
    expect_num_val(s.next(), 9);
    expect_end(s.next());
}

#[test]
fn scanned_running_fold() {
    let inner: Stream<Summer> = Stream::Range(Range(big(1), Some(big(4)), big(1)));
    let mut s = Stream::Scanned(ScannedStream(Ok((Box::new(inner), num_val(0), Summer)), None));
    expect_num_val(s.next(), 0);
    expect_num_val(s.next(), 1);
    expect_num_val(s.next(), 3);
    expect_num_val(s.next(), 6);
    expect_end(s.next());
    expect_end(s.next());
}

#[test]
fn heap_stream_countdown() {
    let mut s: Stream<CountdownSplit> = Stream::Heap(HeapStream::new(num_val(5), CountdownSplit));
    for k in [5, 4, 3, 2, 1, 0] {
        expect_num_val(s.next(), k);
    }
    expect_end(s.next());
    expect_end(s.next());
}

#[test]
fn heap_stream_pops_maximum() {
    let mut h = HeapStream::new(num_val(3), CountdownSplit);
    if let Ok(pair) = &mut h.0 {
        pair.0.push(num_val(9));
        pair.0.push(num_val(4));
    }
    let mut s = Stream::Heap(h);
    expect_num_val(s.next(), 9);
    expect_num_val(s.next(), 8);
}

#[test]
fn heap_stream_nonlist_expansion_faults() {
    let mut s: Stream<Successor> = Stream::Heap(HeapStream::new(num_val(5), Successor));
    expect_fault(s.next(), Fault::ExpandedNotList);
    expect_fault(s.next(), Fault::ExpandedNotList);
}

#[test]
fn clone_leaves_original_untouched() {
    let original = Cycle(ints(&[1, 2, 3]), 0);
    let mut copy = original.clone();
    for _ in 0..5 {
        copy.next();
    }
    let mut orig = original;
    expect_num_val(orig.next(), 1);

    let r = Range(big(0), Some(big(5)), big(1));
    let mut rc = r.clone();
    expect_num_val(rc.next(), 0);
    expect_num_val(rc.next(), 1);
    let mut orig_r = r;
    expect_num_val(orig_r.next(), 0);
}

#[test]
fn value_comparison_partial_order() {
    assert_eq!(value_cmp(&num_val(1), &num_val(2)), Some(Order::Lt));
    assert_eq!(value_cmp(&num_val(2), &num_val(2)), Some(Order::Eq));
    assert_eq!(value_cmp(&num_val(3), &num_val(2)), Some(Order::Gt));
    assert_eq!(value_cmp(&num_val(1), &Value::List(Vec::new())), None);
    let ab = Value::List(ints(&[1, 2]));
    let ac = Value::List(ints(&[1, 3]));
    let a = Value::List(ints(&[1]));
    assert_eq!(value_cmp(&ab, &ac), Some(Order::Lt));
    assert_eq!(value_cmp(&a, &ab), Some(Order::Lt));
    assert_eq!(value_cmp(&ab, &ab), Some(Order::Eq));
    assert_eq!(value_cmp_total(&num_val(1), &Value::List(Vec::new())), Order::Eq);
}

#[test]
fn repeat_slice_shapes() {
    let r = Repeat(num_val(7));
    match r.pythonic_slice::<Halt>(Some(1), Some(4)) {
        Ok(Sequence::List(v)) => {
            assert_eq!(v.len(), 3);
            assert!(value_eq(&v[0], &num_val(7)));
        },
        _ => panic!("expected a finite slice"),
    }
    match r.pythonic_slice::<Halt>(Some(-3), Some(2)) {
        Ok(Sequence::List(v)) => assert_eq!(v.len(), 0),
        _ => panic!("expected an empty slice"),
    }
    match r.pythonic_slice::<Halt>(Some(2), Some(-1)) {
        Ok(Sequence::Stream(_)) => {},
        _ => panic!("expected an infinite tail"),
    }
    match r.pythonic_slice::<Halt>(None, None) {
        Ok(Sequence::Stream(_)) => {},
        _ => panic!("expected the whole stream"),
    }
}

#[test]
fn iterate_fault_replays() {
    // A genuine fault is surfaced at the pull that observes it, replayed.
    let mut s: Stream<Squarer> = Stream::Iterate(Iterate(Ok((Value::List(Vec::new()), Squarer))));
    expect_fault(s.next(), Fault::Custom(0));
    expect_fault(s.next(), Fault::Custom(0));
}

#[test]
fn nested_combinators_compose() {
    // Every second square of 0..6: squares are 0,1,4,9,16,25; kept 0,4,16.
    let range: Stream<Squarer> = Stream::Range(Range(big(0), Some(big(6)), big(1)));
    let mapped = Stream::Mapped(MappedStream(Ok((Box::new(range), Squarer))));
    let mut s = Stream::Strided(StridedStream(Ok((Box::new(mapped), 2, 0))));
    expect_num_val(s.next(), 0);
    expect_num_val(s.next(), 4);
    expect_num_val(s.next(), 16);
    expect_end(s.next());
}

#[test]
fn scanned_inner_fault_poisons() {
    let inner: Stream<Summer> = Stream::Repeat(Repeat(Value::List(Vec::new())));
    let mut s = Stream::Scanned(ScannedStream(Ok((Box::new(inner), num_val(0), Summer)), None));
    expect_num_val(s.next(), 0);
    expect_fault(s.next(), Fault::Custom(0));
    expect_fault(s.next(), Fault::Custom(0));
}

#[test]
fn clone_enumerator_midway() {
    let mut p = Permutations(ints(&[1, 2, 3]), Some(vec![0, 1, 2]));
    p.next();
    p.next();
    let mut q = p.clone();
    // Draining the copy leaves the source untouched.
    loop {
        match q.next() {
            Some(Ok(_)) => {},
            _ => break,
        }
    }
    expect_list(p.next(), &[2, 1, 3]);
    expect_list(p.next(), &[2, 3, 1]);
}

#[test]
fn clone_composed_stream() {
    let range: Stream<Squarer> = Stream::Range(Range(big(0), Some(big(6)), big(1)));
    let mapped = Stream::Mapped(MappedStream(Ok((Box::new(range), Squarer))));
    let mut s = Stream::Strided(StridedStream(Ok((Box::new(mapped), 2, 0))));
    let mut c = s.clone();
    for _ in 0..3 {
        c.next();
    }
    expect_end(c.next());
    // The source still starts from the beginning.
    expect_num_val(s.next(), 0);
    expect_num_val(s.next(), 4);
    expect_num_val(s.next(), 16);
    expect_end(s.next());
}

#[test]
fn clone_heap_stream() {
    let h: Stream<CountdownSplit> = Stream::Heap(HeapStream::new(num_val(2), CountdownSplit));
    let mut a = h.clone();
    let mut b = h;
    for k in [2, 1, 0] {
        expect_num_val(a.next(), k);
    }
    expect_end(a.next());
    expect_num_val(b.next(), 2);
}

#[test]
fn clone_iterate_with_stateful_callable() {
    // The duplicated callable carries its bound along.
    let mut it: Stream<BoundedSuccessor> = Stream::Iterate(
        Iterate(Ok((num_val(0), BoundedSuccessor(big(2))))),
    );
    let mut it2 = it.clone();
    expect_num_val(it2.next(), 0);
    expect_num_val(it2.next(), 1);
    expect_end(it2.next());
    expect_num_val(it.next(), 0);
}

#[test]
fn clone_iterate_and_scan() {
    let mut it: Stream<Successor> = Stream::Iterate(Iterate(Ok((num_val(0), Successor))));
    it.next();
    let mut it2 = it.clone();
    expect_num_val(it2.next(), 1);
    expect_num_val(it2.next(), 2);
    expect_num_val(it.next(), 1);

    let inner: Stream<Summer> = Stream::Range(Range(big(1), Some(big(3)), big(1)));
    let mut sc = Stream::Scanned(ScannedStream(Ok((Box::new(inner), num_val(0), Summer)), None));
    sc.next();
    let mut sc2 = sc.clone();
    expect_num_val(sc2.next(), 1);
    expect_num_val(sc.next(), 1);
    expect_num_val(sc.next(), 3);
}
