use vstd::prelude::*;

use num::bigint::BigInt;

use crate::bignum::{big_value, big_add, big_mul, big_sub, big_lt, big_from_i64, big_clone};
use crate::values::{Value, Val, Fault};
use crate::stream::Callable;

verus! {

broadcast use vstd::std_specs::vec::group_vec_axioms, vstd::seq::group_seq_axioms;

/// Maps an integer to its successor; anything else is a user fault.
pub struct Successor;

impl Callable for Successor {
    open spec fn allows(&self, args: Seq<Val>, out: Result<Val, Fault>) -> bool {
        out == (if args.len() == 1 && args[0] is Int {
            Ok::<Val, Fault>(Val::Int(args[0]->Int_0 + 1))
        } else {
            Err::<Val, Fault>(Fault::Custom(0))
        })
    }

    fn call(&self, args: Vec<Value>) -> (r: Result<Value, Fault>) {
        if args.len() == 1 {
            match &args[0] {
                Value::Int(b) => {
                    let one = big_from_i64(1);
                    proof {
                        assert(args.deep_view()[0] == args@[0].deep());
                    }
                    Ok(Value::Int(big_add(b, &one)))
                },
                Value::List(_) => Err(Fault::Custom(0)),
            }
        } else {
            Err(Fault::Custom(0))
        }
    }

    fn duplicate(&self) -> (r: Self) {
        Successor
    }
}

/// Maps an integer to its square; anything else is a user fault.
pub struct Squarer;

impl Callable for Squarer {
    open spec fn allows(&self, args: Seq<Val>, out: Result<Val, Fault>) -> bool {
        out == (if args.len() == 1 && args[0] is Int {
            Ok::<Val, Fault>(Val::Int(args[0]->Int_0 * args[0]->Int_0))
        } else {
            Err::<Val, Fault>(Fault::Custom(0))
        })
    }

    fn call(&self, args: Vec<Value>) -> (r: Result<Value, Fault>) {
        if args.len() == 1 {
            match &args[0] {
                Value::Int(b) => {
                    proof {
                        assert(args.deep_view()[0] == args@[0].deep());
                    }
                    Ok(Value::Int(big_mul(b, b)))
                },
                Value::List(_) => Err(Fault::Custom(0)),
            }
        } else {
            Err(Fault::Custom(0))
        }
    }

    fn duplicate(&self) -> (r: Self) {
        Squarer
    }
}

/// Maps an integer below the bound to its successor and signals graceful
/// termination at or above it; anything else is a user fault.
pub struct BoundedSuccessor(pub BigInt);

impl Callable for BoundedSuccessor {
    open spec fn allows(&self, args: Seq<Val>, out: Result<Val, Fault>) -> bool {
        out == (if args.len() == 1 && args[0] is Int {
            if args[0]->Int_0 < big_value(self.0) {
                Ok::<Val, Fault>(Val::Int(args[0]->Int_0 + 1))
            } else {
                Err::<Val, Fault>(Fault::Terminated)
            }
        } else {
            Err::<Val, Fault>(Fault::Custom(0))
        })
    }

    fn call(&self, args: Vec<Value>) -> (r: Result<Value, Fault>) {
        if args.len() == 1 {
            match &args[0] {
                Value::Int(b) => {
                    proof {
                        assert(args.deep_view()[0] == args@[0].deep());
                    }
                    if big_lt(b, &self.0) {
                        let one = big_from_i64(1);
                        Ok(Value::Int(big_add(b, &one)))
                    } else {
                        Err(Fault::Terminated)
                    }
                },
                Value::List(_) => Err(Fault::Custom(0)),
            }
        } else {
            Err(Fault::Custom(0))
        }
    }

    fn duplicate(&self) -> (r: Self) {
        BoundedSuccessor(big_clone(&self.0))
    }
}

/// Expands a positive integer to the one-element list of its predecessor
/// and anything at or below zero to the empty list; a non-integer is a
/// user fault.
pub struct CountdownSplit;

impl Callable for CountdownSplit {
    open spec fn allows(&self, args: Seq<Val>, out: Result<Val, Fault>) -> bool {
        out == (if args.len() == 1 && args[0] is Int {
            if args[0]->Int_0 > 0 {
                Ok::<Val, Fault>(Val::List(seq![Val::Int(args[0]->Int_0 - 1)]))
            } else {
                Ok::<Val, Fault>(Val::List(Seq::empty()))
            }
        } else {
            Err::<Val, Fault>(Fault::Custom(0))
        })
    }

    fn call(&self, args: Vec<Value>) -> (r: Result<Value, Fault>) {
        if args.len() == 1 {
            match &args[0] {
                Value::Int(b) => {
                    proof {
                        assert(args.deep_view()[0] == args@[0].deep());
                    }
                    let zero = big_from_i64(0);
                    if big_lt(&zero, b) {
                        let one = big_from_i64(1);
                        let child = Value::Int(big_sub(b, &one));
                        let ghost cv = child.deep();
                        let items = vec![child];
                        let out = Value::List(items);
                        proof {
                            crate::values::lemma_vals_of(items@);
                            assert(crate::values::vals_of(items@) =~= seq![cv]);
                        }
                        Ok(out)
                    } else {
                        let items: Vec<Value> = Vec::new();
                        let out = Value::List(items);
                        proof {
                            assert(crate::values::vals_of(items@) =~= Seq::<Val>::empty());
                        }
                        Ok(out)
                    }
                },
                Value::List(_) => Err(Fault::Custom(0)),
            }
        } else {
            Err(Fault::Custom(0))
        }
    }

    fn duplicate(&self) -> (r: Self) {
        CountdownSplit
    }
}

/// Adds two integer arguments; anything else is a user fault.
pub struct Summer;

impl Callable for Summer {
    open spec fn allows(&self, args: Seq<Val>, out: Result<Val, Fault>) -> bool {
        out == (if args.len() == 2 && args[0] is Int && args[1] is Int {
            Ok::<Val, Fault>(Val::Int(args[0]->Int_0 + args[1]->Int_0))
        } else {
            Err::<Val, Fault>(Fault::Custom(0))
        })
    }

    fn call(&self, args: Vec<Value>) -> (r: Result<Value, Fault>) {
        if args.len() == 2 {
            proof {
                assert(args.deep_view()[0] == args@[0].deep());
                assert(args.deep_view()[1] == args@[1].deep());
            }
            match (&args[0], &args[1]) {
                (Value::Int(a), Value::Int(b)) => Ok(Value::Int(big_add(a, b))),
                _ => Err(Fault::Custom(0)),
            }
        } else {
            Err(Fault::Custom(0))
        }
    }

    fn duplicate(&self) -> (r: Self) {
        Summer
    }
}

/// Signals graceful termination on every call: the inert callable for
/// pipelines whose streams never invoke one.
pub struct Halt;

impl Callable for Halt {
    open spec fn allows(&self, args: Seq<Val>, out: Result<Val, Fault>) -> bool {
        out == Err::<Val, Fault>(Fault::Terminated)
    }

    fn call(&self, args: Vec<Value>) -> (r: Result<Value, Fault>) {
        let _ = args;
        Err(Fault::Terminated)
    }

    fn duplicate(&self) -> (r: Self) {
        Halt
    }
}

} // verus!
