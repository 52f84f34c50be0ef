use vstd::prelude::*;

pub mod bignum;
pub mod values;
pub mod primitive;
pub mod enumerators;
pub mod stream;
pub mod callables;
pub mod laws;

verus! {

/// Floored (Euclidean) remainder of `i` by a positive modulus `n`, as the
/// cyclic generator uses it for signed index resolution.
pub fn rem_euclid_isize(i: isize, n: usize) -> (r: usize)
    requires
        0 < n <= isize::MAX,
    ensures
        r as int == (i as int) % (n as int),
{
    if i >= 0 {
        (i as usize) % n
    } else {
        let a = (-(i + 1)) as usize;
        let m = a % n;
        let r = n - 1 - m;
        proof {
            let ai = a as int;
            let ni = n as int;
            vstd::arithmetic::div_mod::lemma_fundamental_div_mod(ai, ni);
            vstd::arithmetic::div_mod::lemma_mod_multiples_vanish(
                -(ai / ni) - 1,
                ni - 1 - (ai % ni),
                ni,
            );
            vstd::arithmetic::div_mod::lemma_small_mod((ni - 1 - (ai % ni)) as nat, ni as nat);
            assert(i as int == (-(ai / ni) - 1) * ni + (ni - 1 - (ai % ni))) by (nonlinear_arith)
                requires
                    ai == ni * (ai / ni) + (ai % ni),
                    i as int == -ai - 1,
            ;
        }
        r
    }
}

} // verus!
