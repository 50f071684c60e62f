//! The library's only sources of randomness: weight initialization and
//! the per-epoch shuffle of sample order.
//!
//! Beyond its range, nothing is promised of a random value, so every
//! verified result further up holds whatever the generator returns.

use vstd::prelude::*;

use crate::scalar;
use rand::Rng;
use rustc_apfloat::Float;
use rustc_apfloat::Round;
use rustc_apfloat::ieee::Double;

verus! {

/// Relies on `rand::Rng::gen_range` on `rand::thread_rng`: a uniformly
/// random integer drawn from `0..n`, so strictly below `n`. The call
/// panics on an empty range; the precondition rules that out.
#[verifier::external_body]
pub(crate) fn random_below(n: usize) -> (r: usize)
    requires
        n > 0,
    ensures
        r < n,
{
    rand::thread_rng().gen_range(0..n)
}

/// One uniformly random scalar in [-1, 1). Relies on `rand::random::<u64>`
/// for the bits and on rustc_apfloat's binary64 arithmetic to place them:
/// the top 53 bits, scaled by 2^-53, are uniform in [0, 1) (the very
/// construction rand's `Standard` distribution documents for its unit
/// floats), and `2*u - 1` then lies in [-1, 1). Every step is exact in
/// binary64 — the scalings are by powers of two and the subtraction hits
/// a representable value — so the result is in range and never NaN.
#[verifier::external_body]
pub(crate) fn random_unit_scalar() -> (r: u64)
    ensures
        scalar::in_unit_range(r),
{
    let draw = rand::random::<u64>();
    let unit = Double::from_u128_r((draw >> 11) as u128, Round::NearestTiesToEven).value;
    let scaled = (unit * Double::from_bits(0x3CA0000000000000u128)).value;
    let doubled = (scaled * Double::from_bits(0x4000000000000000u128)).value;
    ((doubled - Double::from_bits(0x3FF0000000000000u128)).value.to_bits()) as u64
}

/// Fisher-Yates shuffle: reorders the vector uniformly at random while
/// keeping exactly the same elements.
pub(crate) fn shuffle(v: &mut Vec<usize>)
    ensures
        final(v)@.len() == old(v)@.len(),
        final(v)@.to_multiset() == old(v)@.to_multiset(),
        forall|k: int|
            0 <= k < final(v)@.len() ==> old(v)@.contains(#[trigger] final(v)@[k]),
{
    broadcast use vstd::seq_lib::to_multiset_update;
    broadcast use vstd::seq_lib::group_to_multiset_ensures;

    let n = v.len();
    if n < 2 {
        proof {
            assert forall|k: int| 0 <= k < v@.len() implies old(v)@.contains(
                #[trigger] v@[k],
            ) by {}
        }
        return ;
    }
    let mut i: usize = n - 1;
    while i > 0
        invariant
            i < n,
            n == v@.len(),
            v@.len() == old(v)@.len(),
            v@.to_multiset() == old(v)@.to_multiset(),
        decreases i,
    {
        let j = random_below(i + 1);
        let vi = v[i];
        let vj = v[j];
        proof {
            broadcast use vstd::multiset::group_multiset_axioms;

            let s = v@;
            let s1 = s.update(i as int, vj);
            let s2 = s1.update(j as int, vi);
            assert(s[i as int] == vi);
            assert(s.contains(vi));
            vstd::seq_lib::to_multiset_contains(s, vi);
            assert(s.to_multiset().count(vi) > 0);
            assert(s1[j as int] == vj);
            assert(s1.contains(vj));
            vstd::seq_lib::to_multiset_contains(s1, vj);
            assert(s1.to_multiset().count(vj) > 0);
            vstd::seq_lib::to_multiset_update(s, i as int, vj);
            vstd::seq_lib::to_multiset_update(s1, j as int, vi);
            let m = s.to_multiset();
            assert(s1.to_multiset() == m.insert(vj).remove(vi));
            assert(s2.to_multiset() == m.insert(vj).remove(vi).insert(vi).remove(vj));
            assert(m.insert(vj).remove(vi).insert(vi).remove(vj) =~= m);
            assert(s2.to_multiset() =~= s.to_multiset());
        }
        v.set(i, vj);
        v.set(j, vi);
        i = i - 1;
    }
    proof {
        assert forall|k: int| 0 <= k < v@.len() implies old(v)@.contains(#[trigger] v@[k]) by {
            assert(v@.contains(v@[k]));
            vstd::seq_lib::to_multiset_contains(v@, v@[k]);
            assert(v@.to_multiset().count(v@[k]) > 0);
            vstd::seq_lib::to_multiset_contains(old(v)@, v@[k]);
        }
    }
}

} // verus!
