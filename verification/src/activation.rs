//! The activation strategies: a closed set of stateless scalar transforms
//! with output-based derivatives, plus a numerically stable normalizing
//! vector form.
//!
//! Derivatives are functions of the *activated output*, not the
//! pre-activation input: the logistic derivative is `y*(1-y)` and the
//! rectifier derivative is 1 above zero and 0 otherwise.

use vstd::prelude::*;

use crate::scalar;
use crate::scalar::{
    add_bits, div_bits, exp_bits, lt_bits, mul_bits, neg_bits, of_uint_bits, sub_bits,
};

verus! {

/// The closed set of activation strategies a layer can be built with.
/// All are stateless, so a value of this enum is freely shared and copied.
#[derive(Clone, Copy, Debug, PartialEq, Eq, Structural)]
pub enum ActivationFunction {
    /// The logistic sigmoid `1 / (1 + e^-x)`.
    Sigmoid,
    /// The rectifier: identity above zero, zero otherwise.
    ReLU,
    /// The normalizing strategy. Its scalar form is the logistic sigmoid;
    /// multi-class normalization must go through the vector entry point.
    Softmax,
}

/// The logistic sigmoid on scalar bits.
pub open spec fn sigmoid_bits(x: u64) -> u64 {
    div_bits(scalar::F_ONE, add_bits(scalar::F_ONE, exp_bits(neg_bits(x))))
}

/// The rectifier on scalar bits: `max(x, 0)`, written by the comparison
/// that computes it.
pub open spec fn relu_bits(x: u64) -> u64 {
    if lt_bits(scalar::F_ZERO, x) {
        x
    } else {
        scalar::F_ZERO
    }
}

/// The scalar forward transform of each strategy.
pub open spec fn activate_bits(a: ActivationFunction, x: u64) -> u64 {
    match a {
        ActivationFunction::ReLU => relu_bits(x),
        _ => sigmoid_bits(x),
    }
}

/// The scalar derivative of each strategy, as a function of the activated
/// output `y`: `y*(1-y)` for the logistic forms, a unit step for the
/// rectifier.
pub open spec fn derivative_bits(a: ActivationFunction, y: u64) -> u64 {
    match a {
        ActivationFunction::ReLU => if lt_bits(scalar::F_ZERO, y) {
            scalar::F_ONE
        } else {
            scalar::F_ZERO
        },
        _ => mul_bits(y, sub_bits(scalar::F_ONE, y)),
    }
}

/// The running maximum of the first `k` elements, folded left from
/// negative infinity by the comparison that computes it.
pub open spec fn running_max(s: Seq<u64>, k: nat) -> u64
    decreases k,
{
    if k == 0 {
        scalar::F_NEG_INFINITY
    } else {
        let m = running_max(s, (k - 1) as nat);
        if lt_bits(m, s[k - 1]) {
            s[k - 1]
        } else {
            m
        }
    }
}

/// Each element shifted down by `m` and exponentiated.
pub open spec fn shifted_exps(s: Seq<u64>, m: u64) -> Seq<u64> {
    Seq::new(s.len(), |i: int| exp_bits(sub_bits(s[i], m)))
}

/// The running sum of the first `k` elements, accumulated left to right
/// from +0.0.
pub open spec fn running_sum(s: Seq<u64>, k: nat) -> u64
    decreases k,
{
    if k == 0 {
        scalar::F_ZERO
    } else {
        add_bits(running_sum(s, (k - 1) as nat), s[k - 1])
    }
}

/// The normalized exponential of a vector: subtract the running maximum,
/// exponentiate, and divide by the sum of the exponentials; when that sum
/// falls below a tiny epsilon, fall back to the uniform distribution over
/// all positions instead of dividing by a near-zero value.
pub open spec fn softmax_bits(s: Seq<u64>) -> Seq<u64> {
    if s.len() == 0 {
        Seq::<u64>::empty()
    } else {
        let m = running_max(s, s.len());
        let es = shifted_exps(s, m);
        let total = running_sum(es, es.len());
        if lt_bits(total, scalar::EPS_TINY) {
            Seq::new(s.len(), |i: int| div_bits(scalar::F_ONE, of_uint_bits(s.len() as u64)))
        } else {
            Seq::new(s.len(), |i: int| div_bits(es[i], total))
        }
    }
}

/// When the exponential mass falls below the epsilon guard, the
/// normalizing vector form returns exactly the uniform distribution:
/// every component is the same scalar, one over the class count.
pub proof fn lemma_softmax_uniform_fallback(s: Seq<u64>)
    requires
        s.len() > 0,
        lt_bits(
            running_sum(shifted_exps(s, running_max(s, s.len())), s.len()),
            scalar::EPS_TINY,
        ),
    ensures
        forall|i: int|
            0 <= i < s.len() ==> #[trigger] softmax_bits(s)[i] == div_bits(
                scalar::F_ONE,
                of_uint_bits(s.len() as u64),
            ),
{
    assert(shifted_exps(s, running_max(s, s.len())).len() == s.len());
}

/// The vector forward transform: the normalizing strategy uses its
/// dedicated vector form, the others apply their scalar form elementwise.
pub open spec fn activate_vec_bits(a: ActivationFunction, s: Seq<u64>) -> Seq<u64> {
    match a {
        ActivationFunction::Softmax => softmax_bits(s),
        _ => Seq::new(s.len(), |i: int| activate_bits(a, s[i])),
    }
}

/// The vector derivative: always the scalar derivative elementwise.
pub open spec fn derivative_vec_bits(a: ActivationFunction, s: Seq<u64>) -> Seq<u64> {
    Seq::new(s.len(), |i: int| derivative_bits(a, s[i]))
}

/// The logistic sigmoid, computed through the scalar primitives.
fn logistic(x: u64) -> (r: u64)
    ensures
        r == sigmoid_bits(x),
{
    scalar::fdiv(scalar::F_ONE, scalar::fadd(scalar::F_ONE, scalar::fexp(scalar::fneg(x))))
}

/// The rectifier, computed by one comparison against zero.
fn rectify(x: u64) -> (r: u64)
    ensures
        r == relu_bits(x),
{
    if scalar::flt(scalar::F_ZERO, x) {
        x
    } else {
        scalar::F_ZERO
    }
}

impl ActivationFunction {
    /// The scalar forward transform.
    pub fn activate(self, x: u64) -> (r: u64)
        ensures
            r == activate_bits(self, x),
    {
        match self {
            ActivationFunction::ReLU => rectify(x),
            _ => logistic(x),
        }
    }

    /// The scalar derivative, as a function of the activated output.
    pub fn derivative(self, y: u64) -> (r: u64)
        ensures
            r == derivative_bits(self, y),
    {
        match self {
            ActivationFunction::ReLU => {
                if scalar::flt(scalar::F_ZERO, y) {
                    scalar::F_ONE
                } else {
                    scalar::F_ZERO
                }
            },
            _ => scalar::fmul(y, scalar::fsub(scalar::F_ONE, y)),
        }
    }

    /// The vector forward transform; the normalizing strategy normalizes
    /// across the whole vector, the others act elementwise.
    pub fn activate_vec(self, input: &[u64]) -> (r: Vec<u64>)
        ensures
            r@ == activate_vec_bits(self, input@),
    {
        match self {
            ActivationFunction::Softmax => softmax_vec(input),
            _ => {
                let n = input.len();
                let mut out: Vec<u64> = Vec::new();
                let mut k: usize = 0;
                while k < n
                    invariant
                        k <= n,
                        n == input@.len(),
                        out@.len() == k,
                        !(self is Softmax),
                        forall|q: int|
                            0 <= q < k ==> #[trigger] out@[q] == activate_bits(self, input@[q]),
                    decreases n - k,
                {
                    let y = self.activate(input[k]);
                    out.push(y);
                    k = k + 1;
                }
                proof {
                    assert(out@ =~= activate_vec_bits(self, input@));
                }
                out
            },
        }
    }

    /// The vector derivative: the scalar derivative applied elementwise.
    pub fn derivative_vec(self, output: &[u64]) -> (r: Vec<u64>)
        ensures
            r@ == derivative_vec_bits(self, output@),
    {
        let n = output.len();
        let mut out: Vec<u64> = Vec::new();
        let mut k: usize = 0;
        while k < n
            invariant
                k <= n,
                n == output@.len(),
                out@.len() == k,
                forall|q: int| 0 <= q < k ==> #[trigger] out@[q] == derivative_bits(self, output@[q]),
            decreases n - k,
        {
            let y = self.derivative(output[k]);
            out.push(y);
            k = k + 1;
        }
        proof {
            assert(out@ =~= derivative_vec_bits(self, output@));
        }
        out
    }
}

/// The numerically stable normalized exponential over a whole vector.
fn softmax_vec(input: &[u64]) -> (r: Vec<u64>)
    ensures
        r@ == softmax_bits(input@),
{
    let n = input.len();
    if n == 0 {
        let out: Vec<u64> = Vec::new();
        proof {
            assert(out@ =~= softmax_bits(input@));
        }
        return out;
    }
    let mut m: u64 = scalar::F_NEG_INFINITY;
    let mut k: usize = 0;
    while k < n
        invariant
            k <= n,
            n == input@.len(),
            m == running_max(input@, k as nat),
        decreases n - k,
    {
        let x = input[k];
        if scalar::flt(m, x) {
            m = x;
        }
        k = k + 1;
    }
    let mut es: Vec<u64> = Vec::new();
    k = 0;
    while k < n
        invariant
            k <= n,
            n == input@.len(),
            es@.len() == k,
            forall|q: int|
                0 <= q < k ==> #[trigger] es@[q] == exp_bits(sub_bits(input@[q], m)),
        decreases n - k,
    {
        let y = scalar::fexp(scalar::fsub(input[k], m));
        es.push(y);
        k = k + 1;
    }
    proof {
        assert(es@ =~= shifted_exps(input@, m));
    }
    let mut total: u64 = scalar::F_ZERO;
    k = 0;
    while k < n
        invariant
            k <= n,
            n == es@.len(),
            total == running_sum(es@, k as nat),
        decreases n - k,
    {
        total = scalar::fadd(total, es[k]);
        k = k + 1;
    }
    let mut out: Vec<u64> = Vec::new();
    if scalar::flt(total, scalar::EPS_TINY) {
        let uniform = scalar::fdiv(scalar::F_ONE, scalar::f_of_uint(n as u64));
        k = 0;
        while k < n
            invariant
                k <= n,
                out@.len() == k,
                forall|q: int| 0 <= q < k ==> #[trigger] out@[q] == uniform,
            decreases n - k,
        {
            out.push(uniform);
            k = k + 1;
        }
    } else {
        k = 0;
        while k < n
            invariant
                k <= n,
                n == es@.len(),
                out@.len() == k,
                forall|q: int| 0 <= q < k ==> #[trigger] out@[q] == div_bits(es@[q], total),
            decreases n - k,
        {
            let y = scalar::fdiv(es[k], total);
            out.push(y);
            k = k + 1;
        }
    }
    proof {
        assert(out@ =~= softmax_bits(input@));
    }
    out
}

/// The logistic strategy as a shareable, stateless value.
pub struct Sigmoid;

impl Sigmoid {
    /// The logistic sigmoid `1 / (1 + e^-x)`.
    pub fn activate(&self, x: u64) -> (r: u64)
        ensures
            r == sigmoid_bits(x),
    {
        logistic(x)
    }

    /// The output-based derivative `y * (1 - y)`.
    pub fn derivative(&self, y: u64) -> (r: u64)
        ensures
            r == mul_bits(y, sub_bits(scalar::F_ONE, y)),
    {
        ActivationFunction::Sigmoid.derivative(y)
    }

    /// The scalar form applied elementwise.
    pub fn activate_vec(&self, input: &[u64]) -> (r: Vec<u64>)
        ensures
            r@ == activate_vec_bits(ActivationFunction::Sigmoid, input@),
    {
        ActivationFunction::Sigmoid.activate_vec(input)
    }

    /// The scalar derivative applied elementwise.
    pub fn derivative_vec(&self, output: &[u64]) -> (r: Vec<u64>)
        ensures
            r@ == derivative_vec_bits(ActivationFunction::Sigmoid, output@),
    {
        ActivationFunction::Sigmoid.derivative_vec(output)
    }
}

/// The rectifier strategy as a shareable, stateless value.
pub struct ReLU;

impl ReLU {
    /// `max(x, 0)`: identity above zero, zero otherwise.
    pub fn activate(&self, x: u64) -> (r: u64)
        ensures
            r == relu_bits(x),
    {
        rectify(x)
    }

    /// The unit step: 1 where the output is above zero, 0 otherwise.
    pub fn derivative(&self, y: u64) -> (r: u64)
        ensures
            r == derivative_bits(ActivationFunction::ReLU, y),
    {
        ActivationFunction::ReLU.derivative(y)
    }

    /// The scalar form applied elementwise.
    pub fn activate_vec(&self, input: &[u64]) -> (r: Vec<u64>)
        ensures
            r@ == activate_vec_bits(ActivationFunction::ReLU, input@),
    {
        ActivationFunction::ReLU.activate_vec(input)
    }

    /// The scalar derivative applied elementwise.
    pub fn derivative_vec(&self, output: &[u64]) -> (r: Vec<u64>)
        ensures
            r@ == derivative_vec_bits(ActivationFunction::ReLU, output@),
    {
        ActivationFunction::ReLU.derivative_vec(output)
    }
}

/// The normalizing strategy as a shareable, stateless value.
pub struct Softmax;

impl Softmax {
    /// The scalar form, identical to the logistic sigmoid; callers that
    /// need multi-class normalization must use [`Softmax::activate_vec`].
    pub fn activate(&self, x: u64) -> (r: u64)
        ensures
            r == sigmoid_bits(x),
    {
        logistic(x)
    }

    /// The output-based derivative `y * (1 - y)`.
    pub fn derivative(&self, y: u64) -> (r: u64)
        ensures
            r == mul_bits(y, sub_bits(scalar::F_ONE, y)),
    {
        ActivationFunction::Softmax.derivative(y)
    }

    /// The numerically stable normalized exponential over the whole
    /// vector: subtract the maximum, exponentiate, divide by the sum, and
    /// fall back to the uniform distribution when the sum is tiny.
    pub fn activate_vec(&self, input: &[u64]) -> (r: Vec<u64>)
        ensures
            r@ == softmax_bits(input@),
    {
        softmax_vec(input)
    }

    /// The scalar derivative applied elementwise.
    pub fn derivative_vec(&self, output: &[u64]) -> (r: Vec<u64>)
        ensures
            r@ == derivative_vec_bits(ActivationFunction::Softmax, output@),
    {
        ActivationFunction::Softmax.derivative_vec(output)
    }
}

} // verus!
