//! A dense layer: an affine transform `weights * input + biases` followed
//! by an elementwise activation, with the forward-pass state cached for the
//! paired backward pass.
//!
//! The backward pass updates the parameters in place as
//! `weights += learning_rate * gradient`: gradient ascent on an error
//! defined as `target - prediction`, which is ordinary descent on the loss.
//! The network level computes its error with exactly that sign, and the
//! convention must be kept consistent between the two.

use vstd::prelude::*;

use crate::activation::{activate_bits, derivative_bits, ActivationFunction};
use crate::error::Error;
use crate::matrix::{
    add_view, dot_view, hadamard_view, scale_view, transpose_view, Matrix, MatrixView,
};

verus! {

/// The activation's scalar forward transform applied to every entry.
pub open spec fn map_act_view(a: ActivationFunction, m: MatrixView) -> MatrixView {
    MatrixView {
        rows: m.rows,
        cols: m.cols,
        grid: Seq::new(m.rows, |i: int| Seq::new(m.cols, |j: int| activate_bits(a, m.grid[i][j]))),
    }
}

/// The activation's output-based derivative applied to every entry.
pub open spec fn map_deriv_view(a: ActivationFunction, m: MatrixView) -> MatrixView {
    MatrixView {
        rows: m.rows,
        cols: m.cols,
        grid: Seq::new(
            m.rows,
            |i: int| Seq::new(m.cols, |j: int| derivative_bits(a, m.grid[i][j])),
        ),
    }
}

/// The mathematical content of a layer: its parameters, its activation,
/// and the cached forward-pass state.
#[verifier::ext_equal]
pub struct LayerView {
    pub output_size: nat,
    pub weights: MatrixView,
    pub biases: MatrixView,
    pub activation: ActivationFunction,
    pub last_input: Option<MatrixView>,
    pub last_activation: Option<MatrixView>,
}

/// What a layer computes forward: the activation applied entrywise to
/// `weights * input + biases`.
pub open spec fn forward_out(l: LayerView, x: MatrixView) -> MatrixView {
    map_act_view(l.activation, add_view(dot_view(l.weights, x), l.biases))
}

/// A layer after a successful forward pass on `x`: the same parameters,
/// with the input and its activation newly cached.
pub open spec fn after_forward(l: LayerView, x: MatrixView) -> LayerView {
    LayerView { last_input: Some(x), last_activation: Some(forward_out(l, x)), ..l }
}

/// What a backward pass on output error `oe` with rate `lr` does: the
/// updated layer, and the error propagated to the previous layer.
/// `delta = oe (.) derivative(last_activation)`; the weight gradient is
/// `delta * last_input^T`; the parameters move by `lr` times their
/// gradients; the propagated error is `new_weights^T * delta`.
pub open spec fn after_backward(l: LayerView, oe: MatrixView, lr: u64) -> (LayerView, MatrixView) {
    let la = l.last_activation.unwrap();
    let li = l.last_input.unwrap();
    let delta = hadamard_view(oe, map_deriv_view(l.activation, la));
    let grad = dot_view(delta, transpose_view(li));
    let w2 = add_view(l.weights, scale_view(grad, lr));
    let b2 = add_view(l.biases, scale_view(delta, lr));
    let back = dot_view(transpose_view(w2), delta);
    (LayerView { weights: w2, biases: b2, ..l }, back)
}

/// A dense layer with learnable weight and bias matrices. The caches hold
/// the last forward input and its activation; both are set together by a
/// successful forward pass, and a backward pass without them fails.
pub struct Layer {
    pub output_size: usize,
    pub weights: Matrix,
    pub biases: Matrix,
    pub activation: ActivationFunction,
    pub last_input: Option<Matrix>,
    pub last_activation: Option<Matrix>,
}

impl View for Layer {
    type V = LayerView;

    open spec fn view(&self) -> LayerView {
        LayerView {
            output_size: self.output_size as nat,
            weights: self.weights@,
            biases: self.biases@,
            activation: self.activation,
            last_input: match self.last_input {
                Some(m) => Some(m@),
                None => None,
            },
            last_activation: match self.last_activation {
                Some(m) => Some(m@),
                None => None,
            },
        }
    }
}

impl Layer {
    /// The parameter matrices have the declared shape, and the caches are
    /// either absent together or a matched pair from one forward pass.
    pub open spec fn wf(&self) -> bool {
        &&& self.weights.wf()
        &&& self.biases.wf()
        &&& self.weights.rows == self.output_size
        &&& self.biases.rows == self.output_size
        &&& self.biases.cols == 1
        &&& (self.last_input is Some <==> self.last_activation is Some)
        &&& (self.last_input matches Some(li) ==> li.wf() && li.rows == self.weights.cols
            && li.cols == 1)
        &&& (self.last_activation matches Some(la) ==> la.wf() && la.rows == self.output_size
            && la.cols == 1)
    }

    /// A fresh layer: an `output_size x input_size` weight matrix and an
    /// `output_size x 1` bias matrix, both filled with uniformly random
    /// scalars in [-1, 1), and no cached forward state.
    pub fn new(input_size: usize, output_size: usize, activation: ActivationFunction) -> (l: Layer)
        requires
            input_size * output_size <= usize::MAX,
        ensures
            l.wf(),
            l.output_size == output_size,
            l.weights.rows == output_size,
            l.weights.cols == input_size,
            l.biases.rows == output_size,
            l.biases.cols == 1,
            l@.activation == activation,
            l@.last_input is None,
            l@.last_activation is None,
            forall|p: int|
                0 <= p < l.weights.data@.len() ==> crate::scalar::in_unit_range(
                    #[trigger] l.weights.data@[p],
                ),
            forall|p: int|
                0 <= p < l.biases.data@.len() ==> crate::scalar::in_unit_range(
                    #[trigger] l.biases.data@[p],
                ),
    {
        proof {
            assert(output_size * input_size == input_size * output_size) by (nonlinear_arith);
            assert(output_size * 1 == output_size);
        }
        let mut weights = Matrix::new(output_size, input_size);
        let mut biases = Matrix::new(output_size, 1);
        weights.randomize();
        biases.randomize();
        Layer { output_size, weights, biases, activation, last_input: None, last_activation: None }
    }

    /// The forward pass: caches a copy of the input, computes the
    /// activation of `weights * input + biases`, caches a copy of the
    /// result and returns it. Fails with `DimensionMismatch` exactly when
    /// the input's height differs from the weight matrix's width, and with
    /// `SizeMismatch` exactly when the input is not a single column; on
    /// failure the layer is left untouched.
    pub fn feed_forward(&mut self, input: &Matrix) -> (r: Result<Matrix, Error>)
        requires
            old(self).wf(),
            input.wf(),
        ensures
            final(self).wf(),
            match r {
                Ok(out) => {
                    &&& input.rows == old(self).weights.cols && input.cols == 1
                    &&& out.wf() && out.rows == old(self).output_size && out.cols == 1
                    &&& out@ == forward_out(old(self)@, input@)
                    &&& final(self)@ == after_forward(old(self)@, input@)
                },
                Err(e) => {
                    &&& *final(self) == *old(self)
                    &&& (input.rows != old(self).weights.cols || input.cols != 1)
                    &&& (e == Error::DimensionMismatch <==> input.rows != old(self).weights.cols)
                    &&& (e == Error::SizeMismatch <==> input.rows == old(self).weights.cols
                        && input.cols != 1)
                },
            },
    {
        if input.rows != self.weights.cols {
            return Err(Error::DimensionMismatch);
        }
        if input.cols != 1 {
            return Err(Error::SizeMismatch);
        }
        let z = match Matrix::dot(&self.weights, input) {
            Ok(m) => m,
            Err(e) => { return Err(e) },
        };
        let z2 = match z.add(&self.biases) {
            Ok(m) => m,
            Err(e) => { return Err(e) },
        };
        let act = self.activation;
        let af = |v: u64| -> (y: u64)
            ensures
                y == activate_bits(act, v),
            { act.activate(v) };
        let out = z2.map(af);
        proof {
            assert forall|i: int| 0 <= i < out@.rows implies out@.grid[i] =~= map_act_view(
                act,
                z2@,
            ).grid[i] by {
                assert forall|j: int| 0 <= j < out@.cols implies out@.grid[i][j] == activate_bits(
                    act,
                    z2@.grid[i][j],
                ) by {}
            }
            assert(out@ =~~= map_act_view(act, z2@));
            assert(out@ == forward_out(old(self)@, input@));
        }
        self.last_input = Some(input.clone());
        self.last_activation = Some(out.clone());
        let r = Ok(out);
        proof {
            assert(final(self)@ =~~= after_forward(old(self)@, input@));
        }
        r
    }

    /// The backward pass: requires the cached state of a preceding forward
    /// pass (else `MissingState`, leaving the layer untouched) and an
    /// output error shaped like the layer's output (else `SizeMismatch`,
    /// likewise). On success it updates weights and biases in place by
    /// `learning_rate` times their gradients and returns the error to
    /// propagate, `new_weights^T * delta`. The caches are kept.
    pub fn backpropagate(&mut self, output_error: &Matrix, learning_rate: u64) -> (r: Result<
        Matrix,
        Error,
    >)
        requires
            old(self).wf(),
            output_error.wf(),
        ensures
            final(self).wf(),
            match r {
                Ok(back) => {
                    &&& old(self)@.last_input is Some
                    &&& output_error.rows == old(self).output_size && output_error.cols == 1
                    &&& back.wf() && back.rows == old(self).weights.cols && back.cols == 1
                    &&& final(self)@ == after_backward(old(self)@, output_error@, learning_rate).0
                    &&& back@ == after_backward(old(self)@, output_error@, learning_rate).1
                },
                Err(e) => {
                    &&& *final(self) == *old(self)
                    &&& (e == Error::MissingState || e == Error::SizeMismatch)
                    &&& (e == Error::MissingState <==> old(self)@.last_input is None)
                    &&& (e == Error::SizeMismatch <==> old(self)@.last_input is Some && !(
                    output_error.rows == old(self).output_size && output_error.cols == 1))
                },
            },
    {
        let li = match &self.last_input {
            Some(m) => m.clone(),
            None => { return Err(Error::MissingState) },
        };
        let la = match &self.last_activation {
            Some(m) => m.clone(),
            None => { return Err(Error::MissingState) },
        };
        if output_error.rows != self.output_size || output_error.cols != 1 {
            return Err(Error::SizeMismatch);
        }
        let act = self.activation;
        let df = |v: u64| -> (y: u64)
            ensures
                y == derivative_bits(act, v),
            { act.derivative(v) };
        let deriv = la.map(df);
        proof {
            assert forall|i: int| 0 <= i < deriv@.rows implies deriv@.grid[i] =~= map_deriv_view(
                act,
                la@,
            ).grid[i] by {
                assert forall|j: int|
                    0 <= j < deriv@.cols implies deriv@.grid[i][j] == derivative_bits(
                    act,
                    la@.grid[i][j],
                ) by {}
            }
            assert(deriv@ =~~= map_deriv_view(act, la@));
        }
        let delta = match Matrix::hadamard(output_error, &deriv) {
            Ok(m) => m,
            Err(e) => { return Err(e) },
        };
        // the call brings the weight buffer's machine bound into scope: the
        // gradient has as many entries, so its product below cannot overflow
        let wn = self.weights.data.len();
        proof {
            assert(self.weights.rows * self.weights.cols == wn);
        }
        let li_t = Matrix::transpose(&li);
        let grad = match Matrix::dot(&delta, &li_t) {
            Ok(m) => m,
            Err(e) => { return Err(e) },
        };
        let weight_delta = grad.multiply(learning_rate);
        let bias_delta = delta.multiply(learning_rate);
        let new_weights = match self.weights.add(&weight_delta) {
            Ok(m) => m,
            Err(e) => { return Err(e) },
        };
        self.weights = new_weights;
        let new_biases = match self.biases.add(&bias_delta) {
            Ok(m) => m,
            Err(e) => { return Err(e) },
        };
        self.biases = new_biases;
        let w_t = Matrix::transpose(&self.weights);
        let back = match Matrix::dot(&w_t, &delta) {
            Ok(m) => m,
            Err(e) => { return Err(e) },
        };
        let r = Ok(back);
        proof {
            assert(final(self)@ =~~= after_backward(old(self)@, output_error@, learning_rate).0);
            assert(back@ =~~= after_backward(old(self)@, output_error@, learning_rate).1);
        }
        r
    }
}

} // verus!
