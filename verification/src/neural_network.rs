//! The network and its trainer: an ordered chain of dense layers sharing
//! one learning rate, with prediction, single-sample training, an
//! epoch-based fit loop with shuffling, and accuracy evaluation.
//!
//! Construction is a small state machine: the first layer must arrive
//! through [`NeuralNetwork::add_input_layer`], which fixes the input
//! width; later layers infer their input width from the previous layer's
//! output width, so the chain of shapes is correct by construction.

use vstd::prelude::*;

use crate::activation::ActivationFunction;
use crate::error::Error;
use crate::layer::{
    after_backward, after_forward, forward_out, Layer, LayerView,
};
use crate::matrix::{column_of, column_view, sub_view, Matrix, MatrixView};
use crate::random;
use crate::scalar;
use rustc_apfloat::Float;
use rustc_apfloat::ieee::Double;
use std::io::Write;

verus! {

/// The mathematical content of a network: its layers and the shared
/// learning rate.
#[verifier::ext_equal]
pub struct NetworkView {
    pub layers: Seq<LayerView>,
    pub learning_rate: u64,
}

/// The output of chaining every layer's forward transform, first layer
/// first, over the input column.
pub open spec fn chain_out(layers: Seq<LayerView>, x: MatrixView) -> MatrixView
    decreases layers.len(),
{
    if layers.len() == 0 {
        x
    } else {
        chain_out(layers.drop_first(), forward_out(layers[0], x))
    }
}

/// The layers after chaining every forward transform: each one caches the
/// column it saw and the column it produced.
pub open spec fn chain_layers(layers: Seq<LayerView>, x: MatrixView) -> Seq<LayerView>
    decreases layers.len(),
{
    if layers.len() == 0 {
        Seq::<LayerView>::empty()
    } else {
        seq![after_forward(layers[0], x)] + chain_layers(
            layers.drop_first(),
            forward_out(layers[0], x),
        )
    }
}

/// The layers and final propagated error after running the backward pass
/// through the chain in strict reverse order, feeding each layer's
/// returned error to the layer before it.
pub open spec fn backward_chain(layers: Seq<LayerView>, e: MatrixView, lr: u64) -> (
    Seq<LayerView>,
    MatrixView,
)
    decreases layers.len(),
{
    if layers.len() == 0 {
        (layers, e)
    } else {
        let step = after_backward(layers.last(), e, lr);
        let rest = backward_chain(layers.drop_last(), step.1, lr);
        (rest.0.push(step.0), rest.1)
    }
}

/// Two layers with the same parameters (weights, biases, activation,
/// output width), whatever their cached state.
pub open spec fn layer_params_eq(a: LayerView, b: LayerView) -> bool {
    &&& a.weights == b.weights
    &&& a.biases == b.biases
    &&& a.activation == b.activation
    &&& a.output_size == b.output_size
}

/// Two layer chains with pointwise equal parameters.
pub open spec fn net_params_eq(a: Seq<LayerView>, b: Seq<LayerView>) -> bool {
    &&& a.len() == b.len()
    &&& forall|k: int| 0 <= k < a.len() ==> layer_params_eq(#[trigger] a[k], #[trigger] b[k])
}

/// Two layers of the same shape: equal output width, activation and
/// parameter dimensions (the parameter values may differ).
pub open spec fn layer_shape_eq(a: LayerView, b: LayerView) -> bool {
    &&& a.weights.rows == b.weights.rows && a.weights.cols == b.weights.cols
    &&& a.biases.rows == b.biases.rows && a.biases.cols == b.biases.cols
    &&& a.activation == b.activation
    &&& a.output_size == b.output_size
}

/// Two layer chains of pointwise equal shape.
pub open spec fn net_shape_eq(a: Seq<LayerView>, b: Seq<LayerView>) -> bool {
    &&& a.len() == b.len()
    &&& forall|k: int| 0 <= k < a.len() ==> layer_shape_eq(#[trigger] a[k], #[trigger] b[k])
}

/// A forward chain changes only the layers' caches: lengths and
/// parameters are kept, and afterwards every layer holds cached state.
pub proof fn lemma_chain_layers_params(layers: Seq<LayerView>, x: MatrixView)
    ensures
        chain_layers(layers, x).len() == layers.len(),
        forall|k: int|
            0 <= k < layers.len() ==> layer_params_eq(
                #[trigger] chain_layers(layers, x)[k],
                layers[k],
            ),
        forall|k: int|
            0 <= k < layers.len() ==> (#[trigger] chain_layers(layers, x)[k]).last_input is Some
                && chain_layers(layers, x)[k].last_activation is Some,
    decreases layers.len(),
{
    if layers.len() > 0 {
        lemma_chain_layers_params(layers.drop_first(), forward_out(layers[0], x));
        assert forall|k: int| 0 <= k < layers.len() implies layer_params_eq(
            #[trigger] chain_layers(layers, x)[k],
            layers[k],
        ) by {
            if k > 0 {
                assert(chain_layers(layers, x)[k] == chain_layers(
                    layers.drop_first(),
                    forward_out(layers[0], x),
                )[k - 1]);
                assert(layers.drop_first()[k - 1] == layers[k]);
            }
        }
        assert forall|k: int|
            0 <= k < layers.len() implies (#[trigger] chain_layers(layers, x)[k]).last_input
            is Some && chain_layers(layers, x)[k].last_activation is Some by {
            if k > 0 {
                assert(chain_layers(layers, x)[k] == chain_layers(
                    layers.drop_first(),
                    forward_out(layers[0], x),
                )[k - 1]);
            }
        }
    }
}

/// A backward chain changes only parameter values: lengths, shapes and
/// caches are kept.
pub proof fn lemma_backward_chain_shape(layers: Seq<LayerView>, e: MatrixView, lr: u64)
    ensures
        backward_chain(layers, e, lr).0.len() == layers.len(),
        forall|k: int|
            0 <= k < layers.len() ==> layer_shape_eq(
                #[trigger] backward_chain(layers, e, lr).0[k],
                layers[k],
            ),
        forall|k: int|
            0 <= k < layers.len() ==> ((#[trigger] backward_chain(layers, e, lr).0[k]).last_input
                == layers[k].last_input && backward_chain(layers, e, lr).0[k].last_activation
                == layers[k].last_activation),
    decreases layers.len(),
{
    if layers.len() > 0 {
        let step = after_backward(layers.last(), e, lr);
        lemma_backward_chain_shape(layers.drop_last(), step.1, lr);
        assert forall|k: int| 0 <= k < layers.len() implies layer_shape_eq(
            #[trigger] backward_chain(layers, e, lr).0[k],
            layers[k],
        ) by {
            if k < layers.len() - 1 {
                assert(backward_chain(layers, e, lr).0[k] == backward_chain(
                    layers.drop_last(),
                    step.1,
                    lr,
                ).0[k]);
                assert(layers.drop_last()[k] == layers[k]);
            } else {
                assert(backward_chain(layers, e, lr).0[k] == step.0);
            }
        }
        assert forall|k: int|
            0 <= k < layers.len() implies ((#[trigger] backward_chain(
            layers,
            e,
            lr,
        ).0[k]).last_input == layers[k].last_input && backward_chain(layers, e, lr).0[k]
            .last_activation == layers[k].last_activation) by {
            if k < layers.len() - 1 {
                assert(backward_chain(layers, e, lr).0[k] == backward_chain(
                    layers.drop_last(),
                    step.1,
                    lr,
                ).0[k]);
                assert(layers.drop_last()[k] == layers[k]);
            } else {
                assert(backward_chain(layers, e, lr).0[k] == step.0);
            }
        }
    }
}

/// What a chain produces depends only on the layers' parameters, never on
/// their cached state.
pub proof fn lemma_chain_out_params(a: Seq<LayerView>, b: Seq<LayerView>, x: MatrixView)
    requires
        net_params_eq(a, b),
    ensures
        chain_out(a, x) == chain_out(b, x),
    decreases a.len(),
{
    if a.len() > 0 {
        assert(layer_params_eq(a[0], b[0]));
        assert(forward_out(a[0], x) == forward_out(b[0], x));
        assert(net_params_eq(a.drop_first(), b.drop_first())) by {
            assert forall|k: int| 0 <= k < a.drop_first().len() implies layer_params_eq(
                #[trigger] a.drop_first()[k],
                #[trigger] b.drop_first()[k],
            ) by {
                assert(a.drop_first()[k] == a[k + 1]);
                assert(b.drop_first()[k] == b[k + 1]);
            }
        }
        lemma_chain_out_params(a.drop_first(), b.drop_first(), forward_out(a[0], x));
    }
}

/// One step of the forward chain: if the walk so far has consumed `i`
/// layers, updating them in `pre` and carrying the column `cur`, then
/// feeding `cur` through layer `i` extends both chain facts by one layer.
pub proof fn lemma_chain_step(
    orig: Seq<LayerView>,
    x0: MatrixView,
    i: int,
    cur: MatrixView,
    pre: Seq<LayerView>,
    post: Seq<LayerView>,
)
    requires
        0 <= i < orig.len(),
        pre.len() == orig.len(),
        post == pre.update(i, after_forward(orig[i], cur)),
        chain_out(orig, x0) == chain_out(orig.skip(i), cur),
        chain_layers(orig, x0) == pre.take(i) + chain_layers(orig.skip(i), cur),
    ensures
        chain_out(orig, x0) == chain_out(orig.skip(i + 1), forward_out(orig[i], cur)),
        chain_layers(orig, x0) == post.take(i + 1) + chain_layers(
            orig.skip(i + 1),
            forward_out(orig[i], cur),
        ),
{
    let rest = orig.skip(i);
    assert(rest.len() == orig.len() - i);
    assert(rest[0] == orig[i]);
    assert(rest.drop_first() =~= orig.skip(i + 1));
    assert(chain_out(rest, cur) == chain_out(rest.drop_first(), forward_out(rest[0], cur)));
    assert(chain_layers(rest, cur) == seq![after_forward(rest[0], cur)] + chain_layers(
        rest.drop_first(),
        forward_out(rest[0], cur),
    ));
    assert(post.take(i + 1) =~= pre.take(i) + seq![after_forward(orig[i], cur)]);
    assert((pre.take(i) + seq![after_forward(orig[i], cur)]) + chain_layers(
        orig.skip(i + 1),
        forward_out(orig[i], cur),
    ) =~= pre.take(i) + (seq![after_forward(orig[i], cur)] + chain_layers(
        orig.skip(i + 1),
        forward_out(orig[i], cur),
    )));
}

/// One step of the backward chain: if the walk so far has consumed the
/// layers above index `i`, updating them in `pre` and carrying the error
/// `e_cur`, then running layer `i` backward extends both chain facts by
/// one layer.
pub proof fn lemma_backward_step(
    fwd: Seq<LayerView>,
    e0: MatrixView,
    lr: u64,
    i: int,
    e_cur: MatrixView,
    pre: Seq<LayerView>,
    post: Seq<LayerView>,
)
    requires
        0 <= i < fwd.len(),
        pre.len() == fwd.len(),
        post == pre.update(i, after_backward(fwd[i], e_cur, lr).0),
        backward_chain(fwd, e0, lr).0 == backward_chain(fwd.take(i + 1), e_cur, lr).0 + pre.skip(
            i + 1,
        ),
        backward_chain(fwd, e0, lr).1 == backward_chain(fwd.take(i + 1), e_cur, lr).1,
    ensures
        backward_chain(fwd, e0, lr).0 == backward_chain(
            fwd.take(i),
            after_backward(fwd[i], e_cur, lr).1,
            lr,
        ).0 + post.skip(i),
        backward_chain(fwd, e0, lr).1 == backward_chain(
            fwd.take(i),
            after_backward(fwd[i], e_cur, lr).1,
            lr,
        ).1,
{
    let t = fwd.take(i + 1);
    let step = after_backward(fwd[i], e_cur, lr);
    assert(t.len() == i + 1);
    assert(t.last() == fwd[i]);
    assert(t.drop_last() =~= fwd.take(i));
    assert(backward_chain(t, e_cur, lr).0 == backward_chain(t.drop_last(), step.1, lr).0.push(
        step.0,
    ));
    assert(backward_chain(t, e_cur, lr).1 == backward_chain(t.drop_last(), step.1, lr).1);
    assert(post.skip(i) =~= seq![step.0] + pre.skip(i + 1));
    assert(backward_chain(fwd.take(i), step.1, lr).0 + post.skip(i) =~= backward_chain(
        fwd.take(i),
        step.1,
        lr,
    ).0.push(step.0) + pre.skip(i + 1));
}

/// The chain's output dimensions follow from the widths alone: as tall as
/// the last layer's weight matrix (or the input, with no layers), and as
/// wide as the input.
pub proof fn lemma_chain_out_dims(layers: Seq<LayerView>, x: MatrixView)
    ensures
        chain_out(layers, x).rows == if layers.len() == 0 {
            x.rows
        } else {
            layers.last().weights.rows
        },
        chain_out(layers, x).cols == x.cols,
    decreases layers.len(),
{
    if layers.len() > 0 {
        lemma_chain_out_dims(layers.drop_first(), forward_out(layers[0], x));
        if layers.len() > 1 {
            assert(layers.drop_first().last() == layers.last());
        }
    }
}

/// A sample fits a network's widths: the input is as wide as the first
/// layer expects and the target as wide as the network's output (with no
/// layers, the output is the input itself).
pub open spec fn conforms(net: Seq<LayerView>, input: Seq<u64>, target: Seq<u64>) -> bool {
    &&& (net.len() > 0 ==> input.len() == net[0].weights.cols)
    &&& target.len() == (if net.len() == 0 {
        input.len()
    } else {
        net.last().weights.rows
    })
}

/// One output component passes the accuracy check: thresholded at 0.5 to
/// a hard 0 or 1, it must land within 0.01 of the target component.
pub open spec fn component_ok(o: u64, t: u64) -> bool {
    let pred = if scalar::lt_bits(scalar::F_HALF, o) {
        scalar::F_ONE
    } else {
        scalar::F_ZERO
    };
    !scalar::lt_bits(scalar::TOL_HUNDREDTH, scalar::abs_bits(scalar::sub_bits(pred, t)))
}

/// A whole sample counts as correct exactly when every output component
/// passes the accuracy check against its target component.
pub open spec fn sample_correct(net: Seq<LayerView>, input: Seq<u64>, target: Seq<u64>) -> bool {
    let out = column_of(chain_out(net, column_view(input)));
    forall|j: int| 0 <= j < out.len() ==> #[trigger] component_ok(out[j], target[j])
}

/// How many of the first `k` samples the network classifies correctly.
pub open spec fn correct_upto(
    net: Seq<LayerView>,
    inputs: Seq<Vec<u64>>,
    targets: Seq<Vec<u64>>,
    k: nat,
) -> nat
    decreases k,
{
    if k == 0 {
        0
    } else {
        correct_upto(net, inputs, targets, (k - 1) as nat) + if sample_correct(
            net,
            inputs[k - 1]@,
            targets[k - 1]@,
        ) {
            1nat
        } else {
            0nat
        }
    }
}

/// Forward caching rebuilds every cache from the parameters alone: two
/// chains with pointwise equal parameters update to identical layers.
pub proof fn lemma_chain_layers_cache_free(a: Seq<LayerView>, b: Seq<LayerView>, x: MatrixView)
    requires
        net_params_eq(a, b),
    ensures
        chain_layers(a, x) == chain_layers(b, x),
    decreases a.len(),
{
    if a.len() > 0 {
        assert(layer_params_eq(a[0], b[0]));
        assert(forward_out(a[0], x) == forward_out(b[0], x));
        assert(after_forward(a[0], x) =~= after_forward(b[0], x));
        assert(net_params_eq(a.drop_first(), b.drop_first())) by {
            assert forall|k: int| 0 <= k < a.drop_first().len() implies layer_params_eq(
                #[trigger] a.drop_first()[k],
                #[trigger] b.drop_first()[k],
            ) by {
                assert(a.drop_first()[k] == a[k + 1]);
                assert(b.drop_first()[k] == b[k + 1]);
            }
        }
        lemma_chain_layers_cache_free(a.drop_first(), b.drop_first(), forward_out(a[0], x));
        assert(chain_layers(a, x) =~= chain_layers(b, x));
    }
}

/// The running sum of squared errors `(target - output)^2` over the
/// first `k` components, accumulated left to right from +0.0.
pub open spec fn sq_err_fold(out: Seq<u64>, target: Seq<u64>, k: nat) -> u64
    decreases k,
{
    if k == 0 {
        scalar::F_ZERO
    } else {
        let e = scalar::sub_bits(target[k - 1], out[k - 1]);
        scalar::add_bits(sq_err_fold(out, target, (k - 1) as nat), scalar::mul_bits(e, e))
    }
}

/// One sample's mean squared loss: the squared-error sum over every
/// output component, divided by the component count.
pub open spec fn sample_loss_bits(out: Seq<u64>, target: Seq<u64>) -> u64 {
    scalar::div_bits(sq_err_fold(out, target, out.len()), scalar::of_uint_bits(out.len() as u64))
}

/// The accumulated loss after training on the first `k` samples that
/// `order` lists: each sample's loss is measured against the prediction
/// of the network as it stood just before training on that sample.
pub open spec fn loss_fold(
    net: Seq<LayerView>,
    inputs: Seq<Vec<u64>>,
    targets: Seq<Vec<u64>>,
    order: Seq<usize>,
    lr: u64,
    k: nat,
) -> u64
    decreases k,
{
    if k == 0 {
        scalar::F_ZERO
    } else {
        let prev = run_order(net, inputs, targets, order, lr, (k - 1) as nat);
        let x = column_view(inputs[order[k - 1] as int]@);
        scalar::add_bits(
            loss_fold(net, inputs, targets, order, lr, (k - 1) as nat),
            sample_loss_bits(column_of(chain_out(prev, x)), targets[order[k - 1] as int]@),
        )
    }
}

/// One full training step on one sample, taken from any starting caches:
/// a forward pass over the input column, the error `target - prediction`,
/// and the backward pass over the freshly cached chain.
pub open spec fn train_step(
    net: Seq<LayerView>,
    input: Seq<u64>,
    target: Seq<u64>,
    lr: u64,
) -> Seq<LayerView> {
    let x = column_view(input);
    backward_chain(
        chain_layers(net, x),
        sub_view(column_view(target), chain_out(net, x)),
        lr,
    ).0
}

/// A training step depends only on the starting parameters, never on the
/// starting caches.
pub proof fn lemma_train_step_params(
    a: Seq<LayerView>,
    b: Seq<LayerView>,
    input: Seq<u64>,
    target: Seq<u64>,
    lr: u64,
)
    requires
        net_params_eq(a, b),
    ensures
        train_step(a, input, target, lr) == train_step(b, input, target, lr),
{
    let x = column_view(input);
    lemma_chain_layers_cache_free(a, b, x);
    lemma_chain_out_params(a, b, x);
}

/// Pointwise parameter agreement chains across intermediate states.
pub proof fn lemma_net_params_trans(a: Seq<LayerView>, b: Seq<LayerView>, c: Seq<LayerView>)
    requires
        net_params_eq(a, b),
        net_params_eq(b, c),
    ensures
        net_params_eq(a, c),
{
    assert forall|k: int| 0 <= k < a.len() implies layer_params_eq(
        #[trigger] a[k],
        #[trigger] c[k],
    ) by {
        assert(layer_params_eq(a[k], b[k]));
        assert(layer_params_eq(b[k], c[k]));
    }
}

/// The layers after training once on each sample that `order` lists, in
/// that order, starting from `net`.
pub open spec fn run_order(
    net: Seq<LayerView>,
    inputs: Seq<Vec<u64>>,
    targets: Seq<Vec<u64>>,
    order: Seq<usize>,
    lr: u64,
    k: nat,
) -> Seq<LayerView>
    decreases k,
{
    if k == 0 {
        net
    } else {
        let prev = run_order(net, inputs, targets, order, lr, (k - 1) as nat);
        train_step(prev, inputs[order[k - 1] as int]@, targets[order[k - 1] as int]@, lr)
    }
}

/// What an order of training steps produces depends on the starting
/// parameters alone.
pub proof fn lemma_run_order_params(
    a: Seq<LayerView>,
    b: Seq<LayerView>,
    inputs: Seq<Vec<u64>>,
    targets: Seq<Vec<u64>>,
    order: Seq<usize>,
    lr: u64,
    k: nat,
)
    requires
        net_params_eq(a, b),
    ensures
        net_params_eq(
            run_order(a, inputs, targets, order, lr, k),
            run_order(b, inputs, targets, order, lr, k),
        ),
    decreases k,
{
    if k > 0 {
        lemma_run_order_params(a, b, inputs, targets, order, lr, (k - 1) as nat);
        lemma_train_step_params(
            run_order(a, inputs, targets, order, lr, (k - 1) as nat),
            run_order(b, inputs, targets, order, lr, (k - 1) as nat),
            inputs[order[k - 1] as int]@,
            targets[order[k - 1] as int]@,
            lr,
        );
        let ra = run_order(a, inputs, targets, order, lr, k);
        let rb = run_order(b, inputs, targets, order, lr, k);
        assert(ra == rb);
        assert forall|j: int| 0 <= j < ra.len() implies layer_params_eq(
            #[trigger] ra[j],
            #[trigger] rb[j],
        ) by {}
    }
}

/// Parameter agreement is reflexive.
pub proof fn lemma_net_params_refl(a: Seq<LayerView>)
    ensures
        net_params_eq(a, a),
{
    assert forall|k: int| 0 <= k < a.len() implies layer_params_eq(
        #[trigger] a[k],
        #[trigger] a[k],
    ) by {}
}

/// The layers after `e` whole epochs of training over every sample in the
/// identity order: the order the fit loop uses at or below its shuffle
/// threshold, where training is fully deterministic.
pub open spec fn run_epochs(
    net: Seq<LayerView>,
    inputs: Seq<Vec<u64>>,
    targets: Seq<Vec<u64>>,
    lr: u64,
    e: nat,
) -> Seq<LayerView>
    decreases e,
{
    if e == 0 {
        net
    } else {
        run_order(
            run_epochs(net, inputs, targets, lr, (e - 1) as nat),
            inputs,
            targets,
            ident_seq(inputs.len()),
            lr,
            inputs.len(),
        )
    }
}

/// One whole epoch over the identity order advances the deterministic
/// fold by one step, whatever caches the epoch began with.
pub proof fn lemma_epoch_step(
    net0: Seq<LayerView>,
    inputs: Seq<Vec<u64>>,
    targets: Seq<Vec<u64>>,
    lr: u64,
    e: nat,
    start: Seq<LayerView>,
    after: Seq<LayerView>,
)
    requires
        net_params_eq(start, run_epochs(net0, inputs, targets, lr, e)),
        after == run_order(start, inputs, targets, ident_seq(inputs.len()), lr, inputs.len()),
    ensures
        net_params_eq(after, run_epochs(net0, inputs, targets, lr, (e + 1) as nat)),
{
    let prev = run_epochs(net0, inputs, targets, lr, e);
    lemma_run_order_params(
        start,
        prev,
        inputs,
        targets,
        ident_seq(inputs.len()),
        lr,
        inputs.len(),
    );
}

/// The identity ordering of `n` samples.
pub open spec fn ident_seq(n: nat) -> Seq<usize> {
    Seq::new(n, |k: int| k as usize)
}

/// An epoch's sample order: some permutation of the identity order.
pub open spec fn is_sample_order(order: Seq<usize>, n: nat) -> bool {
    order.to_multiset() == ident_seq(n).to_multiset()
}

/// The layers after `e` epochs of training when epoch `k` visits the
/// samples in the order `orders[k]`.
pub open spec fn run_epochs_over(
    net: Seq<LayerView>,
    inputs: Seq<Vec<u64>>,
    targets: Seq<Vec<u64>>,
    lr: u64,
    orders: Seq<Seq<usize>>,
    e: nat,
) -> Seq<LayerView>
    decreases e,
{
    if e == 0 {
        net
    } else {
        run_order(
            run_epochs_over(net, inputs, targets, lr, orders, (e - 1) as nat),
            inputs,
            targets,
            orders[e - 1],
            lr,
            inputs.len(),
        )
    }
}

/// What the fit loop guarantees of its training whatever the shuffles
/// drew: `orders` lists one sample order per epoch, each a permutation of
/// the sample indices, and the final parameters are the fold of one
/// training step per listed sample over those orders.
pub open spec fn trained_over(
    net0: Seq<LayerView>,
    after: Seq<LayerView>,
    inputs: Seq<Vec<u64>>,
    targets: Seq<Vec<u64>>,
    lr: u64,
    orders: Seq<Seq<usize>>,
    epochs: nat,
) -> bool {
    &&& orders.len() == epochs
    &&& forall|k: int| 0 <= k < orders.len() ==> is_sample_order(#[trigger] orders[k], inputs.len())
    &&& net_params_eq(after, run_epochs_over(net0, inputs, targets, lr, orders, epochs))
}

/// Only the first `e` listed orders matter for `e` epochs.
pub proof fn lemma_run_epochs_over_prefix(
    net0: Seq<LayerView>,
    inputs: Seq<Vec<u64>>,
    targets: Seq<Vec<u64>>,
    lr: u64,
    a: Seq<Seq<usize>>,
    b: Seq<Seq<usize>>,
    e: nat,
)
    requires
        forall|k: int| 0 <= k < e ==> a[k] == b[k],
    ensures
        run_epochs_over(net0, inputs, targets, lr, a, e) == run_epochs_over(
            net0,
            inputs,
            targets,
            lr,
            b,
            e,
        ),
    decreases e,
{
    if e > 0 {
        lemma_run_epochs_over_prefix(net0, inputs, targets, lr, a, b, (e - 1) as nat);
    }
}

/// One whole epoch over any order extends the per-order fold by one
/// epoch, whatever caches the epoch began with.
pub proof fn lemma_epoch_step_over(
    net0: Seq<LayerView>,
    inputs: Seq<Vec<u64>>,
    targets: Seq<Vec<u64>>,
    lr: u64,
    e: nat,
    orders: Seq<Seq<usize>>,
    order: Seq<usize>,
    start: Seq<LayerView>,
    after: Seq<LayerView>,
)
    requires
        orders.len() == e,
        net_params_eq(start, run_epochs_over(net0, inputs, targets, lr, orders, e)),
        after == run_order(start, inputs, targets, order, lr, inputs.len()),
    ensures
        net_params_eq(
            after,
            run_epochs_over(net0, inputs, targets, lr, orders.push(order), (e + 1) as nat),
        ),
{
    let orders2 = orders.push(order);
    lemma_run_epochs_over_prefix(net0, inputs, targets, lr, orders, orders2, e);
    let prev = run_epochs_over(net0, inputs, targets, lr, orders2, e);
    assert(prev == run_epochs_over(net0, inputs, targets, lr, orders, e));
    assert(orders2[e as int] == order);
    lemma_run_order_params(start, prev, inputs, targets, order, lr, inputs.len());
    assert(run_epochs_over(net0, inputs, targets, lr, orders2, (e + 1) as nat) == run_order(
        prev,
        inputs,
        targets,
        order,
        lr,
        inputs.len(),
    ));
}

/// A reordering that keeps the identity's multiset still visits every
/// sample: each position holds a valid index, and every index appears.
pub proof fn lemma_order_covers(order: Seq<usize>, n: nat)
    requires
        order.to_multiset() == ident_seq(n).to_multiset(),
    ensures
        order.len() == n,
        forall|k: int| 0 <= k < order.len() ==> (#[trigger] order[k]) < n,
        forall|x: usize| x < n ==> order.contains(x),
{
    broadcast use vstd::seq_lib::group_to_multiset_ensures;

    assert(ident_seq(n).len() == n);
    assert(order.len() == order.to_multiset().len());
    assert(ident_seq(n).to_multiset().len() == n);
    assert forall|k: int| 0 <= k < order.len() implies (#[trigger] order[k]) < n by {
        assert(order[k] == order[k]);
        assert(order.contains(order[k]));
        vstd::seq_lib::to_multiset_contains(order, order[k]);
        vstd::seq_lib::to_multiset_contains(ident_seq(n), order[k]);
        assert(ident_seq(n).contains(order[k]));
        let w = choose|w: int| 0 <= w < ident_seq(n).len() && ident_seq(n)[w] == order[k];
        assert(ident_seq(n)[w] == w as usize);
    }
    assert forall|x: usize| x < n implies order.contains(x) by {
        assert(ident_seq(n)[x as int] == x);
        assert(ident_seq(n).contains(x));
        vstd::seq_lib::to_multiset_contains(ident_seq(n), x);
        vstd::seq_lib::to_multiset_contains(order, x);
    }
}

/// Whether a sample fits a network depends only on the network's shape.
pub proof fn lemma_conforms_shape(
    a: Seq<LayerView>,
    b: Seq<LayerView>,
    input: Seq<u64>,
    target: Seq<u64>,
)
    requires
        net_shape_eq(a, b),
    ensures
        conforms(a, input, target) == conforms(b, input, target),
{
    if a.len() > 0 {
        assert(layer_shape_eq(a[0], b[0]));
        assert(layer_shape_eq(a[a.len() - 1], b[b.len() - 1]));
        assert(a.last() == a[a.len() - 1]);
        assert(b.last() == b[b.len() - 1]);
    }
}

/// If every position of a covering order conforms, every sample does.
pub proof fn lemma_all_conform(
    net: Seq<LayerView>,
    inputs: Seq<Vec<u64>>,
    targets: Seq<Vec<u64>>,
    order: Seq<usize>,
)
    requires
        inputs.len() <= usize::MAX,
        order.len() == inputs.len(),
        forall|k: int| 0 <= k < order.len() ==> (#[trigger] order[k]) < inputs.len(),
        forall|x: usize| x < inputs.len() ==> order.contains(x),
        forall|q: int|
            0 <= q < order.len() ==> conforms(
                net,
                #[trigger] inputs[order[q] as int]@,
                targets[order[q] as int]@,
            ),
    ensures
        forall|q: int| 0 <= q < inputs.len() ==> conforms(net, #[trigger] inputs[q]@, targets[q]@),
{
    assert forall|q: int| 0 <= q < inputs.len() implies conforms(
        net,
        #[trigger] inputs[q]@,
        targets[q]@,
    ) by {
        assert(order.contains(q as usize));
        let w = choose|w: int| 0 <= w < order.len() && order[w] == q as usize;
        assert(conforms(net, inputs[order[w] as int]@, targets[order[w] as int]@));
    }
}

/// Conformance of a whole dataset carries across equal shapes.
pub proof fn lemma_all_conform_shape(
    a: Seq<LayerView>,
    b: Seq<LayerView>,
    inputs: Seq<Vec<u64>>,
    targets: Seq<Vec<u64>>,
)
    requires
        net_shape_eq(a, b),
        forall|q: int| 0 <= q < inputs.len() ==> conforms(b, #[trigger] inputs[q]@, targets[q]@),
    ensures
        forall|q: int| 0 <= q < inputs.len() ==> conforms(a, #[trigger] inputs[q]@, targets[q]@),
{
    assert forall|q: int| 0 <= q < inputs.len() implies conforms(
        a,
        #[trigger] inputs[q]@,
        targets[q]@,
    ) by {
        lemma_conforms_shape(a, b, inputs[q]@, targets[q]@);
    }
}

/// Shape agreement chains across intermediate states.
pub proof fn lemma_net_shape_trans(a: Seq<LayerView>, b: Seq<LayerView>, c: Seq<LayerView>)
    requires
        net_shape_eq(a, b),
        net_shape_eq(b, c),
    ensures
        net_shape_eq(a, c),
{
    assert forall|k: int| 0 <= k < a.len() implies layer_shape_eq(
        #[trigger] a[k],
        #[trigger] c[k],
    ) by {
        assert(layer_shape_eq(a[k], b[k]));
        assert(layer_shape_eq(b[k], c[k]));
    }
}

/// Relies on `writeln!` to standard output, with rustc_apfloat's `Display`
/// for `Double` rendering the two scalars; purely presentational, nothing
/// is promised of the outcome.
#[verifier::external_body]
fn emit_progress(epoch: usize, epochs: usize, avg_loss: u64, accuracy: u64) {
    let loss = Double::from_bits(avg_loss as u128);
    let hundred = Double::from_bits(0x4059000000000000u128);
    let pct = (Double::from_bits(accuracy as u128) * hundred).value;
    let _ = writeln!(
        std::io::stdout(),
        "Epoch {}/{} - Loss: {} - Accuracy: {}%",
        epoch,
        epochs,
        loss,
        pct,
    );
}

/// One epoch advances the whole training account by one order.
pub proof fn lemma_fit_epoch_advance(
    net0: Seq<LayerView>,
    inputs: Seq<Vec<u64>>,
    targets: Seq<Vec<u64>>,
    lr: u64,
    epoch: nat,
    orders: Seq<Seq<usize>>,
    order: Seq<usize>,
    start: Seq<LayerView>,
    after: Seq<LayerView>,
)
    requires
        trained_over(net0, start, inputs, targets, lr, orders, epoch),
        is_sample_order(order, inputs.len()),
        net_params_eq(after, run_order(start, inputs, targets, order, lr, inputs.len())),
    ensures
        trained_over(net0, after, inputs, targets, lr, orders.push(order), (epoch + 1) as nat),
{
    let stepped = run_order(start, inputs, targets, order, lr, inputs.len());
    lemma_epoch_step_over(net0, inputs, targets, lr, epoch, orders, order, start, stepped);
    lemma_net_params_trans(
        after,
        stepped,
        run_epochs_over(net0, inputs, targets, lr, orders.push(order), (epoch + 1) as nat),
    );
    lemma_orders_extend(orders, order, inputs.len());
}

/// When every listed order is the identity, the per-order fold is the
/// deterministic epoch fold.
pub proof fn lemma_epochs_over_ident(
    net0: Seq<LayerView>,
    inputs: Seq<Vec<u64>>,
    targets: Seq<Vec<u64>>,
    lr: u64,
    orders: Seq<Seq<usize>>,
    e: nat,
)
    requires
        e <= orders.len(),
        forall|k: int| 0 <= k < e ==> #[trigger] orders[k] == ident_seq(inputs.len()),
    ensures
        run_epochs_over(net0, inputs, targets, lr, orders, e) == run_epochs(
            net0,
            inputs,
            targets,
            lr,
            e,
        ),
    decreases e,
{
    if e > 0 {
        lemma_epochs_over_ident(net0, inputs, targets, lr, orders, (e - 1) as nat);
    }
}

/// Appending one more sample order keeps every listed order a
/// permutation.
pub proof fn lemma_orders_extend(orders: Seq<Seq<usize>>, order: Seq<usize>, n: nat)
    requires
        forall|k: int| 0 <= k < orders.len() ==> is_sample_order(#[trigger] orders[k], n),
        is_sample_order(order, n),
    ensures
        forall|k: int|
            0 <= k < orders.push(order).len() ==> is_sample_order(
                #[trigger] orders.push(order)[k],
                n,
            ),
{
    assert forall|k: int| 0 <= k < orders.push(order).len() implies is_sample_order(
        #[trigger] orders.push(order)[k],
        n,
    ) by {
        if k < orders.len() {
            assert(orders.push(order)[k] == orders[k]);
        } else {
            assert(orders.push(order)[k] == order);
        }
    }
}

/// A feed-forward neural network: an ordered chain of dense layers and a
/// single learning rate shared by all of them.
pub struct NeuralNetwork {
    pub layers: Vec<Layer>,
    pub learning_rate: u64,
}

impl View for NeuralNetwork {
    type V = NetworkView;

    open spec fn view(&self) -> NetworkView {
        NetworkView {
            layers: Seq::new(self.layers@.len(), |i: int| self.layers@[i]@),
            learning_rate: self.learning_rate,
        }
    }
}

impl NeuralNetwork {
    /// Every layer is well-formed and consecutive widths chain: each
    /// layer's input width is the previous layer's output width.
    pub open spec fn wf(&self) -> bool {
        &&& forall|i: int| 0 <= i < self.layers@.len() ==> (#[trigger] self.layers@[i]).wf()
        &&& forall|i: int|
            0 < i < self.layers@.len() ==> (#[trigger] self.layers@[i]).weights.cols
                == self.layers@[i - 1].output_size
    }

    /// A network with no layers yet and the given learning rate.
    pub fn new(learning_rate: u64) -> (n: NeuralNetwork)
        ensures
            n.wf(),
            n.layers@.len() == 0,
            n.learning_rate == learning_rate,
    {
        NeuralNetwork { layers: Vec::new(), learning_rate }
    }

    /// Adds the first layer, fixing the network's input width. Fails with
    /// `AlreadyInitialized`, changing nothing, exactly when a layer is
    /// already present.
    pub fn add_input_layer(
        &mut self,
        input_size: usize,
        output_size: usize,
        activation: ActivationFunction,
    ) -> (r: Result<(), Error>)
        requires
            old(self).wf(),
            old(self).layers@.len() == 0 ==> input_size * output_size <= usize::MAX,
        ensures
            final(self).wf(),
            final(self).learning_rate == old(self).learning_rate,
            match r {
                Ok(()) => {
                    &&& old(self).layers@.len() == 0
                    &&& final(self).layers@.len() == 1
                    &&& final(self).layers@[0].output_size == output_size
                    &&& final(self).layers@[0].weights.rows == output_size
                    &&& final(self).layers@[0].weights.cols == input_size
                    &&& final(self).layers@[0]@.activation == activation
                    &&& final(self).layers@[0]@.last_input is None
                    &&& forall|p: int|
                        0 <= p < final(self).layers@[0].weights.data@.len()
                            ==> scalar::in_unit_range(
                            #[trigger] final(self).layers@[0].weights.data@[p],
                        )
                    &&& forall|p: int|
                        0 <= p < final(self).layers@[0].biases.data@.len()
                            ==> scalar::in_unit_range(
                            #[trigger] final(self).layers@[0].biases.data@[p],
                        )
                },
                Err(e) => {
                    &&& e == Error::AlreadyInitialized
                    &&& old(self).layers@.len() != 0
                    &&& *final(self) == *old(self)
                },
            },
    {
        if self.layers.len() != 0 {
            return Err(Error::AlreadyInitialized);
        }
        let layer = Layer::new(input_size, output_size, activation);
        self.layers.push(layer);
        Ok(())
    }

    /// Adds a further layer whose input width is inferred from the
    /// previous layer's output width. Fails with `NoInputLayer`, changing
    /// nothing, exactly when no input layer exists yet.
    pub fn add_layer(&mut self, output_size: usize, activation: ActivationFunction) -> (r: Result<
        (),
        Error,
    >)
        requires
            old(self).wf(),
            old(self).layers@.len() > 0 ==> old(self).layers@.last().output_size * output_size
                <= usize::MAX,
        ensures
            final(self).wf(),
            final(self).learning_rate == old(self).learning_rate,
            match r {
                Ok(()) => {
                    &&& old(self).layers@.len() > 0
                    &&& final(self).layers@.len() == old(self).layers@.len() + 1
                    &&& forall|k: int|
                        0 <= k < old(self).layers@.len() ==> final(self).layers@[k] == old(
                            self,
                        ).layers@[k]
                    &&& final(self).layers@.last().output_size == output_size
                    &&& final(self).layers@.last().weights.rows == output_size
                    &&& final(self).layers@.last().weights.cols == old(
                        self,
                    ).layers@.last().output_size
                    &&& final(self).layers@.last()@.activation == activation
                    &&& final(self).layers@.last()@.last_input is None
                    &&& forall|p: int|
                        0 <= p < final(self).layers@.last().weights.data@.len()
                            ==> scalar::in_unit_range(
                            #[trigger] final(self).layers@.last().weights.data@[p],
                        )
                    &&& forall|p: int|
                        0 <= p < final(self).layers@.last().biases.data@.len()
                            ==> scalar::in_unit_range(
                            #[trigger] final(self).layers@.last().biases.data@[p],
                        )
                },
                Err(e) => {
                    &&& e == Error::NoInputLayer
                    &&& old(self).layers@.len() == 0
                    &&& *final(self) == *old(self)
                },
            },
    {
        if self.layers.len() == 0 {
            return Err(Error::NoInputLayer);
        }
        let input_size = self.layers[self.layers.len() - 1].output_size;
        let layer = Layer::new(input_size, output_size, activation);
        self.layers.push(layer);
        Ok(())
    }

    /// The forward pass shared by prediction and training: runs the input
    /// column through every layer in order and returns the final column as
    /// a matrix.
    #[verifier::rlimit(100)]
    #[verifier::spinoff_prover]
    fn run_forward(&mut self, input_array: &[u64]) -> (r: Result<Matrix, Error>)
        requires
            old(self).wf(),
        ensures
            final(self).wf(),
            final(self).learning_rate == old(self).learning_rate,
            final(self).layers@.len() == old(self).layers@.len(),
            match r {
                Ok(out) => {
                    &&& old(self).layers@.len() == 0 || input_array@.len() == old(
                        self,
                    ).layers@[0].weights.cols
                    &&& final(self)@.layers == chain_layers(
                        old(self)@.layers,
                        column_view(input_array@),
                    )
                    &&& out.wf() && out.cols == 1
                    &&& out.rows == (if old(self).layers@.len() == 0 {
                        input_array@.len() as int
                    } else {
                        old(self).layers@.last().output_size as int
                    })
                    &&& out@ == chain_out(old(self)@.layers, column_view(input_array@))
                },
                Err(e) => {
                    &&& e == Error::DimensionMismatch
                    &&& old(self).layers@.len() > 0 && input_array@.len() != old(
                        self,
                    ).layers@[0].weights.cols
                    &&& final(self)@ == old(self)@
                },
            },
    {
        let ghost x0 = column_view(input_array@);
        let ghost orig = self@.layers;
        proof {
            assert(orig =~= old(self)@.layers);
        }
        let mut cur = Matrix::from_array(input_array);
        proof {
            assert(cur@ == x0);
        }
        let n = self.layers.len();
        proof {
            assert(orig.skip(0) =~= orig);
            assert(self@.layers.take(0) =~= Seq::<LayerView>::empty());
            assert(Seq::<LayerView>::empty() + chain_layers(orig, x0) =~= chain_layers(orig, x0));
            assert(self@.layers.take(0) + chain_layers(orig.skip(0), cur@) =~= chain_layers(
                orig,
                x0,
            ));
        }
        let mut i: usize = 0;
        while i < n
            invariant
                old(self).wf(),
                self.wf(),
                n == self.layers@.len(),
                self.layers@.len() == old(self).layers@.len(),
                orig == old(self)@.layers,
                x0 == column_view(input_array@),
                i <= n,
                self.learning_rate == old(self).learning_rate,
                cur.wf(),
                cur.cols == 1,
                forall|k: int| i <= k < n ==> self.layers@[k] == old(self).layers@[k],
                i > 0 ==> input_array@.len() == old(self).layers@[0].weights.cols,
                i < n ==> cur.rows == (if i == 0 {
                    input_array@.len() as int
                } else {
                    self.layers@[i as int].weights.cols as int
                }),
                i > 0 ==> cur.rows == self.layers@[i - 1 as int].output_size,
                chain_out(orig, x0) == chain_out(orig.skip(i as int), cur@),
                chain_layers(orig, x0) == self@.layers.take(i as int) + chain_layers(
                    orig.skip(i as int),
                    cur@,
                ),
            decreases n - i,
        {
            let ghost prev_net = self@.layers;
            let ghost prev_cur = cur@;
            let ghost rest = orig.skip(i as int);
            proof {
                assert(self.layers@[i as int] == old(self).layers@[i as int]);
                assert(self@.layers[i as int] == old(self)@.layers[i as int]);
                assert(rest.len() == n - i);
                assert(rest[0] == orig[i as int]);
                assert(orig[i as int] == old(self)@.layers[i as int]);
            }
            let layer = &mut self.layers[i];
            let res = layer.feed_forward(&cur);
            match res {
                Ok(out) => {
                    proof {
                        let lv = orig[i as int];
                        assert(out@ == forward_out(lv, prev_cur));
                        assert(self.layers@[i as int]@ == after_forward(lv, prev_cur));
                        assert(self@.layers =~= prev_net.update(
                            i as int,
                            after_forward(lv, prev_cur),
                        ));
                        lemma_chain_step(orig, x0, i as int, prev_cur, prev_net, self@.layers);
                        // widths for the next round
                        assert(out.rows == self.layers@[i as int].output_size);
                        if i + 1 < n {
                            assert(self.layers@[i + 1].weights.cols == self.layers@[
                                i as int].output_size);
                        }
                        // the network stays well-formed
                        assert forall|k: int|
                            0 <= k < self.layers@.len() implies (
                        #[trigger] self.layers@[k]).wf() by {}
                        assert forall|k: int|
                            0 < k < self.layers@.len() implies (
                        #[trigger] self.layers@[k]).weights.cols == self.layers@[k
                            - 1].output_size by {
                            let lnew = self.layers@[i as int];
                            let lold = old(self).layers@[i as int];
                            assert(lnew@.weights == lold@.weights);
                            assert(lnew.weights.cols == lold.weights.cols);
                            assert(lnew@.output_size == lold@.output_size);
                            assert(lnew.output_size == lold.output_size);
                        }
                    }
                    cur = out;
                    i = i + 1;
                },
                Err(e) => {
                    proof {
                        assert(cur.cols == 1);
                        assert(e == Error::DimensionMismatch);
                        assert(i == 0) by {
                            if i > 0 {
                                assert(cur.rows == self.layers@[i as int].weights.cols);
                            }
                        }
                        assert(input_array@.len() != old(self).layers@[0].weights.cols);
                        assert(self@ =~~= old(self)@);
                    }
                    return Err(e);
                },
            }
        }
        proof {
            assert(orig.skip(n as int) =~= Seq::<LayerView>::empty());
            assert(chain_out(orig, x0) == cur@);
            assert(self@.layers.take(n as int) =~= self@.layers);
            assert(chain_layers(orig, x0) == self@.layers + chain_layers(
                orig.skip(n as int),
                cur@,
            ));
            assert(self@.layers + chain_layers(orig.skip(n as int), cur@) =~= self@.layers);
            if n == 0 {
                assert(self@ =~~= old(self)@);
                assert(chain_layers(orig, x0) =~= self@.layers);
            } else {
                lemma_chain_layers_params(orig, x0);
                assert(self@.layers[n - 1] == chain_layers(orig, x0)[n - 1]);
                assert(layer_params_eq(chain_layers(orig, x0)[n - 1], orig[n - 1]));
                assert(self.layers@[n - 1]@.output_size == old(self).layers@[n - 1]@.output_size);
                assert(self.layers@[n - 1].output_size == old(self).layers@[n - 1].output_size);
            }
        }
        Ok(cur)
    }

    /// Runs the input forward through every layer in order and returns the
    /// final column. Fails, leaving every layer as it was, exactly when
    /// layers are present and the input's width differs from the first
    /// layer's input width; the first failing layer's error is returned
    /// unchanged, which here is always `DimensionMismatch`.
    #[verifier::rlimit(100)]
    #[verifier::spinoff_prover]
    pub fn predict(&mut self, input_array: &[u64]) -> (r: Result<Vec<u64>, Error>)
        requires
            old(self).wf(),
        ensures
            final(self).wf(),
            final(self).learning_rate == old(self).learning_rate,
            final(self).layers@.len() == old(self).layers@.len(),
            match r {
                Ok(out) => {
                    &&& old(self).layers@.len() == 0 || input_array@.len() == old(
                        self,
                    ).layers@[0].weights.cols
                    &&& final(self)@.layers == chain_layers(
                        old(self)@.layers,
                        column_view(input_array@),
                    )
                    &&& out@ == column_of(chain_out(old(self)@.layers, column_view(input_array@)))
                    &&& out@.len() == chain_out(old(self)@.layers, column_view(input_array@)).rows
                },
                Err(e) => {
                    &&& e == Error::DimensionMismatch
                    &&& old(self).layers@.len() > 0 && input_array@.len() != old(
                        self,
                    ).layers@[0].weights.cols
                    &&& final(self)@ == old(self)@
                },
            },
    {
        let out = match self.run_forward(input_array) {
            Ok(m) => m,
            Err(e) => { return Err(e) },
        };
        proof {
            crate::matrix::lemma_column_data(out);
            assert(column_of(out@) == out.data@);
        }
        let out_vec = out.to_array();
        Ok(out_vec)
    }

    /// One training step on a single sample: a full forward pass, then the
    /// error `target - prediction`, then a backward pass through every
    /// layer in strict reverse order, feeding each layer's returned error
    /// to the layer before it and updating all parameters in place.
    /// Fails with `DimensionMismatch`, changing nothing, when the input
    /// does not fit the first layer; fails with `SizeMismatch`, updating
    /// only the forward caches, when the target's width differs from the
    /// network's output width.
    #[verifier::rlimit(100)]
    #[verifier::spinoff_prover]
    pub fn train(&mut self, input_array: &[u64], target_array: &[u64]) -> (r: Result<(), Error>)
        requires
            old(self).wf(),
        ensures
            final(self).wf(),
            final(self).learning_rate == old(self).learning_rate,
            final(self).layers@.len() == old(self).layers@.len(),
            match r {
                Ok(()) => {
                    &&& old(self).layers@.len() == 0 || input_array@.len() == old(
                        self,
                    ).layers@[0].weights.cols
                    &&& target_array@.len() == chain_out(
                        old(self)@.layers,
                        column_view(input_array@),
                    ).rows
                    &&& final(self)@.layers == backward_chain(
                        chain_layers(old(self)@.layers, column_view(input_array@)),
                        sub_view(
                            column_view(target_array@),
                            chain_out(old(self)@.layers, column_view(input_array@)),
                        ),
                        old(self).learning_rate,
                    ).0
                },
                Err(e) => {
                    &&& (e == Error::DimensionMismatch || e == Error::SizeMismatch)
                    &&& (e == Error::DimensionMismatch <==> old(self).layers@.len() > 0
                        && input_array@.len() != old(self).layers@[0].weights.cols)
                    &&& (e == Error::DimensionMismatch ==> final(self)@ == old(self)@)
                    &&& (e == Error::SizeMismatch <==> (old(self).layers@.len() == 0
                        || input_array@.len() == old(self).layers@[0].weights.cols)
                        && target_array@.len() != chain_out(
                        old(self)@.layers,
                        column_view(input_array@),
                    ).rows)
                    &&& (e == Error::SizeMismatch ==> final(self)@.layers == chain_layers(
                        old(self)@.layers,
                        column_view(input_array@),
                    ))
                },
            },
    {
        let ghost x0 = column_view(input_array@);
        let ghost orig = self@.layers;
        let out = match self.run_forward(input_array) {
            Ok(m) => m,
            Err(e) => { return Err(e) },
        };
        let ghost fwd = chain_layers(orig, x0);
        proof {
            assert(self@.layers == fwd);
            lemma_chain_layers_params(orig, x0);
        }
        let target_m = Matrix::from_array(target_array);
        let mut err = match target_m.subtract(&out) {
            Ok(m) => m,
            Err(e) => {
                proof {
                    assert(e == Error::SizeMismatch);
                    assert(target_array@.len() != chain_out(orig, x0).rows);
                }
                return Err(e)
            },
        };
        let ghost e0 = sub_view(column_view(target_array@), chain_out(orig, x0));
        proof {
            assert(err@ == e0);
        }
        let lr = self.learning_rate;
        let n = self.layers.len();
        proof {
            assert(fwd.take(n as int) =~= fwd);
            assert(backward_chain(fwd, e0, lr).0 == backward_chain(fwd.take(n as int), e0, lr).0);
            assert(backward_chain(fwd, e0, lr).1 == backward_chain(fwd.take(n as int), e0, lr).1);
            assert(self@.layers.skip(n as int) =~= Seq::<LayerView>::empty());
            assert(backward_chain(fwd.take(n as int), e0, lr).0 + self@.layers.skip(n as int)
                =~= backward_chain(fwd.take(n as int), e0, lr).0);
            if n > 0 {
                assert(err.rows == out.rows);
                assert(err.rows == self.layers@[n - 1].output_size);
            }
        }
        let mut i: usize = n;
        while i > 0
            invariant
                old(self).wf(),
                self.wf(),
                n == self.layers@.len(),
                self.layers@.len() == old(self).layers@.len(),
                orig == old(self)@.layers,
                fwd == chain_layers(orig, x0),
                fwd.len() == n,
                i <= n,
                self.learning_rate == old(self).learning_rate,
                lr == old(self).learning_rate,
                err.wf(),
                err.cols == 1,
                i > 0 ==> err.rows == self.layers@[i - 1 as int].output_size,
                forall|k: int| 0 <= k < i ==> self@.layers[k] == fwd[k],
                backward_chain(fwd, e0, lr).0 == backward_chain(fwd.take(i as int), err@, lr).0
                    + self@.layers.skip(i as int),
                backward_chain(fwd, e0, lr).1 == backward_chain(fwd.take(i as int), err@, lr).1,
            decreases i,
        {
            i = i - 1;
            let ghost prev_net = self@.layers;
            let ghost prev_err = err@;
            proof {
                lemma_chain_layers_params(orig, x0);
                assert(self@.layers[i as int] == fwd[i as int]);
                assert(fwd[i as int] == chain_layers(orig, x0)[i as int]);
                assert(layer_params_eq(chain_layers(orig, x0)[i as int], orig[i as int]));
                assert(chain_layers(orig, x0)[i as int].last_input is Some);
                assert(self.layers@[i as int]@.last_input is Some);
                assert(self.layers@[i as int].last_input is Some);
            }
            let layer = &mut self.layers[i];
            let res = layer.backpropagate(&err, lr);
            let back = match res {
                Ok(b) => b,
                Err(e) => { return Err(e) },
            };
            proof {
                let step = after_backward(fwd[i as int], prev_err, lr);
                assert(self.layers@[i as int]@ == step.0);
                assert(back@ == step.1);
                assert(self@.layers =~= prev_net.update(i as int, step.0));
                lemma_backward_step(fwd, e0, lr, i as int, prev_err, prev_net, self@.layers);
                // error shape for the next round
                assert(back.rows == self.layers@[i as int].weights.cols);
                if i > 0 {
                    assert(self.layers@[i as int]@.weights.cols == fwd[i as int].weights.cols);
                    assert(self.layers@[i as int].weights.cols == old(self).layers@[
                        i as int].weights.cols);
                    assert(old(self).layers@[i as int].weights.cols == old(self).layers@[i
                        - 1].output_size);
                    assert(self@.layers[i - 1 as int] == fwd[i - 1 as int]);
                    assert(self.layers@[i - 1 as int]@.output_size == fwd[i - 1 as int].output_size);
                    assert(fwd[i - 1 as int].output_size == orig[i - 1 as int].output_size);
                    assert(self.layers@[i - 1 as int].output_size == old(self).layers@[i
                        - 1].output_size);
                }
                // the network stays well-formed
                assert forall|k: int|
                    0 <= k < self.layers@.len() implies (#[trigger] self.layers@[k]).wf() by {}
                assert forall|k: int|
                    0 < k < self.layers@.len() implies (#[trigger] self.layers@[k]).weights.cols
                    == self.layers@[k - 1].output_size by {
                    let lnew = self.layers@[i as int];
                    let lold = old(self).layers@[i as int];
                    assert(lnew@.weights.cols == lold@.weights.cols);
                    assert(lnew.weights.cols == lold.weights.cols);
                    assert(lnew@.output_size == lold@.output_size);
                    assert(lnew.output_size == lold.output_size);
                }
            }
            err = back;
        }
        proof {
            assert(fwd.take(0) =~= Seq::<LayerView>::empty());
            assert(backward_chain(fwd.take(0), err@, lr).0 == fwd.take(0));
            assert(self@.layers.skip(0) =~= self@.layers);
            assert(fwd.take(0) + self@.layers =~= self@.layers);
            assert(final(self)@.layers == backward_chain(fwd, e0, lr).0);
        }
        Ok(())
    }

    /// Predicts every sample and scores it: each output component,
    /// thresholded at 0.5, must land within 0.01 of its target component
    /// for the sample to count as correct. Returns the correct fraction.
    /// Fails with `InvalidDataset`, before touching any layer, exactly
    /// when the dataset is empty or length-mismatched; parameters are
    /// never changed, only the layers' forward caches.
    #[verifier::rlimit(100)]
    #[verifier::spinoff_prover]
    pub fn calculate_accuracy(&mut self, inputs: &[Vec<u64>], targets: &[Vec<u64>]) -> (r: Result<
        u64,
        Error,
    >)
        requires
            old(self).wf(),
        ensures
            final(self).wf(),
            final(self).learning_rate == old(self).learning_rate,
            net_params_eq(final(self)@.layers, old(self)@.layers),
            match r {
                Ok(acc) => {
                    &&& inputs@.len() > 0 && inputs@.len() == targets@.len()
                    &&& forall|q: int|
                        0 <= q < inputs@.len() ==> conforms(
                            old(self)@.layers,
                            #[trigger] inputs@[q]@,
                            targets@[q]@,
                        )
                    &&& acc == scalar::div_bits(
                        scalar::of_uint_bits(
                            correct_upto(
                                old(self)@.layers,
                                inputs@,
                                targets@,
                                inputs@.len(),
                            ) as u64,
                        ),
                        scalar::of_uint_bits(inputs@.len() as u64),
                    )
                },
                Err(e) => {
                    &&& (e == Error::InvalidDataset || e == Error::DimensionMismatch || e
                        == Error::SizeMismatch)
                    &&& (e == Error::InvalidDataset <==> (inputs@.len() == 0 || targets@.len() == 0
                        || inputs@.len() != targets@.len()))
                    &&& (e == Error::InvalidDataset ==> final(self)@ == old(self)@)
                    &&& (e != Error::InvalidDataset ==> !(forall|q: int|
                        0 <= q < inputs@.len() ==> conforms(
                            old(self)@.layers,
                            #[trigger] inputs@[q]@,
                            targets@[q]@,
                        )))
                },
            },
    {
        if inputs.len() == 0 || targets.len() == 0 || inputs.len() != targets.len() {
            return Err(Error::InvalidDataset);
        }
        let n = inputs.len();
        let mut correct: usize = 0;
        let mut s: usize = 0;
        while s < n
            invariant
                old(self).wf(),
                self.wf(),
                n == inputs@.len(),
                n == targets@.len(),
                n > 0,
                s <= n,
                correct <= s,
                self.learning_rate == old(self).learning_rate,
                net_params_eq(self@.layers, old(self)@.layers),
                correct == correct_upto(old(self)@.layers, inputs@, targets@, s as nat),
                forall|q: int|
                    0 <= q < s ==> conforms(
                        old(self)@.layers,
                        #[trigger] inputs@[q]@,
                        targets@[q]@,
                    ),
            decreases n - s,
        {
            let ghost net0 = old(self)@.layers;
            let ghost cur_net = self@.layers;
            let input = &inputs[s];
            let target = &targets[s];
            let output = match self.predict(input.as_slice()) {
                Ok(o) => o,
                Err(e) => {
                    proof {
                        assert(cur_net.len() > 0 && input@.len() != cur_net[0].weights.cols);
                        assert(layer_params_eq(cur_net[0], net0[0]));
                        assert(!conforms(net0, inputs@[s as int]@, targets@[s as int]@));
                        assert(net_params_eq(self@.layers, old(self)@.layers));
                    }
                    return Err(e)
                },
            };
            proof {
                lemma_chain_out_params(cur_net, net0, column_view(input@));
                lemma_chain_layers_params(cur_net, column_view(input@));
                assert forall|k: int| 0 <= k < net0.len() implies layer_params_eq(
                    #[trigger] self@.layers[k],
                    net0[k],
                ) by {
                    assert(self@.layers[k] == chain_layers(cur_net, column_view(input@))[k]);
                    assert(layer_params_eq(self@.layers[k], cur_net[k]));
                    assert(layer_params_eq(cur_net[k], net0[k]));
                }
                assert(output@ == column_of(chain_out(net0, column_view(input@))));
            }
            if target.len() != output.len() {
                proof {
                    lemma_chain_out_dims(net0, column_view(input@));
                    assert(output@.len() == chain_out(net0, column_view(input@)).rows);
                    assert(!conforms(net0, inputs@[s as int]@, targets@[s as int]@));
                }
                return Err(Error::SizeMismatch);
            }
            let m = output.len();
            let mut ok = true;
            let mut j: usize = 0;
            while j < m
                invariant
                    j <= m,
                    m == output@.len(),
                    m == target@.len(),
                    ok <==> (forall|q: int|
                        0 <= q < j ==> #[trigger] component_ok(output@[q], target@[q])),
                decreases m - j,
            {
                let pred = if scalar::flt(scalar::F_HALF, output[j]) {
                    scalar::F_ONE
                } else {
                    scalar::F_ZERO
                };
                let d = scalar::fabs(scalar::fsub(pred, target[j]));
                if scalar::flt(scalar::TOL_HUNDREDTH, d) {
                    ok = false;
                    proof {
                        assert(!component_ok(output@[j as int], target@[j as int]));
                    }
                }
                j = j + 1;
            }
            proof {
                assert(ok == sample_correct(net0, inputs@[s as int]@, targets@[s as int]@));
                lemma_chain_out_dims(net0, column_view(input@));
                assert(conforms(net0, inputs@[s as int]@, targets@[s as int]@));
            }
            if ok {
                correct = correct + 1;
            }
            s = s + 1;
        }
        let acc = scalar::fdiv(scalar::f_of_uint(correct as u64), scalar::f_of_uint(n as u64));
        Ok(acc)
    }

    /// One training step of the fit loop: predict the sample (for the
    /// loss report), accumulate its mean squared loss onto `loss_acc`,
    /// then train on it. Succeeds exactly when the sample's widths fit
    /// the network; layer shapes are preserved either way.
    #[verifier::rlimit(100)]
    #[verifier::spinoff_prover]
    fn train_sample(&mut self, input: &[u64], target: &[u64], loss_acc: u64) -> (r: Result<
        u64,
        Error,
    >)
        requires
            old(self).wf(),
        ensures
            final(self).wf(),
            final(self).learning_rate == old(self).learning_rate,
            net_shape_eq(final(self)@.layers, old(self)@.layers),
            match r {
                Ok(acc) => {
                    &&& conforms(old(self)@.layers, input@, target@)
                    &&& final(self)@.layers == train_step(
                        old(self)@.layers,
                        input@,
                        target@,
                        old(self).learning_rate,
                    )
                    &&& acc == scalar::add_bits(
                        loss_acc,
                        sample_loss_bits(
                            column_of(chain_out(old(self)@.layers, column_view(input@))),
                            target@,
                        ),
                    )
                },
                Err(e) => {
                    &&& (e == Error::DimensionMismatch || e == Error::SizeMismatch)
                    &&& !conforms(old(self)@.layers, input@, target@)
                },
            },
    {
        let ghost pre_net = self@.layers;
        let ghost x = column_view(input@);
        let output = match self.predict(input) {
            Ok(o) => o,
            Err(e) => {
                proof {
                    assert(!conforms(pre_net, input@, target@));
                }
                return Err(e)
            },
        };
        proof {
            lemma_chain_layers_params(pre_net, x);
            assert forall|k: int| 0 <= k < pre_net.len() implies layer_shape_eq(
                #[trigger] self@.layers[k],
                pre_net[k],
            ) by {
                assert(self@.layers[k] == chain_layers(pre_net, x)[k]);
                assert(layer_params_eq(chain_layers(pre_net, x)[k], pre_net[k]));
            }
            lemma_chain_out_dims(pre_net, x);
            assert(output@.len() == chain_out(pre_net, x).rows);
        }
        if target.len() != output.len() {
            proof {
                assert(!conforms(pre_net, input@, target@));
            }
            return Err(Error::SizeMismatch);
        }
        let m = output.len();
        let mut sample_loss: u64 = scalar::F_ZERO;
        let mut j: usize = 0;
        while j < m
            invariant
                j <= m,
                m == output@.len(),
                m == target@.len(),
                sample_loss == sq_err_fold(output@, target@, j as nat),
            decreases m - j,
        {
            let e_j = scalar::fsub(target[j], output[j]);
            sample_loss = scalar::fadd(sample_loss, scalar::fmul(e_j, e_j));
            j = j + 1;
        }
        sample_loss = scalar::fdiv(sample_loss, scalar::f_of_uint(m as u64));
        let new_acc = scalar::fadd(loss_acc, sample_loss);
        proof {
            assert(output@ == column_of(chain_out(pre_net, x)));
            assert(new_acc == scalar::add_bits(
                loss_acc,
                sample_loss_bits(column_of(chain_out(pre_net, x)), target@),
            ));
        }
        let ghost mid_net = self@.layers;
        proof {
            lemma_chain_out_params(mid_net, pre_net, x);
            assert forall|k: int| 0 <= k < mid_net.len() implies layer_params_eq(
                #[trigger] mid_net[k],
                pre_net[k],
            ) by {
                assert(mid_net[k] == chain_layers(pre_net, x)[k]);
            }
        }
        let tr = self.train(input, target);
        match tr {
            Ok(()) => {},
            Err(e) => {
                proof {
                    assert(false);
                }
                return Err(e)
            },
        }
        proof {
            let fwd2 = chain_layers(mid_net, x);
            lemma_chain_layers_params(mid_net, x);
            assert(conforms(pre_net, input@, target@));
            lemma_backward_chain_shape(
                fwd2,
                sub_view(column_view(target@), chain_out(mid_net, x)),
                old(self).learning_rate,
            );
            assert forall|k: int| 0 <= k < pre_net.len() implies layer_shape_eq(
                #[trigger] self@.layers[k],
                pre_net[k],
            ) by {
                assert(layer_shape_eq(self@.layers[k], fwd2[k]));
                assert(layer_params_eq(fwd2[k], mid_net[k]));
                assert(layer_params_eq(mid_net[k], pre_net[k]));
            }
            // the whole step, seen from the state the call began in
            lemma_chain_layers_cache_free(mid_net, pre_net, x);
            assert(chain_layers(mid_net, x) == chain_layers(pre_net, x));
            assert(chain_out(mid_net, x) == chain_out(pre_net, x));
            assert(self@.layers == train_step(
                pre_net,
                input@,
                target@,
                old(self).learning_rate,
            ));
        }
        Ok(new_acc)
    }

    /// Computes the current accuracy and emits one progress line. Only the
    /// layers' forward caches move; parameters are untouched.
    #[verifier::rlimit(60)]
    #[verifier::spinoff_prover]
    fn report_epoch(
        &mut self,
        inputs: &[Vec<u64>],
        targets: &[Vec<u64>],
        epoch: usize,
        epochs: usize,
        avg_loss: u64,
    )
        requires
            old(self).wf(),
            inputs@.len() > 0,
            inputs@.len() == targets@.len(),
            epoch < epochs,
            forall|q: int|
                0 <= q < inputs@.len() ==> conforms(
                    old(self)@.layers,
                    #[trigger] inputs@[q]@,
                    targets@[q]@,
                ),
        ensures
            final(self).wf(),
            final(self).learning_rate == old(self).learning_rate,
            net_params_eq(final(self)@.layers, old(self)@.layers),
            net_shape_eq(final(self)@.layers, old(self)@.layers),
    {
        let acc = match self.calculate_accuracy(inputs, targets) {
            Ok(a) => a,
            Err(e) => {
                proof {
                    assert(false);
                }
                unreached()
            },
        };
        proof {
            assert forall|k: int| 0 <= k < old(self)@.layers.len() implies layer_shape_eq(
                #[trigger] self@.layers[k],
                old(self)@.layers[k],
            ) by {
                assert(layer_params_eq(self@.layers[k], old(self)@.layers[k]));
            }
        }
        emit_progress(epoch + 1, epochs, avg_loss, acc);
    }

    /// The training loop. Validates the dataset eagerly (`InvalidDataset`,
    /// before any layer is touched, exactly when inputs or targets are
    /// empty or their lengths differ). Then, for each epoch: shuffle the
    /// sample order uniformly at random (skipped at or below ten samples),
    /// train on every sample in that order while accumulating the mean
    /// squared loss, and, when `verbose` and the reporting cadence says
    /// so, emit the epoch's average loss and current accuracy. A sample
    /// whose widths do not fit the network stops the loop with the error
    /// the failing step reports; layer shapes are preserved regardless.
    ///
    /// Whatever the shuffles drew, success accounts for the training done:
    /// some list of per-epoch orders exists, each a permutation of the
    /// sample indices, such that the final parameters are the fold of one
    /// training step per sample over those orders; at or below the shuffle
    /// threshold the orders are the identity, so the outcome is pinned to
    /// the deterministic epoch fold.
    #[verifier::rlimit(100)]
    #[verifier::spinoff_prover]
    pub fn fit(
        &mut self,
        inputs: &[Vec<u64>],
        targets: &[Vec<u64>],
        epochs: usize,
        verbose: bool,
    ) -> (r: Result<(), Error>)
        requires
            old(self).wf(),
        ensures
            final(self).wf(),
            final(self).learning_rate == old(self).learning_rate,
            net_shape_eq(final(self)@.layers, old(self)@.layers),
            match r {
                Ok(()) => {
                    &&& inputs@.len() > 0 && targets@.len() > 0 && inputs@.len() == targets@.len()
                    &&& epochs > 0 ==> forall|q: int|
                        0 <= q < inputs@.len() ==> conforms(
                            old(self)@.layers,
                            #[trigger] inputs@[q]@,
                            targets@[q]@,
                        )
                    &&& epochs == 0 ==> final(self)@ == old(self)@
                    &&& exists|orders: Seq<Seq<usize>>| #[trigger] trained_over(
                        old(self)@.layers,
                        final(self)@.layers,
                        inputs@,
                        targets@,
                        old(self).learning_rate,
                        orders,
                        epochs as nat,
                    )
                    &&& inputs@.len() <= 10 ==> net_params_eq(
                        final(self)@.layers,
                        run_epochs(
                            old(self)@.layers,
                            inputs@,
                            targets@,
                            old(self).learning_rate,
                            epochs as nat,
                        ),
                    )
                },
                Err(e) => {
                    &&& (e == Error::InvalidDataset || e == Error::DimensionMismatch || e
                        == Error::SizeMismatch)
                    &&& (e == Error::InvalidDataset <==> (inputs@.len() == 0 || targets@.len() == 0
                        || inputs@.len() != targets@.len()))
                    &&& (e == Error::InvalidDataset ==> final(self)@ == old(self)@)
                    &&& (e != Error::InvalidDataset ==> epochs > 0 && !(forall|q: int|
                        0 <= q < inputs@.len() ==> conforms(
                            old(self)@.layers,
                            #[trigger] inputs@[q]@,
                            targets@[q]@,
                        )))
                },
            },
    {
        if inputs.len() == 0 || targets.len() == 0 || inputs.len() != targets.len() {
            return Err(Error::InvalidDataset);
        }
        let report_frequency: usize = if epochs < 100 {
            10
        } else if epochs < 1000 {
            100
        } else {
            epochs / 10
        };
        let data_size = inputs.len();
        let mut batch_indices: Vec<usize> = Vec::new();
        let mut i: usize = 0;
        while i < data_size
            invariant
                i <= data_size,
                batch_indices@.len() == i,
                forall|k: int| 0 <= k < i ==> batch_indices@[k] == k as usize,
            decreases data_size - i,
        {
            batch_indices.push(i);
            i = i + 1;
        }
        let ghost mut orders: Seq<Seq<usize>> = Seq::empty();
        proof {
            assert(batch_indices@ =~= ident_seq(data_size as nat));
            lemma_net_params_refl(self@.layers);
            assert(trained_over(
                old(self)@.layers,
                self@.layers,
                inputs@,
                targets@,
                old(self).learning_rate,
                orders,
                0nat,
            ));
        }
        if epochs == 0 {
            return Ok(());
        }
        let mut epoch: usize = 0;
        while epoch < epochs
            invariant
                old(self).wf(),
                self.wf(),
                net_shape_eq(self@.layers, old(self)@.layers),
                self.learning_rate == old(self).learning_rate,
                data_size == inputs@.len(),
                data_size == targets@.len(),
                data_size > 0,
                report_frequency > 0,
                epoch <= epochs,
                batch_indices@.to_multiset() == ident_seq(data_size as nat).to_multiset(),
                epoch > 0 ==> forall|q: int|
                    0 <= q < inputs@.len() ==> conforms(
                        old(self)@.layers,
                        #[trigger] inputs@[q]@,
                        targets@[q]@,
                    ),
                data_size <= 10 ==> batch_indices@ == ident_seq(data_size as nat),
                orders.len() == epoch,
                data_size <= 10 ==> forall|k: int|
                    0 <= k < orders.len() ==> #[trigger] orders[k] == ident_seq(data_size as nat),
                trained_over(
                    old(self)@.layers,
                    self@.layers,
                    inputs@,
                    targets@,
                    old(self).learning_rate,
                    orders,
                    epoch as nat,
                ),
            decreases epochs - epoch,
        {
            let ghost start = self@.layers;
            let r = self.fit_epoch(
                inputs,
                targets,
                &mut batch_indices,
                epoch,
                epochs,
                report_frequency,
                verbose,
            );
            match r {
                Ok(()) => {
                    proof {
                        lemma_net_shape_trans(self@.layers, start, old(self)@.layers);
                        lemma_all_conform_shape(old(self)@.layers, start, inputs@, targets@);
                        lemma_fit_epoch_advance(
                            old(self)@.layers,
                            inputs@,
                            targets@,
                            old(self).learning_rate,
                            epoch as nat,
                            orders,
                            batch_indices@,
                            start,
                            self@.layers,
                        );
                        orders = orders.push(batch_indices@);
                    }
                },
                Err(e) => {
                    proof {
                        let bad = choose|q: int|
                            !(0 <= q < inputs@.len() ==> conforms(
                                start,
                                #[trigger] inputs@[q]@,
                                targets@[q]@,
                            ));
                        lemma_conforms_shape(
                            start,
                            old(self)@.layers,
                            inputs@[bad]@,
                            targets@[bad]@,
                        );
                        lemma_net_shape_trans(self@.layers, start, old(self)@.layers);
                    }
                    return Err(e)
                },
            }
            epoch = epoch + 1;
        }
        proof {
            assert(trained_over(
                old(self)@.layers,
                self@.layers,
                inputs@,
                targets@,
                old(self).learning_rate,
                orders,
                epochs as nat,
            ));
            if data_size <= 10 {
                lemma_epochs_over_ident(
                    old(self)@.layers,
                    inputs@,
                    targets@,
                    old(self).learning_rate,
                    orders,
                    epochs as nat,
                );
            }
        }
        Ok(())
    }

    /// One whole epoch of the fit loop: shuffle the sample order when the
    /// dataset is large enough, train on every sample in that order, and,
    /// when the cadence says so, report the epoch's average loss and
    /// current accuracy. On success the sample order used is exactly the
    /// final contents of `batch_indices`, and the parameters advance by
    /// one training step per listed sample.
    #[verifier::rlimit(100)]
    #[verifier::spinoff_prover]
    fn fit_epoch(
        &mut self,
        inputs: &[Vec<u64>],
        targets: &[Vec<u64>],
        batch_indices: &mut Vec<usize>,
        epoch: usize,
        epochs: usize,
        report_frequency: usize,
        verbose: bool,
    ) -> (r: Result<(), Error>)
        requires
            old(self).wf(),
            inputs@.len() == targets@.len(),
            inputs@.len() > 0,
            old(batch_indices)@.to_multiset() == ident_seq(inputs@.len() as nat).to_multiset(),
            inputs@.len() <= 10 ==> old(batch_indices)@ == ident_seq(inputs@.len() as nat),
            epoch < epochs,
            report_frequency > 0,
        ensures
            final(self).wf(),
            final(self).learning_rate == old(self).learning_rate,
            net_shape_eq(final(self)@.layers, old(self)@.layers),
            final(batch_indices)@.to_multiset() == old(batch_indices)@.to_multiset(),
            inputs@.len() <= 10 ==> final(batch_indices)@ == old(batch_indices)@,
            match r {
                Ok(()) => {
                    &&& is_sample_order(final(batch_indices)@, inputs@.len() as nat)
                    &&& forall|q: int|
                        0 <= q < inputs@.len() ==> conforms(
                            old(self)@.layers,
                            #[trigger] inputs@[q]@,
                            targets@[q]@,
                        )
                    &&& net_params_eq(
                        final(self)@.layers,
                        run_order(
                            old(self)@.layers,
                            inputs@,
                            targets@,
                            final(batch_indices)@,
                            old(self).learning_rate,
                            inputs@.len(),
                        ),
                    )
                },
                Err(e) => {
                    &&& (e == Error::DimensionMismatch || e == Error::SizeMismatch)
                    &&& !(forall|q: int|
                        0 <= q < inputs@.len() ==> conforms(
                            old(self)@.layers,
                            #[trigger] inputs@[q]@,
                            targets@[q]@,
                        ))
                },
            },
    {
        let data_size = inputs.len();
        if data_size > 10 {
            random::shuffle(batch_indices);
        }
        proof {
            lemma_order_covers(batch_indices@, data_size as nat);
        }
        let total_loss = match self.run_epoch(inputs, targets, batch_indices) {
            Ok(t) => t,
            Err(e) => { return Err(e) },
        };
        proof {
            lemma_all_conform(old(self)@.layers, inputs@, targets@, batch_indices@);
            lemma_net_params_refl(self@.layers);
        }
        let avg_loss = scalar::fdiv(total_loss, scalar::f_of_uint(data_size as u64));
        if verbose && (epoch % report_frequency == 0 || epoch == epochs - 1) {
            let ghost before_report = self@.layers;
            proof {
                lemma_all_conform_shape(before_report, old(self)@.layers, inputs@, targets@);
            }
            self.report_epoch(inputs, targets, epoch, epochs, avg_loss);
            proof {
                lemma_net_shape_trans(self@.layers, before_report, old(self)@.layers);
                lemma_net_params_trans(
                    self@.layers,
                    before_report,
                    run_order(
                        old(self)@.layers,
                        inputs@,
                        targets@,
                        batch_indices@,
                        old(self).learning_rate,
                        inputs@.len(),
                    ),
                );
            }
        }
        Ok(())
    }

    /// One epoch's pass over every sample in the given order,    /// One epoch's pass over every sample in the given order,    /// One epoch's pass over every sample in the given order, training on
    /// each and accumulating the mean squared loss. Succeeds exactly when
    /// every listed sample fits the network, in which case the layers are
    /// exactly the fold of one training step per listed sample.
    #[verifier::rlimit(100)]
    #[verifier::spinoff_prover]
    fn run_epoch(&mut self, inputs: &[Vec<u64>], targets: &[Vec<u64>], order: &Vec<usize>) -> (r:
        Result<u64, Error>)
        requires
            old(self).wf(),
            inputs@.len() == targets@.len(),
            inputs@.len() > 0,
            order@.len() == inputs@.len(),
            forall|k: int| 0 <= k < order@.len() ==> (#[trigger] order@[k]) < inputs@.len(),
        ensures
            final(self).wf(),
            final(self).learning_rate == old(self).learning_rate,
            net_shape_eq(final(self)@.layers, old(self)@.layers),
            match r {
                Ok(total) => {
                    &&& forall|q: int|
                        0 <= q < order@.len() ==> conforms(
                            old(self)@.layers,
                            #[trigger] inputs@[order@[q] as int]@,
                            targets@[order@[q] as int]@,
                        )
                    &&& final(self)@.layers == run_order(
                        old(self)@.layers,
                        inputs@,
                        targets@,
                        order@,
                        old(self).learning_rate,
                        order@.len(),
                    )
                    &&& total == loss_fold(
                        old(self)@.layers,
                        inputs@,
                        targets@,
                        order@,
                        old(self).learning_rate,
                        order@.len(),
                    )
                },
                Err(e) => {
                    &&& (e == Error::DimensionMismatch || e == Error::SizeMismatch)
                    &&& !(forall|q: int|
                        0 <= q < inputs@.len() ==> conforms(
                            old(self)@.layers,
                            #[trigger] inputs@[q]@,
                            targets@[q]@,
                        ))
                },
            },
    {
        let data_size = inputs.len();
        let mut total_loss: u64 = scalar::F_ZERO;
        let mut idx: usize = 0;
        while idx < data_size
            invariant
                old(self).wf(),
                self.wf(),
                net_shape_eq(self@.layers, old(self)@.layers),
                self.learning_rate == old(self).learning_rate,
                data_size == inputs@.len(),
                data_size == targets@.len(),
                data_size > 0,
                idx <= data_size,
                order@.len() == data_size,
                forall|k: int| 0 <= k < data_size ==> (#[trigger] order@[k]) < data_size,
                forall|q: int|
                    0 <= q < idx ==> conforms(
                        old(self)@.layers,
                        #[trigger] inputs@[order@[q] as int]@,
                        targets@[order@[q] as int]@,
                    ),
                self@.layers == run_order(
                    old(self)@.layers,
                    inputs@,
                    targets@,
                    order@,
                    old(self).learning_rate,
                    idx as nat,
                ),
                total_loss == loss_fold(
                    old(self)@.layers,
                    inputs@,
                    targets@,
                    order@,
                    old(self).learning_rate,
                    idx as nat,
                ),
            decreases data_size - idx,
        {
            let s = order[idx];
            let ghost pre_net = self@.layers;
            let res = self.train_sample(inputs[s].as_slice(), targets[s].as_slice(), total_loss);
            match res {
                Ok(acc_loss) => {
                    total_loss = acc_loss;
                    proof {
                        lemma_conforms_shape(
                            pre_net,
                            old(self)@.layers,
                            inputs@[s as int]@,
                            targets@[s as int]@,
                        );
                        lemma_net_shape_trans(self@.layers, pre_net, old(self)@.layers);
                        assert(self@.layers == run_order(
                            old(self)@.layers,
                            inputs@,
                            targets@,
                            order@,
                            old(self).learning_rate,
                            (idx + 1) as nat,
                        ));
                        assert(total_loss == loss_fold(
                            old(self)@.layers,
                            inputs@,
                            targets@,
                            order@,
                            old(self).learning_rate,
                            (idx + 1) as nat,
                        ));
                    }
                },
                Err(e) => {
                    proof {
                        lemma_conforms_shape(
                            pre_net,
                            old(self)@.layers,
                            inputs@[s as int]@,
                            targets@[s as int]@,
                        );
                        lemma_net_shape_trans(self@.layers, pre_net, old(self)@.layers);
                        assert(!conforms(
                            old(self)@.layers,
                            inputs@[s as int]@,
                            targets@[s as int]@,
                        ));
                        assert(0 <= s < inputs@.len());
                        assert(!(forall|q: int|
                            0 <= q < inputs@.len() ==> conforms(
                                old(self)@.layers,
                                #[trigger] inputs@[q]@,
                                targets@[q]@,
                            )));
                    }
                    return Err(e)
                },
            }
            idx = idx + 1;
        }
        Ok(total_loss)
    }
}

} // verus!
