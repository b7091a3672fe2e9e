//! Backprop trainer: one online gradient-descent step (`fit`) with an
//! exact pointwise contract, and the iteration-count driving loop
//! (`train`) that samples examples uniformly with replacement.
use vstd::prelude::*;
use crate::fixed::{sat, tdiv, fix_add, fix_sub, fix_mul, MICRO};
use crate::network::{
    Layer, Network, SocError, act_apply, act_slope, act_slope_eval, layer_wf, layer_out,
    neuron_pre, neuron_pre_eval, in_width_of, copy_vec, act_eval,
};
use crate::rng::rand_below;
use crate::telemetry::FeatureVec;

verus! {

/// Activations entering layer `i` (the input vector when `i == 0`).
pub open spec fn act_at(net: Network, x: Seq<i64>, i: int) -> Seq<i64>
    decreases i,
{
    if i <= 0 {
        x
    } else {
        layer_out(net.layers@[i - 1], act_at(net, x, i - 1), net.act)
    }
}

/// Pre-activations of layer `i`.
pub open spec fn pre_seq(net: Network, x: Seq<i64>, i: int) -> Seq<i64> {
    Seq::new(
        net.layers@[i].weights@.len(),
        |o: int| neuron_pre(net.layers@[i], act_at(net, x, i), o) as i64,
    )
}

/// The activations entering each layer have that layer's input width.
pub proof fn lemma_act_at_len(net: Network, x: Seq<i64>, i: int)
    requires
        net.wf(),
        x.len() == net.in_width,
        0 <= i <= net.layers@.len(),
    ensures
        act_at(net, x, i).len() == in_width_of(net, i),
    decreases i,
{
    if i > 0 {
        lemma_act_at_len(net, x, i - 1);
    }
}

/// Saturating dot product of delta with column `j` of the next layer's
/// weights, accumulated neuron by neuron as the trainer computes it.
pub open spec fn back_dot(l: Layer, d: Seq<i64>, j: int, n: int) -> int
    decreases n,
{
    if n <= 0 {
        0
    } else {
        sat(
            back_dot(l, d, j, n - 1) + sat(
                tdiv(l.weights@[n - 1]@[j] as int * d[n - 1] as int, MICRO as int),
            ),
        )
    }
}

/// The delta (error signal) of layer `i`, propagated from the output
/// layer backward: at the output, the saturated error times the
/// activation slope; at a hidden layer, the back-propagated dot
/// product times the activation slope.
pub open spec fn delta_seq(net: Network, x: Seq<i64>, e: Seq<i64>, i: int) -> Seq<i64>
    decreases net.layers@.len() - i,
{
    let width = net.layers@[i].weights@.len();
    if i >= net.layers@.len() - 1 {
        Seq::new(
            width,
            |o: int|
                sat(
                    tdiv(
                        sat(e[o] - act_at(net, x, net.layers@.len() as int)[o]) * act_slope(
                            net.act,
                            pre_seq(net, x, i)[o] as int,
                        ),
                        MICRO as int,
                    ),
                ) as i64,
        )
    } else {
        Seq::new(
            width,
            |o: int|
                sat(
                    tdiv(
                        back_dot(
                            net.layers@[i + 1],
                            delta_seq(net, x, e, i + 1),
                            o,
                            net.layers@[i + 1].weights@.len() as int,
                        ) * act_slope(net.act, pre_seq(net, x, i)[o] as int),
                        MICRO as int,
                    ),
                ) as i64,
        )
    }
}

/// The weight `(l, o, j)` after one gradient step with learning rate
/// `lr`: the old weight plus `lr` times delta times the incoming
/// activation, every product rescaled and saturated.
pub open spec fn new_weight(net: Network, x: Seq<i64>, e: Seq<i64>, lr: i64, l: int, o: int, j: int) -> int {
    sat(
        net.layers@[l].weights@[o]@[j] + sat(
            tdiv(
                lr as int * sat(
                    tdiv(delta_seq(net, x, e, l)[o] as int * act_at(net, x, l)[j] as int, MICRO as int),
                ),
                MICRO as int,
            ),
        ),
    )
}

/// The bias `(l, o)` after one gradient step: the old bias plus `lr`
/// times delta, rescaled and saturated.
pub open spec fn new_bias(net: Network, x: Seq<i64>, e: Seq<i64>, lr: i64, l: int, o: int) -> int {
    sat(
        net.layers@[l].biases@[o] + sat(
            tdiv(lr as int * delta_seq(net, x, e, l)[o] as int, MICRO as int),
        ),
    )
}

/// Two networks have the same topology: same input width, activation
/// family, layer count and layer widths.
pub open spec fn same_topology(a: Network, b: Network) -> bool {
    &&& a.in_width == b.in_width
    &&& a.act == b.act
    &&& a.layers@.len() == b.layers@.len()
    &&& forall|l: int|
        0 <= l < a.layers@.len() ==> (#[trigger] a.layers@[l]).weights@.len()
            == b.layers@[l].weights@.len()
    &&& forall|l: int, o: int|
        0 <= l < a.layers@.len() && 0 <= o < a.layers@[l].weights@.len()
            ==> (#[trigger] a.layers@[l].weights@[o])@.len() == b.layers@[l].weights@[o]@.len()
}

/// Back-propagated saturating dot product for neuron `j`.
fn back_dot_eval(l: &Layer, d: &Vec<i64>, j: usize) -> (r: i64)
    requires
        d@.len() == l.weights@.len(),
        forall|o: int| 0 <= o < l.weights@.len() ==> j < (#[trigger] l.weights@[o])@.len(),
    ensures
        r == back_dot(*l, d@, j as int, l.weights@.len() as int),
{
    let mut acc: i64 = 0;
    let mut o: usize = 0;
    while o < l.weights.len()
        invariant
            o <= l.weights@.len(),
            d@.len() == l.weights@.len(),
            forall|oo: int| 0 <= oo < l.weights@.len() ==> j < (#[trigger] l.weights@[oo])@.len(),
            acc == back_dot(*l, d@, j as int, o as int),
        decreases l.weights@.len() - o,
    {
        acc = fix_add(acc, fix_mul(l.weights[o][j], d[o]));
        o += 1;
    }
    acc
}

/// One online stochastic-gradient-descent step on a single labeled
/// example: forward pass caching pre-activations and activations,
/// backward delta propagation, then in-place weight and bias update.
/// Every new parameter is pinned exactly by `new_weight` / `new_bias`.
pub fn fit(net: &mut Network, input: &Vec<i64>, expected: &Vec<i64>, lr: i64) -> (r: Result<
    (),
    SocError,
>)
    requires
        old(net).wf(),
    ensures
        final(net).wf(),
        same_topology(*old(net), *final(net)),
        match r {
            Ok(()) => {
                &&& input@.len() == old(net).in_width
                &&& expected@.len() == old(net).spec_out_width()
                &&& forall|l: int, o: int, j: int|
                    0 <= l < final(net).layers@.len() && 0 <= o < final(net).layers@[l].weights@.len() && 0 <= j
                        < final(net).layers@[l].weights@[o]@.len()
                        ==> (#[trigger] final(net).layers@[l].weights@[o]@[j]) == new_weight(
                        *old(net),
                        input@,
                        expected@,
                        lr,
                        l,
                        o,
                        j,
                    )
                &&& forall|l: int, o: int|
                    0 <= l < final(net).layers@.len() && 0 <= o < final(net).layers@[l].biases@.len()
                        ==> (#[trigger] final(net).layers@[l].biases@[o]) == new_bias(
                        *old(net),
                        input@,
                        expected@,
                        lr,
                        l,
                        o,
                    )
            },
            Err(e) => {
                &&& e == SocError::DimensionMismatch
                &&& (input@.len() != old(net).in_width || expected@.len() != old(
                    net,
                ).spec_out_width())
                &&& *final(net) == *old(net)
            },
        },
{
    let ghost onet = *net;
    if input.len() != net.in_width {
        return Err(SocError::DimensionMismatch);
    }
    if expected.len() != net.out_width() {
        return Err(SocError::DimensionMismatch);
    }
    let l_count = net.layers.len();

    // Forward pass, caching every layer's input activations and
    // pre-activations.
    let mut acts: Vec<Vec<i64>> = Vec::new();
    acts.push(copy_vec(input));
    let mut pres: Vec<Vec<i64>> = Vec::new();
    let mut i: usize = 0;
    while i < l_count
        invariant
            net.wf(),
            *net == onet,
            l_count == net.layers@.len(),
            input@.len() == net.in_width,
            i <= l_count,
            acts@.len() == i + 1,
            pres@.len() == i,
            forall|k: int| 0 <= k <= i ==> (#[trigger] acts@[k])@ == act_at(onet, input@, k),
            forall|k: int| 0 <= k < i ==> (#[trigger] pres@[k])@ == pre_seq(onet, input@, k),
        decreases l_count - i,
    {
        proof {
            lemma_act_at_len(onet, input@, i as int);
        }
        let layer = &net.layers[i];
        let x = &acts[i];
        let mut pre: Vec<i64> = Vec::new();
        let mut out: Vec<i64> = Vec::new();
        let mut o: usize = 0;
        while o < layer.weights.len()
            invariant
                layer_wf(*layer, x@.len() as int),
                o <= layer.weights@.len(),
                pre@.len() == o,
                out@.len() == o,
                forall|oo: int|
                    0 <= oo < o ==> (#[trigger] pre@[oo]) == neuron_pre(*layer, x@, oo) as i64,
                forall|oo: int|
                    0 <= oo < o ==> (#[trigger] out@[oo]) == act_apply(
                        net.act,
                        neuron_pre(*layer, x@, oo),
                    ) as i64,
            decreases layer.weights@.len() - o,
        {
            let p = neuron_pre_eval(layer, x, o);
            pre.push(p);
            out.push(act_eval(net.act, p));
            o += 1;
        }
        proof {
            assert(pre@ =~= pre_seq(onet, input@, i as int));
            assert(out@ =~= layer_out(onet.layers@[i as int], act_at(onet, input@, i as int), onet.act));
            assert(out@ =~= act_at(onet, input@, i + 1));
        }
        pres.push(pre);
        acts.push(out);
        i += 1;
    }

    // Backward pass: deltas from the output layer down.
    let mut deltas: Vec<Vec<i64>> = Vec::new();
    let mut k: usize = 0;
    while k < l_count
        invariant
            k <= l_count,
            deltas@.len() == k,
        decreases l_count - k,
    {
        deltas.push(Vec::new());
        k += 1;
    }
    let mut li: usize = l_count;
    while li > 0
        invariant
            net.wf(),
            *net == onet,
            l_count == net.layers@.len(),
            input@.len() == net.in_width,
            expected@.len() == net.spec_out_width(),
            li <= l_count,
            acts@.len() == l_count + 1,
            pres@.len() == l_count,
            deltas@.len() == l_count,
            forall|k: int| 0 <= k <= l_count ==> (#[trigger] acts@[k])@ == act_at(onet, input@, k),
            forall|k: int| 0 <= k < l_count ==> (#[trigger] pres@[k])@ == pre_seq(onet, input@, k),
            forall|k: int|
                li <= k < l_count ==> (#[trigger] deltas@[k])@ == delta_seq(
                    onet,
                    input@,
                    expected@,
                    k,
                ),
        decreases li,
    {
        li -= 1;
        let layer = &net.layers[li];
        let width = layer.weights.len();
        let mut d: Vec<i64> = Vec::new();
        let mut o: usize = 0;
        if li == l_count - 1 {
            let out = &acts[l_count];
            proof {
                lemma_act_at_len(onet, input@, l_count as int);
            }
            while o < width
                invariant
                    net.wf(),
                    *net == onet,
                    l_count == net.layers@.len(),
                    li == l_count - 1,
                    width == layer.weights@.len(),
                    layer == net.layers@[li as int],
                    o <= width,
                    d@.len() == o,
                    expected@.len() == width,
                    out@ == act_at(onet, input@, l_count as int),
                    out@.len() == width,
                    pres@.len() == l_count,
                    pres@[li as int]@ == pre_seq(onet, input@, li as int),
                    forall|oo: int|
                        0 <= oo < o ==> (#[trigger] d@[oo]) == delta_seq(
                            onet,
                            input@,
                            expected@,
                            li as int,
                        )[oo],
                decreases width - o,
            {
                let err = fix_sub(expected[o], out[o]);
                let pv = pres[li][o];
                proof {
                    assert(pv == pre_seq(onet, input@, li as int)[o as int]);
                    assert(pv == neuron_pre(onet.layers@[li as int], act_at(onet, input@, li as int), o as int) as i64);
                }
                let slope = act_slope_eval(net.act, pv);
                d.push(fix_mul(err, slope));
                o += 1;
            }
        } else {
            while o < width
                invariant
                    net.wf(),
                    *net == onet,
                    l_count == net.layers@.len(),
                    li < l_count - 1,
                    width == layer.weights@.len(),
                    layer == net.layers@[li as int],
                    o <= width,
                    d@.len() == o,
                    deltas@.len() == l_count,
                    deltas@[li + 1]@ == delta_seq(onet, input@, expected@, li + 1),
                    pres@.len() == l_count,
                    pres@[li as int]@ == pre_seq(onet, input@, li as int),
                    forall|oo: int|
                        0 <= oo < o ==> (#[trigger] d@[oo]) == delta_seq(
                            onet,
                            input@,
                            expected@,
                            li as int,
                        )[oo],
                decreases width - o,
            {
                proof {
                    assert(layer_wf(net.layers@[li + 1], in_width_of(onet, li + 1)));
                    assert(in_width_of(onet, li + 1) == width);
                    assert(delta_seq(onet, input@, expected@, li + 1).len() == net.layers@[li
                        + 1].weights@.len());
                }
                let next = &net.layers[li + 1];
                let dn = &deltas[li + 1];
                let bd = back_dot_eval(next, dn, o);
                let pv = pres[li][o];
                proof {
                    assert(pv == pre_seq(onet, input@, li as int)[o as int]);
                    assert(pv == neuron_pre(onet.layers@[li as int], act_at(onet, input@, li as int), o as int) as i64);
                }
                let slope = act_slope_eval(net.act, pv);
                d.push(fix_mul(bd, slope));
                o += 1;
            }
        }
        proof {
            assert(d@ =~= delta_seq(onet, input@, expected@, li as int));
        }
        deltas.set(li, d);
    }

    // Update: every weight and bias moves by `lr` times its gradient.
    let mut new_layers: Vec<Layer> = Vec::new();
    let mut l: usize = 0;
    while l < l_count
        invariant
            net.wf(),
            *net == onet,
            l_count == net.layers@.len(),
            input@.len() == net.in_width,
            expected@.len() == net.spec_out_width(),
            l <= l_count,
            acts@.len() == l_count + 1,
            deltas@.len() == l_count,
            forall|k: int| 0 <= k <= l_count ==> (#[trigger] acts@[k])@ == act_at(onet, input@, k),
            forall|k: int|
                0 <= k < l_count ==> (#[trigger] deltas@[k])@ == delta_seq(
                    onet,
                    input@,
                    expected@,
                    k,
                ),
            new_layers@.len() == l,
            forall|k: int|
                0 <= k < l ==> (#[trigger] new_layers@[k]).weights@.len()
                    == net.layers@[k].weights@.len(),
            forall|k: int|
                0 <= k < l ==> (#[trigger] new_layers@[k]).biases@.len()
                    == net.layers@[k].biases@.len(),
            forall|k: int, o: int|
                0 <= k < l && 0 <= o < new_layers@[k].weights@.len()
                    ==> (#[trigger] new_layers@[k].weights@[o])@.len()
                    == net.layers@[k].weights@[o]@.len(),
            forall|k: int, o: int, j: int|
                0 <= k < l && 0 <= o < new_layers@[k].weights@.len() && 0 <= j < new_layers@[
                    k
                ].weights@[o]@.len() ==> (#[trigger] new_layers@[k].weights@[o]@[j]) == new_weight(
                    onet,
                    input@,
                    expected@,
                    lr,
                    k,
                    o,
                    j,
                )
            ,
            forall|k: int, o: int|
                0 <= k < l && 0 <= o < new_layers@[k].biases@.len()
                    ==> (#[trigger] new_layers@[k].biases@[o]) == new_bias(
                    onet,
                    input@,
                    expected@,
                    lr,
                    k,
                    o,
                ),
        decreases l_count - l,
    {
        proof {
            lemma_act_at_len(onet, input@, l as int);
        }
        let layer = &net.layers[l];
        let a_prev = &acts[l];
        let dl = &deltas[l];
        let width = layer.weights.len();
        let mut weights: Vec<Vec<i64>> = Vec::new();
        let mut biases: Vec<i64> = Vec::new();
        let mut o: usize = 0;
        while o < width
            invariant
                net.wf(),
                *net == onet,
                l_count == net.layers@.len(),
                l < l_count,
                layer == net.layers@[l as int],
                width == layer.weights@.len(),
                a_prev@ == act_at(onet, input@, l as int),
                a_prev@.len() == in_width_of(onet, l as int),
                dl@ == delta_seq(onet, input@, expected@, l as int),
                dl@.len() == width,
                o <= width,
                weights@.len() == o,
                biases@.len() == o,
                forall|oo: int|
                    0 <= oo < o ==> (#[trigger] weights@[oo])@.len()
                        == layer.weights@[oo]@.len(),
                forall|oo: int, j: int|
                    0 <= oo < o && 0 <= j < weights@[oo]@.len()
                        ==> (#[trigger] weights@[oo]@[j]) == new_weight(
                        onet,
                        input@,
                        expected@,
                        lr,
                        l as int,
                        oo,
                        j,
                    ),
                forall|oo: int|
                    0 <= oo < o ==> (#[trigger] biases@[oo]) == new_bias(
                        onet,
                        input@,
                        expected@,
                        lr,
                        l as int,
                        oo,
                    ),
            decreases width - o,
        {
            let row_old = &layer.weights[o];
            let d_o = dl[o];
            let mut row: Vec<i64> = Vec::new();
            let mut j: usize = 0;
            while j < row_old.len()
                invariant
                    l < l_count,
                    l_count == net.layers@.len(),
                    o < width,
                    row_old == net.layers@[l as int].weights@[o as int],
                    row_old@.len() == a_prev@.len(),
                    a_prev@ == act_at(onet, input@, l as int),
                    dl@ == delta_seq(onet, input@, expected@, l as int),
                    d_o == dl@[o as int],
                    *net == onet,
                    j <= row_old@.len(),
                    row@.len() == j,
                    forall|jj: int|
                        0 <= jj < j ==> (#[trigger] row@[jj]) == new_weight(
                            onet,
                            input@,
                            expected@,
                            lr,
                            l as int,
                            o as int,
                            jj,
                        ),
                decreases row_old@.len() - j,
            {
                let grad = fix_mul(d_o, a_prev[j]);
                let step = fix_mul(lr, grad);
                row.push(fix_add(row_old[j], step));
                j += 1;
            }
            weights.push(row);
            biases.push(fix_add(layer.biases[o], fix_mul(lr, d_o)));
            o += 1;
        }
        new_layers.push(Layer { weights, biases });
        l += 1;
    }
    net.layers = new_layers;
    proof {
        assert forall|li2: int| 0 <= li2 < net.layers@.len() implies layer_wf(
            #[trigger] net.layers@[li2],
            in_width_of(*net, li2),
        ) by {
            assert(layer_wf(onet.layers@[li2], in_width_of(onet, li2)));
            assert(net.layers@[li2].weights@.len() == onet.layers@[li2].weights@.len());
        }
    }
    Ok(())
}

/// The input vector of one feature vector, as the trainer feeds it to
/// the network.
pub open spec fn example_input(f: FeatureVec) -> Seq<i64> {
    seq![f.prev_battery, f.curr_battery, f.curr_ldo]
}

/// One admissible training step: `post` is exactly `pre` after one
/// gradient update on the example `f`, every parameter pinned by
/// `new_weight` / `new_bias`.
pub open spec fn fit_step(pre: Network, f: FeatureVec, lr: i64, post: Network) -> bool {
    &&& post.wf()
    &&& same_topology(pre, post)
    &&& forall|l: int, o: int, j: int|
        0 <= l < post.layers@.len() && 0 <= o < post.layers@[l].weights@.len() && 0 <= j
            < post.layers@[l].weights@[o]@.len()
            ==> (#[trigger] post.layers@[l].weights@[o]@[j]) == new_weight(
            pre,
            example_input(f),
            seq![f.label],
            lr,
            l,
            o,
            j,
        )
    &&& forall|l: int, o: int|
        0 <= l < post.layers@.len() && 0 <= o < post.layers@[l].biases@.len()
            ==> (#[trigger] post.layers@[l].biases@[o]) == new_bias(
            pre,
            example_input(f),
            seq![f.label],
            lr,
            l,
            o,
        )
}

/// `post` is reachable from `pre` by exactly `k` gradient steps, each
/// on some example of `data`.
pub open spec fn reachable_by_training(
    pre: Network,
    data: Seq<FeatureVec>,
    lr: i64,
    k: nat,
    post: Network,
) -> bool
    decreases k,
{
    if k == 0 {
        post == pre
    } else {
        exists|mid: Network, i: int|
            0 <= i < data.len() && reachable_by_training(pre, data, lr, (k - 1) as nat, mid)
                && #[trigger] fit_step(mid, data[i], lr, post)
    }
}

/// Drive training for a fixed iteration budget: each step draws one
/// example uniformly at random (with replacement) from the training
/// partition and applies `fit` once.  No convergence check: the
/// iteration count alone ends the loop.  Which examples are drawn is
/// up to the generator, so the contract promises exactly this: the
/// final network is reachable from the initial one by `iters`
/// gradient steps on examples of `data`.
pub fn train(
    net: &mut Network,
    data: &Vec<FeatureVec>,
    lr: i64,
    iters: usize,
    rng: &mut rand::rngs::StdRng,
) -> (r: Result<(), SocError>)
    requires
        old(net).wf(),
    ensures
        match r {
            Ok(()) => {
                &&& data@.len() >= 1
                &&& old(net).in_width == 3
                &&& old(net).spec_out_width() == 1
                &&& final(net).wf()
                &&& same_topology(*old(net), *final(net))
                &&& reachable_by_training(*old(net), data@, lr, iters as nat, *final(net))
            },
            Err(e) => {
                &&& *final(net) == *old(net)
                &&& (e == SocError::InsufficientData ==> data@.len() == 0)
                &&& (e == SocError::DimensionMismatch ==> (old(net).in_width != 3 || old(
                    net,
                ).spec_out_width() != 1))
                &&& (e == SocError::InsufficientData || e == SocError::DimensionMismatch)
            },
        },
{
    let ghost onet = *net;
    if data.len() == 0 {
        return Err(SocError::InsufficientData);
    }
    if net.input_width() != 3 {
        return Err(SocError::DimensionMismatch);
    }
    if net.out_width() != 1 {
        return Err(SocError::DimensionMismatch);
    }
    let mut it: usize = 0;
    while it < iters
        invariant
            net.wf(),
            same_topology(onet, *net),
            onet.in_width == 3,
            onet.spec_out_width() == 1,
            data@.len() >= 1,
            it <= iters,
            reachable_by_training(onet, data@, lr, it as nat, *net),
        decreases iters - it,
    {
        let idx = rand_below(rng, data.len() as u64) as usize;
        let f = data[idx];
        let input = vec![f.prev_battery, f.curr_battery, f.curr_ldo];
        let target = vec![f.label];
        proof {
            assert(net.spec_out_width() == onet.spec_out_width());
        }
        let ghost prev = *net;
        match fit(net, &input, &target, lr) {
            Ok(()) => {},
            Err(e) => {
                proof {
                    assert(false);
                }
                return Err(e);
            },
        }
        proof {
            assert(input@ =~= example_input(f));
            assert(target@ =~= seq![f.label]);
            assert(fit_step(prev, f, lr, *net));
            assert(f == data@[idx as int]);
            assert(reachable_by_training(onet, data@, lr, (it + 1) as nat, *net));
        }
        it += 1;
    }
    Ok(())
}

} // verus!
