//! Feed-forward network: topology, well-formedness, creation with a
//! uniform initializer, and the forward evaluator `calc`.
use vstd::prelude::*;
use crate::fixed::{sat, tdiv, fix_add, fix_mul, MICRO, CAP};
use crate::rng::rand_below;
use crate::snapshot::{
    rows_flat, layers_params, count_params, lemma_rows_flat_prefix, lemma_layers_params_prefix,
    lemma_count_params_mono,
};

verus! {

/// Failure taxonomy of the numeric core.
#[derive(Clone, Copy, PartialEq, Eq, Structural, Debug)]
pub enum SocError {
    /// Fewer than two telemetry samples were supplied.
    InsufficientData,
    /// The layer-size list is degenerate (under two entries, or a zero width).
    InvalidTopology,
    /// A vector length disagrees with the declared network width.
    DimensionMismatch,
    /// The serialized model would exceed the snapshot buffer bound.
    CapacityExceeded,
    /// A snapshot's byte layout is inconsistent with a valid topology.
    CorruptSnapshot,
}

/// Activation family shared by all layers of one network.  Both are
/// exact piecewise-linear fixed-point activations: the hard logistic
/// sigmoid `clamp(x/4 + 1/2, 0, 1)` and the hard hyperbolic tangent
/// `clamp(x, -1, 1)`.
#[derive(Clone, Copy, PartialEq, Eq, Structural, Debug)]
pub enum Act {
    Sigmoid,
    Tanh,
}

/// Activation value at pre-activation `x` (micro-units).
pub open spec fn act_apply(a: Act, x: int) -> int {
    match a {
        Act::Sigmoid => {
            let y = tdiv(x, 4) + (MICRO as int) / 2;
            if y < 0 {
                0
            } else if y > MICRO {
                MICRO as int
            } else {
                y
            }
        },
        Act::Tanh => {
            if x < -(MICRO as int) {
                -(MICRO as int)
            } else if x > MICRO {
                MICRO as int
            } else {
                x
            }
        },
    }
}

/// Activation slope at pre-activation `x` (micro-units): the derivative
/// of the piecewise-linear activation on its interior pieces, zero on
/// the saturated pieces.
pub open spec fn act_slope(a: Act, x: int) -> int {
    match a {
        Act::Sigmoid => {
            if -2 * (MICRO as int) < x && x < 2 * (MICRO as int) {
                (MICRO as int) / 4
            } else {
                0
            }
        },
        Act::Tanh => {
            if -(MICRO as int) < x && x < MICRO {
                MICRO as int
            } else {
                0
            }
        },
    }
}

/// Truncating division of a bounded value by 4.
fn quarter(x: i64) -> (r: i64)
    requires
        -CAP <= x <= CAP,
    ensures
        r == tdiv(x as int, 4),
{
    if x >= 0 {
        ((x as u64) / 4) as i64
    } else {
        -((((-x) as u64) / 4) as i64)
    }
}

/// Evaluate the activation.
pub fn act_eval(a: Act, x: i64) -> (r: i64)
    requires
        -CAP <= x <= CAP,
    ensures
        r == act_apply(a, x as int),
{
    match a {
        Act::Sigmoid => {
            let y: i64 = quarter(x) + 500_000;
            if y < 0 {
                0
            } else if y > MICRO {
                MICRO
            } else {
                y
            }
        },
        Act::Tanh => {
            if x < -MICRO {
                -MICRO
            } else if x > MICRO {
                MICRO
            } else {
                x
            }
        },
    }
}

/// Evaluate the activation slope.
pub fn act_slope_eval(a: Act, x: i64) -> (r: i64)
    requires
        -CAP <= x <= CAP,
    ensures
        r == act_slope(a, x as int),
{
    match a {
        Act::Sigmoid => {
            if -2 * MICRO < x && x < 2 * MICRO {
                250_000
            } else {
                0
            }
        },
        Act::Tanh => {
            if -MICRO < x && x < MICRO {
                MICRO
            } else {
                0
            }
        },
    }
}

/// One layer: `weights[o]` is the incoming weight row of output neuron
/// `o`, and `biases[o]` its bias, all in micro-units.
#[derive(Clone, Debug)]
pub struct Layer {
    pub weights: Vec<Vec<i64>>,
    pub biases: Vec<i64>,
}

/// A layer is well formed for input width `in_w` when it has at least
/// one neuron, one bias per neuron, and one weight per input.
pub open spec fn layer_wf(l: Layer, in_w: int) -> bool {
    &&& l.weights@.len() >= 1
    &&& l.biases@.len() == l.weights@.len()
    &&& in_w >= 1
    &&& forall|o: int|
        0 <= o < l.weights@.len() ==> (#[trigger] l.weights@[o])@.len() == in_w
}

/// Saturating dot product of the first `n` coordinates, accumulated
/// left to right exactly as the evaluator computes it.
pub open spec fn dot_sat(w: Seq<i64>, x: Seq<i64>, n: int) -> int
    decreases n,
{
    if n <= 0 {
        0
    } else {
        sat(dot_sat(w, x, n - 1) + sat(tdiv(w[n - 1] as int * x[n - 1] as int, MICRO as int)))
    }
}

/// Pre-activation of neuron `o` of layer `l` on input `x`.
pub open spec fn neuron_pre(l: Layer, x: Seq<i64>, o: int) -> int {
    sat(dot_sat(l.weights@[o]@, x, x.len() as int) + l.biases@[o])
}

/// Activations of one whole layer.
pub open spec fn layer_out(l: Layer, x: Seq<i64>, a: Act) -> Seq<i64> {
    Seq::new(l.weights@.len(), |o: int| act_apply(a, neuron_pre(l, x, o)) as i64)
}

/// A feed-forward network: ordered layers sharing one activation
/// family; `in_width` is the width of the first layer's input.
#[derive(Clone, Debug)]
pub struct Network {
    pub in_width: usize,
    pub layers: Vec<Layer>,
    pub act: Act,
}

/// Input width of layer `l` inside the chain.
pub open spec fn in_width_of(net: Network, l: int) -> int {
    if l == 0 {
        net.in_width as int
    } else {
        net.layers@[l - 1].weights@.len() as int
    }
}

/// Run the network from layer `i` onward, starting with activations `x`.
pub open spec fn forward_from(net: Network, x: Seq<i64>, i: int) -> Seq<i64>
    decreases net.layers@.len() - i,
{
    if i < 0 || i >= net.layers@.len() {
        x
    } else {
        forward_from(net, layer_out(net.layers@[i], x, net.act), i + 1)
    }
}

/// The forward evaluation: layer by layer from the input vector.
pub open spec fn spec_calc(net: Network, x: Seq<i64>) -> Seq<i64> {
    forward_from(net, x, 0)
}

impl Network {
    /// Layer widths chain correctly and every layer is well formed.
    pub open spec fn wf(self) -> bool {
        &&& self.layers@.len() >= 1
        &&& self.in_width >= 1
        &&& forall|l: int|
            0 <= l < self.layers@.len() ==> layer_wf(
                #[trigger] self.layers@[l],
                in_width_of(self, l),
            )
    }

    /// Width of the network's output vector.
    pub open spec fn spec_out_width(self) -> int {
        self.layers@[self.layers@.len() - 1].weights@.len() as int
    }

    /// Width of the output vector, for callers.
    pub fn out_width(&self) -> (r: usize)
        requires
            self.wf(),
        ensures
            r == self.spec_out_width(),
    {
        self.layers[self.layers.len() - 1].weights.len()
    }

    /// Width of the input vector, for callers.
    pub fn input_width(&self) -> (r: usize)
        ensures
            r == self.in_width,
    {
        self.in_width
    }
}

/// Saturating dot product of a weight row with the activations.
fn dot_prod(w: &Vec<i64>, x: &Vec<i64>) -> (r: i64)
    requires
        w@.len() == x@.len(),
    ensures
        r == dot_sat(w@, x@, x@.len() as int),
{
    let mut acc: i64 = 0;
    let mut j: usize = 0;
    while j < w.len()
        invariant
            j <= w@.len(),
            w@.len() == x@.len(),
            acc == dot_sat(w@, x@, j as int),
        decreases w@.len() - j,
    {
        acc = fix_add(acc, fix_mul(w[j], x[j]));
        j += 1;
    }
    acc
}

/// Pre-activation of one neuron.
pub(crate) fn neuron_pre_eval(l: &Layer, x: &Vec<i64>, o: usize) -> (r: i64)
    requires
        layer_wf(*l, x@.len() as int),
        o < l.weights@.len(),
    ensures
        r == neuron_pre(*l, x@, o as int),
        -CAP <= r <= CAP,
{
    fix_add(dot_prod(&l.weights[o], x), l.biases[o])
}

/// Activations of one layer on input `x`.
pub(crate) fn layer_apply(l: &Layer, x: &Vec<i64>, a: Act) -> (out: Vec<i64>)
    requires
        layer_wf(*l, x@.len() as int),
    ensures
        out@ == layer_out(*l, x@, a),
        out@.len() == l.weights@.len(),
{
    let mut out: Vec<i64> = Vec::new();
    let mut o: usize = 0;
    while o < l.weights.len()
        invariant
            layer_wf(*l, x@.len() as int),
            o <= l.weights@.len(),
            out@.len() == o,
            forall|oo: int|
                0 <= oo < o ==> out@[oo] == act_apply(a, neuron_pre(*l, x@, oo)) as i64,
        decreases l.weights@.len() - o,
    {
        let pre = neuron_pre_eval(l, x, o);
        out.push(act_eval(a, pre));
        o += 1;
    }
    proof {
        assert(out@ =~= layer_out(*l, x@, a));
    }
    out
}

/// Copy a vector of fixed-point values.
pub(crate) fn copy_vec(x: &Vec<i64>) -> (r: Vec<i64>)
    ensures
        r@ == x@,
{
    let mut r: Vec<i64> = Vec::new();
    let mut j: usize = 0;
    while j < x.len()
        invariant
            j <= x@.len(),
            r@ == x@.subrange(0, j as int),
        decreases x@.len() - j,
    {
        r.push(x[j]);
        j += 1;
    }
    proof {
        assert(x@.subrange(0, x@.len() as int) =~= x@);
    }
    r
}

impl Network {
    /// Forward evaluation: apply every layer in order to the input.
    /// Pure: the network is only read, and the result is exactly
    /// `spec_calc` of the network and input.
    pub fn calc(&self, input: &Vec<i64>) -> (r: Result<Vec<i64>, SocError>)
        requires
            self.wf(),
        ensures
            match r {
                Ok(out) => {
                    &&& input@.len() == self.in_width
                    &&& out@ == spec_calc(*self, input@)
                    &&& out@.len() == self.spec_out_width()
                },
                Err(e) => {
                    &&& input@.len() != self.in_width
                    &&& e == SocError::DimensionMismatch
                },
            },
    {
        if input.len() != self.in_width {
            return Err(SocError::DimensionMismatch);
        }
        let ghost full = spec_calc(*self, input@);
        let mut x: Vec<i64> = copy_vec(input);
        let mut i: usize = 0;
        while i < self.layers.len()
            invariant
                self.wf(),
                i <= self.layers@.len(),
                x@.len() == in_width_of(*self, i as int),
                forward_from(*self, x@, i as int) == full,
            decreases self.layers@.len() - i,
        {
            x = layer_apply(&self.layers[i], &x, self.act);
            i += 1;
        }
        proof {
            lemma_forward_len(*self, input@, 0);
        }
        Ok(x)
    }
}

/// Purity of the forward evaluator: the output is a function of the
/// network and the input alone, so two calls of `calc` with the same
/// network and input return identical outputs; `calc` itself takes the
/// network immutably and changes no hidden state.
pub proof fn lemma_calc_deterministic(n1: Network, n2: Network, x1: Seq<i64>, x2: Seq<i64>)
    requires
        n1 == n2,
        x1 == x2,
    ensures
        spec_calc(n1, x1) == spec_calc(n2, x2),
{
}

/// From any layer onward, the forward pass ends with the width of the
/// last layer: the output length depends on the topology alone.
pub proof fn lemma_forward_len(net: Network, x: Seq<i64>, i: int)
    requires
        net.layers@.len() >= 1,
        0 <= i <= net.layers@.len(),
        i == net.layers@.len() ==> x.len() == net.spec_out_width(),
    ensures
        forward_from(net, x, i).len() == net.spec_out_width(),
    decreases net.layers@.len() - i,
{
    if i < net.layers@.len() {
        lemma_forward_len(net, layer_out(net.layers@[i], x, net.act), i + 1);
    }
}

/// Create a network from a layer-size list, drawing every weight and
/// bias independently and uniformly from `[0, 1)` units.
pub fn create(sizes: &Vec<usize>, a: Act, rng: &mut rand::rngs::StdRng) -> (r: Result<
    Network,
    SocError,
>)
    ensures
        match r {
            Ok(n) => {
                &&& sizes@.len() >= 2
                &&& forall|i: int| 0 <= i < sizes@.len() ==> #[trigger] sizes@[i] >= 1
                &&& n.wf()
                &&& n.act == a
                &&& n.in_width == sizes@[0]
                &&& n.layers@.len() == sizes@.len() - 1
                &&& forall|l: int|
                    0 <= l < n.layers@.len() ==> (#[trigger] n.layers@[l]).weights@.len()
                        == sizes@[l + 1]
                &&& unit_params(n)
            },
            Err(e) => {
                &&& e == SocError::InvalidTopology
                &&& (sizes@.len() < 2 || exists|i: int|
                    0 <= i < sizes@.len() && #[trigger] sizes@[i] == 0)
            },
        },
{
    if sizes.len() < 2 {
        return Err(SocError::InvalidTopology);
    }
    let mut i: usize = 0;
    while i < sizes.len()
        invariant
            i <= sizes@.len(),
            forall|k: int| 0 <= k < i ==> #[trigger] sizes@[k] >= 1,
        decreases sizes@.len() - i,
    {
        if sizes[i] == 0 {
            return Err(SocError::InvalidTopology);
        }
        i += 1;
    }
    let mut layers: Vec<Layer> = Vec::new();
    let mut l: usize = 1;
    while l < sizes.len()
        invariant
            1 <= l <= sizes@.len(),
            sizes@.len() >= 2,
            forall|k: int| 0 <= k < sizes@.len() ==> #[trigger] sizes@[k] >= 1,
            layers@.len() == l - 1,
            forall|k: int|
                0 <= k < l - 1 ==> (#[trigger] layers@[k]).weights@.len() == sizes@[k + 1],
            forall|k: int|
                0 <= k < l - 1 ==> (#[trigger] layers@[k]).biases@.len() == sizes@[k + 1],
            forall|k: int, o: int|
                0 <= k < l - 1 && 0 <= o < layers@[k].weights@.len()
                    ==> (#[trigger] layers@[k].weights@[o])@.len() == sizes@[k],
            forall|k: int| 0 <= k < l - 1 ==> layer_params_in_unit(#[trigger] layers@[k]),
        decreases sizes@.len() - l,
    {
        let in_w = sizes[l - 1];
        let out_w = sizes[l];
        let mut weights: Vec<Vec<i64>> = Vec::new();
        let mut biases: Vec<i64> = Vec::new();
        let mut o: usize = 0;
        while o < out_w
            invariant
                o <= out_w,
                weights@.len() == o,
                biases@.len() == o,
                forall|oo: int| 0 <= oo < o ==> (#[trigger] weights@[oo])@.len() == in_w,
                forall|oo: int, j: int|
                    0 <= oo < o && 0 <= j < in_w ==> 0 <= (#[trigger] weights@[oo]@[j]) < MICRO,
                forall|oo: int| 0 <= oo < o ==> 0 <= (#[trigger] biases@[oo]) < MICRO,
            decreases out_w - o,
        {
            let mut row: Vec<i64> = Vec::new();
            let mut j: usize = 0;
            while j < in_w
                invariant
                    j <= in_w,
                    row@.len() == j,
                    forall|jj: int| 0 <= jj < j ==> 0 <= (#[trigger] row@[jj]) < MICRO,
                decreases in_w - j,
            {
                row.push(rand_below(rng, 1_000_000) as i64);
                j += 1;
            }
            weights.push(row);
            biases.push(rand_below(rng, 1_000_000) as i64);
            o += 1;
        }
        layers.push(Layer { weights, biases });
        l += 1;
    }
    let n = Network { in_width: sizes[0], layers, act: a };
    proof {
        assert forall|k: int| 0 <= k < n.layers@.len() implies layer_wf(
            #[trigger] n.layers@[k],
            in_width_of(n, k),
        ) by {
            assert(n.layers@[k].weights@.len() == sizes@[k + 1]);
        }
    }
    Ok(n)
}

/// Create a network with every weight and bias supplied by the
/// caller, in canonical flat order (per layer: each weight row, then
/// the biases).  This is the hook for any initialization scheme other
/// than the default uniform draw: compute the parameters however
/// desired and hand them in.  Succeeds exactly when the size list is
/// sound and the parameter count matches it; the resulting network
/// holds precisely the given parameters.
pub fn create_from_params(sizes: &Vec<usize>, a: Act, params: &Vec<i64>) -> (r: Result<
    Network,
    SocError,
>)
    ensures
        match r {
            Ok(n) => {
                &&& sizes@.len() >= 2
                &&& forall|i: int| 0 <= i < sizes@.len() ==> #[trigger] sizes@[i] >= 1
                &&& params@.len() == count_params(sizes@, sizes@.len() as int)
                &&& n.wf()
                &&& n.act == a
                &&& n.in_width == sizes@[0]
                &&& n.layers@.len() == sizes@.len() - 1
                &&& forall|l: int|
                    0 <= l < n.layers@.len() ==> (#[trigger] n.layers@[l]).weights@.len()
                        == sizes@[l + 1]
                &&& layers_params(n.layers@, n.layers@.len() as int) == params@
            },
            Err(e) => {
                &&& ((sizes@.len() < 2 || exists|i: int|
                    0 <= i < sizes@.len() && #[trigger] sizes@[i] == 0) ==> e
                    == SocError::InvalidTopology)
                &&& (!(sizes@.len() < 2 || exists|i: int|
                    0 <= i < sizes@.len() && #[trigger] sizes@[i] == 0) ==> e
                    == SocError::DimensionMismatch && params@.len() != count_params(
                    sizes@,
                    sizes@.len() as int,
                ))
            },
        },
{
    if sizes.len() < 2 {
        return Err(SocError::InvalidTopology);
    }
    let mut i: usize = 0;
    while i < sizes.len()
        invariant
            i <= sizes@.len(),
            forall|k: int| 0 <= k < i ==> #[trigger] sizes@[k] >= 1,
        decreases sizes@.len() - i,
    {
        if sizes[i] == 0 {
            return Err(SocError::InvalidTopology);
        }
        i += 1;
    }

    // The size list fixes the parameter count; an early overshoot of
    // the supplied length already decides the mismatch.
    let k = sizes.len();
    let mut count: u128 = 0;
    let mut l: usize = 1;
    while l < k
        invariant
            1 <= l <= k,
            k == sizes@.len(),
            k >= 2,
            forall|q: int| 0 <= q < k ==> #[trigger] sizes@[q] >= 1,
            count == count_params(sizes@, l as int),
            count <= params@.len(),
            count <= 0xffff_ffff_ffff_ffffu128,
        decreases k - l,
    {
        proof {
            assert((sizes@[l - 1] as int) * (sizes@[l as int] as int)
                <= 0xffff_ffff_ffff_ffffint * 0xffff_ffff_ffff_ffffint) by (nonlinear_arith)
                requires
                    0 <= sizes@[l - 1] <= 0xffff_ffff_ffff_ffffu64,
                    0 <= sizes@[l as int] <= 0xffff_ffff_ffff_ffffu64,
            ;
            assert(count as int + (sizes@[l - 1] as int) * (sizes@[l as int] as int) + (
            sizes@[l as int] as int) < 0x1_0000_0000_0000_0000_0000_0000_0000_0000int)
                by (nonlinear_arith)
                requires
                    0 <= count as int <= 0xffff_ffff_ffff_ffffint,
                    0 <= sizes@[l - 1] <= 0xffff_ffff_ffff_ffffu64,
                    0 <= sizes@[l as int] <= 0xffff_ffff_ffff_ffffu64,
            ;
        }
        let add: u128 = (sizes[l - 1] as u128) * (sizes[l] as u128) + (sizes[l] as u128);
        if count + add > params.len() as u128 {
            proof {
                lemma_count_params_mono(sizes@, l + 1, k as int);
            }
            return Err(SocError::DimensionMismatch);
        }
        let plen = params.len();
        proof {
            assert(count + add <= plen as u128);
        }
        count = count + add;
        l += 1;
    }
    if count != params.len() as u128 {
        return Err(SocError::DimensionMismatch);
    }
    let total = params.len();

    // Distribute the parameters into layers, in canonical order.
    let mut layers: Vec<Layer> = Vec::new();
    let mut pos: usize = 0;
    let mut l2: usize = 1;
    while l2 < k
        invariant
            1 <= l2 <= k,
            k == sizes@.len(),
            total == params@.len(),
            total == count_params(sizes@, k as int),
            forall|q: int| 0 <= q < k ==> #[trigger] sizes@[q] >= 1,
            layers@.len() == l2 - 1,
            pos == count_params(sizes@, l2 as int),
            pos <= total,
            forall|m: int|
                0 <= m < l2 - 1 ==> (#[trigger] layers@[m]).weights@.len() == sizes@[m + 1],
            forall|m: int|
                0 <= m < l2 - 1 ==> (#[trigger] layers@[m]).biases@.len() == sizes@[m + 1],
            forall|m: int, o: int|
                0 <= m < l2 - 1 && 0 <= o < layers@[m].weights@.len()
                    ==> (#[trigger] layers@[m].weights@[o])@.len() == sizes@[m],
            layers_params(layers@, l2 - 1) == params@.subrange(0, pos as int),
        decreases k - l2,
    {
        let in_w = sizes[l2 - 1];
        let out_w = sizes[l2];
        let ghost layer_base = pos as int;
        proof {
            lemma_count_params_mono(sizes@, l2 + 1, k as int);
            assert(count_params(sizes@, l2 + 1) == count_params(sizes@, l2 as int) + sizes@[l2
                - 1] * sizes@[l2 as int] + sizes@[l2 as int]);
            assert((out_w as int) * (in_w as int) == (sizes@[l2 - 1] as int) * (
            sizes@[l2 as int] as int)) by (nonlinear_arith)
                requires
                    in_w == sizes@[l2 - 1],
                    out_w == sizes@[l2 as int],
            ;
        }
        let mut weights: Vec<Vec<i64>> = Vec::new();
        let mut o: usize = 0;
        while o < out_w
            invariant
                o <= out_w,
                in_w == sizes@[l2 - 1],
                out_w == sizes@[l2 as int],
                in_w >= 1,
                out_w >= 1,
                params@.len() == total,
                layer_base >= 0,
                pos == layer_base + o * in_w,
                layer_base + out_w * in_w + out_w <= total,
                weights@.len() == o,
                forall|oo: int| 0 <= oo < o ==> (#[trigger] weights@[oo])@.len() == in_w,
                rows_flat(weights@, o as int) == params@.subrange(layer_base, pos as int),
            decreases out_w - o,
        {
            proof {
                assert((o + 1) * in_w <= out_w * in_w) by (nonlinear_arith)
                    requires
                        o < out_w,
                        in_w >= 0,
                ;
                assert((o + 1) * in_w == o * in_w + in_w) by (nonlinear_arith);
                assert(out_w * in_w >= 0) by (nonlinear_arith)
                    requires
                        out_w >= 0,
                        in_w >= 0,
                ;
            }
            let mut row: Vec<i64> = Vec::new();
            let mut j: usize = 0;
            while j < in_w
                invariant
                    j <= in_w,
                    params@.len() == total,
                    pos == layer_base + o * in_w + j,
                    layer_base + o * in_w + in_w <= total,
                    layer_base >= 0,
                    o * in_w >= 0,
                    row@.len() == j,
                    row@ == params@.subrange(pos - j, pos as int),
                decreases in_w - j,
            {
                row.push(params[pos]);
                pos += 1;
                proof {
                    assert(row@ =~= params@.subrange(pos - j - 1, pos as int));
                }
                j += 1;
            }
            let ghost old_weights = weights@;
            weights.push(row);
            proof {
                lemma_rows_flat_prefix(weights@, old_weights, o as int);
                assert(weights@[o as int]@ == params@.subrange(pos - in_w, pos as int));
                assert(rows_flat(weights@, o + 1) =~= params@.subrange(layer_base, pos as int));
            }
            o += 1;
        }
        let mut biases: Vec<i64> = Vec::new();
        let mut b: usize = 0;
        while b < out_w
            invariant
                b <= out_w,
                params@.len() == total,
                pos == layer_base + out_w * in_w + b,
                layer_base + out_w * in_w + out_w <= total,
                layer_base >= 0,
                out_w * in_w >= 0,
                biases@.len() == b,
                biases@ == params@.subrange(pos - b, pos as int),
            decreases out_w - b,
        {
            biases.push(params[pos]);
            pos += 1;
            proof {
                assert(biases@ =~= params@.subrange(pos - b - 1, pos as int));
            }
            b += 1;
        }
        let ghost old_layers = layers@;
        layers.push(Layer { weights, biases });
        proof {
            lemma_layers_params_prefix(layers@, old_layers, l2 - 1);
            assert(layers@[l2 - 1].weights@ == weights@);
            assert(layers@[l2 - 1].biases@ == biases@);
            assert(crate::snapshot::layer_params(layers@[l2 - 1]) =~= params@.subrange(
                layer_base,
                pos as int,
            ));
            assert(layers_params(layers@, l2 as int) =~= params@.subrange(0, pos as int));
        }
        l2 += 1;
    }
    let n = Network { in_width: sizes[0], layers, act: a };
    proof {
        assert(params@.subrange(0, total as int) =~= params@);
        assert forall|m: int| 0 <= m < n.layers@.len() implies layer_wf(
            #[trigger] n.layers@[m],
            in_width_of(n, m),
        ) by {
            assert(n.layers@[m].weights@.len() == sizes@[m + 1]);
        }
    }
    Ok(n)
}

/// Every weight and bias of one layer lies in `[0, 1)` units.
pub open spec fn layer_params_in_unit(l: Layer) -> bool {
    &&& forall|o: int, j: int|
        0 <= o < l.weights@.len() && 0 <= j < l.weights@[o]@.len()
            ==> 0 <= (#[trigger] l.weights@[o]@[j]) < MICRO
    &&& forall|o: int| 0 <= o < l.biases@.len() ==> 0 <= (#[trigger] l.biases@[o]) < MICRO
}

/// Every parameter of the network lies in `[0, 1)` units, as the
/// default uniform initializer draws them.
pub open spec fn unit_params(n: Network) -> bool {
    forall|l: int| 0 <= l < n.layers@.len() ==> layer_params_in_unit(#[trigger] n.layers@[l])
}

} // verus!
