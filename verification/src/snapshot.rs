//! Model snapshot: encode a network into a bounded byte buffer and
//! decode it back.  Layout: one activation tag byte, one byte holding
//! the count of layer sizes, the sizes themselves one byte each, then
//! every weight and bias in layer order (each row, then the biases) as
//! eight little-endian bytes apiece.
use vstd::prelude::*;
use vstd::bytes::{
    spec_u64_to_le_bytes, spec_u64_from_le_bytes, lemma_auto_spec_u64_to_from_le_bytes,
    u64_to_le_bytes, u64_from_le_bytes,
};
use vstd::slice::slice_subrange;
use crate::network::{Act, Layer, Network, SocError, layer_wf, in_width_of, forward_from, layer_out, neuron_pre, act_apply};

verus! {

/// The snapshot buffer bound, in bytes.
pub const SNAPSHOT_CAPACITY: usize = 1024;

/// The tag byte of each activation family.
pub open spec fn act_tag(a: Act) -> u8 {
    match a {
        Act::Sigmoid => 0u8,
        Act::Tanh => 1u8,
    }
}

/// The eight little-endian bytes of one parameter.
pub open spec fn le8(v: i64) -> Seq<u8> {
    spec_u64_to_le_bytes(v as u64)
}

/// The weight rows of one layer, flattened in row order.
pub open spec fn rows_flat(ws: Seq<Vec<i64>>, n: int) -> Seq<i64>
    decreases n,
{
    if n <= 0 {
        Seq::empty()
    } else {
        rows_flat(ws, n - 1) + ws[n - 1]@
    }
}

/// All parameters of one layer: the flattened rows, then the biases.
pub open spec fn layer_params(l: Layer) -> Seq<i64> {
    rows_flat(l.weights@, l.weights@.len() as int) + l.biases@
}

/// All parameters of the first `n` layers, in layer order.
pub open spec fn layers_params(ls: Seq<Layer>, n: int) -> Seq<i64>
    decreases n,
{
    if n <= 0 {
        Seq::empty()
    } else {
        layers_params(ls, n - 1) + layer_params(ls[n - 1])
    }
}

/// The bytes of the first `n` parameters.
pub open spec fn flat_bytes(ps: Seq<i64>, n: int) -> Seq<u8>
    decreases n,
{
    if n <= 0 {
        Seq::empty()
    } else {
        flat_bytes(ps, n - 1) + le8(ps[n - 1])
    }
}

/// The size list of the header: the input width, then each layer's
/// output width.
pub open spec fn sizes_seq(net: Network) -> Seq<u8> {
    Seq::new(
        (net.layers@.len() + 1) as nat,
        |i: int|
            if i == 0 {
                net.in_width as u8
            } else {
                net.layers@[i - 1].weights@.len() as u8
            },
    )
}

/// The full encoded form of a network.
pub open spec fn spec_encode(net: Network) -> Seq<u8> {
    let ps = layers_params(net.layers@, net.layers@.len() as int);
    seq![act_tag(net.act), (net.layers@.len() + 1) as u8] + sizes_seq(net) + flat_bytes(
        ps,
        ps.len() as int,
    )
}

/// A network fits the snapshot format: every count is one byte, and
/// the encoded form stays within the capacity.
pub open spec fn fits(net: Network) -> bool {
    &&& net.layers@.len() + 1 <= 255
    &&& net.in_width <= 255
    &&& forall|l: int|
        0 <= l < net.layers@.len() ==> (#[trigger] net.layers@[l]).weights@.len() <= 255
    &&& spec_encode(net).len() <= SNAPSHOT_CAPACITY
}

/// Each parameter contributes eight bytes.
pub proof fn lemma_flat_bytes_len(ps: Seq<i64>, n: int)
    requires
        n >= 0,
    ensures
        flat_bytes(ps, n).len() == 8 * n,
    decreases n,
{
    lemma_auto_spec_u64_to_from_le_bytes();
    if n > 0 {
        lemma_flat_bytes_len(ps, n - 1);
    }
}

/// Encode one parameter.
fn param_to_bytes(v: i64) -> (b: Vec<u8>)
    ensures
        b@ == le8(v),
        b@.len() == 8,
{
    proof {
        lemma_auto_spec_u64_to_from_le_bytes();
    }
    u64_to_le_bytes(v as u64)
}

/// Decode one parameter; its encoding is exactly the given bytes.
fn param_from_bytes(s: &[u8]) -> (v: i64)
    requires
        s@.len() == 8,
    ensures
        le8(v) == s@,
{
    let u = u64_from_le_bytes(s);
    proof {
        lemma_auto_spec_u64_to_from_le_bytes();
        assert((u as i64) as u64 == u) by (bit_vector);
    }
    u as i64
}

/// Serialize the network.  Succeeds exactly when the network fits the
/// bounded snapshot format, and then returns precisely its encoding;
/// an oversized model is reported, never truncated.
pub fn encode(net: &Network) -> (r: Result<Vec<u8>, SocError>)
    requires
        net.wf(),
    ensures
        match r {
            Ok(b) => {
                &&& fits(*net)
                &&& b@ == spec_encode(*net)
                &&& b@.len() <= SNAPSHOT_CAPACITY
            },
            Err(e) => {
                &&& e == SocError::CapacityExceeded
                &&& !fits(*net)
            },
        },
{
    let l_count = net.layers.len();
    if l_count > 254 {
        return Err(SocError::CapacityExceeded);
    }
    if net.in_width > 255 {
        return Err(SocError::CapacityExceeded);
    }
    let mut l: usize = 0;
    while l < l_count
        invariant
            l <= l_count,
            l_count == net.layers@.len(),
            forall|k: int|
                0 <= k < l ==> (#[trigger] net.layers@[k]).weights@.len() <= 255,
        decreases l_count - l,
    {
        if net.layers[l].weights.len() > 255 {
            return Err(SocError::CapacityExceeded);
        }
        l += 1;
    }

    // Header: tag, size count, sizes.
    let mut buf: Vec<u8> = Vec::new();
    let tag: u8 = match net.act {
        Act::Sigmoid => 0,
        Act::Tanh => 1,
    };
    buf.push(tag);
    buf.push((l_count + 1) as u8);
    buf.push(net.in_width as u8);
    let mut i: usize = 0;
    while i < l_count
        invariant
            i <= l_count,
            l_count == net.layers@.len(),
            l_count + 1 <= 255,
            net.in_width <= 255,
            buf@.len() == 3 + i,
            buf@[0] == act_tag(net.act),
            buf@[1] == (l_count + 1) as u8,
            buf@[2] == net.in_width as u8,
            forall|k: int|
                0 <= k < i ==> buf@[3 + k] == (#[trigger] net.layers@[k]).weights@.len() as u8,
        decreases l_count - i,
    {
        buf.push(net.layers[i].weights.len() as u8);
        i += 1;
    }
    proof {
        assert(buf@ =~= seq![act_tag(net.act), (net.layers@.len() + 1) as u8] + sizes_seq(*net));
    }
    let ghost header = buf@;

    // Parameters, flattened: per layer, each weight row, then biases.
    let mut params: Vec<i64> = Vec::new();
    let mut l2: usize = 0;
    while l2 < l_count
        invariant
            l2 <= l_count,
            l_count == net.layers@.len(),
            params@ == layers_params(net.layers@, l2 as int),
        decreases l_count - l2,
    {
        let layer = &net.layers[l2];
        let out_w = layer.weights.len();
        let mut o: usize = 0;
        while o < out_w
            invariant
                o <= out_w,
                l2 < l_count,
                l_count == net.layers@.len(),
                layer == net.layers@[l2 as int],
                out_w == layer.weights@.len(),
                params@ == layers_params(net.layers@, l2 as int) + rows_flat(
                    layer.weights@,
                    o as int,
                ),
            decreases out_w - o,
        {
            let row = &layer.weights[o];
            let mut j: usize = 0;
            while j < row.len()
                invariant
                    j <= row@.len(),
                    o < out_w,
                    out_w == layer.weights@.len(),
                    row == layer.weights@[o as int],
                    params@ == layers_params(net.layers@, l2 as int) + rows_flat(
                        layer.weights@,
                        o as int,
                    ) + row@.subrange(0, j as int),
                decreases row@.len() - j,
            {
                params.push(row[j]);
                j += 1;
            }
            proof {
                assert(row@.subrange(0, row@.len() as int) =~= row@);
                assert(params@ =~= layers_params(net.layers@, l2 as int) + rows_flat(
                    layer.weights@,
                    o + 1,
                ));
            }
            o += 1;
        }
        let mut b: usize = 0;
        while b < layer.biases.len()
            invariant
                b <= layer.biases@.len(),
                l2 < l_count,
                l_count == net.layers@.len(),
                layer == net.layers@[l2 as int],
                out_w == layer.weights@.len(),
                params@ == layers_params(net.layers@, l2 as int) + rows_flat(
                    layer.weights@,
                    out_w as int,
                ) + layer.biases@.subrange(0, b as int),
            decreases layer.biases@.len() - b,
        {
            params.push(layer.biases[b]);
            b += 1;
        }
        proof {
            assert(layer.biases@.subrange(0, layer.biases@.len() as int) =~= layer.biases@);
            assert(params@ =~= layers_params(net.layers@, l2 + 1));
        }
        l2 += 1;
    }

    // Bytes of the parameters.
    let n_params = params.len();
    let mut p: usize = 0;
    while p < n_params
        invariant
            p <= n_params,
            n_params == params@.len(),
            params@ == layers_params(net.layers@, net.layers@.len() as int),
            header == seq![act_tag(net.act), (net.layers@.len() + 1) as u8] + sizes_seq(*net),
            buf@ == header + flat_bytes(params@, p as int),
        decreases n_params - p,
    {
        let mut chunk = param_to_bytes(params[p]);
        buf.append(&mut chunk);
        p += 1;
    }
    proof {
        assert(buf@ =~= spec_encode(*net));
    }
    if buf.len() > SNAPSHOT_CAPACITY {
        return Err(SocError::CapacityExceeded);
    }
    Ok(buf)
}

/// Parameter count described by a size list: summed over the layers,
/// one weight per input/output pair and one bias per output.
pub open spec fn count_params(sizes: Seq<usize>, n: int) -> int
    decreases n,
{
    if n <= 1 {
        0
    } else {
        count_params(sizes, n - 1) + sizes[n - 2] * sizes[n - 1] + sizes[n - 1]
    }
}

/// The parameter count grows with the layer prefix taken.
pub proof fn lemma_count_params_mono(sizes: Seq<usize>, a: int, b: int)
    requires
        0 <= a <= b,
        b <= sizes.len(),
    ensures
        count_params(sizes, a) <= count_params(sizes, b),
    decreases b - a,
{
    if a < b {
        lemma_count_params_mono(sizes, a, b - 1);
        if b >= 2 {
            assert(sizes[b - 2] * sizes[b - 1] >= 0) by (nonlinear_arith)
                requires
                    sizes[b - 2] >= 0,
                    sizes[b - 1] >= 0,
            ;
        }
    }
}

/// Flattened rows of equal length `in_w` hold `n * in_w` values.
pub proof fn lemma_rows_flat_len(ws: Seq<Vec<i64>>, n: int, in_w: int)
    requires
        0 <= n <= ws.len(),
        forall|o: int| 0 <= o < n ==> (#[trigger] ws[o])@.len() == in_w,
    ensures
        rows_flat(ws, n).len() == n * in_w,
    decreases n,
{
    if n == 0 {
        assert(n * in_w == 0) by (nonlinear_arith)
            requires
                n == 0,
        ;
    } else {
        lemma_rows_flat_len(ws, n - 1, in_w);
        assert(ws[n - 1]@.len() == in_w);
        assert(rows_flat(ws, n).len() == rows_flat(ws, n - 1).len() + ws[n - 1]@.len());
        assert(n * in_w == (n - 1) * in_w + in_w) by (nonlinear_arith);
    }
}

/// Two row lists that agree on a prefix flatten that prefix equally.
pub proof fn lemma_rows_flat_prefix(a: Seq<Vec<i64>>, b: Seq<Vec<i64>>, n: int)
    requires
        0 <= n <= a.len(),
        n <= b.len(),
        forall|o: int| 0 <= o < n ==> a[o] == b[o],
    ensures
        rows_flat(a, n) == rows_flat(b, n),
    decreases n,
{
    if n > 0 {
        lemma_rows_flat_prefix(a, b, n - 1);
    }
}

/// Two layer lists that agree on a prefix have the same parameters
/// over that prefix.
pub proof fn lemma_layers_params_prefix(a: Seq<Layer>, b: Seq<Layer>, n: int)
    requires
        0 <= n <= a.len(),
        n <= b.len(),
        forall|l: int| 0 <= l < n ==> a[l] == b[l],
    ensures
        layers_params(a, n) == layers_params(b, n),
    decreases n,
{
    if n > 0 {
        lemma_layers_params_prefix(a, b, n - 1);
    }
}

/// The parameters of a layer prefix number exactly what the size list
/// says.
pub proof fn lemma_layers_params_count(ls: Seq<Layer>, sizes: Seq<usize>, n: int)
    requires
        0 <= n <= ls.len(),
        sizes.len() >= n + 1,
        forall|l: int| 0 <= l < n ==> (#[trigger] ls[l]).weights@.len() == sizes[l + 1],
        forall|l: int| 0 <= l < n ==> (#[trigger] ls[l]).biases@.len() == sizes[l + 1],
        forall|l: int, o: int|
            0 <= l < n && 0 <= o < ls[l].weights@.len() ==> (#[trigger] ls[l].weights@[o])@.len()
                == sizes[l],
    ensures
        layers_params(ls, n).len() == count_params(sizes, n + 1),
    decreases n,
{
    if n > 0 {
        lemma_layers_params_count(ls, sizes, n - 1);
        assert(ls[n - 1].weights@.len() == sizes[n]);
        assert(ls[n - 1].biases@.len() == sizes[n]);
        lemma_rows_flat_len(ls[n - 1].weights@, ls[n - 1].weights@.len() as int, sizes[n - 1] as int);
        assert((sizes[n] as int) * (sizes[n - 1] as int) == (sizes[n - 1] as int) * (
        sizes[n] as int)) by (nonlinear_arith);
    }
}

/// Shape facts of a fitting network's encoding: its length, and the
/// header bytes it starts with.
pub proof fn lemma_encode_shape(w: Network)
    requires
        w.wf(),
        fits(w),
    ensures
        spec_encode(w).len() == 2 + (w.layers@.len() + 1) + 8 * layers_params(
            w.layers@,
            w.layers@.len() as int,
        ).len(),
        spec_encode(w)[0] == act_tag(w.act),
        spec_encode(w)[1] == (w.layers@.len() + 1) as u8,
        forall|i: int|
            0 <= i < w.layers@.len() + 1 ==> spec_encode(w)[2 + i] == sizes_seq(w)[i],
{
    let ps = layers_params(w.layers@, w.layers@.len() as int);
    lemma_flat_bytes_len(ps, ps.len() as int);
}

/// Deserialize a network.  Succeeds exactly on the byte strings that
/// some well-formed, fitting network encodes to, and then returns a
/// network whose encoding is precisely the given bytes; any other
/// byte layout is rejected as corrupt.
pub fn decode(bytes: &Vec<u8>) -> (r: Result<Network, SocError>)
    ensures
        match r {
            Ok(n) => {
                &&& n.wf()
                &&& fits(n)
                &&& spec_encode(n) == bytes@
            },
            Err(e) => e == SocError::CorruptSnapshot,
        },
        (exists|w: Network| w.wf() && fits(w) && #[trigger] spec_encode(w) == bytes@) ==> r
            is Ok,
{
    let ghost decodable = exists|w: Network| w.wf() && fits(w) && #[trigger] spec_encode(w)
        == bytes@;
    let ghost wit = choose|w: Network| w.wf() && fits(w) && #[trigger] spec_encode(w) == bytes@;
    proof {
        if decodable {
            lemma_encode_shape(wit);
        }
    }
    if bytes.len() < 2 || bytes.len() > SNAPSHOT_CAPACITY {
        return Err(SocError::CorruptSnapshot);
    }
    let tag = bytes[0];
    let act = if tag == 0 {
        Act::Sigmoid
    } else if tag == 1 {
        Act::Tanh
    } else {
        proof {
            if decodable {
                assert(act_tag(wit.act) == 0 || act_tag(wit.act) == 1);
            }
        }
        return Err(SocError::CorruptSnapshot);
    };
    let k = bytes[1] as usize;
    if k < 2 {
        proof {
            if decodable {
                assert(wit.layers@.len() + 1 >= 2);
                assert(bytes@[1] == (wit.layers@.len() + 1) as u8);
            }
        }
        return Err(SocError::CorruptSnapshot);
    }
    if bytes.len() < 2 + k {
        proof {
            if decodable {
                lemma_encode_shape(wit);
                assert(wit.layers@.len() + 1 <= 255);
                assert(bytes@[1] == (wit.layers@.len() + 1) as u8);
                assert(k == wit.layers@.len() + 1);
            }
        }
        return Err(SocError::CorruptSnapshot);
    }
    let mut sizes: Vec<usize> = Vec::new();
    let mut i: usize = 0;
    while i < k
        invariant
            i <= k,
            2 <= k <= 255,
            k == bytes@[1] as usize,
            bytes@.len() >= 2 + k,
            bytes@.len() <= 1024,
            decodable == (exists|w: Network| w.wf() && fits(w) && #[trigger] spec_encode(w) == bytes@),
            sizes@.len() == i,
            forall|q: int| 0 <= q < i ==> (#[trigger] sizes@[q]) == bytes@[2 + q],
            forall|q: int| 0 <= q < i ==> 1 <= (#[trigger] sizes@[q]) <= 255,
            decodable ==> wit.wf() && fits(wit) && spec_encode(wit) == bytes@,
        decreases k - i,
    {
        let s = bytes[2 + i] as usize;
        if s == 0 {
            proof {
                if decodable {
                    lemma_encode_shape(wit);
                    assert(wit.layers@.len() + 1 <= 255);
                    assert(bytes@[1] == (wit.layers@.len() + 1) as u8);
                    assert(k == wit.layers@.len() + 1);
                    assert(bytes@[2 + i] == sizes_seq(wit)[i as int]);
                    if i == 0 {
                        assert(wit.in_width >= 1);
                        assert(wit.in_width <= 255);
                    } else {
                        assert(wit.layers@[i - 1].weights@.len() >= 1);
                        assert(wit.layers@[i - 1].weights@.len() <= 255);
                    }
                }
            }
            return Err(SocError::CorruptSnapshot);
        }
        sizes.push(s);
        i += 1;
    }
    proof {
        if decodable {
            lemma_encode_shape(wit);
            assert(wit.layers@.len() + 1 <= 255);
            assert(bytes@[1] == (wit.layers@.len() + 1) as u8);
            assert(k == wit.layers@.len() + 1);
            assert forall|q: int| 0 <= q < k implies sizes@[q]
                == if q == 0 {
                    wit.in_width as int
                } else {
                    wit.layers@[q - 1].weights@.len() as int
                } by {
                assert(sizes@[q] == bytes@[2 + q]);
                assert(bytes@[2 + q] == sizes_seq(wit)[q]);
            }
            assert forall|l: int, o: int|
                0 <= l < wit.layers@.len() && 0 <= o < wit.layers@[l].weights@.len()
                    implies (#[trigger] wit.layers@[l].weights@[o])@.len() == sizes@[l] by {
                assert(crate::network::layer_wf(wit.layers@[l], in_width_of(wit, l)));
            }
            lemma_layers_params_count(wit.layers@, sizes@, wit.layers@.len() as int);
        }
    }

    // Parameter count and exact length check.
    let mut count: usize = 0;
    let mut l: usize = 1;
    while l < k
        invariant
            1 <= l <= k,
            2 <= k <= 255,
            k == sizes@.len(),
            bytes@.len() <= 1024,
            forall|q: int| 0 <= q < k ==> 1 <= (#[trigger] sizes@[q]) <= 255,
            count == count_params(sizes@, l as int),
            count <= 128 + 65280,
            decodable == (exists|w: Network| w.wf() && fits(w) && #[trigger] spec_encode(w) == bytes@),
            decodable ==> wit.wf() && fits(wit) && spec_encode(wit) == bytes@ && k
                == wit.layers@.len() + 1 && layers_params(
                wit.layers@,
                wit.layers@.len() as int,
            ).len() == count_params(sizes@, k as int) && 8 * count_params(sizes@, k as int) + 2 + k
                == bytes@.len(),
        decreases k - l,
    {
        if count > 128 {
            proof {
                if decodable {
                    lemma_count_params_mono(sizes@, l as int, k as int);
                    assert(count_params(sizes@, l as int) <= count_params(sizes@, k as int));
                    assert(8 * count_params(sizes@, k as int) + 2 + k == bytes@.len());
                    assert(bytes@.len() <= 1024);
                    assert(count <= 127);
                    assert(false);
                }
            }
            return Err(SocError::CorruptSnapshot);
        }
        proof {
            assert(sizes@[l - 1] * sizes@[l as int] <= 255 * 255) by (nonlinear_arith)
                requires
                    0 <= sizes@[l - 1] <= 255,
                    0 <= sizes@[l as int] <= 255,
            ;
        }
        count = count + sizes[l - 1] * sizes[l] + sizes[l];
        l += 1;
    }
    if count > 128 {
        proof {
            if decodable {
                assert(bytes@.len() <= 1024);
            }
        }
        return Err(SocError::CorruptSnapshot);
    }
    let total = 2 + k + 8 * count;
    if total != bytes.len() {
        return Err(SocError::CorruptSnapshot);
    }

    // Read every parameter.
    let mut params: Vec<i64> = Vec::new();
    let mut p: usize = 0;
    while p < count
        invariant
            p <= count,
            count <= 128,
            k >= 2,
            total == 2 + k + 8 * count,
            total == bytes@.len(),
            params@.len() == p,
            forall|q: int|
                0 <= q < p ==> le8(#[trigger] params@[q]) == bytes@.subrange(
                    2 + k + 8 * q,
                    2 + k + 8 * q + 8,
                ),
        decreases count - p,
    {
        let off = 2 + k + 8 * p;
        let chunk = slice_subrange(bytes.as_slice(), off, off + 8);
        let v = param_from_bytes(chunk);
        params.push(v);
        p += 1;
    }

    // Distribute the parameters into layers.
    let mut layers: Vec<Layer> = Vec::new();
    let mut pos: usize = 0;
    let mut l2: usize = 1;
    while l2 < k
        invariant
            1 <= l2 <= k,
            k == sizes@.len(),
            count == count_params(sizes@, k as int),
            count <= 128,
            params@.len() == count,
            forall|q: int| 0 <= q < k ==> 1 <= (#[trigger] sizes@[q]) <= 255,
            layers@.len() == l2 - 1,
            pos == count_params(sizes@, l2 as int),
            pos <= count,
            forall|m: int|
                0 <= m < l2 - 1 ==> (#[trigger] layers@[m]).weights@.len() == sizes@[m + 1],
            forall|m: int|
                0 <= m < l2 - 1 ==> (#[trigger] layers@[m]).biases@.len() == sizes@[m + 1],
            forall|m: int, o: int|
                0 <= m < l2 - 1 && 0 <= o < layers@[m].weights@.len()
                    ==> (#[trigger] layers@[m].weights@[o])@.len() == sizes@[m],
            layers_params(layers@, l2 - 1) == params@.subrange(0, pos as int),
        decreases k - l2,
    {
        let in_w = sizes[l2 - 1];
        let out_w = sizes[l2];
        let ghost layer_base = pos as int;
        proof {
            lemma_count_params_mono(sizes@, l2 + 1, k as int);
            assert(count_params(sizes@, l2 + 1) == count_params(sizes@, l2 as int) + sizes@[l2
                - 1] * sizes@[l2 as int] + sizes@[l2 as int]);
            assert((out_w as int) * (in_w as int) == (sizes@[l2 - 1] as int) * (
            sizes@[l2 as int] as int)) by (nonlinear_arith)
                requires
                    in_w == sizes@[l2 - 1],
                    out_w == sizes@[l2 as int],
            ;
        }
        let mut weights: Vec<Vec<i64>> = Vec::new();
        let mut o: usize = 0;
        while o < out_w
            invariant
                o <= out_w,
                in_w == sizes@[l2 - 1],
                out_w == sizes@[l2 as int],
                1 <= in_w <= 255,
                1 <= out_w <= 255,
                params@.len() == count,
                layer_base >= 0,
                pos == layer_base + o * in_w,
                layer_base + out_w * in_w + out_w <= count,
                weights@.len() == o,
                forall|oo: int| 0 <= oo < o ==> (#[trigger] weights@[oo])@.len() == in_w,
                rows_flat(weights@, o as int) == params@.subrange(layer_base, pos as int),
            decreases out_w - o,
        {
            proof {
                assert((o + 1) * in_w <= out_w * in_w) by (nonlinear_arith)
                    requires
                        o < out_w,
                        in_w >= 0,
                ;
                assert((o + 1) * in_w == o * in_w + in_w) by (nonlinear_arith);
                assert(out_w * in_w >= 0) by (nonlinear_arith)
                    requires
                        out_w >= 0,
                        in_w >= 0,
                ;
            }
            let mut row: Vec<i64> = Vec::new();
            let mut j: usize = 0;
            while j < in_w
                invariant
                    j <= in_w,
                    params@.len() == count,
                    pos == layer_base + o * in_w + j,
                    layer_base + o * in_w + in_w <= count,
                    layer_base >= 0,
                    o * in_w >= 0,
                    row@.len() == j,
                    row@ == params@.subrange(pos - j, pos as int),
                decreases in_w - j,
            {
                row.push(params[pos]);
                pos += 1;
                proof {
                    assert(row@ =~= params@.subrange(pos - j - 1, pos as int));
                }
                j += 1;
            }
            let ghost old_weights = weights@;
            weights.push(row);
            proof {
                lemma_rows_flat_prefix(weights@, old_weights, o as int);
                assert(weights@[o as int]@ == params@.subrange(pos - in_w, pos as int));
                assert(rows_flat(weights@, o + 1) =~= params@.subrange(layer_base, pos as int));
            }
            o += 1;
        }
        let mut biases: Vec<i64> = Vec::new();
        let mut b: usize = 0;
        while b < out_w
            invariant
                b <= out_w,
                params@.len() == count,
                pos == layer_base + out_w * in_w + b,
                layer_base + out_w * in_w + out_w <= count,
                layer_base >= 0,
                out_w * in_w >= 0,
                biases@.len() == b,
                biases@ == params@.subrange(pos - b, pos as int),
            decreases out_w - b,
        {
            biases.push(params[pos]);
            pos += 1;
            proof {
                assert(biases@ =~= params@.subrange(pos - b - 1, pos as int));
            }
            b += 1;
        }
        let ghost old_layers = layers@;
        layers.push(Layer { weights, biases });
        proof {
            lemma_layers_params_prefix(layers@, old_layers, l2 - 1);
            assert(layers@[l2 - 1].weights@ == weights@);
            assert(layers@[l2 - 1].biases@ == biases@);
            assert(layer_params(layers@[l2 - 1]) =~= params@.subrange(layer_base, pos as int));
            assert(layers_params(layers@, l2 as int) =~= params@.subrange(0, pos as int));
        }
        l2 += 1;
    }
    let n = Network { in_width: sizes[0], layers, act };
    proof {
        assert(params@.subrange(0, count as int) =~= params@);
        assert(layers_params(n.layers@, n.layers@.len() as int) == params@);
        assert forall|m: int| 0 <= m < n.layers@.len() implies layer_wf(
            #[trigger] n.layers@[m],
            in_width_of(n, m),
        ) by {
            assert(n.layers@[m].weights@.len() == sizes@[m + 1]);
        }
        assert(n.wf());
        lemma_flat_bytes_len(params@, count as int);
        lemma_flat_matches(params@, bytes@, 2 + k, count as int);
        assert(sizes_seq(n).len() == k);
        assert forall|q: int| 0 <= q < k implies sizes_seq(n)[q] == bytes@[2 + q] by {
            if q == 0 {
                assert(sizes@[0] == bytes@[2]);
            } else {
                assert(n.layers@[q - 1].weights@.len() == sizes@[q]);
            }
        }
        assert(spec_encode(n) =~= bytes@);
        assert(fits(n));
    }
    Ok(n)
}

/// Two concatenations are equal and their first parts have one
/// length: then both parts agree.
pub proof fn lemma_concat_split<T>(a1: Seq<T>, b1: Seq<T>, a2: Seq<T>, b2: Seq<T>)
    requires
        a1.len() == a2.len(),
        a1 + b1 == a2 + b2,
    ensures
        a1 == a2,
        b1 == b2,
{
    assert forall|i: int| 0 <= i < a1.len() implies a1[i] == a2[i] by {
        assert((a1 + b1)[i] == a1[i]);
        assert((a2 + b2)[i] == a2[i]);
    }
    assert(a1 =~= a2);
    assert((a1 + b1).len() == (a2 + b2).len());
    assert((a1 + b1).len() == a1.len() + b1.len());
    assert((a2 + b2).len() == a2.len() + b2.len());
    assert(b1.len() == b2.len());
    assert forall|j: int| 0 <= j < b1.len() implies b1[j] == b2[j] by {
        assert((a1 + b1)[a1.len() + j] == b1[j]);
        assert((a2 + b2)[a2.len() + j] == b2[j]);
    }
    assert(b1 =~= b2);
}

/// The eight-byte encoding determines the parameter.
pub proof fn lemma_le8_injective(a: i64, b: i64)
    requires
        le8(a) == le8(b),
    ensures
        a == b,
{
    lemma_auto_spec_u64_to_from_le_bytes();
    assert(spec_u64_from_le_bytes(spec_u64_to_le_bytes(a as u64)) == a as u64);
    assert(spec_u64_from_le_bytes(spec_u64_to_le_bytes(b as u64)) == b as u64);
    let x = a as u64;
    let y = b as u64;
    assert(x == y ==> x as i64 == y as i64);
    assert((x as i64) == a) by (bit_vector)
        requires
            x == a as u64,
    ;
    assert((y as i64) == b) by (bit_vector)
        requires
            y == b as u64,
    ;
}

/// The byte string of a parameter list determines every parameter.
pub proof fn lemma_flat_bytes_injective(ps1: Seq<i64>, ps2: Seq<i64>, n: int)
    requires
        n >= 0,
        flat_bytes(ps1, n) == flat_bytes(ps2, n),
    ensures
        forall|q: int| 0 <= q < n ==> ps1[q] == ps2[q],
    decreases n,
{
    if n > 0 {
        lemma_flat_bytes_len(ps1, n - 1);
        lemma_flat_bytes_len(ps2, n - 1);
        lemma_concat_split(
            flat_bytes(ps1, n - 1),
            le8(ps1[n - 1]),
            flat_bytes(ps2, n - 1),
            le8(ps2[n - 1]),
        );
        lemma_le8_injective(ps1[n - 1], ps2[n - 1]);
        lemma_flat_bytes_injective(ps1, ps2, n - 1);
    }
}

/// Row lists with pairwise equal row lengths flatten to equal
/// lengths.
pub proof fn lemma_rows_flat_len_eq(ws1: Seq<Vec<i64>>, ws2: Seq<Vec<i64>>, n: int)
    requires
        0 <= n <= ws1.len(),
        n <= ws2.len(),
        forall|o: int| 0 <= o < n ==> (#[trigger] ws1[o])@.len() == ws2[o]@.len(),
    ensures
        rows_flat(ws1, n).len() == rows_flat(ws2, n).len(),
    decreases n,
{
    if n > 0 {
        lemma_rows_flat_len_eq(ws1, ws2, n - 1);
    }
}

/// Equal flattened rows of pairwise equal lengths are equal row by
/// row.
pub proof fn lemma_rows_flat_injective(ws1: Seq<Vec<i64>>, ws2: Seq<Vec<i64>>, n: int)
    requires
        0 <= n <= ws1.len(),
        n <= ws2.len(),
        forall|o: int| 0 <= o < n ==> (#[trigger] ws1[o])@.len() == ws2[o]@.len(),
        rows_flat(ws1, n) == rows_flat(ws2, n),
    ensures
        forall|o: int| 0 <= o < n ==> (#[trigger] ws1[o])@ == ws2[o]@,
    decreases n,
{
    if n > 0 {
        lemma_rows_flat_len_eq(ws1, ws2, n - 1);
        lemma_concat_split(rows_flat(ws1, n - 1), ws1[n - 1]@, rows_flat(ws2, n - 1), ws2[n - 1]@);
        lemma_rows_flat_injective(ws1, ws2, n - 1);
    }
}

/// Equal parameter lists over equal topologies are equal parameter by
/// parameter.
pub proof fn lemma_layers_params_injective(ls1: Seq<Layer>, ls2: Seq<Layer>, n: int)
    requires
        0 <= n <= ls1.len(),
        n <= ls2.len(),
        forall|l: int|
            0 <= l < n ==> (#[trigger] ls1[l]).weights@.len() == ls2[l].weights@.len(),
        forall|l: int| 0 <= l < n ==> (#[trigger] ls1[l]).biases@.len() == ls1[l].weights@.len(),
        forall|l: int| 0 <= l < n ==> (#[trigger] ls2[l]).biases@.len() == ls2[l].weights@.len(),
        forall|l: int, o: int|
            0 <= l < n && 0 <= o < ls1[l].weights@.len() ==> (#[trigger] ls1[l].weights@[o])@.len()
                == ls2[l].weights@[o]@.len(),
        layers_params(ls1, n) == layers_params(ls2, n),
    ensures
        forall|l: int, o: int|
            0 <= l < n && 0 <= o < ls1[l].weights@.len() ==> (#[trigger] ls1[l].weights@[o])@
                == ls2[l].weights@[o]@,
        forall|l: int| 0 <= l < n ==> (#[trigger] ls1[l]).biases@ == ls2[l].biases@,
    decreases n,
{
    if n > 0 {
        let w1 = ls1[n - 1].weights@;
        let w2 = ls2[n - 1].weights@;
        assert forall|o: int| 0 <= o < w1.len() implies (#[trigger] w1[o])@.len() == w2[o]@.len()
            by {
            assert(ls1[n - 1].weights@[o]@.len() == ls2[n - 1].weights@[o]@.len());
        }
        lemma_rows_flat_len_eq(w1, w2, w1.len() as int);
        assert(layer_params(ls1[n - 1]).len() == layer_params(ls2[n - 1]).len());
        assert(layers_params(ls1, n) == layers_params(ls1, n - 1) + layer_params(ls1[n - 1]));
        assert(layers_params(ls2, n) == layers_params(ls2, n - 1) + layer_params(ls2[n - 1]));
        assert((layers_params(ls1, n - 1) + layer_params(ls1[n - 1])).len() == layers_params(
            ls1,
            n - 1,
        ).len() + layer_params(ls1[n - 1]).len());
        assert((layers_params(ls2, n - 1) + layer_params(ls2[n - 1])).len() == layers_params(
            ls2,
            n - 1,
        ).len() + layer_params(ls2[n - 1]).len());
        assert(layers_params(ls1, n - 1).len() == layers_params(ls2, n - 1).len());
        lemma_concat_split(
            layers_params(ls1, n - 1),
            layer_params(ls1[n - 1]),
            layers_params(ls2, n - 1),
            layer_params(ls2[n - 1]),
        ) ;
        lemma_concat_split(
            rows_flat(w1, w1.len() as int),
            ls1[n - 1].biases@,
            rows_flat(w2, w2.len() as int),
            ls2[n - 1].biases@,
        ) ;
        lemma_rows_flat_injective(w1, w2, w1.len() as int);
        lemma_layers_params_injective(ls1, ls2, n - 1);
    }
}

/// Forward passes agree on networks whose views agree.
pub proof fn lemma_forward_congruent(m: Network, n: Network, x: Seq<i64>, i: int)
    requires
        m.act == n.act,
        m.layers@.len() == n.layers@.len(),
        forall|l: int|
            0 <= l < m.layers@.len() ==> (#[trigger] m.layers@[l]).weights@.len()
                == n.layers@[l].weights@.len(),
        forall|l: int, o: int|
            0 <= l < m.layers@.len() && 0 <= o < m.layers@[l].weights@.len()
                ==> (#[trigger] m.layers@[l].weights@[o])@ == n.layers@[l].weights@[o]@,
        forall|l: int| 0 <= l < m.layers@.len() ==> (#[trigger] m.layers@[l]).biases@
            == n.layers@[l].biases@,
    ensures
        forward_from(m, x, i) == forward_from(n, x, i),
    decreases m.layers@.len() - i,
{
    if 0 <= i && i < m.layers@.len() {
        let lm = m.layers@[i];
        let ln = n.layers@[i];
        assert forall|o: int| 0 <= o < lm.weights@.len() implies act_apply(
            m.act,
            neuron_pre(lm, x, o),
        ) == act_apply(n.act, neuron_pre(ln, x, o)) by {
            assert(lm.weights@[o]@ == ln.weights@[o]@);
            assert(lm.biases@ == ln.biases@);
        }
        assert(layer_out(lm, x, m.act) =~= layer_out(ln, x, n.act));
        lemma_forward_congruent(m, n, layer_out(lm, x, m.act), i + 1);
    }
}

/// Round-trip law: two well-formed, fitting networks with one and the
/// same snapshot byte string share their activation family, topology
/// and every parameter, and compute the same forward output on every
/// input.  With the contracts of `encode` and `decode`, decoding an
/// encoded network therefore yields one that evaluates exactly as the
/// original.
pub proof fn lemma_snapshot_round_trip(m: Network, n: Network, x: Seq<i64>)
    requires
        m.wf(),
        fits(m),
        n.wf(),
        fits(n),
        spec_encode(m) == spec_encode(n),
    ensures
        m.act == n.act,
        m.in_width == n.in_width,
        m.layers@.len() == n.layers@.len(),
        crate::network::spec_calc(m, x) == crate::network::spec_calc(n, x),
{
    lemma_encode_shape(m);
    lemma_encode_shape(n);
    let km = m.layers@.len() + 1;
    let kn = n.layers@.len() + 1;
    assert(spec_encode(m)[1] == km as u8);
    assert(spec_encode(n)[1] == kn as u8);
    assert(km == kn);
    assert(spec_encode(m)[0] == act_tag(m.act));
    assert(m.act == n.act);
    assert forall|q: int| 0 <= q < km implies sizes_seq(m)[q] == sizes_seq(n)[q] by {
        assert(spec_encode(m)[2 + q] == sizes_seq(m)[q]);
        assert(spec_encode(n)[2 + q] == sizes_seq(n)[q]);
    }
    assert(sizes_seq(m)[0] == sizes_seq(n)[0]);
    assert(m.in_width as u8 == n.in_width as u8);
    assert(m.in_width == n.in_width);
    assert forall|l: int| 0 <= l < m.layers@.len() implies (#[trigger] m.layers@[l]).weights@.len()
        == n.layers@[l].weights@.len() by {
        assert(sizes_seq(m)[l + 1] == sizes_seq(n)[l + 1]);
    }
    let pm = layers_params(m.layers@, m.layers@.len() as int);
    let pn = layers_params(n.layers@, n.layers@.len() as int);
    assert(spec_encode(m).len() == spec_encode(n).len());
    assert(pm.len() == pn.len());
    lemma_concat_split(
        seq![act_tag(m.act), km as u8] + sizes_seq(m),
        flat_bytes(pm, pm.len() as int),
        seq![act_tag(n.act), kn as u8] + sizes_seq(n),
        flat_bytes(pn, pn.len() as int),
    );
    assert(layers_params(m.layers@, m.layers@.len() as int) =~= layers_params(
        n.layers@,
        n.layers@.len() as int,
    )) by {
        lemma_flat_bytes_injective(pm, pn, pm.len() as int);
    }
    assert forall|l: int, o: int|
        0 <= l < m.layers@.len() && 0 <= o < m.layers@[l].weights@.len() implies (
    #[trigger] m.layers@[l].weights@[o])@.len() == n.layers@[l].weights@[o]@.len() by {
        assert(layer_wf(m.layers@[l], in_width_of(m, l)));
        assert(layer_wf(n.layers@[l], in_width_of(n, l)));
        if l == 0 {
        } else {
            assert(m.layers@[l - 1].weights@.len() == n.layers@[l - 1].weights@.len());
        }
    }
    lemma_layers_params_injective(m.layers@, n.layers@, m.layers@.len() as int);
    lemma_forward_congruent(m, n, x, 0);
}

/// Consecutive eight-byte chunks that each encode one parameter
/// concatenate to the byte range they were read from.
pub proof fn lemma_flat_matches(ps: Seq<i64>, bytes: Seq<u8>, base: int, n: int)
    requires
        n >= 0,
        base >= 0,
        base + 8 * n <= bytes.len(),
        forall|q: int|
            0 <= q < n ==> le8(#[trigger] ps[q]) == bytes.subrange(base + 8 * q, base + 8 * q + 8),
    ensures
        flat_bytes(ps, n) == bytes.subrange(base, base + 8 * n),
    decreases n,
{
    if n > 0 {
        lemma_flat_matches(ps, bytes, base, n - 1);
        lemma_flat_bytes_len(ps, n - 1);
        assert(bytes.subrange(base, base + 8 * n) =~= bytes.subrange(base, base + 8 * (n - 1))
            + bytes.subrange(base + 8 * (n - 1), base + 8 * n));
        assert(flat_bytes(ps, n) =~= bytes.subrange(base, base + 8 * n));
    }
}

} // verus!
