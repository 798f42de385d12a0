//! The multilayer network: an ordered stack of affine layers in which each
//! layer's output width equals the next layer's input width (the chaining
//! invariant), built from a list of layer sizes and a scalar source, with
//! a strictly sequential forward pass.

use crate::codec::DecodeError;
use crate::codec::all_cells;
use crate::codec::cells_len;
use crate::codec::encoding;
use crate::codec::header_len;
use crate::codec::layer_sizes_bytes;
use crate::codec::le32_seq;
use crate::codec::le64;
use crate::codec::lemma_all_cells_len;
use crate::codec::lemma_cells_determine;
use crate::codec::lemma_encoding_regions;
use crate::codec::lemma_le32_seq_append;
use crate::codec::lemma_le32_seq_injective;
use crate::codec::lemma_le64_injective;
use crate::codec::lemma_le32_seq_len;
use crate::codec::lemma_layer_sizes_bytes_len;
use crate::codec::lemma_sizes_bytes_from_pointwise;
use crate::codec::push_cells;
use crate::codec::push_u64;
use crate::codec::read_cells;
use crate::codec::read_u64;
use crate::layer::Layer;
use crate::layer::LayerView;
use crate::layer::built_layer;
use crate::layer::layer_apply;
use crate::layer::lemma_built_layer_congruence;
use crate::matrix::Matrix;
use crate::source::ScalarSource;
use vstd::prelude::*;

verus! {

/// The chaining invariant over a stack of layers: every layer is
/// well-formed and consecutive layers agree on their shared width.
pub open spec fn wf_layers(ls: Seq<LayerView>) -> bool {
    &&& ls.len() <= usize::MAX
    &&& forall|i: int| 0 <= i < ls.len() ==> (#[trigger] ls[i]).wf()
    &&& forall|i: int|
        0 <= i && i + 1 < ls.len() ==> (#[trigger] ls[i]).output_size() == ls[i + 1].input_size()
}

/// The number of scalars one layer draws from the source: its weights,
/// then its biases.
pub open spec fn layer_params(input_size: nat, output_size: nat) -> nat {
    output_size * input_size + output_size
}

/// The number of scalars the layers before layer `i` draw from the source.
pub open spec fn params_before(sizes: Seq<usize>, i: int) -> nat
    decreases i,
{
    if i <= 0 {
        0
    } else {
        params_before(sizes, i - 1) + layer_params(sizes[i - 1] as nat, sizes[i] as nat)
    }
}

/// The number of scalars a whole network built from `sizes` draws.
pub open spec fn params_needed(sizes: Seq<usize>) -> nat {
    params_before(sizes, sizes.len() - 1)
}

/// The prefix sums of drawn scalars grow with the layer index.
proof fn lemma_params_before_monotone(sizes: Seq<usize>, i: int, j: int)
    requires
        0 <= i <= j,
    ensures
        params_before(sizes, i) <= params_before(sizes, j),
    decreases j,
{
    if i < j {
        lemma_params_before_monotone(sizes, i, j - 1);
    }
}

/// The source stream `vals`, skipping its first `k` values.
pub open spec fn shifted(vals: spec_fn(nat) -> u32, k: nat) -> spec_fn(nat) -> u32 {
    |i: nat| vals(i + k)
}

/// The stack of layers that construction from `sizes` and the source
/// stream `vals` produces: layer `i` maps width `sizes[i]` to width
/// `sizes[i + 1]` and draws its scalars right after the layers before it.
pub open spec fn built_network(ls: Seq<LayerView>, sizes: Seq<usize>, vals: spec_fn(nat) -> u32) -> bool {
    &&& ls.len() == sizes.len() - 1
    &&& forall|i: int|
        0 <= i < ls.len() ==> #[trigger] ls[i] == built_layer(
            sizes[i] as nat,
            sizes[i + 1] as nat,
            shifted(vals, params_before(sizes, i)),
        )
}

/// Two equal source streams build identical networks from the same sizes.
/// This is the determinism of construction: the sizes and the stream of
/// scalars fix every weight and bias.
pub proof fn lemma_build_deterministic(
    l1: Seq<LayerView>,
    l2: Seq<LayerView>,
    sizes: Seq<usize>,
    v1: spec_fn(nat) -> u32,
    v2: spec_fn(nat) -> u32,
)
    requires
        built_network(l1, sizes, v1),
        built_network(l2, sizes, v2),
        forall|i: nat| #[trigger] v1(i) == v2(i),
    ensures
        l1 == l2,
{
    assert forall|i: int| 0 <= i < l1.len() implies l1[i] == l2[i] by {
        let k = params_before(sizes, i);
        assert(forall|j: nat| #[trigger] shifted(v1, k)(j) == shifted(v2, k)(j));
        lemma_built_layer_congruence(
            sizes[i] as nat,
            sizes[i + 1] as nat,
            shifted(v1, k),
            shifted(v2, k),
        );
    }
    assert(l1 =~= l2);
}

/// What the forward pass returns: the input threaded through each layer
/// in order, front to back.
pub open spec fn forward_spec(ls: Seq<LayerView>, v: Seq<u32>) -> Seq<u32>
    decreases ls.len(),
{
    if ls.len() == 0 {
        v
    } else {
        forward_spec(ls.drop_first(), layer_apply(ls[0], v))
    }
}

/// The forward pass of a non-empty stack returns the last layer's output
/// width; an empty stack returns its input.
pub proof fn lemma_forward_spec_len(ls: Seq<LayerView>, v: Seq<u32>)
    ensures
        forward_spec(ls, v).len() == if ls.len() == 0 {
            v.len()
        } else {
            ls.last().output_size()
        },
    decreases ls.len(),
{
    if ls.len() > 0 {
        lemma_forward_spec_len(ls.drop_first(), layer_apply(ls[0], v));
    }
}

/// A feed-forward network: an ordered stack of affine layers.
#[derive(Clone, Debug, PartialEq)]
pub struct MultilayerSingleton {
    layers: Vec<Layer>,
}

impl View for MultilayerSingleton {
    type V = Seq<LayerView>;

    closed spec fn view(&self) -> Seq<LayerView> {
        self.layers@.map_values(|l: Layer| l@)
    }
}

impl MultilayerSingleton {
    /// The chaining invariant of this network.
    pub open spec fn wf(&self) -> bool {
        wf_layers(self@)
    }

    /// How many layers the network has.
    pub fn layer_count(&self) -> (n: usize)
        ensures
            n == self@.len(),
    {
        self.layers.len()
    }

    /// The layer at the given position.
    pub fn layer_at(&self, i: usize) -> (l: &Layer)
        requires
            i < self@.len(),
        ensures
            l@ == self@[i as int],
    {
        &self.layers[i]
    }

    /// Builds a network from a list of at least two layer sizes: one layer
    /// per adjacent pair, each drawing from the shared source in
    /// construction order (a layer's weights, then its biases, then the
    /// next layer).
    #[verifier::loop_isolation(false)]
    pub fn new<G: ScalarSource>(layer_sizes: Vec<usize>, g: &mut G) -> (net: MultilayerSingleton)
        requires
            layer_sizes@.len() >= 2,
            forall|i: int|
                0 <= i && i + 1 < layer_sizes@.len() ==> #[trigger] layer_params(
                    layer_sizes@[i] as nat,
                    layer_sizes@[i + 1] as nat,
                ) <= usize::MAX,
            old(g).ready(params_needed(layer_sizes@)),
        ensures
            built_network(net@, layer_sizes@, |i: nat| old(g).at((old(g).taken() + i) as nat)),
            net.wf(),
            net@.len() == layer_sizes@.len() - 1,
            final(g).taken() == old(g).taken() + params_needed(layer_sizes@),
            forall|i: nat| final(g).at(i) == old(g).at(i),
            forall|n: nat|
                old(g).ready(n + params_needed(layer_sizes@)) ==> final(g).ready(n),
    {
        let ghost g0 = *g;
        let ghost vals = |i: nat| g0.at((g0.taken() + i) as nat);
        let count: usize = layer_sizes.len() - 1;
        let mut layers: Vec<Layer> = Vec::new();
        let mut i: usize = 0;
        while i < count
            invariant
                count == layer_sizes@.len() - 1,
                i <= count,
                layers@.len() == i,
                g.taken() == g0.taken() + params_before(layer_sizes@, i as int),
                forall|j: nat| g.at(j) == g0.at(j),
                forall|n: nat|
                    g0.ready(n + params_before(layer_sizes@, i as int)) ==> g.ready(n),
                forall|j: int|
                    0 <= j < i ==> #[trigger] layers@[j]@ == built_layer(
                        layer_sizes@[j] as nat,
                        layer_sizes@[j + 1] as nat,
                        shifted(vals, params_before(layer_sizes@, j)),
                    ),
                forall|j: int| 0 <= j < i ==> (#[trigger] layers@[j]@).wf(),
                forall|j: int|
                    0 <= j < i ==> (#[trigger] layers@[j]@).input_size() == layer_sizes@[j]
                        && layers@[j]@.output_size() == layer_sizes@[j + 1],
            decreases count - i,
        {
            let input_size: usize = layer_sizes[i];
            let output_size: usize = layer_sizes[i + 1];
            let ghost pb = params_before(layer_sizes@, i as int);
            let ghost lp = layer_params(input_size as nat, output_size as nat);
            proof {
                assert(params_before(layer_sizes@, i + 1) == pb + lp);
                lemma_params_before_monotone(layer_sizes@, i + 1, layer_sizes@.len() - 1);
                g0.ready_weaken(pb + lp, params_needed(layer_sizes@));
            }
            let ghost g_pre = *g;
            let l = Layer::new(input_size, output_size, g);
            proof {
                let stream_pre = |k: nat| g_pre.at((g_pre.taken() + k) as nat);
                assert(forall|k: nat| #[trigger] stream_pre(k) == shifted(vals, pb)(k));
                lemma_built_layer_congruence(
                    input_size as nat,
                    output_size as nat,
                    stream_pre,
                    shifted(vals, pb),
                );
            }
            layers.push(l);
            i = i + 1;
        }
        let net = MultilayerSingleton { layers };
        proof {
            assert(net@.len() == count);
            assert forall|j: int| 0 <= j < net@.len() implies #[trigger] net@[j] == built_layer(
                layer_sizes@[j] as nat,
                layer_sizes@[j + 1] as nat,
                shifted(vals, params_before(layer_sizes@, j)),
            ) by {
                assert(net@[j] == layers@[j]@);
            }
            assert forall|j: int| 0 <= j && j + 1 < net@.len() implies (
            #[trigger] net@[j]).output_size() == net@[j + 1].input_size() by {
                assert(layers@[j]@.output_size() == layer_sizes@[j + 1]);
                assert(layers@[j + 1]@.input_size() == layer_sizes@[j + 1]);
            }
        }
        net
    }

    /// Threads a column vector through each layer in order and returns the
    /// final column vector's cells.
    #[verifier::loop_isolation(false)]
    pub fn forward(&self, input: Vec<u32>) -> (out: Vec<u32>)
        requires
            self.wf(),
            self@.len() > 0 ==> input@.len() == self@[0].input_size(),
        ensures
            out@ == forward_spec(self@, input@),
            self@.len() > 0 ==> out@.len() == self@.last().output_size(),
    {
        let ghost whole = self@;
        let ghost input0 = input@;
        let n: usize = input.len();
        let mut current: Matrix = Matrix::new(n, 1, input);
        let count: usize = self.layers.len();
        let mut i: usize = 0;
        proof {
            assert(whole.skip(0) =~= whole);
        }
        while i < count
            invariant
                count == whole.len(),
                i <= count,
                current@.wf(),
                current@.cols == 1,
                current@.data.len() == current@.rows,
                i < count ==> current@.rows == whole[i as int].input_size(),
                forward_spec(whole.skip(i as int), current@.data) == forward_spec(whole, input0),
            decreases count - i,
        {
            let ghost before = current@.data;
            let next = self.layers[i].forward(&current);
            current = next;
            proof {
                assert(self.layers@[i as int]@ == whole[i as int]);
                assert(whole.skip(i as int).drop_first() =~= whole.skip(i + 1));
                assert(whole.skip(i as int)[0] == whole[i as int]);
                assert(forward_spec(whole.skip(i as int), before) == forward_spec(
                    whole.skip(i + 1),
                    layer_apply(whole[i as int], before),
                ));
                if i + 1 < count {
                    assert(whole[i as int].output_size() == whole[i + 1].input_size());
                }
            }
            i = i + 1;
        }
        proof {
            assert(whole.skip(count as int) =~= Seq::<LayerView>::empty());
            if whole.len() > 0 {
                lemma_forward_spec_len(whole, input0);
            }
        }
        current.data
    }
}

/// The number of scalars construction from `sizes` would draw, where that
/// number fits in `usize`.
#[verifier::loop_isolation(false)]
pub fn params_needed_checked(sizes: &Vec<usize>) -> (r: Option<usize>)
    ensures
        r matches Some(n) ==> n == params_needed(sizes@),
        params_needed(sizes@) <= usize::MAX ==> r is Some,
{
    let n = sizes.len();
    if n == 0 {
        return Some(0);
    }
    let mut total: usize = 0;
    let mut i: usize = 0;
    while i < n - 1
        invariant
            i <= n - 1,
            total == params_before(sizes@, i as int),
        decreases n - 1 - i,
    {
        let wi128: u128 = sizes[i] as u128;
        let wo128: u128 = sizes[i + 1] as u128;
        proof {
            vstd::arithmetic::mul::lemma_mul_upper_bound(
                wo128 as int,
                0xffff_ffff_ffff_ffff,
                wi128 as int,
                0xffff_ffff_ffff_ffff,
            );
        }
        let c: u128 = wo128 * wi128 + wo128;
        if c > usize::MAX as u128 || (total as u128) + c > usize::MAX as u128 {
            proof {
                lemma_params_before_monotone(sizes@, i + 1, n - 1);
            }
            return None;
        }
        total = total + (c as usize);
        i = i + 1;
    }
    Some(total)
}

/// For layers whose shapes follow a widths list, the total cell count is
/// the scalar count that construction from those widths would draw.
proof fn lemma_cells_len_params(ls: Seq<LayerView>, sizes: Seq<usize>)
    requires
        ls.len() < sizes.len(),
        forall|j: int|
            0 <= j < ls.len() ==> (#[trigger] ls[j]).input_size() == sizes[j]
                && ls[j].output_size() == sizes[j + 1],
    ensures
        cells_len(ls) == params_before(sizes, ls.len() as int),
    decreases ls.len(),
{
    if ls.len() > 0 {
        let t = ls.drop_last();
        assert(forall|j: int| 0 <= j < t.len() ==> t[j] == ls[j]);
        lemma_cells_len_params(t, sizes);
        assert(ls.last() == ls[ls.len() - 1]);
    }
}

/// What a well-formed stack whose encoding is `bytes` must look like,
/// given the widths already read back from `bytes`.
proof fn lemma_candidate_matches_sizes(ls: Seq<LayerView>, bytes: Seq<u8>, szs: Seq<usize>)
    requires
        wf_layers(ls),
        encoding(ls) == bytes,
        ls.len() > 0,
        szs.len() <= ls.len() + 1,
        forall|t: int|
            0 <= t < szs.len() ==> le64((#[trigger] szs[t]) as u64) == bytes.subrange(
                8 + 8 * t,
                16 + 8 * t,
            ),
    ensures
        szs.len() > 0 ==> szs[0] == ls[0].input_size(),
        forall|j: int| 0 <= j < szs.len() - 1 ==> szs[j + 1] == (#[trigger] ls[j]).output_size(),
{
    lemma_encoding_regions(ls, bytes);
    if szs.len() > 0 {
        assert(bytes.subrange(8, 16) == le64(ls[0].input_size() as u64));
        lemma_le64_injective(szs[0] as u64, ls[0].input_size() as u64);
    }
    assert forall|j: int|
        0 <= j < szs.len() - 1 implies szs[j + 1] == (#[trigger] ls[j]).output_size() by {
        assert(bytes.subrange(16 + 8 * j, 24 + 8 * j) == le64(ls[j].output_size() as u64));
        assert(le64(szs[j + 1] as u64) == bytes.subrange(8 + 8 * (j + 1), 16 + 8 * (j + 1)));
        assert(bytes.subrange(8 + 8 * (j + 1), 16 + 8 * (j + 1)) =~= bytes.subrange(
            16 + 8 * j,
            24 + 8 * j,
        ));
        lemma_le64_injective(szs[j + 1] as u64, ls[j].output_size() as u64);
        assert(ls[j].wf());
    }
}

/// A well-formed stack's encoding pins the layer count in the first word.
proof fn lemma_candidate_count(ls: Seq<LayerView>, bytes: Seq<u8>, count64: u64)
    requires
        wf_layers(ls),
        encoding(ls) == bytes,
        le64(count64) == bytes.subrange(0, 8),
    ensures
        ls.len() == count64,
{
    lemma_encoding_regions(ls, bytes);
    lemma_le64_injective(count64, ls.len() as u64);
}

/// The shapes a well-formed stack whose encoding is `bytes` must have,
/// given the widths read back from `bytes`.
#[verifier::rlimit(100)]
proof fn lemma_candidate_shapes(ls: Seq<LayerView>, bytes: Seq<u8>, szs: Seq<usize>, count: usize)
    requires
        wf_layers(ls),
        encoding(ls) == bytes,
        count > 0,
        ls.len() == count,
        szs.len() == count + 1,
        forall|t: int|
            0 <= t < szs.len() ==> le64((#[trigger] szs[t]) as u64) == bytes.subrange(
                8 + 8 * t,
                16 + 8 * t,
            ),
    ensures
        forall|j: int|
            0 <= j < ls.len() ==> (#[trigger] ls[j]).input_size() == szs[j]
                && ls[j].output_size() == szs[j + 1],
{
    lemma_candidate_matches_sizes(ls, bytes, szs);
    assert forall|j: int|
        0 <= j < ls.len() implies (#[trigger] ls[j]).input_size() == szs[j]
        && ls[j].output_size() == szs[j + 1] by {
        assert(szs[j + 1] == ls[j].output_size());
        if j > 0 {
            let i0 = j - 1;
            assert(szs[i0 + 1] == ls[i0].output_size());
            assert(ls[i0].output_size() == ls[i0 + 1].input_size());
            assert(ls[i0 + 1] == ls[j]);
        }
    }
}

/// The length accounting a well-formed stack whose encoding is `bytes`
/// must satisfy, once its shapes are known to follow the widths.
#[verifier::rlimit(100)]
proof fn lemma_candidate_full(ls: Seq<LayerView>, bytes: Seq<u8>, szs: Seq<usize>, count: usize)
    requires
        wf_layers(ls),
        encoding(ls) == bytes,
        count > 0,
        ls.len() == count,
        szs.len() == count + 1,
        forall|j: int|
            0 <= j < ls.len() ==> (#[trigger] ls[j]).input_size() == szs[j]
                && ls[j].output_size() == szs[j + 1],
    ensures
        cells_len(ls) == params_before(szs, count as int),
        all_cells(ls).len() == cells_len(ls),
        bytes.len() == 16 + 8 * (count as int) + 4 * cells_len(ls),
        le32_seq(all_cells(ls)) == bytes.subrange(16 + 8 * (count as int), bytes.len() as int),
{
    lemma_encoding_regions(ls, bytes);
    lemma_cells_len_params(ls, szs);
    lemma_all_cells_len(ls);
    assert(header_len(ls.len() as int) == 16 + 8 * (count as int));
}

/// A stack whose widths and cells were read back from the regions of a
/// buffer re-encodes to exactly that buffer.
proof fn lemma_assemble_encoding(
    nls: Seq<LayerView>,
    bytes: Seq<u8>,
    szs: Seq<usize>,
    count: usize,
)
    requires
        count > 0,
        nls.len() == count,
        szs.len() == count + 1,
        bytes.len() >= 16 + 8 * (count as int),
        le64(count as u64) == bytes.subrange(0, 8),
        forall|t: int|
            0 <= t < szs.len() ==> le64((#[trigger] szs[t]) as u64) == bytes.subrange(
                8 + 8 * t,
                16 + 8 * t,
            ),
        forall|j: int|
            0 <= j < nls.len() ==> (#[trigger] nls[j]).wf() && nls[j].input_size() == szs[j]
                && nls[j].output_size() == szs[j + 1],
        le32_seq(all_cells(nls)) == bytes.subrange(16 + 8 * (count as int), bytes.len() as int),
    ensures
        encoding(nls) == bytes,
{
    let header: int = 16 + 8 * (count as int);
    assert forall|j: int|
        0 <= j < nls.len() implies bytes.subrange(16 + 8 * j, 16 + 8 * j + 8) == le64(
        (#[trigger] nls[j]).output_size() as u64,
    ) by {
        assert(le64(szs[j + 1] as u64) == bytes.subrange(8 + 8 * (j + 1), 16 + 8 * (j + 1)));
        assert(bytes.subrange(16 + 8 * j, 16 + 8 * j + 8) =~= bytes.subrange(
            8 + 8 * (j + 1),
            16 + 8 * (j + 1),
        ));
    }
    lemma_sizes_bytes_from_pointwise(nls, bytes, 16);
    lemma_layer_sizes_bytes_len(nls);
    lemma_le32_seq_len(all_cells(nls));
    assert(encoding(nls).len() == bytes.len());
    assert forall|p: int| 0 <= p < bytes.len() implies encoding(nls)[p] == bytes[p] by {
        if p < 8 {
            assert(bytes.subrange(0, 8)[p] == bytes[p]);
        } else if p < 16 {
            assert(le64(szs[0] as u64) == bytes.subrange(8, 16));
            assert(bytes.subrange(8, 16)[p - 8] == bytes[p]);
        } else if p < header {
            assert(layer_sizes_bytes(nls)[p - 16] == bytes.subrange(16, header)[p - 16]);
            assert(bytes.subrange(16, header)[p - 16] == bytes[p]);
        } else {
            assert(le32_seq(all_cells(nls))[p - header] == bytes.subrange(
                header,
                bytes.len() as int,
            )[p - header]);
            assert(bytes.subrange(header, bytes.len() as int)[p - header] == bytes[p]);
        }
    }
    assert(encoding(nls) =~= bytes);
}

impl MultilayerSingleton {
    /// Encodes the network's full parameter tree as one contiguous byte
    /// buffer: the widths first, then every cell of every layer, each
    /// layer's weights before its biases.
    #[verifier::rlimit(100)]
    pub fn to_bytes(&self) -> (out: Vec<u8>)
        requires
            self.wf(),
        ensures
            out@ == encoding(self@),
    {
        let ghost whole = self@;
        let count: usize = self.layers.len();
        let mut out: Vec<u8> = Vec::new();
        push_u64(&mut out, count as u64);
        if count > 0 {
            proof {
                assert(self.layers@[0]@ == whole[0]);
            }
            push_u64(&mut out, self.layers[0].weights().cols as u64);
        }
        let ghost head = out@;
        proof {
            assert(out@ =~= head + layer_sizes_bytes(whole.take(0)));
        }
        let mut i: usize = 0;
        while i < count
            invariant
                whole == self@,
                count == whole.len(),
                count == self.layers@.len(),
                i <= count,
                out@ == head + layer_sizes_bytes(whole.take(i as int)),
            decreases count - i,
        {
            proof {
                assert(self.layers@[i as int]@ == whole[i as int]);
            }
            push_u64(&mut out, self.layers[i].weights().rows as u64);
            proof {
                assert(whole.take(i + 1).drop_last() =~= whole.take(i as int));
                assert(whole.take(i + 1).last() == whole[i as int]);
                assert(out@ =~= head + layer_sizes_bytes(whole.take(i + 1)));
            }
            i = i + 1;
        }
        proof {
            assert(whole.take(count as int) =~= whole);
        }
        let ghost head2 = out@;
        proof {
            assert(out@ =~= head2 + le32_seq(all_cells(whole.take(0))));
        }
        let mut j: usize = 0;
        while j < count
            invariant
                whole == self@,
                count == whole.len(),
                count == self.layers@.len(),
                j <= count,
                out@ == head2 + le32_seq(all_cells(whole.take(j as int))),
            decreases count - j,
        {
            proof {
                assert(self.layers@[j as int]@ == whole[j as int]);
            }
            push_cells(&mut out, &self.layers[j].weights().data);
            push_cells(&mut out, &self.layers[j].biases().data);
            proof {
                let t = whole.take(j as int);
                let t1 = whole.take(j + 1);
                assert(t1.drop_last() =~= t);
                assert(t1.last() == whole[j as int]);
                lemma_le32_seq_append(all_cells(t), whole[j as int].weights.data);
                lemma_le32_seq_append(
                    all_cells(t) + whole[j as int].weights.data,
                    whole[j as int].biases.data,
                );
                assert(out@ =~= head2 + le32_seq(all_cells(t1)));
            }
            j = j + 1;
        }
        proof {
            assert(whole.take(count as int) =~= whole);
            assert(out@ =~= encoding(whole));
        }
        out
    }

    /// Decodes a byte buffer produced by `to_bytes`. Succeeds exactly on
    /// the encodings of well-formed networks: on success the decoded
    /// network is well-formed and re-encodes to the input bytes, and every
    /// well-formed network whose encoding is the input is what is
    /// returned; any other buffer — truncated, padded, or with corrupted
    /// widths — is rejected.
    #[verifier::rlimit(100)]
    pub fn from_bytes(bytes: &Vec<u8>) -> (r: Result<MultilayerSingleton, DecodeError>)
        ensures
            r is Ok ==> r->Ok_0.wf() && encoding(r->Ok_0@) == bytes@,
            forall|ls: Seq<LayerView>|
                wf_layers(ls) && #[trigger] encoding(ls) == bytes@ ==> r is Ok && r->Ok_0@ == ls,
    {
        let total: usize = bytes.len();
        if total < 8 {
            proof {
                assert forall|ls: Seq<LayerView>|
                    !(wf_layers(ls) && #[trigger] encoding(ls) == bytes@) by {
                    if wf_layers(ls) && encoding(ls) == bytes@ {
                        lemma_encoding_regions(ls, bytes@);
                    }
                }
            }
            return Err(DecodeError::Truncated);
        }
        let count64: u64 = read_u64(bytes, 0);
        if count64 > usize::MAX as u64 {
            proof {
                assert forall|ls: Seq<LayerView>|
                    !(wf_layers(ls) && #[trigger] encoding(ls) == bytes@) by {
                    if wf_layers(ls) && encoding(ls) == bytes@ {
                        lemma_candidate_count(ls, bytes@, count64);
                    }
                }
            }
            return Err(DecodeError::Oversized);
        }
        let count: usize = count64 as usize;
        proof {
            assert(count as u64 == count64);
        }
        if count == 0 {
            if total != 8 {
                proof {
                    assert forall|ls: Seq<LayerView>|
                        !(wf_layers(ls) && #[trigger] encoding(ls) == bytes@) by {
                        if wf_layers(ls) && encoding(ls) == bytes@ {
                            lemma_candidate_count(ls, bytes@, count64);
                            lemma_encoding_regions(ls, bytes@);
                        }
                    }
                }
                return Err(DecodeError::LengthMismatch);
            }
            let net = MultilayerSingleton { layers: Vec::new() };
            proof {
                assert(net@ =~= Seq::<LayerView>::empty());
                assert(encoding(net@) =~= bytes@);
                assert forall|ls: Seq<LayerView>|
                    wf_layers(ls) && #[trigger] encoding(ls) == bytes@ implies net@ == ls by {
                    lemma_candidate_count(ls, bytes@, count64);
                    assert(ls =~= net@);
                }
            }
            return Ok(net);
        }
        let need_head: u128 = 16 + 8 * (count as u128);
        if (total as u128) < need_head {
            proof {
                assert forall|ls: Seq<LayerView>|
                    !(wf_layers(ls) && #[trigger] encoding(ls) == bytes@) by {
                    if wf_layers(ls) && encoding(ls) == bytes@ {
                        lemma_candidate_count(ls, bytes@, count64);
                        lemma_encoding_regions(ls, bytes@);
                    }
                }
            }
            return Err(DecodeError::Truncated);
        }
        let w0_64: u64 = read_u64(bytes, 8);
        if w0_64 > usize::MAX as u64 {
            proof {
                assert forall|ls: Seq<LayerView>|
                    !(wf_layers(ls) && #[trigger] encoding(ls) == bytes@) by {
                    if wf_layers(ls) && encoding(ls) == bytes@ {
                        lemma_candidate_count(ls, bytes@, count64);
                        lemma_encoding_regions(ls, bytes@);
                        lemma_le64_injective(w0_64, ls[0].input_size() as u64);
                        assert(ls[0].wf());
                    }
                }
            }
            return Err(DecodeError::Oversized);
        }
        let mut sizes: Vec<usize> = Vec::new();
        sizes.push(w0_64 as usize);
        let mut k: usize = 0;
        while k < count
            invariant
                total == bytes@.len(),
                16 + 8 * (count as int) <= total as int,
                le64(count64) == bytes@.subrange(0, 8),
                count as u64 == count64,
                count > 0,
                k <= count,
                sizes@.len() == k + 1,
                forall|t: int|
                    0 <= t < sizes@.len() ==> le64((#[trigger] sizes@[t]) as u64)
                        == bytes@.subrange(8 + 8 * t, 16 + 8 * t),
            decreases count - k,
        {
            let v64: u64 = read_u64(bytes, 16 + 8 * k);
            proof {
                assert(bytes@.subrange(
                    16 + 8 * (k as int),
                    16 + 8 * (k as int) + 8,
                ) =~= bytes@.subrange(8 + 8 * (k + 1), 16 + 8 * (k + 1)));
            }
            if v64 > usize::MAX as u64 {
                proof {
                    assert forall|ls: Seq<LayerView>|
                        !(wf_layers(ls) && #[trigger] encoding(ls) == bytes@) by {
                        if wf_layers(ls) && encoding(ls) == bytes@ {
                            lemma_candidate_count(ls, bytes@, count64);
                            lemma_encoding_regions(ls, bytes@);
                            lemma_le64_injective(v64, ls[k as int].output_size() as u64);
                            assert(ls[k as int].wf());
                        }
                    }
                }
                return Err(DecodeError::Oversized);
            }
            sizes.push(v64 as usize);
            k = k + 1;
        }
        let ghost szs = sizes@;
        let mut acc: u128 = 0;
        let mut li: usize = 0;
        while li < count
            invariant
                total == bytes@.len(),
                le64(count64) == bytes@.subrange(0, 8),
                count as u64 == count64,
                count > 0,
                li <= count,
                sizes@ == szs,
                szs.len() == count + 1,
                forall|t: int|
                    0 <= t < szs.len() ==> le64((#[trigger] szs[t]) as u64) == bytes@.subrange(
                        8 + 8 * t,
                        16 + 8 * t,
                    ),
                acc <= total as u128,
                acc as nat == params_before(szs, li as int),
            decreases count - li,
        {
            let wi128: u128 = sizes[li] as u128;
            let wo128: u128 = sizes[li + 1] as u128;
            proof {
                vstd::arithmetic::mul::lemma_mul_upper_bound(
                    wo128 as int,
                    0xffff_ffff_ffff_ffff,
                    wi128 as int,
                    0xffff_ffff_ffff_ffff,
                );
            }
            let c: u128 = wo128 * wi128 + wo128;
            proof {
                assert(c as nat == layer_params(szs[li as int] as nat, szs[li + 1] as nat));
                assert(params_before(szs, li + 1) == params_before(szs, li as int) + c as nat);
            }
            if c > total as u128 {
                proof {
                    assert forall|ls: Seq<LayerView>|
                        !(wf_layers(ls) && #[trigger] encoding(ls) == bytes@) by {
                        if wf_layers(ls) && encoding(ls) == bytes@ {
                            lemma_candidate_count(ls, bytes@, count64);
                            lemma_candidate_shapes(ls, bytes@, szs, count);
                            lemma_candidate_full(ls, bytes@, szs, count);
                            lemma_params_before_monotone(szs, li + 1, count as int);
                        }
                    }
                }
                return Err(DecodeError::Oversized);
            }
            acc = acc + c;
            if acc > total as u128 {
                proof {
                    assert forall|ls: Seq<LayerView>|
                        !(wf_layers(ls) && #[trigger] encoding(ls) == bytes@) by {
                        if wf_layers(ls) && encoding(ls) == bytes@ {
                            lemma_candidate_count(ls, bytes@, count64);
                            lemma_candidate_shapes(ls, bytes@, szs, count);
                            lemma_candidate_full(ls, bytes@, szs, count);
                            lemma_params_before_monotone(szs, li + 1, count as int);
                        }
                    }
                }
                return Err(DecodeError::Oversized);
            }
            li = li + 1;
        }
        let expected: u128 = 16 + 8 * (count as u128) + 4 * acc;
        if expected != total as u128 {
            proof {
                assert forall|ls: Seq<LayerView>|
                    !(wf_layers(ls) && #[trigger] encoding(ls) == bytes@) by {
                    if wf_layers(ls) && encoding(ls) == bytes@ {
                        lemma_candidate_count(ls, bytes@, count64);
                        lemma_candidate_shapes(ls, bytes@, szs, count);
                        lemma_candidate_full(ls, bytes@, szs, count);
                    }
                }
            }
            return Err(DecodeError::LengthMismatch);
        }
        let header: usize = 16 + 8 * count;
        let mut layers: Vec<Layer> = Vec::new();
        let mut ci: usize = 0;
        let mut m: usize = 0;
        while m < count
            invariant
                total == bytes@.len(),
                le64(count64) == bytes@.subrange(0, 8),
                count as u64 == count64,
                count > 0,
                m <= count,
                sizes@ == szs,
                szs.len() == count + 1,
                acc as nat == params_before(szs, count as int),
                16 + 8 * (count as int) + 4 * (acc as int) == total as int,
                header as int == 16 + 8 * (count as int),
                layers@.len() == m,
                ci as nat == params_before(szs, m as int),
                forall|j: int|
                    0 <= j < m ==> (#[trigger] layers@[j]@).wf() && layers@[j]@.input_size()
                        == szs[j] && layers@[j]@.output_size() == szs[j + 1],
                le32_seq(all_cells(layers@.map_values(|l: Layer| l@))) == bytes@.subrange(
                    header as int,
                    header + 4 * (ci as int),
                ),
            decreases count - m,
        {
            let wi: usize = sizes[m];
            let wo: usize = sizes[m + 1];
            proof {
                lemma_params_before_monotone(szs, m + 1, count as int);
                assert(params_before(szs, m + 1) == params_before(szs, m as int) + (wo * wi
                    + wo));
            }
            let cw: usize = wo * wi;
            let wdata = read_cells(bytes, header + 4 * ci, cw);
            let ci2: usize = ci + cw;
            let bdata = read_cells(bytes, header + 4 * ci2, wo);
            let wmat = Matrix::new(wo, wi, wdata);
            let bmat = Matrix::new(wo, 1, bdata);
            let lyr = Layer::from_parts(wmat, bmat);
            let ghost pls = layers@.map_values(|l: Layer| l@);
            layers.push(lyr);
            ci = ci2 + wo;
            proof {
                let nls = layers@.map_values(|l: Layer| l@);
                assert(nls.drop_last() =~= pls);
                assert(nls.last() == lyr@);
                lemma_le32_seq_append(all_cells(pls), lyr@.weights.data);
                lemma_le32_seq_append(all_cells(pls) + lyr@.weights.data, lyr@.biases.data);
                assert(le32_seq(all_cells(nls)) =~= bytes@.subrange(
                    header as int,
                    header + 4 * (ci as int),
                ));
            }
            m = m + 1;
        }
        let net = MultilayerSingleton { layers };
        proof {
            let nls = net@;
            assert(nls.len() == count);
            assert forall|j: int| 0 <= j && j + 1 < nls.len() implies (
            #[trigger] nls[j]).output_size() == nls[j + 1].input_size() by {}
            assert(wf_layers(nls));
            assert(header + 4 * (ci as int) == total as int);
            lemma_assemble_encoding(nls, bytes@, szs, count);
            lemma_all_cells_len(nls);
            lemma_cells_len_params(nls, szs);
            assert forall|ls: Seq<LayerView>|
                wf_layers(ls) && #[trigger] encoding(ls) == bytes@ implies nls == ls by {
                lemma_candidate_count(ls, bytes@, count64);
                lemma_candidate_shapes(ls, bytes@, szs, count);
                lemma_candidate_full(ls, bytes@, szs, count);
                assert(le32_seq(all_cells(ls)) == bytes@.subrange(header as int, total as int));
                assert(all_cells(ls).len() == all_cells(nls).len());
                lemma_le32_seq_injective(all_cells(nls), all_cells(ls));
                lemma_cells_determine(nls, ls);
            }
        }
        Ok(net)
    }
}

} // verus!
