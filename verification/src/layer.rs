//! One affine transform of the network: a weight matrix and a bias column
//! vector, applied to an input column vector as `weights x input + biases`.
//! No activation function is applied: the layer is a pure affine map.

use crate::matrix::Matrix;
use crate::matrix::MatrixView;
use crate::matrix::dot;
use crate::scalar::add_bits;
use crate::source::ScalarSource;
use vstd::prelude::*;

verus! {

/// The mathematical content of a layer: its two matrices.
#[verifier::ext_equal]
pub ghost struct LayerView {
    /// The weight matrix, of shape output size by input size.
    pub weights: MatrixView,
    /// The bias column vector, of shape output size by one.
    pub biases: MatrixView,
}

impl LayerView {
    /// Both matrices are well-formed and agree on the output size; the
    /// biases form a column vector.
    pub open spec fn wf(self) -> bool {
        &&& self.weights.wf()
        &&& self.biases.wf()
        &&& self.biases.rows == self.weights.rows
        &&& self.biases.cols == 1
    }

    /// The width of the input the layer accepts.
    pub open spec fn input_size(self) -> nat {
        self.weights.cols
    }

    /// The width of the output the layer produces.
    pub open spec fn output_size(self) -> nat {
        self.weights.rows
    }
}

/// The layer built from a source stream: the weights drawn first, in
/// row-major order, then the biases.
pub open spec fn built_layer(input_size: nat, output_size: nat, vals: spec_fn(nat) -> u32) -> LayerView {
    LayerView {
        weights: MatrixView {
            rows: output_size,
            cols: input_size,
            data: Seq::new(output_size * input_size, |i: int| vals(i as nat)),
        },
        biases: MatrixView {
            rows: output_size,
            cols: 1,
            data: Seq::new(output_size, |i: int| vals((output_size * input_size + i) as nat)),
        },
    }
}

/// Two equal source streams build the same layer.
pub proof fn lemma_built_layer_congruence(
    input_size: nat,
    output_size: nat,
    v1: spec_fn(nat) -> u32,
    v2: spec_fn(nat) -> u32,
)
    requires
        forall|i: nat| #[trigger] v1(i) == v2(i),
    ensures
        built_layer(input_size, output_size, v1) == built_layer(input_size, output_size, v2),
{
    assert(built_layer(input_size, output_size, v1).weights.data =~= built_layer(
        input_size,
        output_size,
        v2,
    ).weights.data);
    assert(built_layer(input_size, output_size, v1).biases.data =~= built_layer(
        input_size,
        output_size,
        v2,
    ).biases.data);
    assert(built_layer(input_size, output_size, v1) =~~= built_layer(input_size, output_size, v2));
}

/// A column vector as a one-column matrix.
pub open spec fn col_vec(v: Seq<u32>) -> MatrixView {
    MatrixView { rows: v.len(), cols: 1, data: v }
}

/// What the layer returns on an input column vector: for each output row,
/// the dot product of that weight row with the input, plus the bias.
pub open spec fn layer_apply(l: LayerView, v: Seq<u32>) -> Seq<u32> {
    Seq::new(
        l.output_size(),
        |r: int| add_bits(dot(l.weights, col_vec(v), r, 0, l.input_size() as int), l.biases.data[r]),
    )
}

/// One affine layer of the network.
#[derive(Clone, Debug, PartialEq)]
pub struct Layer {
    weights: Matrix,
    biases: Matrix,
}

impl View for Layer {
    type V = LayerView;

    closed spec fn view(&self) -> LayerView {
        LayerView { weights: self.weights@, biases: self.biases@ }
    }
}

impl Layer {
    /// The weight matrix.
    pub fn weights(&self) -> (m: &Matrix)
        ensures
            m@ == self@.weights,
    {
        &self.weights
    }

    /// The bias column vector.
    pub fn biases(&self) -> (m: &Matrix)
        ensures
            m@ == self@.biases,
    {
        &self.biases
    }

    /// Assembles a layer from its two matrices.
    pub fn from_parts(weights: Matrix, biases: Matrix) -> (l: Layer)
        ensures
            l@ == (LayerView { weights: weights@, biases: biases@ }),
    {
        Layer { weights, biases }
    }

    /// Builds a layer by drawing the weights from the source first, then
    /// the biases, both in row-major fill order.
    pub fn new<G: ScalarSource>(input_size: usize, output_size: usize, g: &mut G) -> (l: Layer)
        requires
            output_size * input_size + output_size <= usize::MAX,
            old(g).ready((output_size * input_size + output_size) as nat),
        ensures
            l@ == built_layer(
                input_size as nat,
                output_size as nat,
                |i: nat| old(g).at((old(g).taken() + i) as nat),
            ),
            l@.wf(),
            l@.input_size() == input_size,
            l@.output_size() == output_size,
            final(g).taken() == old(g).taken() + output_size * input_size + output_size,
            forall|i: nat| final(g).at(i) == old(g).at(i),
            forall|n: nat|
                old(g).ready(n + (output_size * input_size + output_size) as nat)
                    ==> final(g).ready(n),
    {
        let ghost g0 = *g;
        proof {
            g0.ready_weaken(
                (output_size * input_size) as nat,
                (output_size * input_size + output_size) as nat,
            );
        }
        let weights = Matrix::new_random(output_size, input_size, g);
        let biases = Matrix::new_random(output_size, 1, g);
        let l = Layer { weights, biases };
        proof {
            let vals = |i: nat| g0.at((g0.taken() + i) as nat);
            assert(l@.weights.data =~= built_layer(
                input_size as nat,
                output_size as nat,
                vals,
            ).weights.data);
            assert(l@.biases.data =~= built_layer(
                input_size as nat,
                output_size as nat,
                vals,
            ).biases.data);
            assert(l@ =~~= built_layer(input_size as nat, output_size as nat, vals));
        }
        l
    }

    /// Applies the affine map `weights x input + biases` to a column
    /// vector of the layer's input width.
    pub fn forward(&self, input: &Matrix) -> (out: Matrix)
        requires
            self@.wf(),
            input@.wf(),
            input@.cols == 1,
            input@.rows == self@.input_size(),
        ensures
            out@.wf(),
            out@.rows == self@.output_size(),
            out@.cols == 1,
            out@.data == layer_apply(self@, input@.data),
    {
        let wx = self.weights.mul(input);
        let out = wx.add(&self.biases);
        proof {
            assert(col_vec(input@.data) =~~= input@);
            assert forall|r: int| 0 <= r < out@.data.len() implies out@.data[r] == layer_apply(
                self@,
                input@.data,
            )[r] by {
                assert(wx@.cell(r, 0) == dot(self@.weights, input@, r, 0, self@.input_size() as int));
                assert(wx@.data[r] == wx@.cell(r, 0));
            }
            assert(out@.data =~= layer_apply(self@, input@.data));
        }
        out
    }
}

} // verus!
