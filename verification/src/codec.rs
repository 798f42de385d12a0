//! The binary codec of the network's parameter tree.
//!
//! The encoding is a single contiguous byte buffer: the layer count as a
//! little-endian 64-bit word; then, for a non-empty network, the input
//! width of the first layer followed by each layer's output width, each as
//! a little-endian 64-bit word; then every cell of every matrix — each
//! layer's weights then its biases, layers in order — as little-endian
//! 32-bit words. The chaining invariant makes the widths list pin every
//! matrix shape, so a decoder rebuilds the layers from the widths and the
//! flat cell stream, and a byte buffer decodes successfully exactly when
//! it is the encoding of a well-formed network.

use crate::layer::LayerView;
use vstd::prelude::*;

verus! {

/// Why a byte buffer failed to decode.
#[derive(Clone, Copy, Debug, PartialEq, Eq)]
pub enum DecodeError {
    /// The buffer ends before the header and widths are complete.
    Truncated,
    /// The widths demand more cells than any buffer could hold.
    Oversized,
    /// The buffer's length does not match what the widths demand.
    LengthMismatch,
}

/// The little-endian bytes of a 64-bit word.
pub open spec fn le64(x: u64) -> Seq<u8> {
    seq![
        (x & 0xff) as u8,
        ((x >> 8) & 0xff) as u8,
        ((x >> 16) & 0xff) as u8,
        ((x >> 24) & 0xff) as u8,
        ((x >> 32) & 0xff) as u8,
        ((x >> 40) & 0xff) as u8,
        ((x >> 48) & 0xff) as u8,
        ((x >> 56) & 0xff) as u8,
    ]
}

/// The little-endian bytes of a 32-bit word.
pub open spec fn le32(x: u32) -> Seq<u8> {
    seq![(x & 0xff) as u8, ((x >> 8) & 0xff) as u8, ((x >> 16) & 0xff) as u8, ((x >> 24)
        & 0xff) as u8]
}

/// Two 64-bit words with the same little-endian bytes are equal.
pub proof fn lemma_le64_injective(a: u64, b: u64)
    requires
        le64(a) == le64(b),
    ensures
        a == b,
{
    assert((a & 0xff) as u8 == (b & 0xff) as u8 && ((a >> 8) & 0xff) as u8 == ((b >> 8)
        & 0xff) as u8 && ((a >> 16) & 0xff) as u8 == ((b >> 16) & 0xff) as u8 && ((a >> 24)
        & 0xff) as u8 == ((b >> 24) & 0xff) as u8 && ((a >> 32) & 0xff) as u8 == ((b >> 32)
        & 0xff) as u8 && ((a >> 40) & 0xff) as u8 == ((b >> 40) & 0xff) as u8 && ((a >> 48)
        & 0xff) as u8 == ((b >> 48) & 0xff) as u8 && ((a >> 56) & 0xff) as u8 == ((b >> 56)
        & 0xff) as u8) by {
        assert(le64(a)[0] == le64(b)[0]);
        assert(le64(a)[1] == le64(b)[1]);
        assert(le64(a)[2] == le64(b)[2]);
        assert(le64(a)[3] == le64(b)[3]);
        assert(le64(a)[4] == le64(b)[4]);
        assert(le64(a)[5] == le64(b)[5]);
        assert(le64(a)[6] == le64(b)[6]);
        assert(le64(a)[7] == le64(b)[7]);
    }
    assert(a == b) by (bit_vector)
        requires
            (a & 0xff) as u8 == (b & 0xff) as u8,
            ((a >> 8) & 0xff) as u8 == ((b >> 8) & 0xff) as u8,
            ((a >> 16) & 0xff) as u8 == ((b >> 16) & 0xff) as u8,
            ((a >> 24) & 0xff) as u8 == ((b >> 24) & 0xff) as u8,
            ((a >> 32) & 0xff) as u8 == ((b >> 32) & 0xff) as u8,
            ((a >> 40) & 0xff) as u8 == ((b >> 40) & 0xff) as u8,
            ((a >> 48) & 0xff) as u8 == ((b >> 48) & 0xff) as u8,
            ((a >> 56) & 0xff) as u8 == ((b >> 56) & 0xff) as u8,
    ;
}

/// Two 32-bit words with the same little-endian bytes are equal.
pub proof fn lemma_le32_injective(a: u32, b: u32)
    requires
        le32(a) == le32(b),
    ensures
        a == b,
{
    assert((a & 0xff) as u8 == (b & 0xff) as u8 && ((a >> 8) & 0xff) as u8 == ((b >> 8)
        & 0xff) as u8 && ((a >> 16) & 0xff) as u8 == ((b >> 16) & 0xff) as u8 && ((a >> 24)
        & 0xff) as u8 == ((b >> 24) & 0xff) as u8) by {
        assert(le32(a)[0] == le32(b)[0]);
        assert(le32(a)[1] == le32(b)[1]);
        assert(le32(a)[2] == le32(b)[2]);
        assert(le32(a)[3] == le32(b)[3]);
    }
    assert(a == b) by (bit_vector)
        requires
            (a & 0xff) as u8 == (b & 0xff) as u8,
            ((a >> 8) & 0xff) as u8 == ((b >> 8) & 0xff) as u8,
            ((a >> 16) & 0xff) as u8 == ((b >> 16) & 0xff) as u8,
            ((a >> 24) & 0xff) as u8 == ((b >> 24) & 0xff) as u8,
    ;
}

/// The little-endian bytes of a flat cell sequence, in order.
pub open spec fn le32_seq(s: Seq<u32>) -> Seq<u8>
    decreases s.len(),
{
    if s.len() == 0 {
        Seq::empty()
    } else {
        le32_seq(s.drop_last()) + le32(s.last())
    }
}

/// A cell stream's bytes are four per cell.
pub proof fn lemma_le32_seq_len(s: Seq<u32>)
    ensures
        le32_seq(s).len() == 4 * s.len(),
    decreases s.len(),
{
    if s.len() > 0 {
        lemma_le32_seq_len(s.drop_last());
    }
}

/// The bytes of a concatenation are the concatenated bytes.
pub proof fn lemma_le32_seq_append(s1: Seq<u32>, s2: Seq<u32>)
    ensures
        le32_seq(s1 + s2) == le32_seq(s1) + le32_seq(s2),
    decreases s2.len(),
{
    if s2.len() == 0 {
        assert(s1 + s2 =~= s1);
        assert(le32_seq(s1) + le32_seq(s2) =~= le32_seq(s1));
    } else {
        lemma_le32_seq_append(s1, s2.drop_last());
        assert((s1 + s2).drop_last() =~= s1 + s2.drop_last());
        assert((s1 + s2).last() == s2.last());
        assert(le32_seq(s1) + le32_seq(s2.drop_last()) + le32(s2.last()) =~= le32_seq(s1) + (
        le32_seq(s2.drop_last()) + le32(s2.last())));
    }
}

/// Equally long cell streams with the same bytes are equal.
pub proof fn lemma_le32_seq_injective(s1: Seq<u32>, s2: Seq<u32>)
    requires
        s1.len() == s2.len(),
        le32_seq(s1) == le32_seq(s2),
    ensures
        s1 == s2,
    decreases s1.len(),
{
    if s1.len() > 0 {
        lemma_le32_seq_len(s1.drop_last());
        lemma_le32_seq_len(s2.drop_last());
        assert(le32(s1.last()) =~= le32_seq(s1).subrange(
            le32_seq(s1).len() - 4,
            le32_seq(s1).len() as int,
        ));
        assert(le32(s2.last()) =~= le32_seq(s2).subrange(
            le32_seq(s2).len() - 4,
            le32_seq(s2).len() as int,
        ));
        lemma_le32_injective(s1.last(), s2.last());
        assert(le32_seq(s1.drop_last()) =~= le32_seq(s1).subrange(0, le32_seq(s1).len() - 4));
        assert(le32_seq(s2.drop_last()) =~= le32_seq(s2).subrange(0, le32_seq(s2).len() - 4));
        lemma_le32_seq_injective(s1.drop_last(), s2.drop_last());
        assert forall|i: int| 0 <= i < s1.len() implies s1[i] == s2[i] by {
            if i < s1.len() - 1 {
                assert(s1[i] == s1.drop_last()[i]);
                assert(s2[i] == s2.drop_last()[i]);
            } else {
                assert(s1[i] == s1.last());
                assert(s2[i] == s2.last());
            }
        }
        assert(s1 =~= s2);
    } else {
        assert(s1 =~= s2);
    }
}

/// The widths section of the encoding past the first: each layer's output
/// width, in order.
pub open spec fn layer_sizes_bytes(ls: Seq<LayerView>) -> Seq<u8>
    decreases ls.len(),
{
    if ls.len() == 0 {
        Seq::empty()
    } else {
        layer_sizes_bytes(ls.drop_last()) + le64(ls.last().output_size() as u64)
    }
}

/// The widths section is eight bytes per layer.
pub proof fn lemma_layer_sizes_bytes_len(ls: Seq<LayerView>)
    ensures
        layer_sizes_bytes(ls).len() == 8 * ls.len(),
    decreases ls.len(),
{
    if ls.len() > 0 {
        lemma_layer_sizes_bytes_len(ls.drop_last());
    }
}

/// The widths section holds layer `j`'s output width at position `8 * j`.
pub proof fn lemma_layer_sizes_bytes_index(ls: Seq<LayerView>, j: int)
    requires
        0 <= j < ls.len(),
    ensures
        layer_sizes_bytes(ls).subrange(8 * j, 8 * j + 8) == le64(ls[j].output_size() as u64),
    decreases ls.len(),
{
    lemma_layer_sizes_bytes_len(ls.drop_last());
    if j == ls.len() - 1 {
        assert(layer_sizes_bytes(ls).subrange(8 * j, 8 * j + 8) =~= le64(
            ls.last().output_size() as u64,
        ));
    } else {
        lemma_layer_sizes_bytes_index(ls.drop_last(), j);
        assert(ls.drop_last()[j] == ls[j]);
        assert(layer_sizes_bytes(ls).subrange(8 * j, 8 * j + 8) =~= layer_sizes_bytes(
            ls.drop_last(),
        ).subrange(8 * j, 8 * j + 8));
    }
}

/// Every cell of every matrix, each layer's weights then its biases,
/// layers in order.
pub open spec fn all_cells(ls: Seq<LayerView>) -> Seq<u32>
    decreases ls.len(),
{
    if ls.len() == 0 {
        Seq::empty()
    } else {
        all_cells(ls.drop_last()) + ls.last().weights.data + ls.last().biases.data
    }
}

/// How many cells the layers hold in all.
pub open spec fn cells_len(ls: Seq<LayerView>) -> nat
    decreases ls.len(),
{
    if ls.len() == 0 {
        0
    } else {
        cells_len(ls.drop_last()) + ls.last().output_size() * ls.last().input_size()
            + ls.last().output_size()
    }
}

/// For well-formed layers the cell stream's length is the cell count.
pub proof fn lemma_all_cells_len(ls: Seq<LayerView>)
    requires
        forall|i: int| 0 <= i < ls.len() ==> (#[trigger] ls[i]).wf(),
    ensures
        all_cells(ls).len() == cells_len(ls),
    decreases ls.len(),
{
    if ls.len() > 0 {
        assert(ls.last().wf());
        lemma_all_cells_len(ls.drop_last());
    }
}

/// The number of bytes before the cell stream: the count word, then for a
/// non-empty network the input width and one output width per layer.
pub open spec fn header_len(n: int) -> int {
    if n == 0 {
        8
    } else {
        16 + 8 * n
    }
}

/// A widths section equal to per-layer words at offset `off` of a buffer.
pub proof fn lemma_sizes_bytes_from_pointwise(ls: Seq<LayerView>, bytes: Seq<u8>, off: int)
    requires
        0 <= off,
        off + 8 * ls.len() <= bytes.len(),
        forall|j: int|
            0 <= j < ls.len() ==> bytes.subrange(off + 8 * j, off + 8 * j + 8) == le64(
                (#[trigger] ls[j]).output_size() as u64,
            ),
    ensures
        layer_sizes_bytes(ls) == bytes.subrange(off, off + 8 * ls.len()),
    decreases ls.len(),
{
    if ls.len() == 0 {
        assert(layer_sizes_bytes(ls) =~= bytes.subrange(off, off));
    } else {
        let t = ls.drop_last();
        assert(forall|j: int| 0 <= j < t.len() ==> t[j] == ls[j]);
        lemma_sizes_bytes_from_pointwise(t, bytes, off);
        lemma_layer_sizes_bytes_len(t);
        assert(bytes.subrange(off + 8 * t.len(), off + 8 * t.len() + 8) == le64(
            ls[t.len() as int].output_size() as u64,
        ));
        assert(layer_sizes_bytes(ls) =~= bytes.subrange(off, off + 8 * ls.len()));
    }
}

/// What a well-formed stack's encoding looks like, region by region.
pub proof fn lemma_encoding_regions(ls: Seq<LayerView>, bytes: Seq<u8>)
    requires
        forall|i: int| 0 <= i < ls.len() ==> (#[trigger] ls[i]).wf(),
        encoding(ls) == bytes,
    ensures
        bytes.len() == header_len(ls.len() as int) + 4 * cells_len(ls),
        bytes.subrange(0, 8) == le64(ls.len() as u64),
        ls.len() > 0 ==> bytes.subrange(8, 16) == le64(ls[0].input_size() as u64),
        forall|j: int|
            0 <= j < ls.len() ==> bytes.subrange(16 + 8 * j, 24 + 8 * j) == le64(
                (#[trigger] ls[j]).output_size() as u64,
            ),
        bytes.subrange(header_len(ls.len() as int), bytes.len() as int) == le32_seq(all_cells(ls)),
{
    lemma_layer_sizes_bytes_len(ls);
    lemma_all_cells_len(ls);
    lemma_le32_seq_len(all_cells(ls));
    assert(bytes.subrange(0, 8) =~= le64(ls.len() as u64));
    if ls.len() > 0 {
        assert(bytes.subrange(8, 16) =~= le64(ls[0].input_size() as u64));
        assert forall|j: int| 0 <= j < ls.len() implies bytes.subrange(16 + 8 * j, 24 + 8 * j)
            == le64((#[trigger] ls[j]).output_size() as u64) by {
            lemma_layer_sizes_bytes_index(ls, j);
            assert(bytes.subrange(16 + 8 * j, 24 + 8 * j) =~= layer_sizes_bytes(ls).subrange(
                8 * j,
                8 * j + 8,
            ));
        }
    }
    assert(bytes.subrange(header_len(ls.len() as int), bytes.len() as int) =~= le32_seq(
        all_cells(ls),
    ));
}

/// Stacks with the same shapes and the same flat cell stream are equal.
pub proof fn lemma_cells_determine(l1: Seq<LayerView>, l2: Seq<LayerView>)
    requires
        l1.len() == l2.len(),
        forall|i: int| 0 <= i < l1.len() ==> (#[trigger] l1[i]).wf(),
        forall|i: int| 0 <= i < l2.len() ==> (#[trigger] l2[i]).wf(),
        forall|i: int|
            0 <= i < l1.len() ==> (#[trigger] l1[i]).input_size() == l2[i].input_size()
                && l1[i].output_size() == l2[i].output_size(),
        all_cells(l1) == all_cells(l2),
    ensures
        l1 == l2,
    decreases l1.len(),
{
    if l1.len() == 0 {
        assert(l1 =~= l2);
    } else {
        let a1 = l1.last();
        let a2 = l2.last();
        assert(a1.wf() && a2.wf());
        assert(a1.weights.data.len() == a2.weights.data.len());
        assert(a1.biases.data.len() == a2.biases.data.len());
        let w = a1.weights.data.len() as int;
        let b = a1.biases.data.len() as int;
        let n1 = all_cells(l1).len() as int;
        let p = n1 - w - b;
        assert(all_cells(l1.drop_last()).len() == p);
        assert(all_cells(l2.drop_last()).len() == p);
        assert(all_cells(l1.drop_last()) =~= all_cells(l1).subrange(0, p));
        assert(all_cells(l2.drop_last()) =~= all_cells(l2).subrange(0, p));
        assert(a1.weights.data =~= all_cells(l1).subrange(p, p + w));
        assert(a2.weights.data =~= all_cells(l2).subrange(p, p + w));
        assert(a1.biases.data =~= all_cells(l1).subrange(p + w, n1));
        assert(a2.biases.data =~= all_cells(l2).subrange(p + w, n1));
        assert(forall|i: int| 0 <= i < l1.drop_last().len() ==> l1.drop_last()[i] == l1[i]);
        assert(forall|i: int| 0 <= i < l2.drop_last().len() ==> l2.drop_last()[i] == l2[i]);
        lemma_cells_determine(l1.drop_last(), l2.drop_last());
        assert(a1 =~~= a2);
        assert forall|i: int| 0 <= i < l1.len() implies l1[i] == l2[i] by {
            if i < l1.len() - 1 {
                assert(l1[i] == l1.drop_last()[i]);
                assert(l2[i] == l2.drop_last()[i]);
            } else {
                assert(l1[i] == a1);
                assert(l2[i] == a2);
            }
        }
        assert(l1 =~= l2);
    }
}

/// The encoding of a stack of layers.
pub open spec fn encoding(ls: Seq<LayerView>) -> Seq<u8> {
    le64(ls.len() as u64) + (if ls.len() == 0 {
        Seq::<u8>::empty()
    } else {
        le64(ls[0].input_size() as u64)
    }) + layer_sizes_bytes(ls) + le32_seq(all_cells(ls))
}

/// Appends the little-endian bytes of a 64-bit word.
pub fn push_u64(out: &mut Vec<u8>, x: u64)
    ensures
        final(out)@ == old(out)@ + le64(x),
{
    out.push((x & 0xff) as u8);
    out.push(((x >> 8) & 0xff) as u8);
    out.push(((x >> 16) & 0xff) as u8);
    out.push(((x >> 24) & 0xff) as u8);
    out.push(((x >> 32) & 0xff) as u8);
    out.push(((x >> 40) & 0xff) as u8);
    out.push(((x >> 48) & 0xff) as u8);
    out.push(((x >> 56) & 0xff) as u8);
    proof {
        assert(out@ =~= old(out)@ + le64(x));
    }
}

/// Appends the little-endian bytes of a 32-bit word.
pub fn push_u32(out: &mut Vec<u8>, x: u32)
    ensures
        final(out)@ == old(out)@ + le32(x),
{
    out.push((x & 0xff) as u8);
    out.push(((x >> 8) & 0xff) as u8);
    out.push(((x >> 16) & 0xff) as u8);
    out.push(((x >> 24) & 0xff) as u8);
    proof {
        assert(out@ =~= old(out)@ + le32(x));
    }
}

/// Appends the little-endian bytes of every cell, in order.
pub fn push_cells(out: &mut Vec<u8>, cells: &Vec<u32>)
    ensures
        final(out)@ == old(out)@ + le32_seq(cells@),
{
    let ghost base = old(out)@;
    let n: usize = cells.len();
    let mut i: usize = 0;
    while i < n
        invariant
            n == cells@.len(),
            i <= n,
            out@ == base + le32_seq(cells@.take(i as int)),
        decreases n - i,
    {
        push_u32(out, cells[i]);
        proof {
            assert(cells@.take(i + 1).drop_last() =~= cells@.take(i as int));
            assert(cells@.take(i + 1).last() == cells@[i as int]);
            assert(out@ =~= base + le32_seq(cells@.take(i + 1)));
        }
        i = i + 1;
    }
    proof {
        assert(cells@.take(n as int) =~= cells@);
    }
}

/// Reads `n` cells' little-endian bytes, in order.
pub fn read_cells(bytes: &Vec<u8>, pos: usize, n: usize) -> (cells: Vec<u32>)
    requires
        pos + 4 * n <= bytes@.len(),
    ensures
        cells@.len() == n,
        le32_seq(cells@) == bytes@.subrange(pos as int, pos + 4 * n),
{
    let total: usize = bytes.len();
    assert(pos + 4 * n <= total);
    let mut cells: Vec<u32> = Vec::new();
    let mut i: usize = 0;
    while i < n
        invariant
            pos + 4 * n <= total,
            total == bytes@.len(),
            i <= n,
            cells@.len() == i,
            le32_seq(cells@) == bytes@.subrange(pos as int, pos + 4 * i),
        decreases n - i,
    {
        let v = read_u32(bytes, pos + 4 * i);
        let ghost prev = cells@;
        cells.push(v);
        proof {
            assert(cells@.drop_last() =~= prev);
            assert(cells@.last() == v);
            assert(le32_seq(cells@) =~= bytes@.subrange(pos as int, pos + 4 * (i + 1)));
        }
        i = i + 1;
    }
    cells
}

/// Reads a little-endian 64-bit word.
pub fn read_u64(bytes: &Vec<u8>, pos: usize) -> (r: u64)
    requires
        pos + 8 <= bytes@.len(),
    ensures
        le64(r) == bytes@.subrange(pos as int, pos + 8),
{
    let n: usize = bytes.len();
    assert(pos + 8 <= n);
    let b0: u64 = bytes[pos] as u64;
    let b1: u64 = bytes[pos + 1] as u64;
    let b2: u64 = bytes[pos + 2] as u64;
    let b3: u64 = bytes[pos + 3] as u64;
    let b4: u64 = bytes[pos + 4] as u64;
    let b5: u64 = bytes[pos + 5] as u64;
    let b6: u64 = bytes[pos + 6] as u64;
    let b7: u64 = bytes[pos + 7] as u64;
    let r: u64 = b0 | (b1 << 8) | (b2 << 16) | (b3 << 24) | (b4 << 32) | (b5 << 40) | (b6 << 48)
        | (b7 << 56);
    proof {
        assert((r & 0xff) == b0 && ((r >> 8) & 0xff) == b1 && ((r >> 16) & 0xff) == b2 && ((r
            >> 24) & 0xff) == b3 && ((r >> 32) & 0xff) == b4 && ((r >> 40) & 0xff) == b5 && ((r
            >> 48) & 0xff) == b6 && ((r >> 56) & 0xff) == b7) by (bit_vector)
            requires
                b0 < 256 && b1 < 256 && b2 < 256 && b3 < 256 && b4 < 256 && b5 < 256 && b6 < 256
                    && b7 < 256,
                r == b0 | (b1 << 8) | (b2 << 16) | (b3 << 24) | (b4 << 32) | (b5 << 40) | (b6
                    << 48) | (b7 << 56),
        ;
        assert(le64(r) =~= bytes@.subrange(pos as int, pos + 8));
    }
    r
}

/// Reads a little-endian 32-bit word.
pub fn read_u32(bytes: &Vec<u8>, pos: usize) -> (r: u32)
    requires
        pos + 4 <= bytes@.len(),
    ensures
        le32(r) == bytes@.subrange(pos as int, pos + 4),
{
    let n: usize = bytes.len();
    assert(pos + 4 <= n);
    let b0: u32 = bytes[pos] as u32;
    let b1: u32 = bytes[pos + 1] as u32;
    let b2: u32 = bytes[pos + 2] as u32;
    let b3: u32 = bytes[pos + 3] as u32;
    let r: u32 = b0 | (b1 << 8) | (b2 << 16) | (b3 << 24);
    proof {
        assert((r & 0xff) == b0 && ((r >> 8) & 0xff) == b1 && ((r >> 16) & 0xff) == b2 && ((r
            >> 24) & 0xff) == b3) by (bit_vector)
            requires
                b0 < 256 && b1 < 256 && b2 < 256 && b3 < 256,
                r == b0 | (b1 << 8) | (b2 << 16) | (b3 << 24),
        ;
        assert(le32(r) =~= bytes@.subrange(pos as int, pos + 4));
    }
    r
}

} // verus!
