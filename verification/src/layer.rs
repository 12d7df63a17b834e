//! Layers and their composition. A layer wraps an inner backend and may
//! intercept the read/write byte streams; every other capability is forwarded
//! unchanged. A chain is an ordered list of layers applied to a leaf backend;
//! index 0 is the outermost layer, the one closest to the caller.
//!
//! On the write path the data flows caller -> outermost -> ... -> leaf, each
//! intercepting layer encoding before it forwards. On the read path the leaf's
//! raw bytes flow back innermost -> ... -> outermost, each intercepting layer
//! decoding as the data passes it.

use vstd::prelude::*;

use crate::buffer::Buffer;
use crate::caesar::CaesarCipherLayer;
use crate::caesar::spec_encode;
use crate::caesar::spec_decode;
use crate::caesar::lemma_decode_encode;
use crate::caesar::lemma_encode_concat;
use crate::caesar::lemma_decode_concat;

verus! {

/// One layer of the chain. `Logging` and `Fastrace` observe only: they never
/// alter data or results. `Caesar` intercepts the (non-blocking) read and
/// write streams with the substitution cipher.
#[derive(Clone, Copy, PartialEq, Eq, Structural, Debug)]
pub enum Layer {
    Logging,
    Fastrace,
    Caesar(CaesarCipherLayer),
}

/// Whether this layer intercepts the read/write byte streams.
pub open spec fn intercepts(l: Layer) -> bool {
    match l {
        Layer::Caesar(_) => true,
        _ => false,
    }
}

/// A chain of observe-only layers: none intercepts any data stream.
pub open spec fn passthrough_only(layers: Seq<Layer>) -> bool {
    forall|i: int| 0 <= i < layers.len() ==> !intercepts(#[trigger] layers[i])
}

/// What one layer does to a buffer on its way down the write path.
pub open spec fn layer_encode(l: Layer, d: Seq<u8>) -> Seq<u8> {
    match l {
        Layer::Caesar(c) => spec_encode(d, c.shift),
        _ => d,
    }
}

/// What one layer does to a buffer on its way up the read path.
pub open spec fn layer_decode(l: Layer, d: Seq<u8>) -> Seq<u8> {
    match l {
        Layer::Caesar(c) => spec_decode(d, c.shift),
        _ => d,
    }
}

/// The bytes the leaf backend stores when `d` is written through the chain:
/// the outermost layer encodes first.
pub open spec fn write_transform(layers: Seq<Layer>, d: Seq<u8>) -> Seq<u8>
    decreases layers.len(),
{
    if layers.len() == 0 {
        d
    } else {
        write_transform(layers.drop_first(), layer_encode(layers.first(), d))
    }
}

/// The bytes the caller sees when the leaf backend hands `d` back through the
/// chain: the innermost layer decodes first, the outermost last.
pub open spec fn read_transform(layers: Seq<Layer>, d: Seq<u8>) -> Seq<u8>
    decreases layers.len(),
{
    if layers.len() == 0 {
        d
    } else {
        layer_decode(layers.first(), read_transform(layers.drop_first(), d))
    }
}

fn layer_encode_exec(l: &Layer, d: Buffer) -> (r: Buffer)
    ensures
        r@ == layer_encode(*l, d@),
{
    match l {
        Layer::Caesar(c) => c.encrypt_buffer(d),
        _ => d,
    }
}

fn layer_decode_exec(l: &Layer, d: Buffer) -> (r: Buffer)
    ensures
        r@ == layer_decode(*l, d@),
{
    match l {
        Layer::Caesar(c) => c.decrypt_buffer(d),
        _ => d,
    }
}

/// Runs a buffer down the write path of the whole chain, outermost first.
pub fn apply_write_chain(layers: &Vec<Layer>, data: Buffer) -> (r: Buffer)
    ensures
        r@ == write_transform(layers@, data@),
{
    let ghost d0 = data@;
    let n = layers.len();
    let mut cur = data;
    let mut i: usize = 0;
    proof {
        assert(layers@.subrange(0, n as int) =~= layers@);
    }
    while i < n
        invariant
            n == layers@.len(),
            i <= n,
            write_transform(layers@, d0) == write_transform(
                layers@.subrange(i as int, n as int),
                cur@,
            ),
        decreases n - i,
    {
        let ghost pre = cur@;
        let l = layers[i];
        cur = layer_encode_exec(&l, cur);
        i = i + 1;
        proof {
            let s = layers@.subrange(i - 1, n as int);
            assert(s.first() == layers@[i - 1]);
            assert(s.drop_first() =~= layers@.subrange(i as int, n as int));
            assert(write_transform(s, pre) == write_transform(s.drop_first(), cur@));
        }
    }
    proof {
        assert(layers@.subrange(n as int, n as int) =~= Seq::<Layer>::empty());
    }
    cur
}

/// Runs a buffer up the read path of the whole chain, innermost first.
pub fn apply_read_chain(layers: &Vec<Layer>, data: Buffer) -> (r: Buffer)
    ensures
        r@ == read_transform(layers@, data@),
{
    let ghost d0 = data@;
    let n = layers.len();
    let mut cur = data;
    let mut i: usize = n;
    proof {
        assert(layers@.subrange(n as int, n as int) =~= Seq::<Layer>::empty());
    }
    while i > 0
        invariant
            n == layers@.len(),
            i <= n,
            cur@ == read_transform(layers@.subrange(i as int, n as int), d0),
        decreases i,
    {
        i = i - 1;
        let l = layers[i];
        cur = layer_decode_exec(&l, cur);
        proof {
            let s = layers@.subrange(i as int, n as int);
            assert(s.first() == layers@[i as int]);
            assert(s.drop_first() =~= layers@.subrange(i + 1, n as int));
        }
    }
    proof {
        assert(layers@.subrange(0, n as int) =~= layers@);
    }
    cur
}

/// One layer's decode undoes its encode, on every buffer.
pub proof fn lemma_layer_roundtrip(l: Layer, d: Seq<u8>)
    ensures
        layer_decode(l, layer_encode(l, d)) == d,
{
    match l {
        Layer::Caesar(c) => lemma_decode_encode(d, c.shift),
        _ => {},
    }
}

/// Round trip through a whole chain: reading back what was written through
/// the same chain restores the original bytes, for every chain and buffer.
pub proof fn lemma_chain_roundtrip(layers: Seq<Layer>, d: Seq<u8>)
    ensures
        read_transform(layers, write_transform(layers, d)) == d,
    decreases layers.len(),
{
    if layers.len() > 0 {
        lemma_chain_roundtrip(layers.drop_first(), layer_encode(layers.first(), d));
        lemma_layer_roundtrip(layers.first(), d);
    }
}

/// One layer's encode and decode distribute over concatenation.
pub proof fn lemma_layer_concat(l: Layer, a: Seq<u8>, b: Seq<u8>)
    ensures
        layer_encode(l, a + b) == layer_encode(l, a) + layer_encode(l, b),
        layer_decode(l, a + b) == layer_decode(l, a) + layer_decode(l, b),
{
    match l {
        Layer::Caesar(c) => {
            lemma_encode_concat(a, b, c.shift);
            lemma_decode_concat(a, b, c.shift);
        },
        _ => {},
    }
}

/// The whole chain's write transform distributes over concatenation: writing
/// chunk by chunk stores the same bytes as writing all at once.
pub proof fn lemma_write_transform_concat(layers: Seq<Layer>, a: Seq<u8>, b: Seq<u8>)
    ensures
        write_transform(layers, a + b) == write_transform(layers, a) + write_transform(layers, b),
    decreases layers.len(),
{
    if layers.len() > 0 {
        lemma_layer_concat(layers.first(), a, b);
        lemma_write_transform_concat(
            layers.drop_first(),
            layer_encode(layers.first(), a),
            layer_encode(layers.first(), b),
        );
    }
}

/// The whole chain's read transform distributes over concatenation: reading
/// chunk by chunk yields the same bytes as reading all at once.
pub proof fn lemma_read_transform_concat(layers: Seq<Layer>, a: Seq<u8>, b: Seq<u8>)
    ensures
        read_transform(layers, a + b) == read_transform(layers, a) + read_transform(layers, b),
    decreases layers.len(),
{
    if layers.len() > 0 {
        lemma_read_transform_concat(layers.drop_first(), a, b);
        lemma_layer_concat(
            layers.first(),
            read_transform(layers.drop_first(), a),
            read_transform(layers.drop_first(), b),
        );
    }
}

/// Neither transform changes the length of the data.
pub proof fn lemma_transform_len(layers: Seq<Layer>, d: Seq<u8>)
    ensures
        write_transform(layers, d).len() == d.len(),
        read_transform(layers, d).len() == d.len(),
    decreases layers.len(),
{
    if layers.len() > 0 {
        lemma_transform_len(layers.drop_first(), layer_encode(layers.first(), d));
        lemma_transform_len(layers.drop_first(), d);
    }
}

/// Through a chain of observe-only layers both transforms are the identity.
pub proof fn lemma_passthrough_transforms(layers: Seq<Layer>, d: Seq<u8>)
    requires
        passthrough_only(layers),
    ensures
        write_transform(layers, d) == d,
        read_transform(layers, d) == d,
    decreases layers.len(),
{
    if layers.len() > 0 {
        assert(!intercepts(layers[0]));
        assert(passthrough_only(layers.drop_first())) by {
            assert forall|i: int| 0 <= i < layers.drop_first().len() implies !intercepts(
                #[trigger] layers.drop_first()[i],
            ) by {
                assert(layers.drop_first()[i] == layers[i + 1]);
            }
        }
        lemma_passthrough_transforms(layers.drop_first(), d);
    }
}

} // verus!
