//! Properties of the hash tree root that hold for every input.
use vstd::prelude::*;

use crate::hash::node_hash;
use crate::layout::{
    bit_len, bitlist_payload, ceil_div, ceil_log2, child_results, chunk_at, collect,
    element_ranges, fixed_size, le_u32, msb, offset_at, offsets_ok, pack, root_spec,
    valid_basic_size,
};
use crate::merkle::{
    length_chunk, lemma_merkleize_empty, merkleize, mix_in_length, two_pow, zero_hash,
};
use crate::root::{chunks_root, lemma_ceil_log2_fits, lemma_ceil_log2_le};
use crate::types::{Descriptor, SszError};

verus! {

/// The declared depth of a list: from its capacity in chunks for basic
/// elements, from its capacity in elements otherwise.
pub open spec fn list_depth(d: Descriptor) -> nat {
    match d {
        Descriptor::List { element, limit } => match *element {
            Descriptor::Basic { size } => ceil_log2(ceil_div((limit * size) as nat, 32)),
            _ => ceil_log2(limit as nat),
        },
        _ => 0,
    }
}

/// The declared depth of a bitlist of at most `limit` bits.
pub open spec fn bitlist_depth(limit: usize) -> nat {
    ceil_log2(ceil_div(limit as nat, 256))
}

/// A bitlist encoding whose last byte is zero has no sentinel bit and is
/// refused for its padding, whatever bytes precede it.
pub proof fn lemma_bitlist_sentinel(limit: usize, b: Seq<u8>)
    ensures
        root_spec(Descriptor::Bitlist { limit }, b.push(0u8)) == Err::<Seq<u8>, SszError>(
            SszError::BitlistPadding,
        ),
{
}

/// A list of variable-size elements whose offset table decreases anywhere
/// is refused with `BadOffset`, provided its element count is within its limit.
pub proof fn lemma_offsets_monotone(d: Descriptor, b: Seq<u8>, i: int)
    requires
        d is List,
        fixed_size(*d->List_element) is None,
        b.len() >= 4,
        0 <= i,
        i + 1 < le_u32(b, 0) / 4,
        le_u32(b, 0) / 4 <= d->List_limit,
        offset_at(b, i) > offset_at(b, i + 1),
    ensures
        root_spec(d, b) == Err::<Seq<u8>, SszError>(SszError::BadOffset),
{
    let first = le_u32(b, 0);
    if !(first % 4 != 0 || first > b.len() || first == 0) {
        assert(!offsets_ok(b, first / 4));
    }
}

/// The empty list is the zero subtree of its declared depth, mixed with
/// the length zero.
pub proof fn lemma_empty_list(d: Descriptor)
    requires
        d is List,
        match *d->List_element {
            Descriptor::Basic { size } => valid_basic_size(size as nat),
            _ => fixed_size(*d->List_element) != Some(0nat),
        },
    ensures
        root_spec(d, Seq::empty()) == Ok::<Seq<u8>, SszError>(
            mix_in_length(zero_hash(list_depth(d)), 0),
        ),
{
    let e = *d->List_element;
    let b = Seq::<u8>::empty();
    lemma_merkleize_empty(list_depth(d));
    match e {
        Descriptor::Basic { size } => {
            assert(pack(b) =~= Seq::<Seq<u8>>::empty());
        },
        _ => {
            let rs = element_ranges(e, b, None, d->List_limit as nat)->Ok_0;
            assert(rs =~= Seq::<(nat, nat)>::empty());
            assert(child_results(e, b, rs) =~= Seq::<Result<Seq<u8>, SszError>>::empty());
        },
    }
}

/// The empty bitlist, a lone sentinel bit, is the zero subtree of its
/// declared depth, mixed with the length zero.
pub proof fn lemma_empty_bitlist(limit: usize)
    ensures
        root_spec(Descriptor::Bitlist { limit }, seq![1u8]) == Ok::<Seq<u8>, SszError>(
            mix_in_length(zero_hash(bitlist_depth(limit)), 0),
        ),
{
    let b = seq![1u8];
    assert(msb(1) == 0);
    assert(bit_len(b) == 0);
    assert(bitlist_payload(b) =~= Seq::<u8>::empty());
    assert(pack(bitlist_payload(b)) =~= Seq::<Seq<u8>>::empty());
    lemma_merkleize_empty(bitlist_depth(limit));
}

/// The root of a list of basic elements is the root that its packed chunks
/// give at the list's declared depth, with the element count mixed in.
pub proof fn lemma_packed_list_chunks(d: Descriptor, b: Seq<u8>)
    requires
        d is List,
        (*d->List_element) is Basic,
        root_spec(d, b) is Ok,
    ensures
        root_spec(d, b) == chunks_root(
            pack(b),
            list_depth(d),
            Some((b.len() / (d->List_element->Basic_size as nat)) as u64),
        ),
{
    let size = d->List_element->Basic_size as nat;
    let limit = d->List_limit as nat;
    let n = ceil_div(limit * size, 32);
    vstd::arithmetic::div_mod::lemma_fundamental_div_mod(b.len() as int, size as int);
    assert(b.len() <= limit * size) by (nonlinear_arith)
        requires
            b.len() == size * (b.len() / size) + b.len() % size,
            b.len() % size == 0,
            b.len() / size <= limit,
    ;
    assert(limit * size <= usize::MAX * 32) by (nonlinear_arith)
        requires
            limit <= usize::MAX,
            size <= 32,
    ;
    crate::merkle::lemma_two_pow_64();
    lemma_ceil_log2_le(n, 64);
    lemma_ceil_log2_fits(n);
}

/// The root of a vector of basic elements is the root that its packed
/// chunks give at the depth of its size in chunks.
pub proof fn lemma_packed_vector_chunks(d: Descriptor, b: Seq<u8>)
    requires
        d is Vector,
        (*d->Vector_element) is Basic,
        root_spec(d, b) is Ok,
    ensures
        root_spec(d, b) == chunks_root(pack(b), ceil_log2(ceil_div(b.len(), 32)), None),
{
    let n = ceil_div(b.len(), 32);
    let size = d->Vector_element->Basic_size as nat;
    let length = d->Vector_length as nat;
    assert(b.len() <= 32 * length) by (nonlinear_arith)
        requires
            b.len() == size * length,
            size <= 32,
    ;
    crate::merkle::lemma_two_pow_64();
    lemma_ceil_log2_le(n, 64);
    lemma_ceil_log2_fits(n);
}

/// The root of a bitlist is the root that the packed chunks of its bits,
/// without the sentinel, give at its declared depth, with its bit count
/// mixed in.
pub proof fn lemma_bitlist_chunks(limit: usize, b: Seq<u8>)
    requires
        root_spec(Descriptor::Bitlist { limit }, b) is Ok,
    ensures
        root_spec(Descriptor::Bitlist { limit }, b) == chunks_root(
            pack(bitlist_payload(b)),
            bitlist_depth(limit),
            Some(bit_len(b) as u64),
        ),
{
    let n = ceil_div(limit as nat, 256);
    crate::merkle::lemma_two_pow_64();
    lemma_ceil_log2_le(n, 64);
    lemma_ceil_log2_fits(n);
    let last = b.last() as nat;
    crate::root::lemma_msb(last);
    assert(crate::merkle::two_pow(8) == 256) by {
        reveal_with_fuel(crate::merkle::two_pow, 9);
    }
    if msb(last) >= 8 {
        crate::merkle::lemma_two_pow_mono(8, msb(last));
    }
    if msb(last) == 0 {
        assert(bitlist_payload(b).len() == b.len() - 1);
    } else {
        assert(bitlist_payload(b).len() == b.len());
    }
    assert(bitlist_payload(b).len() == ceil_div(bit_len(b), 8));
    assert(pack(bitlist_payload(b)).len() <= n);
}

/// The root of a list of composite elements is the tree over the roots of
/// its elements at the depth that its limit declares, with the element
/// count mixed in.
pub proof fn lemma_list_mixin(d: Descriptor, b: Seq<u8>)
    requires
        d is List,
        !((*d->List_element) is Basic),
        root_spec(d, b) is Ok,
    ensures
        element_ranges(*d->List_element, b, None, d->List_limit as nat) is Ok,
        collect(
            child_results(
                *d->List_element,
                b,
                element_ranges(*d->List_element, b, None, d->List_limit as nat)->Ok_0,
            ),
        ) is Ok,
        root_spec(d, b) == Ok::<Seq<u8>, SszError>(
            node_hash(
                merkleize(
                    collect(
                        child_results(
                            *d->List_element,
                            b,
                            element_ranges(*d->List_element, b, None, d->List_limit as nat)->Ok_0,
                        ),
                    )->Ok_0,
                    ceil_log2(d->List_limit as nat),
                ),
                length_chunk(
                    element_ranges(
                        *d->List_element,
                        b,
                        None,
                        d->List_limit as nat,
                    )->Ok_0.len() as u64,
                ),
            ),
        ),
{
}

/// Two distinct encodings of a basic value never share a root: the root of
/// a basic value is its own bytes, zero-padded.
pub proof fn lemma_basic_injective(size: usize, b1: Seq<u8>, b2: Seq<u8>)
    requires
        root_spec(Descriptor::Basic { size }, b1) is Ok,
        root_spec(Descriptor::Basic { size }, b2) is Ok,
        b1 != b2,
    ensures
        root_spec(Descriptor::Basic { size }, b1) != root_spec(Descriptor::Basic { size }, b2),
{
    assert(pack(b1).len() == 1);
    assert(pack(b2).len() == 1);
    assert(merkleize(pack(b1), 0) == chunk_at(b1, 0));
    assert(merkleize(pack(b2), 0) == chunk_at(b2, 0));
    assert(b1.len() == b2.len());
    assert(exists|j: int| 0 <= j < b1.len() && b1[j] != b2[j]) by {
        if !(exists|j: int| 0 <= j < b1.len() && b1[j] != b2[j]) {
            assert(b1 =~= b2);
        }
    }
    let j = choose|j: int| 0 <= j < b1.len() && b1[j] != b2[j];
    assert(chunk_at(b1, 0)[j] != chunk_at(b2, 0)[j]);
}

} // verus!
