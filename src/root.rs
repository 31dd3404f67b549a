//! The engine: type-directed parsing, chunk streaming and recursion over
//! composite values.
use vstd::prelude::*;

use crate::layout::{
    child_results, field_results, collect, bit_len, container_offsets_ok, container_ranges,
    container_range, field_end, field_offset, header_size, header_width, next_variable, bitlist_payload, ceil_div, ceil_log2, chunk_at, element_ranges, fields_size,
    fixed_ranges, fixed_size, le_u32, msb, offset_at, offset_ranges, offsets_ok, pack, root_spec,
    slice_of, tree_of,
};
use crate::merkle::{
    lemma_two_pow_64, lemma_two_pow_mono, merkleize,
    mixin_length, two_pow, with_mixin, MerkleStack,
};
use crate::types::{Descriptor, SszError, TypeDesc, TypeKind};

verus! {

/// A tree of depth `ceil_log2(n)` has room for `n` leaves.
pub proof fn lemma_ceil_log2_fits(n: nat)
    ensures
        n <= two_pow(ceil_log2(n)),
    decreases n,
{
    if n > 1 {
        lemma_ceil_log2_fits(n / 2 + n % 2);
    }
}

/// `ceil_log2(n)` is at most any `k` with `n <= 2^k`.
pub proof fn lemma_ceil_log2_le(n: nat, k: nat)
    requires
        n <= two_pow(k),
    ensures
        ceil_log2(n) <= k,
    decreases k,
{
    if n > 1 {
        if k == 0 {
            assert(two_pow(0) == 1);
        } else {
            assert(two_pow(k) == 2 * two_pow((k - 1) as nat));
            lemma_ceil_log2_le(n / 2 + n % 2, (k - 1) as nat);
        }
    }
}

/// The depth of the smallest balanced tree with at least `n` leaves.
pub fn tree_depth(n: u128) -> (r: u32)
    requires
        n <= 0x1_0000_0000_0000_0000,
    ensures
        r == ceil_log2(n as nat),
        r <= 64,
        n <= two_pow(r as nat),
    decreases n,
{
    proof {
        lemma_two_pow_64();
        lemma_ceil_log2_le(n as nat, 64);
        lemma_ceil_log2_fits(n as nat);
    }
    if n <= 1 {
        0
    } else {
        1 + tree_depth(n / 2 + n % 2)
    }
}

/// The little-endian `u32` at `offset` in `bytes`.
pub fn read_u32_le(bytes: &[u8], offset: usize) -> (r: u32)
    requires
        offset + 4 <= bytes@.len(),
    ensures
        r == le_u32(bytes@, offset as int),
{
    bytes[offset] as u32 + 256 * (bytes[offset + 1] as u32) + 65536 * (bytes[offset + 2] as u32)
        + 16777216 * (bytes[offset + 3] as u32)
}

/// The `i`-th 32-byte window of `bytes`, zero-padded on the right.
fn chunk_of(bytes: &[u8], i: usize) -> (r: [u8; 32])
    requires
        32 * i < bytes@.len(),
    ensures
        r@ == chunk_at(bytes@, i as int),
{
    let len = bytes.len();
    assert(32 * i < len);
    let base = 32 * i;
    let mut chunk = [0u8; 32];
    let mut j: usize = 0;
    while j < 32
        invariant
            base == 32 * i,
            base < bytes@.len(),
            j <= 32,
            chunk@.len() == 32,
            forall|k: int|
                0 <= k < 32 ==> #[trigger] chunk@[k] == if k < j && base + k < bytes@.len() {
                    bytes@[base + k]
                } else {
                    0u8
                },
        decreases 32 - j,
    {
        if j < bytes.len() - base {
            chunk[j] = bytes[base + j];
        }
        j = j + 1;
    }
    assert(chunk@ =~= chunk_at(bytes@, i as int));
    chunk
}

/// Pushes the 32-byte chunks of `bytes`, the last one zero-padded, onto `stack`.
pub fn stream_chunks(bytes: &[u8], stack: &mut MerkleStack)
    requires
        old(stack).wf(),
        old(stack)@.len() + pack(bytes@).len() <= two_pow(old(stack).declared_depth()),
    ensures
        final(stack).wf(),
        final(stack)@ == old(stack)@ + pack(bytes@),
        final(stack).declared_depth() == old(stack).declared_depth(),
{
    let n = bytes.len() / 32 + if bytes.len() % 32 != 0 {
        1usize
    } else {
        0usize
    };
    assert(n == pack(bytes@).len());
    let ghost start = stack@;
    let mut i: usize = 0;
    while i < n
        invariant
            n == pack(bytes@).len(),
            i <= n,
            stack.wf(),
            stack.declared_depth() == old(stack).declared_depth(),
            start == old(stack)@,
            start.len() + n <= two_pow(stack.declared_depth()),
            stack@ == start + pack(bytes@).take(i as int),
        decreases n - i,
    {
        let chunk = chunk_of(bytes, i);
        stack.push_and_merge(chunk);
        assert(pack(bytes@).take(i as int + 1) =~= pack(bytes@).take(i as int).push(chunk@));
        i = i + 1;
    }
    assert(pack(bytes@).take(n as int) =~= pack(bytes@));
}

/// What `size_of` reports of a descriptor: `None` for a variable size,
/// `Some(None)` for a fixed size beyond `usize`, `Some(Some(s))` for size `s`.
pub open spec fn size_matches(r: Option<Option<usize>>, d: Descriptor) -> bool {
    match r {
        None => fixed_size(d) is None,
        Some(None) => fixed_size(d) is Some && fixed_size(d)->Some_0 > usize::MAX,
        Some(Some(s)) => fixed_size(d) == Some(s as nat),
    }
}

/// The encoded size of every value of `d`, where it is fixed.
pub fn size_of(d: &Descriptor) -> (r: Option<Option<usize>>)
    ensures
        size_matches(r, *d),
    decreases *d,
{
    match d {
        Descriptor::Basic { size } => Some(Some(*size)),
        Descriptor::Vector { element, length } => match size_of(element) {
            None => None,
            Some(None) => if *length == 0 {
                Some(Some(0))
            } else {
                proof {
                    let s = fixed_size(**element)->Some_0;
                    assert(s * (*length as nat) >= s) by (nonlinear_arith)
                        requires
                            *length >= 1,
                    ;
                }
                Some(None)
            },
            Some(Some(s)) => match s.checked_mul(*length) {
                Some(t) => Some(Some(t)),
                None => Some(None),
            },
        },
        Descriptor::List { .. } => None,
        Descriptor::Bitlist { .. } => None,
        Descriptor::Bitvector { length } => Some(
            Some(*length / 8 + if *length % 8 != 0 {
                1usize
            } else {
                0usize
            }),
        ),
        Descriptor::Container { fields } => fields_size_of(fields),
    }
}

/// The total encoded size of a sequence of fields, where each has a fixed size.
pub fn fields_size_of(fields: &Vec<Descriptor>) -> (r: Option<Option<usize>>)
    ensures
        match r {
            None => fields_size(fields@) is None,
            Some(None) => fields_size(fields@) is Some && fields_size(fields@)->Some_0 > usize::MAX,
            Some(Some(s)) => fields_size(fields@) == Some(s as nat),
        },
    decreases *fields,
{
    proof {
        assert forall|j: int| 0 <= j < fields.len() implies #[trigger] decreases_to!(*fields => fields[j]) by {
            vstd::std_specs::vec::axiom_vec_index_decreases(*fields, j);
        }
    }
    let mut variable = false;
    let mut huge = false;
    let mut acc: usize = 0;
    let mut i: usize = 0;
    while i < fields.len()
        invariant
            i <= fields@.len(),
            forall|j: int| 0 <= j < fields.len() ==> #[trigger] decreases_to!(*fields => fields[j]),
            variable <==> fields_size(fields@.take(i as int)) is None,
            !variable && huge ==> fields_size(fields@.take(i as int))->Some_0 > usize::MAX,
            !variable && !huge ==> fields_size(fields@.take(i as int)) == Some(acc as nat),
        decreases fields@.len() - i,
    {
        proof {
            assert(fields@.take(i + 1).drop_last() =~= fields@.take(i as int));
            assert(fields@.take(i + 1).last() == fields@[i as int]);
        }
        let f = size_of(&fields[i]);
        match f {
            None => {
                variable = true;
            },
            Some(None) => {
                huge = true;
            },
            Some(Some(s)) => match acc.checked_add(s) {
                Some(t) => {
                    acc = t;
                },
                None => {
                    huge = true;
                },
            },
        }
        i = i + 1;
    }
    proof {
        assert(fields@.take(fields@.len() as int) =~= fields@);
    }
    if variable {
        None
    } else if huge {
        Some(None)
    } else {
        Some(Some(acc))
    }
}

/// The pairs of a range list as natural numbers.
pub open spec fn ranges_view(rs: Seq<(usize, usize)>) -> Seq<(nat, nat)> {
    Seq::new(rs.len(), |i: int| (rs[i].0 as nat, rs[i].1 as nat))
}

/// A list of ranges, or an error, as natural numbers.
pub open spec fn ranges_result(r: Result<Vec<(usize, usize)>, SszError>) -> Result<
    Seq<(nat, nat)>,
    SszError,
> {
    match r {
        Ok(rs) => Ok(ranges_view(rs@)),
        Err(e) => Err(e),
    }
}

/// The ranges of `count` consecutive elements of `size` bytes.
fn fixed_ranges_exec(count: usize, size: usize, Ghost(len): Ghost<nat>) -> (r: Vec<(usize, usize)>)
    requires
        count * size <= len,
        len <= usize::MAX,
    ensures
        ranges_view(r@) == fixed_ranges(count as nat, size as nat),
{
    let mut r: Vec<(usize, usize)> = Vec::new();
    let mut pos: usize = 0;
    let mut i: usize = 0;
    while i < count
        invariant
            i <= count,
            count * size <= len,
            len <= usize::MAX,
            pos == i * size,
            ranges_view(r@) == fixed_ranges(i as nat, size as nat),
        decreases count - i,
    {
        proof {
            assert((i + 1) * size <= count * size) by (nonlinear_arith)
                requires
                    i < count,
            ;
            assert((i + 1) * size == i * size + size) by (nonlinear_arith);
        }
        let ghost old_r = r@;
        r.push((pos, pos + size));
        proof {
            assert(ranges_view(old_r).len() == old_r.len());
            assert(old_r.len() == i);
            assert(r@ == old_r.push((pos, (pos + size) as usize)));
            assert(ranges_view(r@).len() == i + 1);
            assert forall|j: int| 0 <= j < i + 1 implies #[trigger] ranges_view(r@)[j]
                == fixed_ranges(i as nat + 1, size as nat)[j] by {
                if j < i {
                    assert(ranges_view(old_r)[j] == fixed_ranges(i as nat, size as nat)[j]);
                }
            }
            assert(ranges_view(r@) =~= fixed_ranges(i as nat + 1, size as nat));
        }
        pos = pos + size;
        i = i + 1;
    }
    r
}

/// Whether the offset table of `count` entries at the start of `bytes` is
/// non-decreasing and ends within `bytes`.
fn check_offsets(bytes: &[u8], count: usize) -> (r: bool)
    requires
        count >= 1,
        4 * count <= bytes@.len(),
    ensures
        r == offsets_ok(bytes@, count as nat),
{
    let len = bytes.len();
    let mut i: usize = 0;
    while i + 1 < count
        invariant
            count >= 1,
            4 * count <= len,
            len == bytes@.len(),
            i + 1 <= count,
            forall|j: int| 0 <= j < i ==> #[trigger] offset_at(bytes@, j) <= offset_at(bytes@, j + 1),
        decreases count - i,
    {
        let a = read_u32_le(bytes, 4 * i);
        let b = read_u32_le(bytes, 4 * i + 4);
        if a > b {
            assert(offset_at(bytes@, i as int) > offset_at(bytes@, i + 1));
            return false;
        }
        i = i + 1;
    }
    let last = read_u32_le(bytes, 4 * (count - 1)) as usize;
    last <= len
}

/// The ranges that the offset table of `count` entries at the start of
/// `bytes` gives, or `BadOffset` where the table decreases or overruns.
fn offset_table(bytes: &[u8], count: usize) -> (r: Result<Vec<(usize, usize)>, SszError>)
    requires
        count >= 1,
        4 * count <= bytes@.len(),
    ensures
        ranges_result(r) == if offsets_ok(bytes@, count as nat) {
            Ok(offset_ranges(bytes@, count as nat))
        } else {
            Err(SszError::BadOffset)
        },
{
    if !check_offsets(bytes, count) {
        return Err(SszError::BadOffset);
    }
    let len = bytes.len();
    let mut r: Vec<(usize, usize)> = Vec::new();
    let mut k: usize = 0;
    while k < count
        invariant
            count >= 1,
            4 * count <= len,
            len == bytes@.len(),
            k <= count,
            ranges_view(r@) == offset_ranges(bytes@, count as nat).take(k as int),
        decreases count - k,
    {
        let start = read_u32_le(bytes, 4 * k) as usize;
        let end = if k + 1 < count {
            read_u32_le(bytes, 4 * k + 4) as usize
        } else {
            len
        };
        let ghost old_r = r@;
        r.push((start, end));
        proof {
            assert(ranges_view(old_r).len() == old_r.len());
            assert(old_r.len() == k);
            assert(r@ == old_r.push((start, end)));
            assert(ranges_view(r@).len() == k + 1);
            assert forall|j: int| 0 <= j < k + 1 implies #[trigger] ranges_view(r@)[j]
                == offset_ranges(bytes@, count as nat).take(k + 1)[j] by {
                if j < k {
                    assert(ranges_view(old_r)[j] == offset_ranges(bytes@, count as nat).take(
                        k as int,
                    )[j]);
                }
            }
            assert(ranges_view(r@) =~= offset_ranges(bytes@, count as nat).take(k + 1));
        }
        k = k + 1;
    }
    proof {
        assert(offset_ranges(bytes@, count as nat).take(count as int) =~= offset_ranges(
            bytes@,
            count as nat,
        ));
    }
    Ok(r)
}

/// An optional count as a natural number.
pub open spec fn opt_nat(o: Option<usize>) -> Option<nat> {
    match o {
        Some(n) => Some(n as nat),
        None => None,
    }
}

/// The element ranges of a vector (`length` is `Some`) or a list of
/// elements that are not basic, or why the encoding is refused.
pub fn parse_to_ranges(e: &Descriptor, bytes: &[u8], length: Option<usize>, limit: usize) -> (r:
    Result<Vec<(usize, usize)>, SszError>)
    ensures
        ranges_result(r) == element_ranges(*e, bytes@, opt_nat(length), limit as nat),
{
    let len = bytes.len();
    let empty: Vec<(usize, usize)> = Vec::new();
    proof {
        assert(ranges_view(empty@) =~= Seq::<(nat, nat)>::empty());
        assert(fixed_ranges(0, fixed_size(*e)->Some_0) =~= Seq::<(nat, nat)>::empty());
    }
    match size_of(e) {
        Some(Some(s)) => match length {
            Some(n) => match s.checked_mul(n) {
                None => Err(SszError::NonCanonical),
                Some(t) => if t != len {
                    Err(SszError::NonCanonical)
                } else {
                    Ok(fixed_ranges_exec(n, s, Ghost(len as nat)))
                },
            },
            None => if s == 0 {
                Err(SszError::UnsupportedType)
            } else if len % s != 0 {
                Err(SszError::NonCanonical)
            } else if len / s > limit {
                Err(SszError::LengthOverflow)
            } else {
                proof {
                    vstd::arithmetic::div_mod::lemma_fundamental_div_mod(len as int, s as int);
                    assert((len / s) * s == s * (len / s)) by (nonlinear_arith);
                }
                Ok(fixed_ranges_exec(len / s, s, Ghost(len as nat)))
            },
        },
        Some(None) => {
            let ghost sz = fixed_size(*e)->Some_0;
            match length {
                Some(n) => if n == 0 && len == 0 {
                    assert(sz * 0 == 0);
                    Ok(empty)
                } else {
                    if n > 0 {
                        assert(sz * (n as nat) >= sz) by (nonlinear_arith)
                            requires
                                n >= 1,
                        ;
                    }
                    Err(SszError::NonCanonical)
                },
                None => if len == 0 {
                    proof {
                        vstd::arithmetic::div_mod::lemma_small_mod(0, sz);
                        vstd::arithmetic::div_mod::lemma_basic_div(0, sz as int);
                    }
                    Ok(empty)
                } else {
                    proof {
                        vstd::arithmetic::div_mod::lemma_small_mod(len as nat, sz);
                    }
                    Err(SszError::NonCanonical)
                },
            }
        },
        None => match length {
            Some(n) => if n == 0 {
                if len == 0 {
                    Ok(empty)
                } else {
                    Err(SszError::NonCanonical)
                }
            } else if n > len / 4 {
                Err(SszError::UnexpectedEOF)
            } else if read_u32_le(bytes, 0) as usize != 4 * n {
                Err(SszError::BadOffset)
            } else {
                offset_table(bytes, n)
            },
            None => if len == 0 {
                Ok(empty)
            } else if len < 4 {
                Err(SszError::UnexpectedEOF)
            } else {
                let first = read_u32_le(bytes, 0) as usize;
                if first % 4 != 0 || first > len || first == 0 {
                    Err(SszError::BadOffset)
                } else if first / 4 > limit {
                    Err(SszError::LengthOverflow)
                } else {
                    offset_table(bytes, first / 4)
                }
            },
        },
    }
}

/// Each range is ordered and lies within `len` bytes.
pub open spec fn ranges_within(rs: Seq<(nat, nat)>, len: nat) -> bool {
    forall|i: int| 0 <= i < rs.len() ==> #[trigger] rs[i].0 <= rs[i].1 && rs[i].1 <= len
}

/// A non-decreasing offset table is ordered between any two of its entries.
pub proof fn lemma_offsets_ordered(b: Seq<u8>, count: nat, i: int, j: int)
    requires
        offsets_ok(b, count),
        0 <= i <= j < count,
    ensures
        offset_at(b, i) <= offset_at(b, j),
    decreases j - i,
{
    if i < j {
        lemma_offsets_ordered(b, count, i, j - 1);
        assert(offset_at(b, j - 1) <= offset_at(b, j));
    }
}

/// The element ranges lie within the input: one per element of a vector,
/// at most `limit` for a list.
pub proof fn lemma_element_ranges(e: Descriptor, b: Seq<u8>, length: Option<nat>, limit: nat)
    requires
        element_ranges(e, b, length, limit) is Ok,
    ensures
        ranges_within(element_ranges(e, b, length, limit)->Ok_0, b.len()),
        length is Some ==> element_ranges(e, b, length, limit)->Ok_0.len() == length->Some_0,
        length is None ==> element_ranges(e, b, length, limit)->Ok_0.len() <= limit,
{
    let rs = element_ranges(e, b, length, limit)->Ok_0;
    match fixed_size(e) {
        Some(s) => {
            let n: nat = match length {
                Some(n) => n,
                None => b.len() / s,
            };
            if length is None {
                vstd::arithmetic::div_mod::lemma_fundamental_div_mod(b.len() as int, s as int);
                assert(n * s == b.len()) by (nonlinear_arith)
                    requires
                        n == b.len() / s,
                        b.len() == s * (b.len() / s) + b.len() % s,
                        b.len() % s == 0,
                ;
            } else {
                assert(n * s == b.len()) by (nonlinear_arith)
                    requires
                        b.len() == s * n,
                ;
            }
            assert(rs == fixed_ranges(n, s));
            assert forall|i: int| 0 <= i < rs.len() implies #[trigger] rs[i].0 <= rs[i].1 && rs[i].1
                <= b.len() by {
                assert(i * s <= (i + 1) * s && (i + 1) * s <= n * s) by (nonlinear_arith)
                    requires
                        0 <= i < n,
                ;
            }
        },
        None => {
            if rs.len() > 0 {
                let count = rs.len();
                assert forall|i: int| 0 <= i < rs.len() implies #[trigger] rs[i].0 <= rs[i].1 && rs[i].1
                    <= b.len() by {
                    lemma_offsets_ordered(b, count, i, count - 1);
                    if i + 1 < count {
                        lemma_offsets_ordered(b, count, i + 1, count - 1);
                        assert(offset_at(b, i) <= offset_at(b, i + 1));
                    }
                }
            }
        },
    }
}

/// Extending a prefix of the children by one result.
pub proof fn lemma_collect_step(rs: Seq<Result<Seq<u8>, SszError>>, k: int)
    requires
        0 <= k < rs.len(),
        collect(rs.take(k)) is Ok,
    ensures
        rs[k] is Ok ==> collect(rs.take(k + 1)) == Ok::<Seq<Seq<u8>>, SszError>(
            collect(rs.take(k))->Ok_0.push(rs[k]->Ok_0),
        ),
        rs[k] is Err ==> collect(rs.take(k + 1)) == Err::<Seq<Seq<u8>>, SszError>(rs[k]->Err_0),
{
    assert(rs.take(k + 1).drop_last() =~= rs.take(k));
    assert(rs.take(k + 1).last() == rs[k]);
}

/// Once a prefix of the children holds an error, the first such error is the result.
pub proof fn lemma_collect_err(rs: Seq<Result<Seq<u8>, SszError>>, k: int)
    requires
        0 <= k <= rs.len(),
        collect(rs.take(k)) is Err,
    ensures
        collect(rs) == collect(rs.take(k)),
    decreases rs.len() - k,
{
    if k < rs.len() {
        assert(rs.take(k + 1).drop_last() =~= rs.take(k));
        lemma_collect_err(rs, k + 1);
    } else {
        assert(rs.take(k) =~= rs);
    }
}

/// A result as a sequence of bytes.
pub open spec fn root_result(r: Result<[u8; 32], SszError>) -> Result<Seq<u8>, SszError> {
    match r {
        Ok(x) => Ok(x@),
        Err(e) => Err(e),
    }
}

/// The root of the packed chunks of `bytes` in a tree of depth `depth`.
fn packed_root(bytes: &[u8], depth: u32) -> (r: [u8; 32])
    requires
        depth <= 64,
        pack(bytes@).len() <= two_pow(depth as nat),
    ensures
        r@ == merkleize(pack(bytes@), depth as nat),
{
    let mut stack = MerkleStack::new(depth);
    stream_chunks(bytes, &mut stack);
    assert(Seq::<Seq<u8>>::empty() + pack(bytes@) =~= pack(bytes@));
    stack.finalize()
}

/// The tree over the roots of the children of type `e` at `rs`, with an
/// optional length mixed in.
fn children_root(
    e: &Descriptor,
    bytes: &[u8],
    rs: &Vec<(usize, usize)>,
    depth: u32,
    mixin: Option<u64>,
) -> (r: Result<[u8; 32], SszError>)
    requires
        depth <= 64,
        rs@.len() <= two_pow(depth as nat),
        ranges_within(ranges_view(rs@), bytes@.len()),
    ensures
        root_result(r) == tree_of(
            collect(child_results(*e, bytes@, ranges_view(rs@))),
            depth as nat,
            mixin,
        ),
    decreases *e, 1nat,
{
    let ghost results = child_results(*e, bytes@, ranges_view(rs@));
    let mut stack = MerkleStack::new(depth);
    proof {
        assert(results.take(0) =~= Seq::<Result<Seq<u8>, SszError>>::empty());
    }
    let mut i: usize = 0;
    while i < rs.len()
        invariant
            depth <= 64,
            rs@.len() <= two_pow(depth as nat),
            ranges_within(ranges_view(rs@), bytes@.len()),
            results == child_results(*e, bytes@, ranges_view(rs@)),
            i <= rs@.len(),
            stack.wf(),
            stack.declared_depth() == depth,
            stack@.len() == i,
            collect(results.take(i as int)) == Ok::<Seq<Seq<u8>>, SszError>(stack@),
        decreases rs@.len() - i,
    {
        let (start, end) = rs[i];
        proof {
            assert(ranges_view(rs@)[i as int] == (start as nat, end as nat));
            assert(results[i as int] == root_spec(*e, slice_of(bytes@, ranges_view(rs@)[i as int])));
            lemma_collect_step(results, i as int);
        }
        let child = root_of(e, &bytes[start..end]);
        match child {
            Err(err) => {
                proof {
                    lemma_collect_err(results, i + 1);
                }
                return Err(err);
            },
            Ok(root) => {
                stack.push_and_merge(root);
            },
        }
        i = i + 1;
    }
    proof {
        assert(results.take(rs@.len() as int) =~= results);
    }
    let mut root = stack.finalize();
    match mixin {
        Some(n) => {
            mixin_length(&mut root, n);
        },
        None => {},
    }
    Ok(root)
}

/// The highest set bit of `x` lies between `2^msb(x)` and `2^(msb(x)+1)`.
pub proof fn lemma_msb(x: nat)
    requires
        x >= 1,
    ensures
        two_pow(msb(x)) <= x,
        x < two_pow(msb(x) + 1),
    decreases x,
{
    if x > 1 {
        lemma_msb(x / 2);
        assert(two_pow(msb(x)) == 2 * two_pow(msb(x / 2)));
        assert(two_pow(msb(x) + 1) == 2 * two_pow(msb(x)));
    } else {
        assert(two_pow(1) == 2 * two_pow(0));
    }
}

/// The position of the highest set bit of a nonzero byte.
fn highest_bit(x: u8) -> (r: u32)
    requires
        x >= 1,
    ensures
        r == msb(x as nat),
        r <= 7,
{
    proof {
        lemma_msb(x as nat);
        reveal_with_fuel(two_pow, 9);
        if msb(x as nat) >= 8 {
            lemma_two_pow_mono(8, msb(x as nat));
        }
    }
    let mut s: u8 = x;
    let mut pos: u32 = 0;
    while s > 1
        invariant
            s >= 1,
            msb(x as nat) == pos + msb(s as nat),
            msb(x as nat) <= 7,
        decreases s,
    {
        s = s / 2;
        pos = pos + 1;
    }
    pos
}

/// `2^k` for a bit position within a byte.
fn bit_value(k: u32) -> (r: u8)
    requires
        k <= 7,
    ensures
        r == two_pow(k as nat),
{
    proof {
        reveal_with_fuel(two_pow, 8);
    }
    let mut r: u8 = 1;
    let mut i: u32 = 0;
    while i < k
        invariant
            i <= k <= 7,
            r == two_pow(i as nat),
        decreases k - i,
    {
        proof {
            reveal_with_fuel(two_pow, 8);
            lemma_two_pow_mono(i as nat, 6);
        }
        r = r * 2;
        i = i + 1;
    }
    r
}

/// The root of a bitlist of at most `limit` bits.
fn bitlist_root(bytes: &[u8], limit: usize) -> (r: Result<[u8; 32], SszError>)
    ensures
        root_result(r) == root_spec(Descriptor::Bitlist { limit }, bytes@),
{
    let len = bytes.len();
    if len == 0 {
        return Err(SszError::NonCanonical);
    }
    let last = bytes[len - 1];
    if last == 0 {
        return Err(SszError::BitlistPadding);
    }
    let pos = highest_bit(last);
    let bits: u128 = (len - 1) as u128 * 8 + pos as u128;
    assert(bits == bit_len(bytes@));
    if bits > limit as u128 {
        return Err(SszError::LengthOverflow);
    }
    let mut payload: Vec<u8> = Vec::new();
    let mut i: usize = 0;
    while i < len - 1
        invariant
            len == bytes@.len(),
            len >= 1,
            i <= len - 1,
            payload@ == bytes@.take(i as int),
        decreases len - 1 - i,
    {
        payload.push(bytes[i]);
        assert(bytes@.take(i + 1) =~= bytes@.take(i as int).push(bytes@[i as int]));
        i = i + 1;
    }
    if pos > 0 {
        proof {
            lemma_msb(last as nat);
        }
        payload.push(last - bit_value(pos));
        assert(payload@ =~= bitlist_payload(bytes@));
    } else {
        assert(payload@ =~= bitlist_payload(bytes@));
    }
    let depth = tree_depth((limit as u128 + 255) / 256);
    assert(payload@.len() == ceil_div(bits as nat, 8));
    assert(pack(payload@).len() <= ceil_div(limit as nat, 256));
    let mut root = packed_root(&payload, depth);
    mixin_length(&mut root, bits as u64);
    Ok(root)
}

/// The root of a bitvector of exactly `length` bits.
fn bitvector_root(bytes: &[u8], length: usize) -> (r: Result<[u8; 32], SszError>)
    ensures
        root_result(r) == root_spec(Descriptor::Bitvector { length }, bytes@),
{
    let len = bytes.len();
    let n = length / 8 + if length % 8 != 0 {
        1usize
    } else {
        0usize
    };
    if len != n {
        return Err(SszError::NonCanonical);
    }
    let rem = (length % 8) as u32;
    if rem != 0 && bytes[len - 1] >= bit_value(rem) {
        return Err(SszError::BitlistPadding);
    }
    let depth = tree_depth((length as u128 + 255) / 256);
    assert(pack(bytes@).len() <= ceil_div(length as nat, 256));
    Ok(packed_root(bytes, depth))
}

/// Each field widens the fixed section by its width, and every prefix of
/// the fields has a fixed section no longer than the whole.
pub proof fn lemma_header_prefix(fs: Seq<Descriptor>, i: int)
    requires
        0 <= i <= fs.len(),
    ensures
        header_size(fs.take(i)) <= header_size(fs),
        i < fs.len() ==> header_size(fs.take(i + 1)) == header_size(fs.take(i)) + header_width(
            fs[i],
        ),
    decreases fs.len() - i,
{
    if i == fs.len() {
        assert(fs.take(i) =~= fs);
    } else {
        assert(fs.take(i + 1).drop_last() =~= fs.take(i));
        assert(fs.take(i + 1).last() == fs[i]);
        lemma_header_prefix(fs, i + 1);
    }
}

/// A container whose fields all have fixed sizes has a fixed section that
/// is the whole container, and no offsets.
pub proof fn lemma_all_fixed(fs: Seq<Descriptor>)
    requires
        fields_size(fs) is Some,
    ensures
        header_size(fs) == fields_size(fs)->Some_0,
        forall|i: int| 0 <= i < fs.len() ==> #[trigger] fixed_size(fs[i]) is Some,
    decreases fs.len(),
{
    if fs.len() > 0 {
        let init = fs.drop_last();
        lemma_all_fixed(init);
        assert forall|i: int| 0 <= i < fs.len() implies #[trigger] fixed_size(fs[i]) is Some by {
            if i < fs.len() - 1 {
                assert(init[i] == fs[i]);
            }
        }
    }
}

/// Without variable-size fields there is no variable-size field at or after any index.
pub proof fn lemma_no_variable(fs: Seq<Descriptor>, i: int)
    requires
        forall|j: int| 0 <= j < fs.len() ==> #[trigger] fixed_size(fs[j]) is Some,
        0 <= i,
    ensures
        next_variable(fs, i) == fs.len(),
    decreases fs.len() - i,
{
    if i < fs.len() {
        lemma_no_variable(fs, i + 1);
    }
}

/// The ranges of the fields of a container, or why its fixed section or
/// its offsets are refused.
#[verifier::rlimit(80)]
fn container_layout(fields: &Vec<Descriptor>, bytes: &[u8]) -> (r: Result<
    Vec<(usize, usize)>,
    SszError,
>)
    ensures
        ranges_result(r) == if bytes@.len() < header_size(fields@) {
            Err(SszError::UnexpectedEOF)
        } else if !container_offsets_ok(fields@, bytes@) {
            Err(SszError::BadOffset)
        } else {
            Ok(container_ranges(fields@, bytes@))
        },
        r is Ok ==> ranges_within(ranges_view(r->Ok_0@), bytes@.len()) && r->Ok_0@.len()
            == fields@.len(),
{
    let ghost fs = fields@;
    let len = bytes.len();
    let n = fields.len();
    let mut sizes: Vec<Option<usize>> = Vec::new();
    let mut starts: Vec<usize> = Vec::new();
    let mut acc: usize = 0;
    let mut i: usize = 0;
    proof {
        assert(fs.take(0) =~= Seq::<Descriptor>::empty());
    }
    while i < n
        invariant
            fs == fields@,
            n == fs.len(),
            len == bytes@.len(),
            i <= n,
            sizes@.len() == i,
            starts@.len() == i,
            acc == header_size(fs.take(i as int)),
            acc <= len,
            forall|j: int| 0 <= j < i ==> #[trigger] starts@[j] == header_size(fs.take(j)),
            forall|j: int|
                0 <= j < i ==> match #[trigger] sizes@[j] {
                    None => fixed_size(fs[j]) is None,
                    Some(s) => fixed_size(fs[j]) == Some(s as nat),
                },
            forall|j: int| 0 <= j < i ==> starts@[j] + header_width(fs[j]) <= acc,
        decreases n - i,
    {
        proof {
            lemma_header_prefix(fs, i as int);
            lemma_header_prefix(fs, i + 1);
        }
        let size = match size_of(&fields[i]) {
            Some(None) => {
                return Err(SszError::UnexpectedEOF);
            },
            other => other.unwrap_or(None),
        };
        let w: usize = match size {
            None => 4,
            Some(s) => s,
        };
        if w > len - acc {
            return Err(SszError::UnexpectedEOF);
        }
        let ghost old_acc = acc;
        sizes.push(size);
        starts.push(acc);
        acc = acc + w;
        proof {
            assert forall|j: int| 0 <= j < i + 1 implies starts@[j] + header_width(fs[j]) <= acc by {
                if j < i {
                    assert(starts@[j] + header_width(fs[j]) <= old_acc);
                }
            }
        }
        i = i + 1;
    }
    proof {
        assert(fs.take(n as int) =~= fs);
    }
    let mut rs: Vec<(usize, usize)> = Vec::new();
    let mut j: usize = 0;
    while j < n
        invariant
            j <= n,
            rs@.len() == j,
        decreases n - j,
    {
        rs.push((0, 0));
        j = j + 1;
    }
    let mut next_start: usize = len;
    let mut seen: bool = false;
    let mut k: usize = n;
    while k > 0
        invariant
            fs == fields@,
            n == fs.len(),
            len == bytes@.len(),
            k <= n,
            acc == header_size(fs),
            acc <= len,
            sizes@.len() == n,
            starts@.len() == n,
            rs@.len() == n,
            forall|j: int| 0 <= j < n ==> #[trigger] starts@[j] == header_size(fs.take(j)),
            forall|j: int|
                0 <= j < n ==> match #[trigger] sizes@[j] {
                    None => fixed_size(fs[j]) is None,
                    Some(s) => fixed_size(fs[j]) == Some(s as nat),
                },
            forall|j: int| 0 <= j < n ==> starts@[j] + header_width(fs[j]) <= acc,
            next_start <= len,
            seen <==> next_variable(fs, k as int) < n,
            next_start == if next_variable(fs, k as int) < n {
                field_offset(fs, bytes@, next_variable(fs, k as int))
            } else {
                len as nat
            },
            forall|j: int|
                k <= j < n ==> (#[trigger] rs@[j]).0 as nat == container_range(fs, bytes@, j).0
                    && rs@[j].1 as nat == container_range(fs, bytes@, j).1,
            forall|j: int|
                k <= j < n && fixed_size(fs[j]) is None ==> #[trigger] field_offset(fs, bytes@, j)
                    <= field_end(fs, bytes@, j),
            forall|j: int|
                k <= j < n ==> #[trigger] rs@[j].0 <= rs@[j].1 && rs@[j].1 <= len,
        decreases k,
    {
        k = k - 1;
        let start = starts[k];
        let ghost old_rs = rs@;
        let ghost old_next = next_start;
        match sizes[k] {
            None => {
                let off = read_u32_le(bytes, start) as usize;
                assert(off == field_offset(fs, bytes@, k as int));
                if off > next_start {
                    return Err(SszError::BadOffset);
                }
                rs.set(k, (off, next_start));
                next_start = off;
                seen = true;
            },
            Some(s) => {
                rs.set(k, (start, start + s));
            },
        }
        proof {
            assert forall|j: int| k <= j < n implies (#[trigger] rs@[j]).0 as nat == container_range(
                fs,
                bytes@,
                j,
            ).0 && rs@[j].1 as nat == container_range(fs, bytes@, j).1 by {
                if j > k {
                    assert(rs@[j] == old_rs[j]);
                } else if fixed_size(fs[j]) is None {
                    assert(field_end(fs, bytes@, j) == old_next);
                }
            }
            assert forall|j: int| k <= j < n implies #[trigger] rs@[j].0 <= rs@[j].1 && rs@[j].1
                <= len by {
                if j > k {
                    assert(rs@[j] == old_rs[j]);
                }
            }
        }
    }
    if seen && next_start != acc {
        return Err(SszError::BadOffset);
    }
    proof {
        assert(ranges_view(rs@) =~= container_ranges(fs, bytes@)) by {
            assert forall|j: int| 0 <= j < n implies #[trigger] ranges_view(rs@)[j]
                == container_ranges(fs, bytes@)[j] by {
                assert(rs@[j].0 as nat == container_range(fs, bytes@, j).0);
            }
        }
    }
    Ok(rs)
}

/// The tree over the roots of the fields of a container at their ranges.
fn fields_root(fields: &Vec<Descriptor>, bytes: &[u8], rs: &Vec<(usize, usize)>) -> (r: Result<
    [u8; 32],
    SszError,
>)
    requires
        rs@.len() == fields@.len(),
        ranges_within(ranges_view(rs@), bytes@.len()),
    ensures
        root_result(r) == tree_of(
            collect(field_results(fields@, bytes@, ranges_view(rs@))),
            ceil_log2(fields@.len() as nat),
            None,
        ),
    decreases *fields, 1nat,
{
    let ghost results = field_results(fields@, bytes@, ranges_view(rs@));
    let depth = tree_depth(fields.len() as u128);
    let mut stack = MerkleStack::new(depth);
    proof {
        assert(results.take(0) =~= Seq::<Result<Seq<u8>, SszError>>::empty());
        assert forall|j: int| 0 <= j < fields.len() implies #[trigger] decreases_to!(*fields => fields[j]) by {
            vstd::std_specs::vec::axiom_vec_index_decreases(*fields, j);
        }
    }
    let mut i: usize = 0;
    while i < fields.len()
        invariant
            depth <= 64,
            fields@.len() <= two_pow(depth as nat),
            rs@.len() == fields@.len(),
            ranges_within(ranges_view(rs@), bytes@.len()),
            results == field_results(fields@, bytes@, ranges_view(rs@)),
            forall|j: int| 0 <= j < fields.len() ==> #[trigger] decreases_to!(*fields => fields[j]),
            i <= fields@.len(),
            stack.wf(),
            stack.declared_depth() == depth,
            stack@.len() == i,
            collect(results.take(i as int)) == Ok::<Seq<Seq<u8>>, SszError>(stack@),
        decreases fields@.len() - i,
    {
        let (start, end) = rs[i];
        proof {
            assert(ranges_view(rs@)[i as int] == (start as nat, end as nat));
            assert(results[i as int] == root_spec(
                fields@[i as int],
                slice_of(bytes@, ranges_view(rs@)[i as int]),
            ));
            lemma_collect_step(results, i as int);
        }
        let child = root_of(&fields[i], &bytes[start..end]);
        match child {
            Err(err) => {
                proof {
                    lemma_collect_err(results, i + 1);
                }
                return Err(err);
            },
            Ok(root) => {
                stack.push_and_merge(root);
            },
        }
        i = i + 1;
    }
    proof {
        assert(results.take(fields@.len() as int) =~= results);
    }
    Ok(stack.finalize())
}

/// The root of a container.
fn container_root(fields: &Vec<Descriptor>, bytes: &[u8], Ghost(d): Ghost<Descriptor>) -> (r: Result<
    [u8; 32],
    SszError,
>)
    requires
        d == (Descriptor::Container { fields: *fields }),
    ensures
        root_result(r) == root_spec(d, bytes@),
    decreases *fields, 2nat,
{
    if fields.len() == 0 {
        return Err(SszError::UnsupportedType);
    }
    let len = bytes.len();
    match fields_size_of(fields) {
        Some(None) => Err(SszError::MalformedHeader),
        Some(Some(t)) => if t != len {
            Err(SszError::MalformedHeader)
        } else {
            proof {
                lemma_all_fixed(fields@);
                lemma_no_variable(fields@, 0);
            }
            match container_layout(fields, bytes) {
                Err(e) => Err(e),
                Ok(rs) => fields_root(fields, bytes, &rs),
            }
        },
        None => match container_layout(fields, bytes) {
            Err(e) => Err(e),
            Ok(rs) => fields_root(fields, bytes, &rs),
        },
    }
}

/// The root of a vector of `length` elements of type `element`.
fn vector_root(element: &Descriptor, length: usize, bytes: &[u8], Ghost(d): Ghost<Descriptor>) -> (r:
    Result<[u8; 32], SszError>)
    requires
        d is Vector,
        *d->Vector_element == *element,
        d->Vector_length == length,
    ensures
        root_result(r) == root_spec(d, bytes@),
    decreases *element, 2nat,
{
    let len = bytes.len();
    match element {
        Descriptor::Basic { size } => {
            let size = *size;
            if !(size == 1 || size == 2 || size == 4 || size == 8 || size == 16 || size == 32) {
                Err(SszError::UnsupportedType)
            } else {
                match size.checked_mul(length) {
                    None => Err(SszError::NonCanonical),
                    Some(t) => if t != len {
                        Err(SszError::NonCanonical)
                    } else {
                        let depth = tree_depth((t as u128 + 31) / 32);
                        Ok(packed_root(bytes, depth))
                    },
                }
            }
        },
        _ => match parse_to_ranges(element, bytes, Some(length), 0) {
            Err(err) => Err(err),
            Ok(rs) => {
                proof {
                    lemma_element_ranges(*element, bytes@, Some(length as nat), 0);
                }
                let depth = tree_depth(length as u128);
                children_root(element, bytes, &rs, depth, None)
            },
        },
    }
}

/// The root of a list of at most `limit` elements of type `element`.
fn list_root(element: &Descriptor, limit: usize, bytes: &[u8], Ghost(d): Ghost<Descriptor>) -> (r:
    Result<[u8; 32], SszError>)
    requires
        d is List,
        *d->List_element == *element,
        d->List_limit == limit,
    ensures
        root_result(r) == root_spec(d, bytes@),
    decreases *element, 2nat,
{
    let len = bytes.len();
    match element {
        Descriptor::Basic { size } => {
            let size = *size;
            if !(size == 1 || size == 2 || size == 4 || size == 8 || size == 16 || size == 32) {
                Err(SszError::UnsupportedType)
            } else if len % size != 0 {
                Err(SszError::NonCanonical)
            } else if len / size > limit {
                Err(SszError::LengthOverflow)
            } else {
                let cap: u128 = limit as u128 * size as u128;
                proof {
                    vstd::arithmetic::div_mod::lemma_fundamental_div_mod(len as int, size as int);
                    assert(len <= cap) by (nonlinear_arith)
                        requires
                            len == size * (len / size) + len % size,
                            len % size == 0,
                            len / size <= limit,
                            cap == limit * size,
                    ;
                }
                let depth = tree_depth((cap + 31) / 32);
                let mut root = packed_root(bytes, depth);
                mixin_length(&mut root, (len / size) as u64);
                Ok(root)
            }
        },
        _ => match parse_to_ranges(element, bytes, None, limit) {
            Err(err) => Err(err),
            Ok(rs) => {
                proof {
                    lemma_element_ranges(*element, bytes@, None, limit as nat);
                }
                let depth = tree_depth(limit as u128);
                children_root(element, bytes, &rs, depth, Some(rs.len() as u64))
            },
        },
    }
}

/// The hash tree root of the value that `bytes` encodes as a value of `d`,
/// or why `bytes` is not the canonical encoding of such a value.
pub fn root_of(d: &Descriptor, bytes: &[u8]) -> (r: Result<[u8; 32], SszError>)
    ensures
        root_result(r) == root_spec(*d, bytes@),
    decreases *d, 0nat,
{
    match d {
        Descriptor::Basic { size } => {
            let size = *size;
            if !(size == 1 || size == 2 || size == 4 || size == 8 || size == 16 || size == 32) {
                Err(SszError::UnsupportedType)
            } else if bytes.len() != size {
                Err(SszError::NonCanonical)
            } else {
                proof {
                    reveal_with_fuel(two_pow, 1);
                }
                Ok(packed_root(bytes, 0))
            }
        },
        Descriptor::Bitvector { length } => bitvector_root(bytes, *length),
        Descriptor::Bitlist { limit } => bitlist_root(bytes, *limit),
        Descriptor::Vector { element, length } => vector_root(element, *length, bytes, Ghost(*d)),
        Descriptor::List { element, limit } => list_root(element, *limit, bytes, Ghost(*d)),
        Descriptor::Container { fields } => container_root(fields, bytes, Ghost(*d)),
    }
}

/// `2^depth`, the number of leaves of a tree of depth `depth`.
fn capacity(depth: u32) -> (r: u128)
    requires
        depth <= 64,
    ensures
        r == two_pow(depth as nat),
{
    let mut r: u128 = 1;
    let mut i: u32 = 0;
    while i < depth
        invariant
            i <= depth <= 64,
            r == two_pow(i as nat),
        decreases depth - i,
    {
        proof {
            lemma_two_pow_mono(i as nat, 63);
            lemma_two_pow_64();
            assert(two_pow(64) == 2 * two_pow(63));
        }
        r = r * 2;
        i = i + 1;
    }
    r
}

/// The views of a sequence of chunks.
pub open spec fn chunk_views(chunks: Seq<[u8; 32]>) -> Seq<Seq<u8>> {
    Seq::new(chunks.len(), |i: int| chunks[i]@)
}

/// The root of the tree of depth `depth` over `leaves`, with an optional
/// length mixed in; refused where the depth is beyond 64 or the leaves do
/// not fit.
pub open spec fn chunks_root(leaves: Seq<Seq<u8>>, depth: nat, mixin: Option<u64>) -> Result<
    Seq<u8>,
    SszError,
> {
    if depth > 64 {
        Err(SszError::UnsupportedType)
    } else if leaves.len() > two_pow(depth) {
        Err(SszError::LengthOverflow)
    } else {
        Ok(with_mixin(merkleize(leaves, depth), mixin))
    }
}

/// The root of the tree of depth `depth` whose first leaves are `chunks`,
/// with an optional length mixed in.
pub fn compute_root_from_chunks(chunks: &Vec<[u8; 32]>, depth: u32, mixin: Option<u64>) -> (r:
    Result<[u8; 32], SszError>)
    ensures
        root_result(r) == chunks_root(chunk_views(chunks@), depth as nat, mixin),
{
    if depth > 64 {
        return Err(SszError::UnsupportedType);
    }
    if chunks.len() as u128 > capacity(depth) {
        return Err(SszError::LengthOverflow);
    }
    let mut stack = MerkleStack::new(depth);
    let mut i: usize = 0;
    while i < chunks.len()
        invariant
            depth <= 64,
            chunks@.len() <= two_pow(depth as nat),
            i <= chunks@.len(),
            stack.wf(),
            stack.declared_depth() == depth,
            stack@ == chunk_views(chunks@).take(i as int),
        decreases chunks@.len() - i,
    {
        stack.push_and_merge(chunks[i]);
        assert(chunk_views(chunks@).take(i + 1) =~= chunk_views(chunks@).take(i as int).push(
            chunks@[i as int]@,
        ));
        i = i + 1;
    }
    assert(chunk_views(chunks@).take(chunks@.len() as int) =~= chunk_views(chunks@));
    let mut root = stack.finalize();
    match mixin {
        Some(n) => {
            mixin_length(&mut root, n);
        },
        None => {},
    }
    Ok(root)
}

/// The full descriptor that a compact descriptor stands for, given the
/// length of the input: a list is unbounded up to the largest count that
/// fits in memory, a bitlist up to the largest bit count, a vector holds as
/// many elements as the input, and a container known only by its total
/// size is the vector of its bytes.
pub open spec fn expand(td: TypeDesc, len: nat) -> Result<Descriptor, SszError> {
    match td.fixed_size {
        None => match td.kind {
            TypeKind::Bitlist => Ok(Descriptor::Bitlist { limit: usize::MAX }),
            _ => Err(SszError::UnsupportedType),
        },
        Some(s) => match td.kind {
            TypeKind::Basic => Ok(Descriptor::Basic { size: s }),
            TypeKind::Bitlist => Ok(Descriptor::Bitlist { limit: s }),
            TypeKind::List => if s == 0 {
                Err(SszError::UnsupportedType)
            } else {
                Ok(
                    Descriptor::List {
                        element: Box::new(Descriptor::Basic { size: s }),
                        limit: (usize::MAX / s) as usize,
                    },
                )
            },
            TypeKind::Vector => if s == 0 {
                Err(SszError::UnsupportedType)
            } else if len % (s as nat) != 0 {
                Err(SszError::NonCanonical)
            } else {
                Ok(
                    Descriptor::Vector {
                        element: Box::new(Descriptor::Basic { size: s }),
                        length: (len / (s as nat)) as usize,
                    },
                )
            },
            TypeKind::Container => Ok(
                Descriptor::Vector { element: Box::new(Descriptor::Basic { size: 1 }), length: s },
            ),
        },
    }
}

/// The root that a compact descriptor gives to `b`.
pub open spec fn compact_root(td: TypeDesc, b: Seq<u8>) -> Result<Seq<u8>, SszError> {
    match expand(td, b.len()) {
        Err(e) => Err(e),
        Ok(d) => root_spec(d, b),
    }
}

/// Checks that a bitlist encoding ends in a sentinel bit: refused when
/// empty or when its last byte is zero.
pub fn validate_bitlist(data: &[u8]) -> (r: Result<bool, SszError>)
    ensures
        r == if data@.len() == 0 {
            Err::<bool, SszError>(SszError::NonCanonical)
        } else if data@.last() == 0 {
            Err(SszError::BitlistPadding)
        } else {
            Ok(true)
        },
{
    if data.len() == 0 {
        Err(SszError::NonCanonical)
    } else if data[data.len() - 1] == 0 {
        Err(SszError::BitlistPadding)
    } else {
        Ok(true)
    }
}

/// The hash tree root of `bytes` under a compact descriptor.
pub fn ssz_stream_root_from_slice(td: &TypeDesc, bytes: &[u8]) -> (r: Result<[u8; 32], SszError>)
    ensures
        root_result(r) == compact_root(*td, bytes@),
{
    let d = match td.fixed_size {
        None => match td.kind {
            TypeKind::Bitlist => Descriptor::Bitlist { limit: usize::MAX },
            _ => {
                return Err(SszError::UnsupportedType);
            },
        },
        Some(s) => match td.kind {
            TypeKind::Basic => Descriptor::Basic { size: s },
            TypeKind::Bitlist => Descriptor::Bitlist { limit: s },
            TypeKind::List => {
                if s == 0 {
                    return Err(SszError::UnsupportedType);
                }
                Descriptor::List {
                    element: Box::new(Descriptor::Basic { size: s }),
                    limit: usize::MAX / s,
                }
            },
            TypeKind::Vector => {
                if s == 0 {
                    return Err(SszError::UnsupportedType);
                }
                if bytes.len() % s != 0 {
                    return Err(SszError::NonCanonical);
                }
                Descriptor::Vector {
                    element: Box::new(Descriptor::Basic { size: s }),
                    length: bytes.len() / s,
                }
            },
            TypeKind::Container => Descriptor::Vector {
                element: Box::new(Descriptor::Basic { size: 1 }),
                length: s,
            },
        },
    };
    root_of(&d, bytes)
}

} // verus!
