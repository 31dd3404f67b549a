//! What a value of each type merkleizes to: the chunking, the layout of
//! composite values, and the canonical-encoding rules.
use vstd::prelude::*;

use crate::merkle::{merkleize, mix_in_length, two_pow, with_mixin};
use crate::types::{Descriptor, SszError};

verus! {

/// The byte sizes that a basic value may have.
pub open spec fn valid_basic_size(size: nat) -> bool {
    size == 1 || size == 2 || size == 4 || size == 8 || size == 16 || size == 32
}

/// `a / b`, rounded up.
pub open spec fn ceil_div(a: nat, b: nat) -> nat
    recommends
        b > 0,
{
    ((a + b - 1) as nat) / b
}

/// The depth of the smallest balanced tree with at least `n` leaves.
pub open spec fn ceil_log2(n: nat) -> nat
    decreases n,
{
    if n <= 1 {
        0
    } else {
        1 + ceil_log2(n / 2 + n % 2)
    }
}

/// The `i`-th 32-byte window of `b`, zero-padded on the right.
pub open spec fn chunk_at(b: Seq<u8>, i: int) -> Seq<u8> {
    Seq::new(32, |j: int| if 32 * i + j < b.len() { b[32 * i + j] } else { 0u8 })
}

/// `b` cut into 32-byte chunks, the last one zero-padded.
pub open spec fn pack(b: Seq<u8>) -> Seq<Seq<u8>> {
    Seq::new(ceil_div(b.len(), 32), |i: int| chunk_at(b, i))
}

/// The little-endian `u32` at byte `p` of `b`.
pub open spec fn le_u32(b: Seq<u8>, p: int) -> nat {
    (b[p] + 256 * b[p + 1] + 65536 * b[p + 2] + 16777216 * b[p + 3]) as nat
}

/// The encoded size of a value of `d`, where every value of `d` has the same size.
pub open spec fn fixed_size(d: Descriptor) -> Option<nat>
    decreases d,
{
    match d {
        Descriptor::Basic { size } => Some(size as nat),
        Descriptor::Vector { element, length } => match fixed_size(*element) {
            Some(s) => Some(s * (length as nat)),
            None => None,
        },
        Descriptor::List { .. } => None,
        Descriptor::Container { fields } => fields_size(fields@),
        Descriptor::Bitlist { .. } => None,
        Descriptor::Bitvector { length } => Some(ceil_div(length as nat, 8)),
    }
}

/// The total encoded size of a sequence of fields, where each has a fixed size.
pub open spec fn fields_size(fs: Seq<Descriptor>) -> Option<nat>
    decreases fs,
{
    if fs.len() == 0 {
        Some(0)
    } else {
        match (fields_size(fs.drop_last()), fixed_size(fs.last())) {
            (Some(a), Some(b)) => Some(a + b),
            _ => None,
        }
    }
}

/// The results of the children, or the first error among them.
pub open spec fn collect(rs: Seq<Result<Seq<u8>, SszError>>) -> Result<Seq<Seq<u8>>, SszError>
    decreases rs.len(),
{
    if rs.len() == 0 {
        Ok(Seq::empty())
    } else {
        match collect(rs.drop_last()) {
            Err(e) => Err(e),
            Ok(t) => match rs.last() {
                Ok(r) => Ok(t.push(r)),
                Err(e) => Err(e),
            },
        }
    }
}

/// The position of the highest set bit of `x`.
pub open spec fn msb(x: nat) -> nat
    decreases x,
{
    if x <= 1 {
        0
    } else {
        1 + msb(x / 2)
    }
}

/// The number of bits in a bitlist encoding: all bits below its sentinel bit.
pub open spec fn bit_len(b: Seq<u8>) -> nat {
    ((b.len() - 1) * 8 + msb(b.last() as nat)) as nat
}

/// The bytes of a bitlist encoding without its sentinel bit: the sentinel is
/// cleared, and a last byte that held only the sentinel is dropped.
pub open spec fn bitlist_payload(b: Seq<u8>) -> Seq<u8> {
    let last = b.last() as nat;
    if msb(last) == 0 {
        b.drop_last()
    } else {
        b.update(b.len() - 1, (last - two_pow(msb(last))) as u8)
    }
}

/// The half-open ranges of `count` consecutive elements of `size` bytes.
pub open spec fn fixed_ranges(count: nat, size: nat) -> Seq<(nat, nat)> {
    Seq::new(count, |i: int| ((i * size) as nat, ((i + 1) * size) as nat))
}

/// The `i`-th entry of an offset table at the start of `b`.
pub open spec fn offset_at(b: Seq<u8>, i: int) -> nat {
    le_u32(b, 4 * i)
}

/// The width of a field in the fixed section of a container: its size, or
/// 4 bytes for the offset of a variable-size field.
pub open spec fn header_width(f: Descriptor) -> nat {
    match fixed_size(f) {
        Some(s) => s,
        None => 4,
    }
}

/// The length of the fixed section of a container with fields `fs`.
pub open spec fn header_size(fs: Seq<Descriptor>) -> nat
    decreases fs.len(),
{
    if fs.len() == 0 {
        0
    } else {
        header_size(fs.drop_last()) + header_width(fs.last())
    }
}

/// The index of the first variable-size field at or after `i`, or the
/// number of fields where there is none.
pub open spec fn next_variable(fs: Seq<Descriptor>, i: int) -> int
    decreases fs.len() - i,
{
    if i >= fs.len() || i < 0 {
        fs.len() as int
    } else if fixed_size(fs[i]) is None {
        i
    } else {
        next_variable(fs, i + 1)
    }
}

/// The offset that the fixed section of a container gives for field `i`.
pub open spec fn field_offset(fs: Seq<Descriptor>, b: Seq<u8>, i: int) -> nat {
    le_u32(b, header_size(fs.take(i)) as int)
}

/// Where the bytes of variable-size field `i` end: at the offset of the next
/// variable-size field, or at the end of the container.
pub open spec fn field_end(fs: Seq<Descriptor>, b: Seq<u8>, i: int) -> nat {
    if next_variable(fs, i + 1) < fs.len() {
        field_offset(fs, b, next_variable(fs, i + 1))
    } else {
        b.len()
    }
}

/// The offsets of a container start right after its fixed section and never
/// decrease.
pub open spec fn container_offsets_ok(fs: Seq<Descriptor>, b: Seq<u8>) -> bool {
    &&& next_variable(fs, 0) < fs.len() ==> field_offset(fs, b, next_variable(fs, 0))
        == header_size(fs)
    &&& forall|i: int|
        0 <= i < fs.len() && fixed_size(fs[i]) is None ==> #[trigger] field_offset(fs, b, i)
            <= field_end(fs, b, i)
}

/// The ranges of the fields of a container: fixed-size fields in its fixed
/// section, variable-size ones between consecutive offsets.
pub open spec fn container_ranges(fs: Seq<Descriptor>, b: Seq<u8>) -> Seq<(nat, nat)> {
    Seq::new(fs.len(), |i: int| container_range(fs, b, i))
}

/// The range of field `i` of a container.
pub open spec fn container_range(fs: Seq<Descriptor>, b: Seq<u8>, i: int) -> (nat, nat) {
    if fixed_size(fs[i]) is None {
        (field_offset(fs, b, i), field_end(fs, b, i))
    } else {
        (header_size(fs.take(i)), header_size(fs.take(i)) + header_width(fs[i]))
    }
}

/// The offset table of `count` elements is non-decreasing and ends within `b`.
pub open spec fn offsets_ok(b: Seq<u8>, count: nat) -> bool {
    &&& forall|i: int| 0 <= i < count - 1 ==> #[trigger] offset_at(b, i) <= offset_at(b, i + 1)
    &&& offset_at(b, count - 1) <= b.len()
}

/// The ranges that an offset table of `count` entries at the start of `b` gives.
pub open spec fn offset_ranges(b: Seq<u8>, count: nat) -> Seq<(nat, nat)> {
    Seq::new(
        count,
        |i: int|
            (
                offset_at(b, i),
                if i + 1 < count {
                    offset_at(b, i + 1)
                } else {
                    b.len()
                },
            ),
    )
}

/// The bytes of `b` in range `r`.
pub open spec fn slice_of(b: Seq<u8>, r: (nat, nat)) -> Seq<u8> {
    b.subrange(r.0 as int, r.1 as int)
}

/// The element ranges of a vector (`length` is `Some`) or a list of elements
/// of type `e` that are not basic, or why the encoding is refused.
pub open spec fn element_ranges(e: Descriptor, b: Seq<u8>, length: Option<nat>, limit: nat) -> Result<
    Seq<(nat, nat)>,
    SszError,
> {
    match fixed_size(e) {
        Some(s) => match length {
            Some(n) => if b.len() != s * n {
                Err(SszError::NonCanonical)
            } else {
                Ok(fixed_ranges(n, s))
            },
            None => if s == 0 {
                Err(SszError::UnsupportedType)
            } else if b.len() % s != 0 {
                Err(SszError::NonCanonical)
            } else if b.len() / s > limit {
                Err(SszError::LengthOverflow)
            } else {
                Ok(fixed_ranges(b.len() / s, s))
            },
        },
        None => match length {
            Some(n) => if n == 0 {
                if b.len() == 0 {
                    Ok(Seq::empty())
                } else {
                    Err(SszError::NonCanonical)
                }
            } else if 4 * n > b.len() {
                Err(SszError::UnexpectedEOF)
            } else if le_u32(b, 0) != 4 * n || !offsets_ok(b, n) {
                Err(SszError::BadOffset)
            } else {
                Ok(offset_ranges(b, n))
            },
            None => if b.len() == 0 {
                Ok(Seq::empty())
            } else if b.len() < 4 {
                Err(SszError::UnexpectedEOF)
            } else if le_u32(b, 0) % 4 != 0 || le_u32(b, 0) > b.len() || le_u32(b, 0) == 0 {
                Err(SszError::BadOffset)
            } else if le_u32(b, 0) / 4 > limit {
                Err(SszError::LengthOverflow)
            } else if !offsets_ok(b, le_u32(b, 0) / 4) {
                Err(SszError::BadOffset)
            } else {
                Ok(offset_ranges(b, le_u32(b, 0) / 4))
            },
        },
    }
}

/// A tree over the roots of the children, if they all have one.
pub open spec fn tree_of(roots: Result<Seq<Seq<u8>>, SszError>, depth: nat, mixin: Option<u64>) -> Result<
    Seq<u8>,
    SszError,
> {
    match roots {
        Err(e) => Err(e),
        Ok(rs) => Ok(with_mixin(merkleize(rs, depth), mixin)),
    }
}

/// The results of the children of type `e` over `rs`.
pub open spec fn child_results(e: Descriptor, b: Seq<u8>, rs: Seq<(nat, nat)>) -> Seq<
    Result<Seq<u8>, SszError>,
>
    decreases e, 1nat,
{
    Seq::new(rs.len(), |i: int| root_spec(e, slice_of(b, rs[i])))
}

/// The results of the fields of a container over their ranges `rs`.
pub open spec fn field_results(fs: Seq<Descriptor>, b: Seq<u8>, rs: Seq<(nat, nat)>) -> Seq<
    Result<Seq<u8>, SszError>,
>
    decreases fs, 1nat,
{
    Seq::new(
        fs.len(),
        |i: int|
            if 0 <= i < fs.len() {
                root_spec(fs[i], slice_of(b, rs[i]))
            } else {
                Err(SszError::UnsupportedType)
            },
    )
}

/// The hash tree root of the value that `b` encodes as a value of `d`, or
/// why `b` is not the canonical encoding of such a value.
pub open spec fn root_spec(d: Descriptor, b: Seq<u8>) -> Result<Seq<u8>, SszError>
    decreases d, 0nat,
{
    match d {
        Descriptor::Basic { size } => if !valid_basic_size(size as nat) {
            Err(SszError::UnsupportedType)
        } else if b.len() != size {
            Err(SszError::NonCanonical)
        } else {
            Ok(merkleize(pack(b), 0))
        },
        Descriptor::Bitvector { length } => if b.len() != ceil_div(length as nat, 8) {
            Err(SszError::NonCanonical)
        } else if length % 8 != 0 && b.last() >= two_pow((length % 8) as nat) {
            Err(SszError::BitlistPadding)
        } else {
            Ok(merkleize(pack(b), ceil_log2(ceil_div(length as nat, 256))))
        },
        Descriptor::Bitlist { limit } => if b.len() == 0 {
            Err(SszError::NonCanonical)
        } else if b.last() == 0 {
            Err(SszError::BitlistPadding)
        } else if bit_len(b) > limit {
            Err(SszError::LengthOverflow)
        } else {
            Ok(
                mix_in_length(
                    merkleize(pack(bitlist_payload(b)), ceil_log2(ceil_div(limit as nat, 256))),
                    bit_len(b) as u64,
                ),
            )
        },
        Descriptor::Vector { element, length } => match *element {
            Descriptor::Basic { size } => if !valid_basic_size(size as nat) {
                Err(SszError::UnsupportedType)
            } else if b.len() != size * length {
                Err(SszError::NonCanonical)
            } else {
                Ok(merkleize(pack(b), ceil_log2(ceil_div((size * length) as nat, 32))))
            },
            _ => match element_ranges(*element, b, Some(length as nat), 0) {
                Err(e) => Err(e),
                Ok(rs) => tree_of(
                    collect(child_results(*element, b, rs)),
                    ceil_log2(length as nat),
                    None,
                ),
            },
        },
        Descriptor::List { element, limit } => match *element {
            Descriptor::Basic { size } => if !valid_basic_size(size as nat) {
                Err(SszError::UnsupportedType)
            } else if b.len() % (size as nat) != 0 {
                Err(SszError::NonCanonical)
            } else if b.len() / (size as nat) > limit {
                Err(SszError::LengthOverflow)
            } else {
                Ok(
                    mix_in_length(
                        merkleize(pack(b), ceil_log2(ceil_div((limit * size) as nat, 32))),
                        (b.len() / (size as nat)) as u64,
                    ),
                )
            },
            _ => match element_ranges(*element, b, None, limit as nat) {
                Err(e) => Err(e),
                Ok(rs) => tree_of(
                    collect(child_results(*element, b, rs)),
                    ceil_log2(limit as nat),
                    Some(rs.len() as u64),
                ),
            },
        },
        Descriptor::Container { fields } => if fields.len() == 0 {
            Err(SszError::UnsupportedType)
        } else {
            match fields_size(fields@) {
                Some(total) => if b.len() != total {
                    Err(SszError::MalformedHeader)
                } else {
                    tree_of(
                        collect(field_results(fields@, b, container_ranges(fields@, b))),
                        ceil_log2(fields.len() as nat),
                        None,
                    )
                },
                None => if b.len() < header_size(fields@) {
                    Err(SszError::UnexpectedEOF)
                } else if !container_offsets_ok(fields@, b) {
                    Err(SszError::BadOffset)
                } else {
                    tree_of(
                        collect(field_results(fields@, b, container_ranges(fields@, b))),
                        ceil_log2(fields.len() as nat),
                        None,
                    )
                },
            }
        },
    }
}

} // verus!
