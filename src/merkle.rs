//! The Merkle stack: an incremental builder for balanced binary trees.
//!
//! Leaves are pushed one at a time; equal-height neighbours on the stack are
//! merged at once, so the stack holds the roots of complete subtrees with
//! strictly decreasing heights. Finalizing pads the tree with zero subtrees up
//! to its declared depth.
use vstd::prelude::*;

use crate::hash::{hash_parent, node_hash};

verus! {

/// `2^n`.
pub open spec fn two_pow(n: nat) -> nat
    decreases n,
{
    if n == 0 {
        1
    } else {
        2 * two_pow((n - 1) as nat)
    }
}

/// The chunk of 32 zero bytes.
pub open spec fn zero_chunk() -> Seq<u8> {
    Seq::new(32, |i: int| 0u8)
}

/// The root of an all-zero subtree of height `h`.
pub open spec fn zero_hash(h: nat) -> Seq<u8>
    decreases h,
{
    if h == 0 {
        zero_chunk()
    } else {
        node_hash(zero_hash((h - 1) as nat), zero_hash((h - 1) as nat))
    }
}

/// The root of the complete subtree of height `h` whose leftmost leaf is
/// `leaves[start]`; positions past the end of `leaves` hold zero chunks.
pub open spec fn subtree(leaves: Seq<Seq<u8>>, start: nat, h: nat) -> Seq<u8>
    decreases h,
{
    if h == 0 {
        if start < leaves.len() {
            leaves[start as int]
        } else {
            zero_chunk()
        }
    } else {
        node_hash(
            subtree(leaves, start, (h - 1) as nat),
            subtree(leaves, start + two_pow((h - 1) as nat), (h - 1) as nat),
        )
    }
}

/// The root of the tree of depth `depth` whose first leaves are `leaves`
/// and whose remaining leaves are zero chunks.
pub open spec fn merkleize(leaves: Seq<Seq<u8>>, depth: nat) -> Seq<u8> {
    subtree(leaves, 0, depth)
}

/// The 32-byte length chunk: `n` little-endian in the low 8 bytes, zeros after.
pub open spec fn length_chunk(n: u64) -> Seq<u8> {
    Seq::new(32, |i: int| if i < 8 { ((n >> (8 * i) as u64) & 0xff) as u8 } else { 0u8 })
}

/// A root with a length mixed in.
pub open spec fn mix_in_length(root: Seq<u8>, n: u64) -> Seq<u8> {
    node_hash(root, length_chunk(n))
}

/// A root with an optional length mixed in.
pub open spec fn with_mixin(root: Seq<u8>, mixin: Option<u64>) -> Seq<u8> {
    match mixin {
        Some(n) => mix_in_length(root, n),
        None => root,
    }
}

/// Powers of two are positive.
pub proof fn lemma_two_pow_pos(n: nat)
    ensures
        two_pow(n) >= 1,
    decreases n,
{
    if n > 0 {
        lemma_two_pow_pos((n - 1) as nat);
    }
}

/// Powers of two grow with the exponent.
pub proof fn lemma_two_pow_mono(a: nat, b: nat)
    requires
        a <= b,
    ensures
        two_pow(a) <= two_pow(b),
    decreases b,
{
    if a < b {
        lemma_two_pow_mono(a, (b - 1) as nat);
        lemma_two_pow_pos((b - 1) as nat);
    }
}

/// `2^64`.
pub proof fn lemma_two_pow_64()
    ensures
        two_pow(64) == 0x1_0000_0000_0000_0000,
{
    reveal_with_fuel(two_pow, 65);
}

/// Any subtree that starts at or past the last leaf is an all-zero subtree.
pub proof fn lemma_subtree_past_end(leaves: Seq<Seq<u8>>, start: nat, h: nat)
    requires
        start >= leaves.len(),
    ensures
        subtree(leaves, start, h) == zero_hash(h),
    decreases h,
{
    if h > 0 {
        lemma_subtree_past_end(leaves, start, (h - 1) as nat);
        lemma_subtree_past_end(leaves, start + two_pow((h - 1) as nat), (h - 1) as nat);
    }
}

/// A subtree that ends before the last leaf is unchanged by appending a leaf.
pub proof fn lemma_subtree_push(leaves: Seq<Seq<u8>>, x: Seq<u8>, start: nat, h: nat)
    requires
        start + two_pow(h) <= leaves.len(),
    ensures
        subtree(leaves.push(x), start, h) == subtree(leaves, start, h),
    decreases h,
{
    if h > 0 {
        let g = (h - 1) as nat;
        lemma_subtree_push(leaves, x, start, g);
        lemma_subtree_push(leaves, x, start + two_pow(g), g);
    } else {
        assert(leaves.push(x)[start as int] == leaves[start as int]);
    }
}

/// The tree with no leaves is the zero subtree of its depth.
pub proof fn lemma_merkleize_empty(depth: nat)
    ensures
        merkleize(Seq::empty(), depth) == zero_hash(depth),
{
    lemma_subtree_past_end(Seq::empty(), 0, depth);
}

/// The roots of the all-zero subtrees of heights `0..=depth`.
pub fn zero_hashes(depth: u32) -> (r: Vec<[u8; 32]>)
    requires
        depth <= 64,
    ensures
        r@.len() == depth + 1,
        forall|h: int| 0 <= h <= depth ==> (#[trigger] r@[h])@ == zero_hash(h as nat),
{
    let mut r: Vec<[u8; 32]> = Vec::new();
    let mut cur: [u8; 32] = [0u8; 32];
    assert(cur@ =~= zero_chunk());
    let mut h: u32 = 0;
    while h < depth
        invariant
            h <= depth,
            r@.len() == h,
            cur@ == zero_hash(h as nat),
            forall|i: int| 0 <= i < h ==> (#[trigger] r@[i])@ == zero_hash(i as nat),
        decreases depth - h,
    {
        r.push(cur);
        cur = hash_parent(&cur, &cur);
        h = h + 1;
    }
    r.push(cur);
    r
}

/// Mixes a length into a root: the parent of `root` and the length chunk of `length`.
pub fn mixin_length(root: &mut [u8; 32], length: u64)
    ensures
        final(root)@ == mix_in_length(old(root)@, length),
{
    let mut len_buf = [0u8; 32];
    let mut i: usize = 0;
    while i < 8
        invariant
            i <= 8,
            len_buf@.len() == 32,
            forall|j: int|
                0 <= j < 32 ==> #[trigger] len_buf@[j] == if j < i {
                    ((length >> (8 * j) as u64) & 0xff) as u8
                } else {
                    0u8
                },
        decreases 8 - i,
    {
        len_buf[i] = ((length >> (8 * i) as u64) & 0xff) as u8;
        i = i + 1;
    }
    assert(len_buf@ =~= length_chunk(length));
    let new_root = hash_parent(root, &len_buf);
    *root = new_root;
}

/// One stack entry: the root of a complete subtree and its height.
#[derive(Clone, Copy)]
pub struct StackEntry {
    pub hash: [u8; 32],
    pub height: u32,
}

/// The number of leaves that the entries cover together.
pub open spec fn span(es: Seq<StackEntry>) -> nat
    decreases es.len(),
{
    if es.len() == 0 {
        0
    } else {
        span(es.drop_last()) + two_pow(es.last().height as nat)
    }
}

/// Heights strictly decrease from bottom to top.
pub open spec fn decreasing(es: Seq<StackEntry>) -> bool {
    forall|i: int| 0 <= i < es.len() - 1 ==> #[trigger] es[i].height > es[i + 1].height
}

/// Heights strictly decrease from bottom to top, except that the top two may be equal.
pub open spec fn nearly_decreasing(es: Seq<StackEntry>) -> bool {
    &&& forall|i: int| 0 <= i < es.len() - 2 ==> #[trigger] es[i].height > es[i + 1].height
    &&& es.len() >= 2 ==> es[es.len() - 2].height >= es[es.len() - 1].height
}

/// Each entry is the root of the subtree of `leaves` that it covers.
#[verifier::opaque]
pub open spec fn entries_match(es: Seq<StackEntry>, leaves: Seq<Seq<u8>>) -> bool {
    forall|i: int|
        0 <= i < es.len() ==> (#[trigger] es[i]).hash@ == subtree(
            leaves,
            span(es.take(i)),
            es[i].height as nat,
        )
}

/// Each entry adds its subtree's leaves to the span of the entries below it.
pub proof fn lemma_span_step(es: Seq<StackEntry>, i: int)
    requires
        0 <= i < es.len(),
    ensures
        span(es.take(i + 1)) == span(es.take(i)) + two_pow(es[i].height as nat),
{
    assert(es.take(i + 1).drop_last() =~= es.take(i));
}

/// The entries at the bottom of the stack cover no more leaves than all of them.
pub proof fn lemma_span_prefix(es: Seq<StackEntry>, i: int)
    requires
        0 <= i <= es.len(),
    ensures
        span(es.take(i)) <= span(es),
    decreases es.len() - i,
{
    if i == es.len() {
        assert(es.take(i) =~= es);
    } else {
        lemma_span_step(es, i);
        lemma_span_prefix(es, i + 1);
    }
}

/// Strictly decreasing heights below `t` cover at most `2^t` leaves, with
/// room left for one more subtree of the top height.
pub proof fn lemma_capacity(es: Seq<StackEntry>, t: nat)
    requires
        decreasing(es),
        es.len() >= 1,
        es[0].height < t,
    ensures
        span(es) + two_pow(es.last().height as nat) <= two_pow(t),
    decreases es.len(),
{
    let h = es.last().height as nat;
    if es.len() == 1 {
        lemma_two_pow_mono(h + 1, t);
        assert(span(es.drop_last()) == 0);
        assert(span(es) == span(es.drop_last()) + two_pow(h));
        assert(two_pow(h + 1) == 2 * two_pow(h));
    } else {
        let init = es.drop_last();
        assert(decreasing(init)) by {
            assert forall|i: int| 0 <= i < init.len() - 1 implies #[trigger] init[i].height > init[i
                + 1].height by {
                assert(es[i].height > es[i + 1].height);
            }
        }
        assert(init[0] == es[0]);
        assert(span(es) == span(init) + two_pow(h));
        lemma_capacity(init, t);
        assert(init.last() == es[es.len() - 2]);
        assert(es[es.len() - 2].height > es[es.len() - 1].height);
        lemma_two_pow_mono(h + 1, init.last().height as nat);
        assert(two_pow(h + 1) == 2 * two_pow(h));
    }
}

/// Two equal-height entries on top fit in the tree only below its full depth.
pub proof fn lemma_merge_bound(es: Seq<StackEntry>, depth: nat)
    requires
        es.len() >= 2,
        es[es.len() - 2].height == es[es.len() - 1].height,
        span(es) <= two_pow(depth),
    ensures
        es[es.len() - 1].height + 1 <= depth,
{
    let k = es.len() as int;
    let h = es[k - 1].height as nat;
    lemma_span_step(es, k - 2);
    lemma_span_step(es, k - 1);
    assert(es.take(k) =~= es);
    assert(two_pow(h + 1) == 2 * two_pow(h));
    if h + 1 > depth {
        lemma_two_pow_mono(depth + 1, h + 1);
        assert(two_pow(depth + 1) == 2 * two_pow(depth));
        lemma_two_pow_pos(depth);
    }
}

/// A stack that is not yet a single entry of full height has room for its
/// top entry to grow by one level.
pub proof fn lemma_pad_bound(es: Seq<StackEntry>, depth: nat)
    requires
        es.len() >= 1,
        decreasing(es),
        span(es) <= two_pow(depth),
        es[0].height <= depth,
        !(es.len() == 1 && es[0].height == depth),
    ensures
        es.last().height < depth,
        span(es) + two_pow(es.last().height as nat) <= two_pow(depth),
{
    let k = es.len() as int;
    let h0 = es[0].height as nat;
    lemma_span_step(es, 0);
    lemma_span_prefix(es, 1);
    assert(es.take(0) =~= Seq::<StackEntry>::empty());
    if k >= 2 {
        lemma_span_step(es, 1);
        lemma_span_prefix(es, 2);
        lemma_two_pow_pos(es[1].height as nat);
        if h0 >= depth {
            lemma_two_pow_mono(depth, h0);
        }
    }
    assert(h0 < depth);
    lemma_capacity(es, depth);
    if k >= 2 {
        assert(es.last().height <= es[0].height) by {
            lemma_decreasing_last(es);
        }
    }
}

/// The top of a decreasing stack is no higher than its bottom.
pub proof fn lemma_decreasing_last(es: Seq<StackEntry>)
    requires
        es.len() >= 1,
        decreasing(es),
    ensures
        es.last().height <= es[0].height,
    decreases es.len(),
{
    if es.len() > 1 {
        let init = es.drop_last();
        assert(decreasing(init)) by {
            assert forall|i: int| 0 <= i < init.len() - 1 implies #[trigger] init[i].height > init[i
                + 1].height by {
                assert(es[i].height > es[i + 1].height);
            }
        }
        lemma_decreasing_last(init);
        assert(es[es.len() - 2].height > es[es.len() - 1].height);
    }
}

/// Merges the top two entries, which have equal heights, into their parent.
fn merge_top(entries: &mut Vec<StackEntry>, Ghost(leaves): Ghost<Seq<Seq<u8>>>)
    requires
        old(entries)@.len() >= 2,
        old(entries)@[old(entries)@.len() - 2].height == old(entries)@[old(entries)@.len()
            - 1].height,
        old(entries)@[old(entries)@.len() - 1].height < 0xffff_ffff,
        nearly_decreasing(old(entries)@),
        entries_match(old(entries)@, leaves),
    ensures
        final(entries)@.len() == old(entries)@.len() - 1,
        forall|i: int| 0 <= i < final(entries)@.len() - 1 ==> final(entries)@[i] == old(entries)@[i],
        final(entries)@.last().height == old(entries)@.last().height + 1,
        nearly_decreasing(final(entries)@),
        entries_match(final(entries)@, leaves),
        span(final(entries)@) == span(old(entries)@),
{
    let ghost es = entries@;
    let ghost k = es.len() as int;
    proof {
        reveal(entries_match);
    }
    let top = entries.pop().unwrap();
    let below = entries.pop().unwrap();
    let parent = hash_parent(&below.hash, &top.hash);
    entries.push(StackEntry { hash: parent, height: below.height + 1 });
    proof {
        let nes = entries@;
        let h = below.height as nat;
        assert(es.take(k - 2) =~= nes.take(k - 2));
        lemma_span_step(es, k - 2);
        lemma_span_step(es, k - 1);
        assert(es.take(k) =~= es);
        lemma_span_step(nes, k - 2);
        assert(nes.take(k - 1) =~= nes);
        assert forall|i: int| 0 <= i < nes.len() implies (#[trigger] nes[i]).hash@ == subtree(
            leaves,
            span(nes.take(i)),
            nes[i].height as nat,
        ) by {
            if i < k - 2 {
                assert(nes.take(i) =~= es.take(i));
                assert(nes[i] == es[i]);
            } else {
                assert(es[k - 2] == below);
                assert(es[k - 1] == top);
            }
        }
        assert forall|i: int| 0 <= i < nes.len() - 2 implies #[trigger] nes[i].height > nes[i
            + 1].height by {
            assert(nes[i] == es[i]);
            assert(nes[i + 1] == es[i + 1]);
        }
        if nes.len() >= 2 {
            assert(es[k - 3].height > es[k - 2].height);
        }
    }
}

/// Replaces the top entry, of height `h`, by its parent with the zero subtree
/// of height `h` on its right.
fn pad_top(entries: &mut Vec<StackEntry>, zero: &[u8; 32], Ghost(leaves): Ghost<Seq<Seq<u8>>>)
    requires
        old(entries)@.len() >= 1,
        zero@ == zero_hash(old(entries)@.last().height as nat),
        old(entries)@.last().height < 0xffff_ffff,
        span(old(entries)@) >= leaves.len(),
        decreasing(old(entries)@),
        entries_match(old(entries)@, leaves),
    ensures
        final(entries)@.len() == old(entries)@.len(),
        forall|i: int| 0 <= i < final(entries)@.len() - 1 ==> final(entries)@[i] == old(entries)@[i],
        final(entries)@.last().height == old(entries)@.last().height + 1,
        nearly_decreasing(final(entries)@),
        entries_match(final(entries)@, leaves),
        span(final(entries)@) == span(old(entries)@) + two_pow(old(entries)@.last().height as nat),
{
    let ghost es = entries@;
    let ghost k = es.len() as int;
    proof {
        reveal(entries_match);
    }
    let top = entries.pop().unwrap();
    let parent = hash_parent(&top.hash, zero);
    entries.push(StackEntry { hash: parent, height: top.height + 1 });
    proof {
        let nes = entries@;
        let h = top.height as nat;
        assert(es.take(k - 1) =~= nes.take(k - 1));
        lemma_span_step(es, k - 1);
        assert(es.take(k) =~= es);
        lemma_span_step(nes, k - 1);
        assert(nes.take(k) =~= nes);
        lemma_subtree_past_end(leaves, span(es.take(k - 1)) + two_pow(h), h);
        assert forall|i: int| 0 <= i < nes.len() implies (#[trigger] nes[i]).hash@ == subtree(
            leaves,
            span(nes.take(i)),
            nes[i].height as nat,
        ) by {
            if i < k - 1 {
                assert(nes.take(i) =~= es.take(i));
                assert(nes[i] == es[i]);
            } else {
                assert(es[k - 1] == top);
            }
        }
        assert forall|i: int| 0 <= i < nes.len() - 2 implies #[trigger] nes[i].height > nes[i
            + 1].height by {
            assert(nes[i] == es[i]);
            assert(nes[i + 1] == es[i + 1]);
        }
        if nes.len() >= 2 {
            assert(es[k - 2].height > es[k - 1].height);
        }
    }
}

/// A nearly decreasing stack whose top two heights differ is decreasing.
pub proof fn lemma_settled(es: Seq<StackEntry>)
    requires
        nearly_decreasing(es),
        es.len() >= 2 ==> es[es.len() - 2].height != es[es.len() - 1].height,
    ensures
        decreasing(es),
{
    assert forall|i: int| 0 <= i < es.len() - 1 implies #[trigger] es[i].height > es[i
        + 1].height by {
        if i < es.len() - 2 {
            assert(es[i].height > es[i + 1].height);
        }
    }
}

/// Merges the top two entries while their heights are equal.
fn settle(entries: &mut Vec<StackEntry>, depth: u32, Ghost(leaves): Ghost<Seq<Seq<u8>>>)
    requires
        depth <= 64,
        old(entries)@.len() >= 1,
        nearly_decreasing(old(entries)@),
        entries_match(old(entries)@, leaves),
        span(old(entries)@) == leaves.len(),
        leaves.len() <= two_pow(depth as nat),
        forall|i: int| 0 <= i < old(entries)@.len() ==> #[trigger] old(entries)@[i].height <= depth,
    ensures
        final(entries)@.len() >= 1,
        decreasing(final(entries)@),
        entries_match(final(entries)@, leaves),
        span(final(entries)@) == leaves.len(),
        forall|i: int|
            0 <= i < final(entries)@.len() ==> #[trigger] final(entries)@[i].height <= depth,
{
    while entries.len() >= 2 && entries[entries.len() - 2].height == entries[entries.len()
        - 1].height
        invariant
            depth <= 64,
            entries@.len() >= 1,
            nearly_decreasing(entries@),
            entries_match(entries@, leaves),
            span(entries@) == leaves.len(),
            leaves.len() <= two_pow(depth as nat),
            forall|i: int| 0 <= i < entries@.len() ==> #[trigger] entries@[i].height <= depth,
        decreases entries@.len(),
    {
        let ghost es = entries@;
        proof {
            lemma_merge_bound(es, depth as nat);
        }
        merge_top(entries, Ghost(leaves));
        proof {
            let nes = entries@;
            assert forall|i: int| 0 <= i < nes.len() implies #[trigger] nes[i].height <= depth by {
                if i < nes.len() - 1 {
                    assert(nes[i] == es[i]);
                }
            }
        }
    }
    proof {
        lemma_settled(entries@);
    }
}

/// A running Merkle stack for a tree of a declared depth.
pub struct MerkleStack {
    entries: Vec<StackEntry>,
    depth: u32,
    leaves: Ghost<Seq<Seq<u8>>>,
}

impl View for MerkleStack {
    type V = Seq<Seq<u8>>;

    /// The leaves pushed so far.
    closed spec fn view(&self) -> Seq<Seq<u8>> {
        self.leaves@
    }
}

impl MerkleStack {
    /// The depth of the tree that this stack builds.
    pub closed spec fn declared_depth(&self) -> nat {
        self.depth as nat
    }

    /// The stack holds the roots of complete subtrees that cover the pushed
    /// leaves, in strictly decreasing heights.
    pub closed spec fn wf(&self) -> bool {
        let es = self.entries@;
        &&& self.depth <= 64
        &&& decreasing(es)
        &&& entries_match(es, self.leaves@)
        &&& span(es) == self.leaves@.len()
        &&& self.leaves@.len() <= two_pow(self.depth as nat)
        &&& forall|i: int| 0 <= i < es.len() ==> #[trigger] es[i].height <= self.depth
    }

    /// An empty stack for a tree of depth `depth`.
    pub fn new(depth: u32) -> (s: Self)
        requires
            depth <= 64,
        ensures
            s.wf(),
            s@ == Seq::<Seq<u8>>::empty(),
            s.declared_depth() == depth,
    {
        proof {
            lemma_two_pow_pos(depth as nat);
            reveal(entries_match);
        }
        MerkleStack { entries: Vec::new(), depth, leaves: Ghost(Seq::empty()) }
    }

    /// Appends one leaf, then merges the top two entries while their heights are equal.
    pub fn push_and_merge(&mut self, leaf: [u8; 32])
        requires
            old(self).wf(),
            old(self)@.len() < two_pow(old(self).declared_depth()),
        ensures
            final(self).wf(),
            final(self)@ == old(self)@.push(leaf@),
            final(self).declared_depth() == old(self).declared_depth(),
    {
        let ghost old_leaves = self.leaves@;
        let ghost leaves = old_leaves.push(leaf@);
        let ghost es0 = self.entries@;
        proof {
            reveal(entries_match);
            assert forall|i: int| 0 <= i < es0.len() implies (#[trigger] es0[i]).hash@ == subtree(
                leaves,
                span(es0.take(i)),
                es0[i].height as nat,
            ) by {
                lemma_span_step(es0, i);
                lemma_span_prefix(es0, i + 1);
                lemma_subtree_push(old_leaves, leaf@, span(es0.take(i)), es0[i].height as nat);
            }
        }
        self.entries.push(StackEntry { hash: leaf, height: 0 });
        self.leaves = Ghost(leaves);
        proof {
            let es = self.entries@;
            assert(es.take(es0.len() as int) =~= es0);
            assert(es.drop_last() =~= es0);
            assert forall|i: int| 0 <= i < es.len() implies (#[trigger] es[i]).hash@ == subtree(
                leaves,
                span(es.take(i)),
                es[i].height as nat,
            ) by {
                if i < es0.len() {
                    assert(es.take(i) =~= es0.take(i));
                    assert(es[i] == es0[i]);
                }
            }
            assert forall|i: int| 0 <= i < es.len() - 2 implies #[trigger] es[i].height > es[i
                + 1].height by {
                assert(es[i] == es0[i]);
                assert(es[i + 1] == es0[i + 1]);
            }
        }
        settle(&mut self.entries, self.depth, Ghost(leaves));
    }

    /// Completes the tree with zero subtrees up to the declared depth and
    /// returns its root.
    pub fn finalize(self) -> (r: [u8; 32])
        requires
            self.wf(),
        ensures
            r@ == merkleize(self@, self.declared_depth()),
    {
        let depth = self.depth;
        let ghost leaves = self.leaves@;
        let zs = zero_hashes(depth);
        let mut entries = self.entries;
        if entries.len() == 0 {
            proof {
                assert(leaves.len() == 0);
                assert(leaves =~= Seq::<Seq<u8>>::empty());
                lemma_merkleize_empty(depth as nat);
            }
            return zs[depth as usize];
        }
        proof {
            assert(nearly_decreasing(entries@)) by {
                let es = entries@;
                if es.len() >= 2 {
                    assert(es[es.len() - 2].height > es[es.len() - 1].height);
                }
            }
        }
        loop
            invariant
                depth <= 64,
                zs@.len() == depth + 1,
                forall|h: int| 0 <= h <= depth ==> (#[trigger] zs@[h])@ == zero_hash(h as nat),
                entries@.len() >= 1,
                nearly_decreasing(entries@),
                entries_match(entries@, leaves),
                leaves.len() <= span(entries@),
                span(entries@) <= two_pow(depth as nat),
                forall|i: int| 0 <= i < entries@.len() ==> #[trigger] entries@[i].height <= depth,
            ensures
                entries@.len() == 1,
                entries@[0].height == depth,
                entries_match(entries@, leaves),
            decreases (two_pow(depth as nat) - span(entries@)) as nat, entries@.len(),
        {
            let ghost es = entries@;
            let ghost k = es.len() as int;
            let n = entries.len();
            let top = entries[n - 1];
            if n >= 2 && entries[n - 2].height == top.height {
                proof {
                    lemma_merge_bound(es, depth as nat);
                }
                merge_top(&mut entries, Ghost(leaves));
                proof {
                    let nes = entries@;
                    assert forall|i: int| 0 <= i < nes.len() implies #[trigger] nes[i].height
                        <= depth by {
                        if i < nes.len() - 1 {
                            assert(nes[i] == es[i]);
                        }
                    }
                }
            } else if n == 1 && top.height == depth {
                break ;
            } else {
                let ghost h = top.height as nat;
                proof {
                    lemma_settled(es);
                    lemma_pad_bound(es, depth as nat);
                    assert(es.last() == top);
                    lemma_two_pow_pos(top.height as nat);
                }
                pad_top(&mut entries, &zs[top.height as usize], Ghost(leaves));
                proof {
                    let nes = entries@;
                    assert forall|i: int| 0 <= i < nes.len() implies #[trigger] nes[i].height
                        <= depth by {
                        if i < nes.len() - 1 {
                            assert(nes[i] == es[i]);
                        }
                    }
                }
            }
        }
        proof {
            reveal(entries_match);
            assert(entries@.take(0) =~= Seq::<StackEntry>::empty());
            assert(span(Seq::<StackEntry>::empty()) == 0);
            assert(entries@[0].hash@ == subtree(leaves, 0, depth as nat));
        }
        entries[0].hash
    }
}

} // verus!
