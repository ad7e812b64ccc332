//! A static Huffman codec. A frequency table is turned into a strict binary
//! encoding tree by greedily merging the two lowest-weight pending trees
//! through the max-heap (inverted, so it pops lowest weight first); the
//! codeword of a symbol is its root-to-leaf path, `false` for left and `true`
//! for right. Encoding concatenates codewords into one bit container;
//! decoding walks the tree, one bit per step.

use vstd::prelude::*;
use vstd::multiset::Multiset;
use vstd::std_specs::cmp::PartialOrdSpec;
use crate::bit_vector::BitVector;
use crate::priority_queue::{heap_ordered, lemma_root_is_max, ord_le, ord_reliable, MaxHeap};
use crate::vec_util::vec_replace;
use core::cmp::Ordering;

verus! {

/// A value that can serve as a codec symbol: it can be copied, and its
/// equality test agrees with logical equality.
pub trait Symbol: Copy + Sized {
    /// Whether two symbols are the same.
    fn sym_eq(&self, other: &Self) -> (r: bool)
        ensures
            r == (self == other),
    ;
}

impl Symbol for char {
    fn sym_eq(&self, other: &Self) -> (r: bool) {
        *self == *other
    }
}

impl Symbol for u8 {
    fn sym_eq(&self, other: &Self) -> (r: bool) {
        *self == *other
    }
}

/// What the codec can signal: encoding met a symbol absent from the
/// frequency table, decoding ran out of bits mid-codeword, or decoding was
/// asked for symbols from a codec built over an empty table.
#[derive(Clone, Copy, Debug, PartialEq, Eq, Structural)]
pub enum HuffmanError {
    UnknownSymbol,
    TruncatedInput,
    EmptyTree,
}

/// A strict binary encoding tree: every inner node has exactly two children,
/// every leaf holds one symbol.
enum EncodingTree<T> {
    Leaf(T),
    Inner(Box<EncodingTree<T>>, Box<EncodingTree<T>>),
}

/// The symbols at the leaves, left to right.
spec fn leaves<T>(t: EncodingTree<T>) -> Seq<T>
    decreases t,
{
    match t {
        EncodingTree::Leaf(c) => seq![c],
        EncodingTree::Inner(l, r) => leaves(*l) + leaves(*r),
    }
}

/// A tree is well formed when no symbol sits at two leaves.
spec fn tree_wf<T>(t: EncodingTree<T>) -> bool {
    leaves(t).no_duplicates()
}

/// The longest root-to-leaf path length.
spec fn height<T>(t: EncodingTree<T>) -> nat
    decreases t,
{
    match t {
        EncodingTree::Leaf(_) => 0,
        EncodingTree::Inner(l, r) => 1 + if height(*l) >= height(*r) {
            height(*l)
        } else {
            height(*r)
        },
    }
}

/// The root-to-leaf path of `sym`: `false` descends left, `true` right.
spec fn codeword_in<T>(t: EncodingTree<T>, sym: T) -> Seq<bool>
    decreases t,
{
    match t {
        EncodingTree::Leaf(_) => Seq::empty(),
        EncodingTree::Inner(l, r) => if leaves(*l).contains(sym) {
            seq![false] + codeword_in(*l, sym)
        } else {
            seq![true] + codeword_in(*r, sym)
        },
    }
}

/// One decoding step: from bit position `i`, walk down to a leaf, returning
/// its symbol and the position after the consumed bits, or nothing if the
/// bits run out mid-path.
spec fn walk<T>(t: EncodingTree<T>, bits: Seq<bool>, i: int) -> Option<(T, int)>
    decreases t,
{
    match t {
        EncodingTree::Leaf(c) => Some((c, i)),
        EncodingTree::Inner(l, r) => if i < bits.len() {
            walk(
                if bits[i] {
                    *r
                } else {
                    *l
                },
                bits,
                i + 1,
            )
        } else {
            None
        },
    }
}

/// `count` decoding steps from bit position `i`.
spec fn walk_n<T>(t: EncodingTree<T>, bits: Seq<bool>, i: int, count: nat) -> Option<Seq<T>>
    decreases count,
{
    if count == 0 {
        Some(Seq::empty())
    } else {
        match walk(t, bits, i) {
            None => None,
            Some((c, j)) => match walk_n(t, bits, j, (count - 1) as nat) {
                None => None,
                Some(rest) => Some(seq![c] + rest),
            },
        }
    }
}

/// A pending tree during construction, prioritised by weight; the comparison
/// is inverted so the max-heap pops the lowest weight first. Weight sums
/// saturate at the top of `u64`.
struct UnrootedEncodingTree<T> {
    tree: EncodingTree<T>,
    frequency: u64,
}

impl<T> PartialEq for UnrootedEncodingTree<T> {
    fn eq(&self, other: &Self) -> (r: bool) {
        self.frequency == other.frequency
    }
}

impl<T> vstd::std_specs::cmp::PartialEqSpecImpl for UnrootedEncodingTree<T> {
    open spec fn obeys_eq_spec() -> bool {
        true
    }

    closed spec fn eq_spec(&self, other: &Self) -> bool {
        self.frequency == other.frequency
    }
}

impl<T> PartialOrd for UnrootedEncodingTree<T> {
    fn partial_cmp(&self, other: &Self) -> (r: Option<Ordering>) {
        if other.frequency < self.frequency {
            Some(Ordering::Less)
        } else if other.frequency > self.frequency {
            Some(Ordering::Greater)
        } else {
            Some(Ordering::Equal)
        }
    }
}

impl<T> vstd::std_specs::cmp::PartialOrdSpecImpl for UnrootedEncodingTree<T> {
    open spec fn obeys_partial_cmp_spec() -> bool {
        true
    }

    closed spec fn partial_cmp_spec(&self, other: &Self) -> Option<Ordering> {
        if other.frequency < self.frequency {
            Some(Ordering::Less)
        } else if other.frequency > self.frequency {
            Some(Ordering::Greater)
        } else {
            Some(Ordering::Equal)
        }
    }
}

/// The leaf symbols of one pending tree, as a multiset.
spec fn entry_leaves<T>(e: UnrootedEncodingTree<T>) -> Multiset<T> {
    leaves(e.tree).to_multiset()
}

/// The leaf symbols of all pending trees together.
spec fn pending_leaves<T>(s: Seq<UnrootedEncodingTree<T>>) -> Multiset<T>
    decreases s.len(),
{
    if s.len() == 0 {
        Multiset::empty()
    } else {
        pending_leaves(s.drop_last()).add(entry_leaves(s.last()))
    }
}

/// Every pending tree in the multiset is well formed.
spec fn pending_wf<T>(m: Multiset<UnrootedEncodingTree<T>>) -> bool {
    forall|e: UnrootedEncodingTree<T>| m.contains(e) ==> tree_wf(#[trigger] e.tree)
}

proof fn lemma_pending_leaves_push<T>(s: Seq<UnrootedEncodingTree<T>>, e: UnrootedEncodingTree<T>)
    ensures
        pending_leaves(s.push(e)) == pending_leaves(s).add(entry_leaves(e)),
{
    assert(s.push(e).drop_last() =~= s);
    assert(s.push(e).last() == e);
}

proof fn lemma_pending_leaves_remove<T>(s: Seq<UnrootedEncodingTree<T>>, k: int)
    requires
        0 <= k < s.len(),
    ensures
        pending_leaves(s) == pending_leaves(s.remove(k)).add(entry_leaves(s[k])),
    decreases s.len(),
{
    broadcast use vstd::multiset::group_multiset_axioms;

    if k == s.len() - 1 {
        assert(s.remove(k) =~= s.drop_last());
    } else {
        let d = s.drop_last();
        lemma_pending_leaves_remove(d, k);
        assert(s.remove(k).drop_last() =~= d.remove(k));
        assert(s.remove(k).last() == s.last());
        assert(pending_leaves(s.remove(k)) == pending_leaves(d.remove(k)).add(
            entry_leaves(s.last()),
        ));
        assert(pending_leaves(s) =~= pending_leaves(s.remove(k)).add(entry_leaves(s[k])));
    }
}

/// Sequences holding the same entries hold the same pending leaves.
proof fn lemma_pending_leaves_permutation<T>(
    s1: Seq<UnrootedEncodingTree<T>>,
    s2: Seq<UnrootedEncodingTree<T>>,
)
    requires
        s1.to_multiset() == s2.to_multiset(),
    ensures
        pending_leaves(s1) == pending_leaves(s2),
    decreases s1.len(),
{
    broadcast use vstd::seq_lib::group_to_multiset_ensures;
    broadcast use vstd::multiset::group_multiset_axioms;

    if s1.len() == 0 {
        assert(s1.to_multiset().len() == 0);
        assert(s2.to_multiset().len() == s2.len());
        assert(s2.len() == 0);
    } else {
        let e = s1.last();
        assert(s1.contains(e));
        assert(s1.to_multiset().count(e) > 0);
        assert(s2.contains(e));
        let k = choose|k: int| 0 <= k < s2.len() && s2[k] == e;
        assert(s1.drop_last() =~= s1.remove(s1.len() - 1));
        assert(s1.remove(s1.len() - 1).to_multiset() == s1.to_multiset().remove(e));
        assert(s2.remove(k).to_multiset() == s2.to_multiset().remove(e));
        lemma_pending_leaves_permutation(s1.drop_last(), s2.remove(k));
        lemma_pending_leaves_remove(s2, k);
        assert(pending_leaves(s1) == pending_leaves(s1.drop_last()).add(entry_leaves(e)));
    }
}

/// The pending trees with their weights, as a multiset of pairs.
spec fn pending_trees<T>(s: Seq<UnrootedEncodingTree<T>>) -> Multiset<(EncodingTree<T>, u64)>
    decreases s.len(),
{
    if s.len() == 0 {
        Multiset::empty()
    } else {
        pending_trees(s.drop_last()).insert((s.last().tree, s.last().frequency))
    }
}

/// One weighted leaf per table entry: the starting state of the greedy
/// construction.
spec fn leaf_pending<T>(counts: Seq<(T, u64)>) -> Multiset<(EncodingTree<T>, u64)>
    decreases counts.len(),
{
    if counts.len() == 0 {
        Multiset::empty()
    } else {
        leaf_pending(counts.drop_last()).insert(
            (EncodingTree::Leaf(counts.last().0), counts.last().1),
        )
    }
}

/// The weight two merged trees carry, stopping at the top of `u64`.
spec fn merged_weight(a: u64, b: u64) -> u64 {
    if a + b <= u64::MAX {
        (a + b) as u64
    } else {
        u64::MAX
    }
}

/// `p` carries a lowest weight among the pending trees `m`.
spec fn lowest_weight<T>(
    m: Multiset<(EncodingTree<T>, u64)>,
    p: (EncodingTree<T>, u64),
) -> bool {
    forall|q: (EncodingTree<T>, u64)| #[trigger] m.contains(q) ==> p.1 <= q.1
}

/// The greedy construction relation: from these weighted pending trees, a
/// sequence of merges, each taking two lowest-weight entries (the first
/// becoming the left child) and re-inserting their join, ends with `root`
/// as the single survivor.
spec fn merges_to<T>(pending: Multiset<(EncodingTree<T>, u64)>, root: EncodingTree<T>) -> bool
    decreases pending.len(),
{
    if pending.len() == 1 {
        exists|w: u64|
            pending == Multiset::<(EncodingTree<T>, u64)>::empty().insert((root, w))
    } else if pending.len() < 1 {
        false
    } else {
        exists|a: (EncodingTree<T>, u64), b: (EncodingTree<T>, u64)|
            {
                &&& pending.contains(a)
                &&& #[trigger] pending.remove(a).contains(b)
                &&& lowest_weight(pending, a)
                &&& lowest_weight(pending.remove(a), b)
                &&& merges_to(
                    pending.remove(a).remove(b).insert(
                        (
                            EncodingTree::Inner(Box::new(a.0), Box::new(b.0)),
                            merged_weight(a.1, b.1),
                        ),
                    ),
                    root,
                )
            }
    }
}

proof fn lemma_pending_trees_len<T>(s: Seq<UnrootedEncodingTree<T>>)
    ensures
        pending_trees(s).len() == s.len(),
    decreases s.len(),
{
    broadcast use vstd::multiset::group_multiset_axioms;

    if s.len() > 0 {
        lemma_pending_trees_len(s.drop_last());
    }
}

proof fn lemma_pending_trees_push<T>(s: Seq<UnrootedEncodingTree<T>>, e: UnrootedEncodingTree<T>)
    ensures
        pending_trees(s.push(e)) == pending_trees(s).insert((e.tree, e.frequency)),
{
    assert(s.push(e).drop_last() =~= s);
    assert(s.push(e).last() == e);
}

proof fn lemma_pending_trees_remove<T>(s: Seq<UnrootedEncodingTree<T>>, k: int)
    requires
        0 <= k < s.len(),
    ensures
        pending_trees(s) == pending_trees(s.remove(k)).insert((s[k].tree, s[k].frequency)),
    decreases s.len(),
{
    broadcast use vstd::multiset::group_multiset_axioms;

    if k == s.len() - 1 {
        assert(s.remove(k) =~= s.drop_last());
    } else {
        let d = s.drop_last();
        lemma_pending_trees_remove(d, k);
        assert(s.remove(k).drop_last() =~= d.remove(k));
        assert(s.remove(k).last() == s.last());
        assert(pending_trees(s) =~= pending_trees(s.remove(k)).insert((s[k].tree, s[k].frequency)));
    }
}

/// Sequences holding the same entries hold the same pending trees.
proof fn lemma_pending_trees_permutation<T>(
    s1: Seq<UnrootedEncodingTree<T>>,
    s2: Seq<UnrootedEncodingTree<T>>,
)
    requires
        s1.to_multiset() == s2.to_multiset(),
    ensures
        pending_trees(s1) == pending_trees(s2),
    decreases s1.len(),
{
    broadcast use vstd::seq_lib::group_to_multiset_ensures;
    broadcast use vstd::multiset::group_multiset_axioms;

    if s1.len() == 0 {
        assert(s1.to_multiset().len() == 0);
        assert(s2.to_multiset().len() == s2.len());
        assert(s2.len() == 0);
    } else {
        let e = s1.last();
        assert(s1.contains(e));
        assert(s1.to_multiset().count(e) > 0);
        assert(s2.contains(e));
        let k = choose|k: int| 0 <= k < s2.len() && s2[k] == e;
        assert(s1.drop_last() =~= s1.remove(s1.len() - 1));
        assert(s1.remove(s1.len() - 1).to_multiset() == s1.to_multiset().remove(e));
        assert(s2.remove(k).to_multiset() == s2.to_multiset().remove(e));
        lemma_pending_trees_permutation(s1.drop_last(), s2.remove(k));
        lemma_pending_trees_remove(s2, k);
        assert(pending_trees(s1) == pending_trees(s1.drop_last()).insert((e.tree, e.frequency)));
    }
}

/// A pending pair comes from some entry of the sequence.
proof fn lemma_pending_trees_index<T>(
    s: Seq<UnrootedEncodingTree<T>>,
    p: (EncodingTree<T>, u64),
)
    requires
        pending_trees(s).contains(p),
    ensures
        exists|k: int| 0 <= k < s.len() && ((#[trigger] s[k]).tree, s[k].frequency) == p,
    decreases s.len(),
{
    broadcast use vstd::multiset::group_multiset_axioms;

    if s.len() == 0 {
        assert(false);
    } else if p == (s.last().tree, s.last().frequency) {
        assert(((s[s.len() - 1]).tree, s[s.len() - 1].frequency) == p);
    } else {
        assert(pending_trees(s.drop_last()).contains(p));
        lemma_pending_trees_index(s.drop_last(), p);
        let k = choose|k: int|
            0 <= k < s.drop_last().len() && ((#[trigger] s.drop_last()[k]).tree,
            s.drop_last()[k].frequency) == p;
        assert(((s[k]).tree, s[k].frequency) == p);
    }
}

/// The inverted comparison on pending entries is a reliable total preorder,
/// so the heap's ordering contracts apply to the construction.
proof fn lemma_entry_ord_reliable<T>()
    ensures
        ord_reliable::<UnrootedEncodingTree<T>>(),
{
    assert forall|a: UnrootedEncodingTree<T>, b: UnrootedEncodingTree<T>| (#[trigger] a
        .partial_cmp_spec(&b)) is Some by {}
    assert forall|a: UnrootedEncodingTree<T>, b: UnrootedEncodingTree<T>| (#[trigger] a
        .partial_cmp_spec(&b)) == Some(Ordering::Less) <==> b.partial_cmp_spec(&a) == Some(
        Ordering::Greater,
    ) by {}
    assert forall|a: UnrootedEncodingTree<T>, b: UnrootedEncodingTree<T>, c: UnrootedEncodingTree<
        T,
    >| #[trigger] ord_le(a, b) && #[trigger] ord_le(b, c) implies ord_le(a, c) by {}
}

/// In the heap's inverted order, a value below another carries at least its
/// weight: the heap root carries a lowest weight.
proof fn lemma_ord_le_means_heavier<T>(a: UnrootedEncodingTree<T>, b: UnrootedEncodingTree<T>)
    ensures
        ord_le(a, b) <==> b.frequency <= a.frequency,
{
}

/// A static codec: a symbol-to-codeword table for encoding, and the tree
/// itself for decoding. Immutable once built.
pub struct HuffmanEncoding<T> {
    encodings: Vec<(T, BitVector)>,
    decode_tree: Option<EncodingTree<T>>,
}

impl<T> HuffmanEncoding<T> {
    /// Validity of a built codec: the codeword table lists exactly the
    /// tree's leaves, left to right, each with its root-to-leaf path.
    /// Every constructor establishes it.
    pub closed spec fn wf(&self) -> bool {
        match self.decode_tree {
            None => self.encodings@.len() == 0,
            Some(t) => {
                &&& tree_wf(t)
                &&& self.encodings@.len() == leaves(t).len()
                &&& forall|k: int|
                    0 <= k < self.encodings@.len() ==> (#[trigger] self.encodings@[k]).0 == leaves(
                        t,
                    )[k] && self.encodings@[k].1@ == codeword_in(t, leaves(t)[k])
            },
        }
    }

    /// Whether a tree was built (the frequency table was non-empty).
    pub closed spec fn has_tree(&self) -> bool {
        self.decode_tree is Some
    }

    /// The set of symbols this codec can encode.
    pub closed spec fn symbols(&self) -> Set<T> {
        match self.decode_tree {
            None => Set::empty(),
            Some(t) => leaves(t).to_set(),
        }
    }

    /// How many leaves the tree has.
    pub closed spec fn symbol_count(&self) -> nat {
        match self.decode_tree {
            None => 0,
            Some(t) => leaves(t).len(),
        }
    }

    /// The codeword of `sym`: its root-to-leaf path.
    pub closed spec fn codeword(&self, sym: T) -> Seq<bool> {
        match self.decode_tree {
            None => Seq::empty(),
            Some(t) => codeword_in(t, sym),
        }
    }

    /// The concatenation of the codewords of `syms`, in order.
    pub open spec fn encoded(&self, syms: Seq<T>) -> Seq<bool>
        decreases syms.len(),
    {
        if syms.len() == 0 {
            Seq::empty()
        } else {
            self.codeword(syms[0]) + self.encoded(syms.drop_first())
        }
    }

    /// The tree is one outcome of the greedy construction over this table:
    /// starting from one weighted leaf per entry, each merge joins two
    /// lowest-weight pending trees (the first taken becoming the left
    /// child, weight sums saturating at the top of `u64`) until one tree
    /// remains.
    pub closed spec fn built_by_least_weight_merges(&self, counts: Seq<(T, u64)>) -> bool {
        match self.decode_tree {
            None => counts.len() == 0,
            Some(t) => counts.len() > 0 && merges_to(leaf_pending(counts), t),
        }
    }

    /// What decoding `count` symbols out of `bits` yields: nothing for a
    /// zero count, `EmptyTree` without a tree, `TruncatedInput` when the
    /// bits run out mid-codeword, and the decoded symbols otherwise.
    pub closed spec fn decoded(&self, bits: Seq<bool>, count: nat) -> Result<Seq<T>, HuffmanError> {
        if count == 0 {
            Ok(Seq::empty())
        } else {
            match self.decode_tree {
                None => Err(HuffmanError::EmptyTree),
                Some(t) => match walk_n(t, bits, 0, count) {
                    None => Err(HuffmanError::TruncatedInput),
                    Some(s) => Ok(s),
                },
            }
        }
    }
}

/// How many times `x` occurs in `s`.
pub open spec fn occurrences<T>(s: Seq<T>, x: T) -> nat
    decreases s.len(),
{
    if s.len() == 0 {
        0
    } else {
        occurrences(s.drop_last(), x) + if s.last() == x {
            1nat
        } else {
            0nat
        }
    }
}

/// A value that never occurs is counted zero times.
proof fn lemma_occurrences_absent<T>(s: Seq<T>, x: T)
    requires
        !s.contains(x),
    ensures
        occurrences(s, x) == 0,
    decreases s.len(),
{
    if s.len() > 0 {
        assert(!s.drop_last().contains(x)) by {
            if s.drop_last().contains(x) {
                let k = choose|k: int| 0 <= k < s.drop_last().len() && s.drop_last()[k] == x;
                assert(s[k] == x);
            }
        }
        lemma_occurrences_absent(s.drop_last(), x);
    }
}

/// The keys of a frequency table, in table order.
pub open spec fn key_seq<T>(counts: Seq<(T, u64)>) -> Seq<T> {
    counts.map_values(|p: (T, u64)| p.0)
}

/// A fresh codeword holding the bits of `bits` and then `bit`.
fn add_bit(bits: &BitVector, bit: bool) -> (r: BitVector)
    requires
        bits@.len() < usize::MAX,
    ensures
        r@ == bits@.push(bit),
{
    let mut new_bits = BitVector::with_capacity(bits.len() + 1);
    new_bits.extend(bits);
    new_bits.push(bit);
    proof {
        assert(Seq::<bool>::empty() + bits@ =~= bits@);
    }
    new_bits
}

/// `a + b`, stopping at the top of `u64`.
fn saturating_sum(a: u64, b: u64) -> (r: u64)
    ensures
        r == if a + b <= u64::MAX {
            a + b
        } else {
            u64::MAX as int
        },
{
    if a > u64::MAX - b {
        u64::MAX
    } else {
        a + b
    }
}

/// A tree's height is below its leaf count.
proof fn lemma_height_below_leaves<T>(t: EncodingTree<T>)
    ensures
        height(t) < leaves(t).len(),
    decreases t,
{
    match t {
        EncodingTree::Leaf(_) => {},
        EncodingTree::Inner(l, r) => {
            lemma_height_below_leaves(*l);
            lemma_height_below_leaves(*r);
        },
    }
}

impl<T: Symbol> HuffmanEncoding<T> {
    /// A codec over the empty frequency table: no tree, nothing encodable.
    fn empty() -> (r: Self)
        ensures
            r.wf(),
            !r.has_tree(),
            r.symbols() == Set::<T>::empty(),
            r.symbol_count() == 0,
    {
        HuffmanEncoding { encodings: Vec::new(), decode_tree: None }
    }

    /// Builds the codec for a frequency table with distinct keys: one leaf
    /// per key, then repeated greedy merging of the two lowest-weight
    /// pending trees until one remains.
    pub fn from_counts(counts: &Vec<(T, u64)>) -> (r: Self)
        requires
            key_seq(counts@).no_duplicates(),
        ensures
            r.wf(),
            r.has_tree() <==> counts@.len() > 0,
            r.symbols() == key_seq(counts@).to_set(),
            r.symbol_count() == counts@.len(),
            r.built_by_least_weight_merges(counts@),
    {
        proof {
            broadcast use vstd::seq_lib::group_to_multiset_ensures;
            broadcast use vstd::multiset::group_multiset_axioms;

        }
        let ghost keys = key_seq(counts@);
        let ghost kmset = keys.to_multiset();
        if counts.len() == 0 {
            let r = Self::empty();
            proof {
                assert(keys.to_set() =~= Set::<T>::empty()) by {
                    assert(keys.len() == 0);
                }
            }
            return r;
        }
        proof {
            keys.lemma_multiset_has_no_duplicates();
        }
        let mut by_frequency: MaxHeap<UnrootedEncodingTree<T>> = MaxHeap::new();
        let mut idx: usize = 0;
        proof {
            lemma_entry_ord_reliable::<T>();
            assert(keys.take(0).to_multiset() =~= Multiset::<T>::empty());
            assert(counts@.take(0) =~= Seq::<(T, u64)>::empty());
        }
        while idx < counts.len()
            invariant
                idx <= counts@.len(),
                by_frequency@.len() == idx,
                keys == key_seq(counts@),
                pending_leaves(by_frequency@) == keys.take(idx as int).to_multiset(),
                pending_trees(by_frequency@) == leaf_pending(counts@.take(idx as int)),
                pending_wf(by_frequency@.to_multiset()),
                ord_reliable::<UnrootedEncodingTree<T>>(),
                heap_ordered(by_frequency@),
            decreases counts@.len() - idx,
        {
            proof {
                broadcast use vstd::seq_lib::group_to_multiset_ensures;
                broadcast use vstd::multiset::group_multiset_axioms;

            }
            let ghost pre = by_frequency@;
            let key = counts[idx].0;
            let frequency = counts[idx].1;
            let entry = UnrootedEncodingTree { tree: EncodingTree::Leaf(key), frequency };
            proof {
                assert(leaves(entry.tree) =~= Seq::<T>::empty().push(key));
                assert(Seq::<T>::empty().to_multiset() =~= Multiset::<T>::empty());
                assert(entry_leaves(entry) == Multiset::<T>::empty().insert(key));
            }
            by_frequency.push(entry);
            proof {
                lemma_pending_leaves_permutation(by_frequency@, pre.push(entry));
                lemma_pending_leaves_push(pre, entry);
                assert(keys.take(idx + 1) =~= keys.take(idx as int).push(keys[idx as int]));
                assert(keys[idx as int] == key);
                assert(pending_leaves(by_frequency@) =~= keys.take(idx + 1).to_multiset());
                lemma_pending_trees_permutation(by_frequency@, pre.push(entry));
                lemma_pending_trees_push(pre, entry);
                assert(counts@.take(idx + 1).drop_last() =~= counts@.take(idx as int));
                assert(counts@.take(idx + 1).last() == counts@[idx as int]);
                assert((entry.tree, entry.frequency) == (
                    EncodingTree::<T>::Leaf(counts@[idx as int].0),
                    counts@[idx as int].1,
                ));
                assert(pending_trees(by_frequency@) == leaf_pending(counts@.take(idx + 1)));
                assert forall|e: UnrootedEncodingTree<T>|
                    by_frequency@.to_multiset().contains(e) implies tree_wf(#[trigger] e.tree) by {
                    if e != entry {
                        assert(pre.to_multiset().contains(e));
                    } else {
                        assert(leaves(e.tree).no_duplicates());
                    }
                }
            }
            idx = idx + 1;
        }
        proof {
            assert(keys.take(counts@.len() as int) =~= keys);
            assert(counts@.take(counts@.len() as int) =~= counts@);
            assert(pending_trees(by_frequency@) == leaf_pending(counts@));
        }
        while by_frequency.len() >= 2
            invariant
                by_frequency@.len() >= 1,
                pending_leaves(by_frequency@) == kmset,
                pending_wf(by_frequency@.to_multiset()),
                kmset == keys.to_multiset(),
                forall|x: T| kmset.contains(x) ==> kmset.count(x) == 1,
                ord_reliable::<UnrootedEncodingTree<T>>(),
                heap_ordered(by_frequency@),
                forall|rt: EncodingTree<T>|
                    #[trigger] merges_to(pending_trees(by_frequency@), rt) ==> merges_to(
                        leaf_pending(counts@),
                        rt,
                    ),
            decreases by_frequency@.len(),
        {
            proof {
                broadcast use vstd::seq_lib::group_to_multiset_ensures;
                broadcast use vstd::multiset::group_multiset_axioms;

            }
            let ghost s0 = by_frequency@;
            let left = match by_frequency.next() {
                Some(e) => e,
                None => vstd::pervasive::unreached(),
            };
            let ghost s1 = by_frequency@;
            let ghost pa = (left.tree, left.frequency);
            proof {
                assert(s0.contains(left));
                assert(s0.to_multiset().contains(left));
                assert(tree_wf(left.tree));
                assert(s0.remove(0).to_multiset() == s0.to_multiset().remove(left));
                lemma_pending_leaves_permutation(s1, s0.remove(0));
                lemma_pending_leaves_remove(s0, 0);
                lemma_pending_trees_permutation(s1, s0.remove(0));
                lemma_pending_trees_remove(s0, 0);
                assert(pending_trees(s0) == pending_trees(s1).insert(pa));
                assert(pending_trees(s1) == pending_trees(s0).remove(pa));
                assert(pending_trees(s0).contains(pa));
                assert forall|q: (EncodingTree<T>, u64)|
                    #[trigger] pending_trees(s0).contains(q) implies pa.1 <= q.1 by {
                    lemma_pending_trees_index(s0, q);
                    let k = choose|k: int|
                        0 <= k < s0.len() && ((#[trigger] s0[k]).tree, s0[k].frequency) == q;
                    lemma_root_is_max(s0, k);
                    lemma_ord_le_means_heavier(s0[k], s0[0]);
                }
                assert(lowest_weight(pending_trees(s0), pa));
            }
            let right = match by_frequency.next() {
                Some(e) => e,
                None => vstd::pervasive::unreached(),
            };
            let ghost s2 = by_frequency@;
            let ghost pb = (right.tree, right.frequency);
            proof {
                assert(s1.contains(right));
                assert(s1.to_multiset().contains(right));
                assert(tree_wf(right.tree));
                assert(s1.remove(0).to_multiset() == s1.to_multiset().remove(right));
                lemma_pending_leaves_permutation(s2, s1.remove(0));
                lemma_pending_leaves_remove(s1, 0);
                lemma_pending_trees_permutation(s2, s1.remove(0));
                lemma_pending_trees_remove(s1, 0);
                assert(pending_trees(s1) == pending_trees(s2).insert(pb));
                assert(pending_trees(s2) == pending_trees(s1).remove(pb));
                assert(pending_trees(s1).contains(pb));
                assert forall|q: (EncodingTree<T>, u64)|
                    #[trigger] pending_trees(s1).contains(q) implies pb.1 <= q.1 by {
                    lemma_pending_trees_index(s1, q);
                    let k = choose|k: int|
                        0 <= k < s1.len() && ((#[trigger] s1[k]).tree, s1[k].frequency) == q;
                    lemma_root_is_max(s1, k);
                    lemma_ord_le_means_heavier(s1[k], s1[0]);
                }
                assert(lowest_weight(pending_trees(s1), pb));
            }
            let frequency = saturating_sum(left.frequency, right.frequency);
            let merged = UnrootedEncodingTree {
                tree: EncodingTree::Inner(Box::new(left.tree), Box::new(right.tree)),
                frequency,
            };
            proof {
                // The merged leaves stay within the key multiset, whose
                // counts are all one, so the merged tree has no duplicate
                // leaf.
                vstd::seq_lib::lemma_multiset_commutative(
                    leaves(left.tree),
                    leaves(right.tree),
                );
                assert(entry_leaves(merged) == entry_leaves(left).add(entry_leaves(right)));
                assert(pending_leaves(s2).add(entry_leaves(merged)) =~= kmset);
                assert forall|x: T| entry_leaves(merged).contains(x) implies entry_leaves(
                    merged,
                ).count(x) == 1 by {
                    assert(kmset.count(x) >= entry_leaves(merged).count(x));
                }
                leaves(merged.tree).lemma_multiset_has_no_duplicates_conv();
                assert(tree_wf(merged.tree));
            }
            let ghost pre_push = by_frequency@;
            by_frequency.push(merged);
            proof {
                lemma_pending_leaves_permutation(by_frequency@, pre_push.push(merged));
                lemma_pending_leaves_push(pre_push, merged);
                assert(pending_leaves(by_frequency@) =~= kmset);
                assert forall|e: UnrootedEncodingTree<T>|
                    by_frequency@.to_multiset().contains(e) implies tree_wf(#[trigger] e.tree) by {
                    if e != merged {
                        assert(pre_push.to_multiset().contains(e));
                    }
                }
                let ghost pm = (merged.tree, merged.frequency);
                lemma_pending_trees_permutation(by_frequency@, pre_push.push(merged));
                lemma_pending_trees_push(pre_push, merged);
                assert(pending_trees(by_frequency@) == pending_trees(s2).insert(pm));
                assert(pm == (
                    EncodingTree::Inner(Box::new(pa.0), Box::new(pb.0)),
                    merged_weight(pa.1, pb.1),
                ));
                lemma_pending_trees_len(s0);
                assert forall|rt: EncodingTree<T>|
                    #[trigger] merges_to(pending_trees(by_frequency@), rt) implies merges_to(
                    leaf_pending(counts@),
                    rt,
                ) by {
                    let p0 = pending_trees(s0);
                    assert(p0.len() >= 2);
                    assert(p0.remove(pa).contains(pb));
                    assert(p0.remove(pa).remove(pb).insert(
                        (
                            EncodingTree::Inner(Box::new(pa.0), Box::new(pb.0)),
                            merged_weight(pa.1, pb.1),
                        ),
                    ) == pending_trees(by_frequency@));
                    assert(merges_to(p0, rt));
                    assert(merges_to(pending_trees(s0), rt) ==> merges_to(
                        leaf_pending(counts@),
                        rt,
                    ));
                }
            }
        }
        let ghost s_fin = by_frequency@;
        let root_entry = match by_frequency.next() {
            Some(e) => e,
            None => vstd::pervasive::unreached(),
        };
        proof {
            broadcast use vstd::seq_lib::group_to_multiset_ensures;
            broadcast use vstd::multiset::group_multiset_axioms;

            assert(s_fin.len() == 1);
            assert(s_fin.contains(root_entry));
            assert(s_fin.to_multiset().contains(root_entry));
            assert(tree_wf(root_entry.tree));
            lemma_pending_leaves_remove(s_fin, 0);
            assert(s_fin.remove(0).len() == 0);
            assert(pending_leaves(s_fin.remove(0)) == Multiset::<T>::empty());
            assert(entry_leaves(root_entry) =~= kmset);
            lemma_pending_trees_len(s_fin);
            assert(s_fin.drop_last() =~= Seq::<UnrootedEncodingTree<T>>::empty());
            assert(s_fin.last() == s_fin[0]);
            assert(pending_trees(s_fin) == Multiset::<(EncodingTree<T>, u64)>::empty().insert(
                (root_entry.tree, root_entry.frequency),
            ));
            assert(merges_to(pending_trees(s_fin), root_entry.tree)) by {
                assert(pending_trees(s_fin).len() == 1);
                assert(pending_trees(s_fin) == Multiset::<(EncodingTree<T>, u64)>::empty().insert(
                    (root_entry.tree, root_entry.frequency),
                ));
            }
            assert(merges_to(leaf_pending(counts@), root_entry.tree));
        }
        let ghost root_tree = root_entry.tree;
        let mut encodings: Vec<(T, BitVector)> = Vec::new();
        let start = BitVector::new();
        proof {
            lemma_height_below_leaves(root_tree);
            assert(leaves(root_tree).len() == kmset.len());
            assert(keys.len() == counts@.len());
        }
        Self::add_tree(&mut encodings, start, &root_entry.tree);
        proof {
            assert forall|k: int| 0 <= k < encodings@.len() implies (#[trigger] encodings@[k]).0
                == leaves(root_tree)[k] && encodings@[k].1@ == codeword_in(
                root_tree,
                leaves(root_tree)[k],
            ) by {
                assert(encodings@[0 + k].0 == leaves(root_tree)[k] && encodings@[0 + k].1@
                    == start@ + codeword_in(root_tree, leaves(root_tree)[k]));
                assert(Seq::<bool>::empty() + codeword_in(root_tree, leaves(root_tree)[k])
                    =~= codeword_in(root_tree, leaves(root_tree)[k]));
            }
        }
        let r = HuffmanEncoding { encodings, decode_tree: Some(root_entry.tree) };
        proof {
            assert(r.symbols() =~= keys.to_set()) by {
                assert forall|x: T| leaves(root_tree).to_set().contains(x) implies keys.to_set()
                    .contains(x) by {
                    assert(leaves(root_tree).contains(x));
                    assert(leaves(root_tree).to_multiset().count(x) > 0);
                    assert(kmset.count(x) > 0);
                    assert(keys.contains(x));
                }
                assert forall|x: T| keys.to_set().contains(x) implies leaves(root_tree).to_set()
                    .contains(x) by {
                    assert(keys.contains(x));
                    assert(kmset.count(x) > 0);
                    assert(leaves(root_tree).to_multiset().count(x) > 0);
                    assert(leaves(root_tree).contains(x));
                }
            }
        }
        r
    }

    /// Records, for every leaf of `tree`, the codeword `prefix` + path.
    fn add_tree(table: &mut Vec<(T, BitVector)>, prefix: BitVector, tree: &EncodingTree<T>)
        requires
            tree_wf(*tree),
            prefix@.len() + height(*tree) < usize::MAX,
        ensures
            final(table)@.len() == old(table)@.len() + leaves(*tree).len(),
            forall|k: int| 0 <= k < old(table)@.len() ==> final(table)@[k] == old(table)@[k],
            forall|k: int|
                0 <= k < leaves(*tree).len() ==> (#[trigger] final(table)@[old(table)@.len() + k]).0
                    == leaves(*tree)[k] && final(table)@[old(table)@.len() + k].1@ == prefix@
                    + codeword_in(*tree, leaves(*tree)[k]),
        decreases *tree,
    {
        match tree {
            EncodingTree::Leaf(c) => {
                table.push((*c, prefix));
                proof {
                    assert(leaves(*tree) =~= seq![*c]);
                    assert(prefix@ + codeword_in(*tree, *c) =~= prefix@);
                }
            },
            EncodingTree::Inner(l, r) => {
                let ghost ll = leaves(**l);
                let ghost lr = leaves(**r);
                let ghost pre = table@;
                proof {
                    assert(ll + lr =~= leaves(*tree));
                    assert(ll.no_duplicates() && lr.no_duplicates()) by {
                        assert forall|p: int, q: int|
                            0 <= p < q < ll.len() implies ll[p] != ll[q] by {
                            assert(leaves(*tree)[p] == ll[p] && leaves(*tree)[q] == ll[q]);
                        }
                        assert forall|p: int, q: int|
                            0 <= p < q < lr.len() implies lr[p] != lr[q] by {
                            assert(leaves(*tree)[ll.len() + p] == lr[p] && leaves(*tree)[ll.len()
                                + q] == lr[q]);
                        }
                    }
                }
                proof {
                    assert(height(*tree) >= 1 && height(**l) < height(*tree) && height(**r)
                        < height(*tree));
                }
                let left_prefix = add_bit(&prefix, false);
                let right_prefix = add_bit(&prefix, true);
                Self::add_tree(table, left_prefix, l);
                let ghost mid = table@;
                Self::add_tree(table, right_prefix, r);
                proof {
                    assert(mid.len() == pre.len() + ll.len());
                    assert(table@.len() == mid.len() + lr.len());
                    assert forall|k: int|
                        0 <= k < leaves(*tree).len() implies (#[trigger] table@[pre.len() + k]).0
                        == leaves(*tree)[k] && table@[pre.len() + k].1@ == prefix@ + codeword_in(
                        *tree,
                        leaves(*tree)[k],
                    ) by {
                        if k < ll.len() {
                            let sym = ll[k];
                            assert(mid[pre.len() + k].0 == ll[k] && mid[pre.len() + k].1@
                                == left_prefix@ + codeword_in(**l, ll[k]));
                            assert(table@[pre.len() + k] == mid[pre.len() + k]);
                            assert(leaves(*tree)[k] == sym);
                            assert(ll.contains(sym));
                            assert(codeword_in(*tree, sym) == seq![false] + codeword_in(**l, sym));
                            assert(prefix@.push(false) + codeword_in(**l, sym) =~= prefix@ + (
                            seq![false] + codeword_in(**l, sym)));
                        } else {
                            let k2 = k - ll.len();
                            let sym = lr[k2];
                            assert(table@[mid.len() + k2].0 == lr[k2] && table@[mid.len() + k2].1@
                                == right_prefix@ + codeword_in(**r, lr[k2]));
                            assert(pre.len() + k == mid.len() + k2);
                            assert(leaves(*tree)[k] == sym);
                            // A right-side symbol cannot also sit on the
                            // left: the leaves are distinct.
                            assert(!ll.contains(sym)) by {
                                if ll.contains(sym) {
                                    let p = choose|p: int| 0 <= p < ll.len() && ll[p] == sym;
                                    assert(leaves(*tree)[p] == sym);
                                    assert(leaves(*tree)[k] == sym);
                                }
                            }
                            assert(codeword_in(*tree, sym) == seq![true] + codeword_in(**r, sym));
                            assert(prefix@.push(true) + codeword_in(**r, sym) =~= prefix@ + (
                            seq![true] + codeword_in(**r, sym)));
                        }
                    }
                }
            },
        }
    }
}

/// Appending one symbol appends its codeword.
proof fn lemma_encoded_snoc<T>(codec: &HuffmanEncoding<T>, u: Seq<T>, x: T)
    ensures
        codec.encoded(u.push(x)) == codec.encoded(u) + codec.codeword(x),
    decreases u.len(),
{
    if u.len() == 0 {
        assert(u.push(x)[0] == x);
        assert(u.push(x).drop_first() =~= Seq::<T>::empty());
        assert(codec.encoded(u.push(x)) == codec.codeword(x) + codec.encoded(
            u.push(x).drop_first(),
        ));
        assert(codec.encoded(u.push(x).drop_first()) == Seq::<bool>::empty());
        assert(codec.encoded(u) == Seq::<bool>::empty());
        assert(codec.codeword(x) + Seq::<bool>::empty() =~= codec.codeword(x));
        assert(Seq::<bool>::empty() + codec.codeword(x) =~= codec.codeword(x));
    } else {
        assert(u.push(x).drop_first() =~= u.drop_first().push(x));
        assert(u.push(x)[0] == u[0]);
        lemma_encoded_snoc(codec, u.drop_first(), x);
        assert(codec.encoded(u.push(x)) == codec.codeword(u[0]) + codec.encoded(
            u.push(x).drop_first(),
        ));
        assert(codec.encoded(u) == codec.codeword(u[0]) + codec.encoded(u.drop_first()));
        assert(codec.codeword(u[0]) + (codec.encoded(u.drop_first()) + codec.codeword(x)) =~= (
        codec.codeword(u[0]) + codec.encoded(u.drop_first())) + codec.codeword(x));
    }
}

/// Encoding a prefix never takes more bits than encoding the whole.
proof fn lemma_encoded_take_len<T>(codec: &HuffmanEncoding<T>, s: Seq<T>, i: int)
    requires
        0 <= i <= s.len(),
    ensures
        codec.encoded(s.take(i)).len() <= codec.encoded(s).len(),
    decreases s.len() - i,
{
    if i == s.len() {
        assert(s.take(i) =~= s);
    } else {
        assert(s.take(i + 1) =~= s.take(i).push(s[i]));
        lemma_encoded_snoc(codec, s.take(i), s[i]);
        lemma_encoded_take_len(codec, s, i + 1);
    }
}

impl<T: Symbol> HuffmanEncoding<T> {
    /// The position of `sym` in the codeword table, if any.
    fn lookup(&self, sym: &T) -> (r: Option<usize>)
        requires
            self.wf(),
        ensures
            match r {
                Some(k) => (k as int) < self.encodings@.len() && self.encodings@[k as int].0
                    == *sym,
                None => forall|p: int|
                    0 <= p < self.encodings@.len() ==> (#[trigger] self.encodings@[p]).0 != *sym,
            },
    {
        let mut k: usize = 0;
        while k < self.encodings.len()
            invariant
                k <= self.encodings@.len(),
                forall|p: int| 0 <= p < k ==> (#[trigger] self.encodings@[p]).0 != *sym,
            decreases self.encodings@.len() - k,
        {
            let key = self.encodings[k].0;
            if key.sym_eq(sym) {
                return Some(k);
            }
            k = k + 1;
        }
        None
    }

    /// Encodes the symbols in order into one bit container, or signals the
    /// first symbol that the frequency table did not hold.
    pub fn encode_ref(&self, values: &Vec<T>) -> (r: Result<BitVector, HuffmanError>)
        requires
            self.wf(),
            self.encoded(values@).len() <= usize::MAX,
        ensures
            match r {
                Ok(bits) => bits@ == self.encoded(values@) && forall|k: int|
                    0 <= k < values@.len() ==> self.symbols().contains(#[trigger] values@[k]),
                Err(e) => e == HuffmanError::UnknownSymbol && exists|k: int|
                    0 <= k < values@.len() && !self.symbols().contains(#[trigger] values@[k]),
            },
    {
        let mut bits = BitVector::new();
        let mut idx: usize = 0;
        proof {
            assert(bits@ =~= self.encoded(values@.take(0)));
        }
        while idx < values.len()
            invariant
                self.wf(),
                idx <= values@.len(),
                self.encoded(values@).len() <= usize::MAX,
                bits@ == self.encoded(values@.take(idx as int)),
                forall|k: int| 0 <= k < idx ==> self.symbols().contains(#[trigger] values@[k]),
            decreases values@.len() - idx,
        {
            let v = values[idx];
            match self.lookup(&v) {
                None => {
                    proof {
                        if self.symbols().contains(values@[idx as int]) {
                            let t = self.decode_tree->Some_0;
                            assert(leaves(t).contains(v));
                            let p = choose|p: int| 0 <= p < leaves(t).len() && leaves(t)[p] == v;
                            assert(self.encodings@[p].0 == v);
                        }
                    }
                    return Err(HuffmanError::UnknownSymbol);
                },
                Some(k) => {
                    proof {
                        let t = self.decode_tree->Some_0;
                        assert(self.encodings@[k as int].0 == leaves(t)[k as int]);
                        assert(leaves(t).contains(leaves(t)[k as int]));
                        assert(self.symbols().contains(v));
                        assert(self.encodings@[k as int].1@ == self.codeword(v));
                        assert(values@.take(idx + 1) =~= values@.take(idx as int).push(
                            values@[idx as int],
                        ));
                        lemma_encoded_snoc(self, values@.take(idx as int), values@[idx as int]);
                        lemma_encoded_take_len(self, values@, idx + 1);
                    }
                    let cw = &self.encodings[k].1;
                    bits.extend(cw);
                },
            }
            idx = idx + 1;
        }
        proof {
            assert(values@.take(values@.len() as int) =~= values@);
        }
        Ok(bits)
    }

    /// As `encode_ref`, consuming the symbol sequence.
    pub fn encode(&self, values: Vec<T>) -> (r: Result<BitVector, HuffmanError>)
        requires
            self.wf(),
            self.encoded(values@).len() <= usize::MAX,
        ensures
            match r {
                Ok(bits) => bits@ == self.encoded(values@) && forall|k: int|
                    0 <= k < values@.len() ==> self.symbols().contains(#[trigger] values@[k]),
                Err(e) => e == HuffmanError::UnknownSymbol && exists|k: int|
                    0 <= k < values@.len() && !self.symbols().contains(#[trigger] values@[k]),
            },
    {
        self.encode_ref(&values)
    }

    /// Decodes exactly `count` symbols by walking the tree, one bit per
    /// step; the result is exactly what `decoded` says.
    pub fn decode(&self, bits: &BitVector, count: usize) -> (r: Result<Vec<T>, HuffmanError>)
        requires
            self.wf(),
        ensures
            match r {
                Ok(syms) => self.decoded(bits@, count as nat) == Ok::<Seq<T>, HuffmanError>(syms@),
                Err(e) => self.decoded(bits@, count as nat) == Err::<Seq<T>, HuffmanError>(e),
            },
    {
        if count == 0 {
            let empty_result: Vec<T> = Vec::new();
            proof {
                assert(empty_result@ =~= Seq::<T>::empty());
            }
            return Ok(empty_result);
        }
        let tree = match &self.decode_tree {
            Some(t) => t,
            None => {
                return Err(HuffmanError::EmptyTree);
            },
        };
        let ghost t = *tree;
        proof {
            bits.lemma_len_fits();
        }
        let mut result: Vec<T> = Vec::new();
        let mut cursor: usize = 0;
        let mut produced: usize = 0;
        proof {
            if walk_n(t, bits@, 0, count as nat) is Some {
                assert(result@ + walk_n(t, bits@, 0, count as nat)->Some_0 =~= walk_n(
                    t,
                    bits@,
                    0,
                    count as nat,
                )->Some_0);
            }
        }
        while produced < count
            invariant
                produced <= count,
                result@.len() == produced,
                cursor as int <= bits@.len(),
                count > 0,
                bits@.len() <= usize::MAX,
                self.decode_tree == Some(t),
                *tree == t,
                tree_wf(t),
                match walk_n(t, bits@, cursor as int, (count - produced) as nat) {
                    None => walk_n(t, bits@, 0, count as nat) is None,
                    Some(rest) => walk_n(t, bits@, 0, count as nat) == Some(result@ + rest),
                },
            decreases count - produced,
        {
            let ghost cur0 = cursor as int;
            let ghost m = (count - produced) as nat;
            let ghost produced0 = produced as int;
            let mut node: &EncodingTree<T> = tree;
            proof {
                assert(*node == t);
            }
            loop
                invariant_except_break
                    walk(t, bits@, cur0) == walk(*node, bits@, cursor as int),
                    cur0 <= cursor as int <= bits@.len(),
                    produced == produced0,
                    produced < count,
                    result@.len() == produced,
                    count > 0,
                    bits@.len() <= usize::MAX,
                    self.decode_tree == Some(t),
                    tree_wf(t),
                    m == (count - produced) as nat,
                    match walk_n(t, bits@, cur0, m) {
                        None => walk_n(t, bits@, 0, count as nat) is None,
                        Some(rest) => walk_n(t, bits@, 0, count as nat) == Some(result@ + rest),
                    },
                ensures
                    produced == produced0 + 1,
                    produced <= count,
                    result@.len() == produced,
                    cursor as int <= bits@.len(),
                    count > 0,
                    bits@.len() <= usize::MAX,
                    self.decode_tree == Some(t),
                    tree_wf(t),
                    match walk_n(t, bits@, cursor as int, (count - produced) as nat) {
                        None => walk_n(t, bits@, 0, count as nat) is None,
                        Some(rest) => walk_n(t, bits@, 0, count as nat) == Some(result@ + rest),
                    },
                decreases height(*node),
            {
                match node {
                    EncodingTree::Leaf(c) => {
                        proof {
                            assert(walk(t, bits@, cur0) == Some((*c, cursor as int)));
                            let j = cursor as int;
                            assert(walk_n(t, bits@, cur0, m) == match walk_n(
                                t,
                                bits@,
                                j,
                                (m - 1) as nat,
                            ) {
                                None => None::<Seq<T>>,
                                Some(rest) => Some(seq![*c] + rest),
                            });
                            if walk_n(t, bits@, j, (m - 1) as nat) is Some {
                                let rest = walk_n(t, bits@, j, (m - 1) as nat)->Some_0;
                                assert(result@ + (seq![*c] + rest) =~= result@.push(*c) + rest);
                            }
                        }
                        result.push(*c);
                        produced = produced + 1;
                        break ;
                    },
                    EncodingTree::Inner(l, rgt) => {
                        proof {
                            assert(height(**l) < height(*node) && height(**rgt) < height(*node));
                        }
                        match bits.get(cursor) {
                            None => {
                                proof {
                                    assert(walk(*node, bits@, cursor as int) is None);
                                    assert(walk_n(t, bits@, cur0, m) is None);
                                }
                                return Err(HuffmanError::TruncatedInput);
                            },
                            Some(b) => {
                                node = if b {
                                    &*rgt
                                } else {
                                    &*l
                                };
                                cursor = cursor + 1;
                            },
                        }
                    },
                }
            }
        }
        proof {
            assert(walk_n(t, bits@, cursor as int, 0) == Some(Seq::<T>::empty()));
            assert(result@ + Seq::<T>::empty() =~= result@);
        }
        Ok(result)
    }

    /// Builds the codec from a corpus: each distinct symbol becomes a key,
    /// weighted by how often it occurs, keys in first-occurrence order.
    pub fn from_corpus(corpus: &Vec<T>) -> (r: Self)
        ensures
            r.wf(),
            r.has_tree() <==> corpus@.len() > 0,
            r.symbols() == corpus@.to_set(),
            exists|counts: Seq<(T, u64)>|
                {
                    &&& key_seq(counts).no_duplicates()
                    &&& key_seq(counts).to_set() == corpus@.to_set()
                    &&& forall|k: int|
                        0 <= k < counts.len() ==> (#[trigger] counts[k]).1 == occurrences(
                            corpus@,
                            counts[k].0,
                        )
                    &&& #[trigger] r.built_by_least_weight_merges(counts)
                },
    {
        let mut counts: Vec<(T, u64)> = Vec::new();
        let mut idx: usize = 0;
        proof {
            assert(key_seq(counts@) =~= Seq::<T>::empty());
            assert(corpus@.take(0).to_set() =~= Set::<T>::empty());
            assert(key_seq(counts@).to_set() =~= Set::<T>::empty());
        }
        while idx < corpus.len()
            invariant
                idx <= corpus@.len(),
                key_seq(counts@).no_duplicates(),
                key_seq(counts@).to_set() == corpus@.take(idx as int).to_set(),
                forall|p: int| 0 <= p < counts@.len() ==> (#[trigger] counts@[p]).1 <= idx,
                forall|p: int|
                    0 <= p < counts@.len() ==> (#[trigger] counts@[p]).1 == occurrences(
                        corpus@.take(idx as int),
                        counts@[p].0,
                    ),
            decreases corpus@.len() - idx,
        {
            let c = corpus[idx];
            let ghost pre = counts@;
            let mut k: usize = 0;
            let mut found = false;
            while k < counts.len() && !found
                invariant
                    k <= counts@.len(),
                    counts@ == pre,
                    found ==> (k as int) < counts@.len() && counts@[k as int].0 == c,
                    !found ==> forall|p: int|
                        0 <= p < k ==> (#[trigger] counts@[p]).0 != c,
                decreases counts@.len() - k + if found {
                    0int
                } else {
                    1int
                },
            {
                let key = counts[k].0;
                if key.sym_eq(&c) {
                    found = true;
                } else {
                    k = k + 1;
                }
            }
            if found {
                let key = counts[k].0;
                let n = counts[k].1;
                vec_replace(&mut counts, k, (key, n + 1));
                proof {
                    broadcast use vstd::seq_lib::group_seq_properties;
                    broadcast use vstd::set::group_set_axioms;

                    assert(corpus@.take(idx + 1).drop_last() =~= corpus@.take(idx as int));
                    assert(corpus@.take(idx + 1).last() == c);
                    assert(key == c);
                    assert forall|p: int|
                        0 <= p < counts@.len() implies (#[trigger] counts@[p]).1 == occurrences(
                        corpus@.take(idx + 1),
                        counts@[p].0,
                    ) by {
                        if p == k {
                            assert(counts@[p] == (key, (n + 1) as u64));
                        } else {
                            assert(counts@[p] == pre[p]);
                            // The keys are distinct, so only entry `k`
                            // carries this character.
                            assert(pre[p].0 != c) by {
                                if pre[p].0 == c {
                                    assert(key_seq(pre)[p] == c && key_seq(pre)[k as int] == c);
                                }
                            }
                        }
                    }
                    assert(key_seq(counts@) =~= key_seq(pre));
                    assert(corpus@.take(idx + 1) =~= corpus@.take(idx as int).push(c));
                    assert(key_seq(counts@).to_set() =~= corpus@.take(idx + 1).to_set()) by {
                        assert(key_seq(pre)[k as int] == c);
                        assert(key_seq(pre).contains(c));
                        assert(corpus@.take(idx + 1).to_set() =~= corpus@.take(
                            idx as int,
                        ).to_set().insert(c));
                    }
                }
            } else {
                counts.push((c, 1));
                proof {
                    broadcast use vstd::seq_lib::group_seq_properties;
                    broadcast use vstd::set::group_set_axioms;

                    assert(corpus@.take(idx + 1).drop_last() =~= corpus@.take(idx as int));
                    assert(corpus@.take(idx + 1).last() == c);
                    assert(!corpus@.take(idx as int).contains(c)) by {
                        if corpus@.take(idx as int).contains(c) {
                            assert(corpus@.take(idx as int).to_set().contains(c));
                            assert(key_seq(pre).to_set().contains(c));
                            assert(key_seq(pre).contains(c));
                            let p = choose|p: int|
                                0 <= p < key_seq(pre).len() && key_seq(pre)[p] == c;
                            assert(pre[p].0 == c);
                        }
                    }
                    lemma_occurrences_absent(corpus@.take(idx as int), c);
                    assert forall|p: int|
                        0 <= p < counts@.len() implies (#[trigger] counts@[p]).1 == occurrences(
                        corpus@.take(idx + 1),
                        counts@[p].0,
                    ) by {
                        if p < pre.len() {
                            assert(counts@[p] == pre[p]);
                            assert(pre[p].0 != c) by {
                                if pre[p].0 == c {
                                    assert(key_seq(pre)[p] == c);
                                }
                            }
                        } else {
                            assert(counts@[p] == (c, 1u64));
                        }
                    }
                    assert(key_seq(counts@) =~= key_seq(pre).push(c));
                    assert(!key_seq(pre).contains(c)) by {
                        if key_seq(pre).contains(c) {
                            let p = choose|p: int|
                                0 <= p < key_seq(pre).len() && key_seq(pre)[p] == c;
                            assert(pre[p].0 == c);
                        }
                    }
                    assert(corpus@.take(idx + 1) =~= corpus@.take(idx as int).push(c));
                    assert(key_seq(counts@).to_set() =~= corpus@.take(idx + 1).to_set()) by {
                        assert(key_seq(pre).push(c).to_set() =~= key_seq(pre).to_set().insert(c));
                        assert(corpus@.take(idx + 1).to_set() =~= corpus@.take(
                            idx as int,
                        ).to_set().insert(c));
                    }
                }
            }
            idx = idx + 1;
        }
        proof {
            broadcast use vstd::set::group_set_axioms;

            assert(corpus@.take(corpus@.len() as int) =~= corpus@);
            assert(key_seq(counts@).len() == counts@.len());
            assert(counts@.len() > 0 ==> corpus@.len() > 0) by {
                if counts@.len() > 0 && corpus@.len() == 0 {
                    key_seq(counts@).unique_seq_to_set();
                    assert(corpus@.to_set() =~= Set::<T>::empty());
                    assert(key_seq(counts@).to_set().len() == 0);
                }
            }
            assert(corpus@.len() > 0 ==> counts@.len() > 0) by {
                if corpus@.len() > 0 && counts@.len() == 0 {
                    assert(corpus@.contains(corpus@[0]));
                    assert(corpus@.to_set().contains(corpus@[0]));
                    assert(key_seq(counts@).to_set().contains(corpus@[0]));
                    assert(key_seq(counts@).contains(corpus@[0]));
                }
            }
        }
        let r = Self::from_counts(&counts);
        proof {
            assert(r.built_by_least_weight_merges(counts@));
        }
        r
    }
}

/// The two sides of a well-formed inner node are well formed and share no
/// symbol.
proof fn lemma_wf_parts<T>(l: EncodingTree<T>, r: EncodingTree<T>)
    requires
        (leaves(l) + leaves(r)).no_duplicates(),
    ensures
        tree_wf(l),
        tree_wf(r),
        forall|x: T| #[trigger] leaves(l).contains(x) ==> !leaves(r).contains(x),
{
    let ll = leaves(l);
    let lr = leaves(r);
    let whole = ll + lr;
    assert forall|p: int, q: int| 0 <= p < q < ll.len() implies ll[p] != ll[q] by {
        assert(whole[p] == ll[p] && whole[q] == ll[q]);
    }
    assert forall|p: int, q: int| 0 <= p < q < lr.len() implies lr[p] != lr[q] by {
        assert(whole[ll.len() + p] == lr[p] && whole[ll.len() + q] == lr[q]);
    }
    assert forall|x: T| #[trigger] leaves(l).contains(x) implies !leaves(r).contains(x) by {
        if ll.contains(x) && lr.contains(x) {
            let p = choose|p: int| 0 <= p < ll.len() && ll[p] == x;
            let q = choose|q: int| 0 <= q < lr.len() && lr[q] == x;
            assert(whole[p] == x && whole[ll.len() + q] == x);
        }
    }
}

/// Every tree holds at least one leaf.
proof fn lemma_leaves_nonempty<T>(t: EncodingTree<T>)
    ensures
        leaves(t).len() >= 1,
    decreases t,
{
    match t {
        EncodingTree::Leaf(_) => {},
        EncodingTree::Inner(l, r) => {
            lemma_leaves_nonempty(*l);
            lemma_leaves_nonempty(*r);
        },
    }
}

/// Walking from bit position `i` over exactly the codeword of `sym` reaches
/// the leaf of `sym` and stops right after the codeword.
proof fn lemma_walk_codeword<T>(t: EncodingTree<T>, sym: T, bits: Seq<bool>, i: int)
    requires
        tree_wf(t),
        leaves(t).contains(sym),
        0 <= i,
        i + codeword_in(t, sym).len() <= bits.len(),
        bits.subrange(i, i + codeword_in(t, sym).len()) == codeword_in(t, sym),
    ensures
        walk(t, bits, i) == Some((sym, i + codeword_in(t, sym).len())),
    decreases t,
{
    let cw = codeword_in(t, sym);
    match t {
        EncodingTree::Leaf(c) => {
            assert(leaves(t)[0] == c);
            assert(sym == c);
        },
        EncodingTree::Inner(l, r) => {
            lemma_wf_parts(*l, *r);
            if leaves(*l).contains(sym) {
                let sub = codeword_in(*l, sym);
                assert(cw == seq![false] + sub);
                assert(bits[i] == cw[0]);
                assert(cw[0] == false);
                assert(bits.subrange(i + 1, i + 1 + sub.len()) =~= sub) by {
                    assert forall|p: int| 0 <= p < sub.len() implies bits.subrange(
                        i + 1,
                        i + 1 + sub.len(),
                    )[p] == sub[p] by {
                        assert(bits[i + 1 + p] == bits.subrange(i, i + cw.len())[1 + p]);
                        assert(cw[1 + p] == sub[p]);
                    }
                }
                lemma_walk_codeword(*l, sym, bits, i + 1);
            } else {
                assert(leaves(t).contains(sym));
                let q = choose|q: int| 0 <= q < leaves(t).len() && leaves(t)[q] == sym;
                assert(leaves(*r).contains(sym)) by {
                    if q < leaves(*l).len() {
                        assert(leaves(*l)[q] == sym);
                    } else {
                        assert(leaves(*r)[q - leaves(*l).len()] == sym);
                    }
                }
                let sub = codeword_in(*r, sym);
                assert(cw == seq![true] + sub);
                assert(bits[i] == cw[0]);
                assert(cw[0] == true);
                assert(bits.subrange(i + 1, i + 1 + sub.len()) =~= sub) by {
                    assert forall|p: int| 0 <= p < sub.len() implies bits.subrange(
                        i + 1,
                        i + 1 + sub.len(),
                    )[p] == sub[p] by {
                        assert(bits[i + 1 + p] == bits.subrange(i, i + cw.len())[1 + p]);
                        assert(cw[1 + p] == sub[p]);
                    }
                }
                lemma_walk_codeword(*r, sym, bits, i + 1);
            }
        },
    }
}

/// Walking over the concatenated codewords of `syms` decodes exactly `syms`.
proof fn lemma_walk_n_encoded<T>(
    codec: &HuffmanEncoding<T>,
    t: EncodingTree<T>,
    syms: Seq<T>,
    bits: Seq<bool>,
    i: int,
)
    requires
        codec.decode_tree == Some(t),
        tree_wf(t),
        forall|k: int| 0 <= k < syms.len() ==> leaves(t).contains(#[trigger] syms[k]),
        0 <= i,
        i + codec.encoded(syms).len() <= bits.len(),
        bits.subrange(i, i + codec.encoded(syms).len()) == codec.encoded(syms),
    ensures
        walk_n(t, bits, i, syms.len()) == Some(syms),
    decreases syms.len(),
{
    if syms.len() == 0 {
        assert(syms =~= Seq::<T>::empty());
    } else {
        let cw0 = codec.codeword(syms[0]);
        let rest = codec.encoded(syms.drop_first());
        let enc = codec.encoded(syms);
        assert(enc == cw0 + rest);
        assert(cw0 == codeword_in(t, syms[0]));
        assert(bits.subrange(i, i + cw0.len()) =~= cw0) by {
            assert forall|p: int| 0 <= p < cw0.len() implies bits.subrange(i, i + cw0.len())[p]
                == cw0[p] by {
                assert(bits[i + p] == bits.subrange(i, i + enc.len())[p]);
                assert(enc[p] == cw0[p]);
            }
        }
        assert(leaves(t).contains(syms[0]));
        lemma_walk_codeword(t, syms[0], bits, i);
        let j = i + cw0.len();
        assert(bits.subrange(j, j + rest.len()) =~= rest) by {
            assert forall|p: int| 0 <= p < rest.len() implies bits.subrange(j, j + rest.len())[p]
                == rest[p] by {
                assert(bits[j + p] == bits.subrange(i, i + enc.len())[cw0.len() + p]);
                assert(enc[cw0.len() + p] == rest[p]);
            }
        }
        assert forall|k: int| 0 <= k < syms.drop_first().len() implies leaves(t).contains(
            #[trigger] syms.drop_first()[k],
        ) by {
            assert(syms.drop_first()[k] == syms[k + 1]);
        }
        lemma_walk_n_encoded(codec, t, syms.drop_first(), bits, j);
        assert(walk_n(t, bits, i, syms.len()) == Some(seq![syms[0]] + syms.drop_first()));
        assert(seq![syms[0]] + syms.drop_first() =~= syms);
    }
}

/// Round trip: decoding an encoded sequence of known symbols, with the
/// matching count, yields that sequence exactly.
pub proof fn lemma_round_trip<T: Symbol>(codec: &HuffmanEncoding<T>, syms: Seq<T>)
    requires
        codec.wf(),
        forall|k: int| 0 <= k < syms.len() ==> codec.symbols().contains(#[trigger] syms[k]),
    ensures
        codec.decoded(codec.encoded(syms), syms.len()) == Ok::<Seq<T>, HuffmanError>(syms),
{
    if syms.len() == 0 {
        assert(syms =~= Seq::<T>::empty());
    } else {
        assert(codec.symbols().contains(syms[0]));
        assert(codec.decode_tree is Some) by {
            if codec.decode_tree is None {
                assert(Set::<T>::empty().contains(syms[0]));
            }
        }
        let t = codec.decode_tree->Some_0;
        assert forall|k: int| 0 <= k < syms.len() implies leaves(t).contains(
            #[trigger] syms[k],
        ) by {
            assert(codec.symbols().contains(syms[k]));
        }
        let enc = codec.encoded(syms);
        assert(enc.subrange(0, enc.len() as int) =~= enc);
        lemma_walk_n_encoded(codec, t, syms, enc, 0);
    }
}

/// No codeword's bits begin another's: of two distinct symbols in a tree,
/// neither codeword is a prefix of the other.
proof fn lemma_cw_prefix<T>(t: EncodingTree<T>, a: T, b: T)
    requires
        tree_wf(t),
        leaves(t).contains(a),
        leaves(t).contains(b),
        a != b,
    ensures
        !codeword_in(t, a).is_prefix_of(codeword_in(t, b)),
    decreases t,
{
    let cwa = codeword_in(t, a);
    let cwb = codeword_in(t, b);
    match t {
        EncodingTree::Leaf(c) => {
            assert(leaves(t)[0] == c);
            assert(a == c && b == c);
        },
        EncodingTree::Inner(l, r) => {
            lemma_wf_parts(*l, *r);
            let in_l_a = leaves(*l).contains(a);
            let in_l_b = leaves(*l).contains(b);
            assert(leaves(*l).contains(a) || leaves(*r).contains(a)) by {
                let q = choose|q: int| 0 <= q < leaves(t).len() && leaves(t)[q] == a;
                if q < leaves(*l).len() {
                    assert(leaves(*l)[q] == a);
                } else {
                    assert(leaves(*r)[q - leaves(*l).len()] == a);
                }
            }
            assert(leaves(*l).contains(b) || leaves(*r).contains(b)) by {
                let q = choose|q: int| 0 <= q < leaves(t).len() && leaves(t)[q] == b;
                if q < leaves(*l).len() {
                    assert(leaves(*l)[q] == b);
                } else {
                    assert(leaves(*r)[q - leaves(*l).len()] == b);
                }
            }
            if in_l_a == in_l_b {
                let (suba, subb) = if in_l_a {
                    (codeword_in(*l, a), codeword_in(*l, b))
                } else {
                    (codeword_in(*r, a), codeword_in(*r, b))
                };
                if in_l_a {
                    lemma_cw_prefix(*l, a, b);
                } else {
                    lemma_cw_prefix(*r, a, b);
                }
                if cwa.is_prefix_of(cwb) {
                    assert(suba.is_prefix_of(subb)) by {
                        assert(suba.len() <= subb.len());
                        assert forall|p: int| 0 <= p < suba.len() implies suba[p] == subb[p] by {
                            assert(cwa[p + 1] == cwb.subrange(0, cwa.len() as int)[p + 1]);
                        }
                        assert(suba =~= subb.subrange(0, suba.len() as int));
                    }
                }
            } else {
                // The first bits already differ.
                assert(cwa.len() >= 1 && cwb.len() >= 1);
                assert(cwa[0] != cwb[0]);
                if cwa.is_prefix_of(cwb) {
                    assert(cwa[0] == cwb.subrange(0, cwa.len() as int)[0]);
                }
            }
        },
    }
}

/// Prefix-freedom: of two distinct symbols in a built codec, neither
/// codeword is a prefix of the other.
pub proof fn lemma_prefix_free<T: Symbol>(codec: &HuffmanEncoding<T>, a: T, b: T)
    requires
        codec.wf(),
        codec.symbols().contains(a),
        codec.symbols().contains(b),
        a != b,
    ensures
        !codec.codeword(a).is_prefix_of(codec.codeword(b)),
{
    assert(codec.decode_tree is Some) by {
        if codec.decode_tree is None {
            assert(Set::<T>::empty().contains(a));
        }
    }
    let t = codec.decode_tree->Some_0;
    lemma_cw_prefix(t, a, b);
}

/// The tree is strictly binary by construction — an inner node always has
/// exactly two children — so the shape claim left to prove is about leaves:
/// they number exactly the distinct symbols, and a built tree has at least
/// one.
pub proof fn lemma_leaf_count<T: Symbol>(codec: &HuffmanEncoding<T>)
    requires
        codec.wf(),
    ensures
        codec.symbol_count() == codec.symbols().len(),
        codec.has_tree() ==> codec.symbol_count() >= 1,
{
    broadcast use vstd::set::group_set_axioms;

    match codec.decode_tree {
        None => {
            assert(codec.symbols() =~= Set::<T>::empty());
        },
        Some(t) => {
            leaves(t).unique_seq_to_set();
            lemma_leaves_nonempty(t);
        },
    }
}

/// A codec over exactly one symbol gives it the empty codeword: the tree is
/// a single leaf.
pub proof fn lemma_single_symbol<T: Symbol>(codec: &HuffmanEncoding<T>, sym: T)
    requires
        codec.wf(),
        codec.symbols().contains(sym),
        codec.symbols().len() == 1,
    ensures
        codec.codeword(sym) == Seq::<bool>::empty(),
{
    broadcast use vstd::set::group_set_axioms;

    assert(codec.decode_tree is Some) by {
        if codec.decode_tree is None {
            assert(Set::<T>::empty().contains(sym));
        }
    }
    let t = codec.decode_tree->Some_0;
    match t {
        EncodingTree::Leaf(_) => {},
        EncodingTree::Inner(l, r) => {
            lemma_leaves_nonempty(*l);
            lemma_leaves_nonempty(*r);
            leaves(t).unique_seq_to_set();
            assert(leaves(t).len() >= 2);
            assert(codec.symbols().len() >= 2);
        },
    }
}

/// Decoding zero symbols yields nothing, on any codec and any container.
pub proof fn lemma_decoded_zero<T: Symbol>(codec: &HuffmanEncoding<T>, bits: Seq<bool>)
    ensures
        codec.decoded(bits, 0) == Ok::<Seq<T>, HuffmanError>(Seq::empty()),
{
}

/// A positive count on a codec built over the empty table signals exactly
/// `EmptyTree`.
pub proof fn lemma_decoded_no_tree<T: Symbol>(
    codec: &HuffmanEncoding<T>,
    bits: Seq<bool>,
    count: nat,
)
    requires
        !codec.has_tree(),
        count > 0,
    ensures
        codec.decoded(bits, count) == Err::<Seq<T>, HuffmanError>(HuffmanError::EmptyTree),
{
}

/// With two or more symbols, a positive count from an empty container
/// signals exactly `TruncatedInput`: the very first codeword needs a bit.
pub proof fn lemma_decoded_exhausted<T: Symbol>(codec: &HuffmanEncoding<T>, count: nat)
    requires
        codec.wf(),
        codec.symbol_count() >= 2,
        count > 0,
    ensures
        codec.decoded(Seq::empty(), count) == Err::<Seq<T>, HuffmanError>(
            HuffmanError::TruncatedInput,
        ),
{
    let t = codec.decode_tree->Some_0;
    match t {
        EncodingTree::Leaf(_) => {
            assert(false);
        },
        EncodingTree::Inner(l, r) => {
            assert(walk(t, Seq::<bool>::empty(), 0) is None);
        },
    }
}

/// Walking a single-leaf tree consumes no bits and emits the leaf each time.
proof fn lemma_walk_n_leaf<T>(c: T, bits: Seq<bool>, i: int, count: nat)
    ensures
        walk_n(EncodingTree::Leaf(c), bits, i, count) == Some(Seq::new(count, |k: int| c)),
    decreases count,
{
    if count == 0 {
        assert(Seq::new(0, |k: int| c) =~= Seq::<T>::empty());
    } else {
        lemma_walk_n_leaf(c, bits, i, (count - 1) as nat);
        assert(seq![c] + Seq::new((count - 1) as nat, |k: int| c) =~= Seq::new(
            count,
            |k: int| c,
        ));
    }
}

/// A one-symbol codec decodes any count from any container: the codeword
/// is empty, so no bits are consumed and the symbol repeats.
pub proof fn lemma_decoded_single_symbol<T: Symbol>(
    codec: &HuffmanEncoding<T>,
    sym: T,
    bits: Seq<bool>,
    count: nat,
)
    requires
        codec.wf(),
        codec.symbols().contains(sym),
        codec.symbols().len() == 1,
    ensures
        codec.decoded(bits, count) == Ok::<Seq<T>, HuffmanError>(Seq::new(count, |k: int| sym)),
{
    broadcast use vstd::set::group_set_axioms;

    if count == 0 {
        assert(Seq::new(0, |k: int| sym) =~= Seq::<T>::empty());
    } else {
        assert(codec.decode_tree is Some) by {
            if codec.decode_tree is None {
                assert(Set::<T>::empty().contains(sym));
            }
        }
        let t = codec.decode_tree->Some_0;
        match t {
            EncodingTree::Leaf(c) => {
                assert(leaves(t)[0] == c);
                assert(leaves(t).contains(c));
                assert(codec.symbols().contains(c));
                assert(c == sym) by {
                    if c != sym {
                        assert(codec.symbols().remove(sym).contains(c));
                        assert(codec.symbols().remove(sym).len() == 0);
                    }
                }
                lemma_walk_n_leaf(c, bits, 0, count);
            },
            EncodingTree::Inner(l, r) => {
                lemma_leaves_nonempty(*l);
                lemma_leaves_nonempty(*r);
                leaves(t).unique_seq_to_set();
                assert(codec.symbols().len() >= 2);
            },
        }
    }
}

/// No codeword outruns the tree's height.
proof fn lemma_cw_le_height<T>(t: EncodingTree<T>, sym: T)
    requires
        leaves(t).contains(sym),
    ensures
        codeword_in(t, sym).len() <= height(t),
    decreases t,
{
    match t {
        EncodingTree::Leaf(_) => {},
        EncodingTree::Inner(l, r) => {
            if leaves(*l).contains(sym) {
                lemma_cw_le_height(*l, sym);
            } else {
                assert(leaves(*r).contains(sym)) by {
                    let q = choose|q: int| 0 <= q < leaves(t).len() && leaves(t)[q] == sym;
                    if q < leaves(*l).len() {
                        assert(leaves(*l)[q] == sym);
                    } else {
                        assert(leaves(*r)[q - leaves(*l).len()] == sym);
                    }
                }
                lemma_cw_le_height(*r, sym);
            }
        },
    }
}

/// The encoded form of a sequence of known symbols never exceeds its length
/// times the symbol count: each codeword is bounded by the tree's height,
/// which stays below the leaf count.
pub proof fn lemma_encoded_len_bound<T: Symbol>(codec: &HuffmanEncoding<T>, syms: Seq<T>)
    requires
        codec.wf(),
        forall|k: int| 0 <= k < syms.len() ==> codec.symbols().contains(#[trigger] syms[k]),
    ensures
        codec.encoded(syms).len() <= syms.len() * codec.symbol_count(),
    decreases syms.len(),
{
    broadcast use vstd::set::group_set_axioms;

    if syms.len() > 0 {
        assert(codec.symbols().contains(syms[0]));
        assert(codec.decode_tree is Some) by {
            if codec.decode_tree is None {
                assert(Set::<T>::empty().contains(syms[0]));
            }
        }
        let t = codec.decode_tree->Some_0;
        assert(leaves(t).contains(syms[0]));
        lemma_cw_le_height(t, syms[0]);
        lemma_height_below_leaves(t);
        assert(codec.codeword(syms[0]).len() <= codec.symbol_count());
        assert forall|k: int| 0 <= k < syms.drop_first().len() implies codec.symbols().contains(
            #[trigger] syms.drop_first()[k],
        ) by {
            assert(syms.drop_first()[k] == syms[k + 1]);
        }
        lemma_encoded_len_bound(codec, syms.drop_first());
        assert((syms.len() - 1) * codec.symbol_count() + codec.symbol_count() == syms.len()
            * codec.symbol_count()) by (nonlinear_arith);
    }
}

} // verus!
