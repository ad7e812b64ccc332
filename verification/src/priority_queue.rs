//! An array-backed binary max-heap. Push sifts up, pop sifts down; the view
//! is the raw array, and the heap-order property is stated over it. Because
//! the element type brings its own `PartialOrd`, every ordering claim is
//! conditional on that comparison behaving as a reliable total preorder
//! (`ord_reliable`); the multiset of stored elements is tracked
//! unconditionally.

use vstd::prelude::*;
use vstd::std_specs::cmp::PartialOrdSpec;
use crate::vec_util::{vec_replace, vec_swap};
use core::cmp::Ordering;

verus! {

/// `a` is at or below `b` in the standard comparison on `T`.
pub open spec fn ord_le<T: PartialOrd>(a: T, b: T) -> bool {
    a.partial_cmp_spec(&b) matches Some(Ordering::Less | Ordering::Equal)
}

/// The standard comparison on `T` reports what its specification says, always
/// compares two values, flips consistently, and is transitive: a total
/// preorder the verifier can rely on.
pub open spec fn ord_reliable<T: PartialOrd>() -> bool {
    &&& T::obeys_partial_cmp_spec()
    &&& forall|a: T, b: T| (#[trigger] a.partial_cmp_spec(&b)) is Some
    &&& forall|a: T, b: T|
        (#[trigger] a.partial_cmp_spec(&b)) == Some(Ordering::Less) <==> b.partial_cmp_spec(&a)
            == Some(Ordering::Greater)
    &&& forall|a: T, b: T, c: T|
        #[trigger] ord_le(a, b) && #[trigger] ord_le(b, c) ==> ord_le(a, c)
}

/// Index of the parent of heap slot `c`.
pub open spec fn parent_of(c: int) -> int {
    (c - 1) / 2
}

/// Every slot but the root is at or below its parent.
pub open spec fn heap_ordered<T: PartialOrd>(s: Seq<T>) -> bool {
    forall|c: int| 1 <= c < s.len() ==> ord_le(#[trigger] s[c], s[parent_of(c)])
}

/// Heap order holds everywhere except possibly between `hole`'s children and
/// `hole`.
spec fn heap_ordered_except_below<T: PartialOrd>(s: Seq<T>, hole: int) -> bool {
    forall|c: int|
        1 <= c < s.len() && parent_of(c) != hole ==> ord_le(#[trigger] s[c], s[parent_of(c)])
}

/// The children of `hole` are at or below `hole`'s parent.
spec fn hole_children_bounded<T: PartialOrd>(s: Seq<T>, hole: int) -> bool {
    hole > 0 ==> forall|c: int|
        1 <= c < s.len() && parent_of(c) == hole ==> ord_le(#[trigger] s[c], s[parent_of(hole)])
}

/// A comparison reporting `Less` or `Equal` one way means `ord_le` that way.
proof fn lemma_le_cases<T: PartialOrd>(a: T, b: T)
    requires
        ord_reliable::<T>(),
    ensures
        a.partial_cmp_spec(&b) matches Some(Ordering::Greater | Ordering::Equal) ==> ord_le(b, a),
        !(a.partial_cmp_spec(&b) matches Some(Ordering::Greater)) ==> ord_le(a, b),
{
    assert(a.partial_cmp_spec(&b) is Some);
    assert(b.partial_cmp_spec(&a) is Some);
    if a.partial_cmp_spec(&b) == Some(Ordering::Greater) {
        assert(b.partial_cmp_spec(&a) == Some(Ordering::Less));
    }
    if a.partial_cmp_spec(&b) == Some(Ordering::Equal) {
        if b.partial_cmp_spec(&a) == Some(Ordering::Greater) {
            assert(a.partial_cmp_spec(&b) == Some(Ordering::Less));
        }
    }
}

/// A priority-ordered container: push values, pop them highest-first.
pub trait PriorityQueue<T>: Sized {
    fn new() -> Self;

    fn is_empty(&self) -> bool;

    fn len(&self) -> usize;

    fn push(&mut self, value: T);

    fn peek(&self) -> Option<&T>;

    /// Removes and returns the highest-priority element; repeated calls
    /// consume the queue in descending priority order.
    fn next(&mut self) -> Option<T>;
}

#[derive(Clone)]
pub struct MaxHeap<T>(Vec<T>);

impl<T> View for MaxHeap<T> {
    type V = Seq<T>;

    closed spec fn view(&self) -> Seq<T> {
        self.0@
    }
}

impl<T: PartialOrd> MaxHeap<T> {
    pub fn new() -> (r: Self)
        ensures
            r@ == Seq::<T>::empty(),
    {
        MaxHeap(Vec::new())
    }

    pub fn is_empty(&self) -> (r: bool)
        ensures
            r == (self@.len() == 0),
    {
        self.0.is_empty()
    }

    pub fn len(&self) -> (r: usize)
        ensures
            r == self@.len(),
    {
        self.0.len()
    }

    pub fn peek(&self) -> (r: Option<&T>)
        ensures
            match r {
                None => self@.len() == 0,
                Some(v) => self@.len() > 0 && *v == self@[0],
            },
    {
        if self.0.is_empty() {
            None
        } else {
            Some(&self.0[0])
        }
    }

    /// Moves `self[*current_index]` to `new_index` and vice versa, leaving
    /// the cursor at `new_index`.
    fn swap_to(&mut self, current_index: &mut usize, new_index: usize)
        requires
            (*old(current_index) as int) < old(self)@.len(),
            (new_index as int) < old(self)@.len(),
        ensures
            final(self)@ == old(self)@.update(
                *old(current_index) as int,
                old(self)@[new_index as int],
            ).update(new_index as int, old(self)@[*old(current_index) as int]),
            final(self)@.to_multiset() == old(self)@.to_multiset(),
            *final(current_index) == new_index,
    {
        vec_swap(&mut self.0, *current_index, new_index);
        *current_index = new_index;
    }

    /// Appends `value` and sifts it up: the stored multiset gains `value`,
    /// and a reliably ordered heap stays heap-ordered.
    pub fn push(&mut self, value: T)
        requires
            old(self)@.len() < usize::MAX,
        ensures
            final(self)@.len() == old(self)@.len() + 1,
            final(self)@.to_multiset() == old(self)@.to_multiset().insert(value),
            ord_reliable::<T>() && heap_ordered(old(self)@) ==> heap_ordered(final(self)@),
    {
        proof {
            broadcast use vstd::seq_lib::group_to_multiset_ensures;

        }
        let ghost active = ord_reliable::<T>() && heap_ordered(old(self)@);
        let mut current_index = self.0.len();
        self.0.push(value);
        proof {
            broadcast use vstd::multiset::group_multiset_axioms;

            if active {
                assert forall|c: int|
                    1 <= c < self.0@.len() && c != current_index as int implies ord_le(
                    #[trigger] self.0@[c],
                    self.0@[parent_of(c)],
                ) by {
                    assert(self.0@[c] == old(self)@[c]);
                    assert(self.0@[parent_of(c)] == old(self)@[parent_of(c)]);
                }
                assert forall|c: int|
                    1 <= c < self.0@.len() && parent_of(c) == current_index as int implies ord_le(
                    #[trigger] self.0@[c],
                    self.0@[parent_of(current_index as int)],
                ) by {
                    vstd::arithmetic::div_mod::lemma_fundamental_div_mod(c - 1, 2);
                    assert(false);
                }
            }
        }
        while current_index != 0
            invariant_except_break
                active ==> forall|c: int|
                    1 <= c < self.0@.len() && c != current_index as int ==> ord_le(
                        #[trigger] self.0@[c],
                        self.0@[parent_of(c)],
                    ),
                active ==> hole_children_bounded(self.0@, current_index as int),
            invariant
                (current_index as int) < self.0@.len(),
                self.0@.len() == old(self)@.len() + 1,
                self.0@.to_multiset() == old(self)@.to_multiset().insert(value),
                active == (ord_reliable::<T>() && heap_ordered(old(self)@)),
            ensures
                self.0@.len() == old(self)@.len() + 1,
                self.0@.to_multiset() == old(self)@.to_multiset().insert(value),
                active ==> heap_ordered(self.0@),
            decreases current_index,
        {
            let ghost s = self.0@;
            let ghost cur = current_index as int;
            let parent_index = (current_index - 1) / 2;
            let stop = {
                let p = &self.0[parent_index];
                let c = &self.0[current_index];
                p.ge(c)
            };
            if stop {
                proof {
                    if active {
                        lemma_le_cases(s[parent_of(cur)], s[cur]);
                        assert(heap_ordered(self.0@));
                    }
                }
                break ;
            }
            proof {
                if active {
                    lemma_le_cases(s[parent_of(cur)], s[cur]);
                    assert(ord_le(s[parent_of(cur)], s[cur]));
                }
            }
            self.swap_to(&mut current_index, parent_index);
            proof {
                if active {
                    let t = self.0@;
                    let par = parent_of(cur);
                    assert forall|c: int|
                        1 <= c < t.len() && c != par implies ord_le(
                        #[trigger] t[c],
                        t[parent_of(c)],
                    ) by {
                        if c == cur {
                            assert(t[c] == s[par] && t[parent_of(c)] == s[cur]);
                        } else if parent_of(c) == par && c != cur {
                            assert(t[c] == s[c] && t[parent_of(c)] == s[cur]);
                            assert(ord_le(s[c], s[par]));
                            assert(ord_le(s[par], s[cur]));
                        } else if parent_of(c) == cur {
                            assert(t[c] == s[c] && t[parent_of(c)] == s[par]);
                            assert(ord_le(s[c], s[parent_of(cur)]));
                        } else {
                            assert(t[c] == s[c] && t[parent_of(c)] == s[parent_of(c)]);
                        }
                    }
                    assert forall|c: int|
                        par > 0 && 1 <= c < t.len() && parent_of(c) == par implies ord_le(
                        #[trigger] t[c],
                        t[parent_of(par)],
                    ) by {
                        if c == cur {
                            assert(t[c] == s[par]);
                            assert(ord_le(s[par], s[parent_of(par)]));
                        } else {
                            assert(t[c] == s[c]);
                            assert(ord_le(s[c], s[par]));
                            assert(ord_le(s[par], s[parent_of(par)]));
                        }
                    }
                }
            }
        }
    }

    /// Removes and returns the root: the popped value is the old root, the
    /// stored multiset loses one instance of it, and a reliably ordered heap
    /// stays heap-ordered.
    pub fn next(&mut self) -> (r: Option<T>)
        ensures
            match r {
                None => old(self)@.len() == 0 && final(self)@ == old(self)@,
                Some(x) => {
                    &&& old(self)@.len() > 0
                    &&& x == old(self)@[0]
                    &&& final(self)@.len() == old(self)@.len() - 1
                    &&& final(self)@.to_multiset() == old(self)@.to_multiset().remove(x)
                    &&& ord_reliable::<T>() && heap_ordered(old(self)@) ==> heap_ordered(
                        final(self)@,
                    )
                },
            },
    {
        proof {
            broadcast use vstd::seq_lib::group_to_multiset_ensures;

        }
        if self.0.is_empty() {
            return None;
        }
        let ghost active = ord_reliable::<T>() && heap_ordered(old(self)@);
        let result = self.0.swap_remove(0);
        proof {
            broadcast use vstd::multiset::group_multiset_axioms;

            let s0 = old(self)@;
            let t = self.0@;
            assert(t =~= s0.update(0, s0.last()).drop_last());
            assert(s0.update(0, s0.last()).remove(s0.len() - 1) =~= t);
            assert(t.to_multiset() =~= s0.to_multiset().remove(s0[0]));
            if active {
                assert forall|c: int|
                    1 <= c < t.len() && parent_of(c) != 0 implies ord_le(
                    #[trigger] t[c],
                    t[parent_of(c)],
                ) by {
                    assert(t[c] == s0[c] && t[parent_of(c)] == s0[parent_of(c)]);
                }
            }
        }
        let mut current_index: usize = 0;
        while current_index < self.0.len() / 2
            invariant_except_break
                active ==> heap_ordered_except_below(self.0@, current_index as int),
                active ==> hole_children_bounded(self.0@, current_index as int),
            invariant
                current_index as int <= self.0@.len(),
                self.0@.len() == old(self)@.len() - 1,
                self.0@.to_multiset() == old(self)@.to_multiset().remove(old(self)@[0]),
                active == (ord_reliable::<T>() && heap_ordered(old(self)@)),
            ensures
                self.0@.len() == old(self)@.len() - 1,
                self.0@.to_multiset() == old(self)@.to_multiset().remove(old(self)@[0]),
                active ==> heap_ordered(self.0@),
            decreases self.0@.len() - current_index,
        {
            let ghost s = self.0@;
            let ghost cur = current_index as int;
            let len = self.0.len();
            proof {
                vstd::arithmetic::div_mod::lemma_fundamental_div_mod(len as int, 2);
            }
            let left = 2 * current_index + 1;
            let right = left + 1;
            let max_child = if right < len && {
                let rc = &self.0[right];
                let lc = &self.0[left];
                rc.gt(lc)
            } {
                right
            } else {
                left
            };
            let ghost mc = max_child as int;
            proof {
                if active {
                    // The other child, where present, sits at or below the
                    // larger child.
                    if (right as int) < s.len() {
                        lemma_le_cases(s[right as int], s[left as int]);
                    }
                    assert(parent_of(left as int) == cur && parent_of(right as int) == cur) by {
                        vstd::arithmetic::div_mod::lemma_fundamental_div_mod(left as int - 1, 2);
                        vstd::arithmetic::div_mod::lemma_fundamental_div_mod(right as int - 1, 2);
                    }
                }
            }
            let stop = {
                let h = &self.0[current_index];
                let m = &self.0[max_child];
                h.ge(m)
            };
            if stop {
                proof {
                    if active {
                        lemma_le_cases(s[cur], s[mc]);
                        assert forall|c: int|
                            1 <= c < s.len() && parent_of(c) == cur implies ord_le(
                            #[trigger] s[c],
                            s[parent_of(c)],
                        ) by {
                            vstd::arithmetic::div_mod::lemma_fundamental_div_mod(c - 1, 2);
                            assert(c == left as int || c == right as int);
                            if c != mc {
                                assert(ord_le(s[c], s[mc]));
                            }
                            assert(ord_le(s[mc], s[cur]));
                        }
                        assert(heap_ordered(self.0@));
                    }
                }
                break ;
            }
            proof {
                if active {
                    lemma_le_cases(s[cur], s[mc]);
                    assert(ord_le(s[cur], s[mc]));
                }
            }
            self.swap_to(&mut current_index, max_child);
            proof {
                if active {
                    let t = self.0@;
                    assert forall|c: int|
                        1 <= c < t.len() && parent_of(c) != mc implies ord_le(
                        #[trigger] t[c],
                        t[parent_of(c)],
                    ) by {
                        vstd::arithmetic::div_mod::lemma_fundamental_div_mod(c - 1, 2);
                        if c == mc {
                            assert(t[c] == s[cur] && t[parent_of(c)] == s[mc]);
                        } else if parent_of(c) == cur && c != mc {
                            assert(c == left as int || c == right as int);
                            assert(t[c] == s[c] && t[parent_of(c)] == s[mc]);
                            assert(ord_le(s[c], s[mc]));
                        } else if c == cur {
                            assert(t[c] == s[mc] && t[parent_of(c)] == s[parent_of(c)]);
                            assert(ord_le(s[mc], s[parent_of(cur)]));
                        } else {
                            assert(t[c] == s[c] && t[parent_of(c)] == s[parent_of(c)]);
                        }
                    }
                    assert forall|c: int|
                        mc > 0 && 1 <= c < t.len() && parent_of(c) == mc implies ord_le(
                        #[trigger] t[c],
                        t[parent_of(mc)],
                    ) by {
                        vstd::arithmetic::div_mod::lemma_fundamental_div_mod(c - 1, 2);
                        assert(parent_of(mc) == cur);
                        assert(t[c] == s[c] && t[parent_of(mc)] == s[mc]);
                        assert(ord_le(s[c], s[mc]));
                    }
                }
            }
        }
        proof {
            if active && current_index as int >= self.0@.len() / 2 {
                let t = self.0@;
                assert forall|c: int| 1 <= c < t.len() implies ord_le(
                    #[trigger] t[c],
                    t[parent_of(c)],
                ) by {
                    if parent_of(c) == current_index as int {
                        assert(c >= 2 * current_index as int + 1);
                        vstd::arithmetic::div_mod::lemma_fundamental_div_mod(t.len() as int, 2);
                        assert(false);
                    }
                }
            }
        }
        Some(result)
    }
}

impl<T: PartialOrd> Default for MaxHeap<T> {
    /// The empty heap.
    fn default() -> (r: Self)
        ensures
            r@ == Seq::<T>::empty(),
    {
        MaxHeap::new()
    }
}

impl<T: PartialOrd> PriorityQueue<T> for MaxHeap<T> {
    fn new() -> Self {
        MaxHeap::new()
    }

    fn is_empty(&self) -> bool {
        MaxHeap::is_empty(self)
    }

    fn len(&self) -> usize {
        MaxHeap::len(self)
    }

    fn push(&mut self, value: T) {
        // A heap of the platform's maximum length cannot grow further; the
        // value is dropped rather than stored.
        if self.0.len() < usize::MAX {
            MaxHeap::push(self, value);
        }
    }

    fn peek(&self) -> Option<&T> {
        MaxHeap::peek(self)
    }

    fn next(&mut self) -> Option<T> {
        MaxHeap::next(self)
    }
}

/// Relies on std's `Debug` formatting for one element's text.
#[verifier::external_body]
fn debug_string<T: core::fmt::Debug>(value: &T) -> (r: String) {
    format!("{:?}", value)
}

/// Relies on std's `String::push_str`: it appends the given text.
#[verifier::external_body]
fn push_str_onto(s: &mut String, t: &str)
    ensures
        final(s)@ == old(s)@ + t@,
{
    s.push_str(t)
}

/// Relies on std's `String::push`: it appends the given character.
#[verifier::external_body]
fn push_char_onto(s: &mut String, c: char)
    ensures
        final(s)@ == old(s)@.push(c),
{
    s.push(c)
}

/// A one-character string.
fn char_string(c: char) -> (r: String)
    ensures
        r@ == Seq::<char>::empty().push(c),
{
    let mut s = String::new();
    push_char_onto(&mut s, c);
    s
}

/// `text` centred in `width` columns of spaces, the spare column on the
/// right; text at least as wide as `width` stays as it is.
fn centered(text: String, width: usize) -> String {
    let len = text.as_str().len();
    if len >= width {
        return text;
    }
    let pad = width - len;
    let left = pad / 2;
    let mut out = String::new();
    let mut k: usize = 0;
    while k < left
        invariant
            k <= left,
        decreases left - k,
    {
        push_char_onto(&mut out, ' ');
        k = k + 1;
    }
    push_str_onto(&mut out, text.as_str());
    let mut k2: usize = left;
    while k2 < pad
        invariant
            k2 <= pad,
        decreases pad - k2,
    {
        push_char_onto(&mut out, ' ');
        k2 = k2 + 1;
    }
    out
}

impl<T: core::fmt::Debug> MaxHeap<T> {
    /// Draws the subtree under `index` as text lines, each node centred
    /// over its children, down to `max_depth` levels.
    fn to_lines(&self, index: usize, max_depth: usize) -> (r: Vec<String>)
        requires
            (index as int) < self@.len(),
        ensures
            r@.len() >= 1,
        decreases max_depth,
    {
        if max_depth == 0 {
            let mut ellipsis = String::new();
            push_str_onto(&mut ellipsis, "...");
            let mut v: Vec<String> = Vec::new();
            v.push(ellipsis);
            return v;
        }
        let n = self.0.len();
        proof {
            vstd::arithmetic::div_mod::lemma_fundamental_div_mod(n as int, 2);
        }
        if index >= n / 2 {
            let mut v: Vec<String> = Vec::new();
            v.push(debug_string(&self.0[index]));
            return v;
        }
        let left_child_index = 2 * index + 1;
        let mut lines: Vec<String> = Vec::new();
        lines.push(String::new());
        lines.push(String::new());
        let mut left_lines = self.to_lines(left_child_index, max_depth - 1);
        lines.append(&mut left_lines);
        let width_below = lines[2].as_str().len();
        let slash = centered(char_string('/'), width_below);
        vec_replace(&mut lines, 1, slash);
        let right_child_index = left_child_index + 1;
        if right_child_index < n {
            let right_lines = self.to_lines(right_child_index, max_depth - 1);
            let right_width = right_lines[0].as_str().len();
            let mut addition = String::new();
            push_char_onto(&mut addition, ' ');
            let backslash = centered(char_string('\\'), right_width);
            push_str_onto(&mut addition, backslash.as_str());
            push_str_onto(&mut lines[1], addition.as_str());
            let body_lines = lines.len() - 2;
            let limit = if body_lines < right_lines.len() {
                body_lines
            } else {
                right_lines.len()
            };
            let ghost total = lines@.len();
            let mut k: usize = 0;
            while k < limit
                invariant
                    k <= limit,
                    lines@.len() == total,
                    total <= usize::MAX,
                    limit + 2 <= total,
                    limit <= right_lines@.len(),
                decreases limit - k,
            {
                push_char_onto(&mut lines[2 + k], ' ');
                push_str_onto(&mut lines[2 + k], right_lines[k].as_str());
                k = k + 1;
            }
        }
        let width_mid = lines[1].as_str().len();
        let top = centered(debug_string(&self.0[index]), width_mid);
        vec_replace(&mut lines, 0, top);
        lines
    }

    /// The heap drawn as a tree, nodes centred over their children, five
    /// levels at most; an empty heap reads `(empty)`.
    pub fn to_tree_string(&self) -> (r: String)
        ensures
            self@.len() == 0 ==> r@ == "(empty)"@,
    {
        let mut out = String::new();
        if self.0.len() == 0 {
            push_str_onto(&mut out, "(empty)");
            proof {
                assert(out@ =~= "(empty)"@);
            }
            return out;
        }
        let lines = self.to_lines(0, 5);
        let mut i: usize = 0;
        while i < lines.len()
            invariant
                i <= lines@.len(),
            decreases lines@.len() - i,
        {
            if i > 0 {
                push_char_onto(&mut out, '\n');
            }
            push_str_onto(&mut out, lines[i].as_str());
            i = i + 1;
        }
        out
    }
}

/// In a reliably ordered heap, the root is a maximum: every stored value is
/// at or below it.
pub proof fn lemma_root_is_max<T: PartialOrd>(s: Seq<T>, i: int)
    requires
        ord_reliable::<T>(),
        heap_ordered(s),
        0 <= i < s.len(),
    ensures
        ord_le(s[i], s[0]),
    decreases i,
{
    if i == 0 {
        lemma_ord_refl(s[0]);
    } else {
        assert(ord_le(s[i], s[parent_of(i)]));
        lemma_root_is_max(s, parent_of(i));
    }
}

/// Every value is at or below itself under a reliable comparison.
proof fn lemma_ord_refl<T: PartialOrd>(x: T)
    requires
        ord_reliable::<T>(),
    ensures
        ord_le(x, x),
{
    assert(x.partial_cmp_spec(&x) is Some);
    if x.partial_cmp_spec(&x) == Some(Ordering::Greater) {
        assert(x.partial_cmp_spec(&x) == Some(Ordering::Less));
    }
}

/// Popped values are non-increasing: when one pop removes the root of
/// `before` and the heap then reads `after`, the next pop returns a value at
/// or below the previous one.
pub proof fn lemma_pops_non_increasing<T: PartialOrd>(before: Seq<T>, after: Seq<T>)
    requires
        ord_reliable::<T>(),
        heap_ordered(before),
        before.len() > 0,
        heap_ordered(after),
        after.len() > 0,
        after.to_multiset() == before.to_multiset().remove(before[0]),
    ensures
        ord_le(after[0], before[0]),
{
    broadcast use vstd::seq_lib::group_to_multiset_ensures;

    assert(after.contains(after[0]));
    assert(after.to_multiset().count(after[0]) > 0);
    assert(before.to_multiset().count(after[0]) > 0);
    assert(before.contains(after[0]));
    let i = choose|i: int| 0 <= i < before.len() && before[i] == after[0];
    lemma_root_is_max(before, i);
}

} // verus!
