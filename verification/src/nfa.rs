//! Regular expressions compiled to nondeterministic finite automata. A
//! `Regex` is lowered into a flat arena of nodes, each with at most one
//! labelled transition and any number of epsilon transitions; `accepts` runs
//! the automaton over a string, tracking the live node set in a `NodeSet`
//! backed by the packed bit container.
//!
//! The epsilon-free constructors — the empty expression, the dot, character
//! and string literals — compile to chains, and for those the contracts pin
//! acceptance exactly: `accepts` returns whether the input satisfies the
//! chain's pattern position by position. The epsilon-based combinators
//! (concatenation, union, repetition) carry structural contracts only;
//! their language semantics is exercised by the test suite.

use vstd::prelude::*;
use vstd::std_specs::iter::IteratorSpec;
use crate::bit_vector::BitVector;

verus! {

/// The characters of `s`, in order.
fn chars_vec(s: &str) -> (r: Vec<char>)
    ensures
        r@ == s@,
{
    proof {
        broadcast use vstd::string::axiom_spec_iter;

    }
    let mut r: Vec<char> = Vec::new();
    let mut it = s.chars();
    loop
        invariant_except_break
            r@ + it.remaining() == s@,
            it.decrease() is Some,
        ensures
            r@ == s@,
        decreases it.decrease()->Some_0,
    {
        let c = it.next();
        proof {
            broadcast use vstd::string::next_postcondition;

        }
        match c {
            Some(ch) => {
                r.push(ch);
                proof {
                    assert(r@ + it.remaining() =~= s@);
                }
            },
            None => {
                proof {
                    assert(r@ + it.remaining() =~= r@);
                }
                break ;
            },
        }
    }
    r
}

/// What a node does with one input character: accept nothing, any
/// character, or exactly one.
enum NodeType {
    Terminal,
    All { next: usize },
    Exact { c: char, next: usize },
}

impl NodeType {
    /// The labelled transition's target valid in an arena of `size` nodes.
    spec fn targets_ok(&self, size: nat) -> bool {
        match *self {
            NodeType::Terminal => true,
            NodeType::All { next } => next < size,
            NodeType::Exact { c, next } => next < size,
        }
    }

    /// Where `match_char` leads from this node, if anywhere.
    fn get_transition(&self, match_char: char) -> (r: Option<usize>)
        ensures
            r == match *self {
                NodeType::Terminal => None::<usize>,
                NodeType::All { next } => Some(next),
                NodeType::Exact { c, next } => if match_char == c {
                    Some(next)
                } else {
                    None::<usize>
                },
            },
    {
        match self {
            NodeType::Terminal => None,
            NodeType::All { next } => Some(*next),
            NodeType::Exact { c, next } => if match_char == *c {
                Some(*next)
            } else {
                None
            },
        }
    }
}

struct Node {
    node: NodeType,
    epsilon_transitions: Vec<usize>,
}

impl Node {
    /// Every transition target is valid in an arena of `size` nodes.
    spec fn wf(&self, size: nat) -> bool {
        &&& self.node.targets_ok(size)
        &&& forall|j: int|
            0 <= j < self.epsilon_transitions@.len() ==> (#[trigger] self.epsilon_transitions@[j])
                < size
    }
}

/// Every node's targets stay inside the arena.
spec fn nodes_wf(s: Seq<Node>) -> bool {
    forall|i: int| 0 <= i < s.len() ==> (#[trigger] s[i]).wf(s.len())
}

struct DistinguishedNodes {
    start: usize,
    accept: usize,
}

/// One position of a chain pattern: any character, or exactly one.
pub enum Matcher {
    Any,
    Exactly(char),
}

/// Whether one character satisfies one pattern position.
pub open spec fn matcher_admits(m: Matcher, c: char) -> bool {
    match m {
        Matcher::Any => true,
        Matcher::Exactly(d) => c == d,
    }
}

/// Whether `s` satisfies `pattern` position by position, at equal length.
pub open spec fn chain_matches(pattern: Seq<Matcher>, s: Seq<char>) -> bool {
    s.len() == pattern.len() && forall|k: int|
        0 <= k < s.len() ==> matcher_admits(#[trigger] pattern[k], s[k])
}

/// The pattern position demanding exactly `c`.
pub open spec fn mk_exactly(c: char) -> Matcher {
    Matcher::Exactly(c)
}

/// One exact-match position per character.
pub open spec fn exact_pattern(s: Seq<char>) -> Seq<Matcher>
    decreases s.len(),
{
    if s.len() == 0 {
        Seq::empty()
    } else {
        exact_pattern(s.drop_last()).push(mk_exactly(s.last()))
    }
}

/// The exact pattern of `s` demands, position by position, the characters
/// of `s`.
pub proof fn lemma_exact_pattern(s: Seq<char>)
    ensures
        exact_pattern(s).len() == s.len(),
        forall|k: int| 0 <= k < s.len() ==> exact_pattern(s)[k] == Matcher::Exactly(s[k]),
    decreases s.len(),
{
    if s.len() > 0 {
        lemma_exact_pattern(s.drop_last());
        let front = exact_pattern(s.drop_last());
        assert(exact_pattern(s) == front.push(mk_exactly(s.last())));
        assert forall|k: int| 0 <= k < s.len() implies exact_pattern(s)[k] == Matcher::Exactly(
            s[k],
        ) by {
            if k < s.len() - 1 {
                assert(front.push(mk_exactly(s.last()))[k] == front[k]);
                assert(s.drop_last()[k] == s[k]);
            } else {
                assert(front.push(mk_exactly(s.last()))[k] == mk_exactly(s.last()));
            }
        }
    }
}

/// The arena is one epsilon-free chain for `pattern`: node zero accepts,
/// and the node for position `k` consumes one admissible character and
/// steps down.
spec fn chain_arena(nodes: Seq<Node>, pattern: Seq<Matcher>) -> bool {
    &&& nodes.len() == pattern.len() + 1
    &&& forall|j: int|
        0 <= j < nodes.len() ==> (#[trigger] nodes[j]).epsilon_transitions@.len() == 0
    &&& nodes[0].node is Terminal
    &&& forall|k: int|
        0 <= k < pattern.len() ==> nodes[pattern.len() - k].node == (match (
        #[trigger] pattern[k]) {
            Matcher::Any => NodeType::All { next: (pattern.len() - k - 1) as usize },
            Matcher::Exactly(d) => NodeType::Exact {
                c: d,
                next: (pattern.len() - k - 1) as usize,
            },
        })
}

/// A set of node indices below a fixed bound, with constant-time membership
/// through a bit map and iteration through an insertion-ordered list.
struct NodeSet {
    values: Vec<usize>,
    present: BitVector,
}

impl NodeSet {
    /// The list and the bit map agree, and all members are in range.
    spec fn wf(&self) -> bool {
        &&& self.values@.no_duplicates()
        &&& forall|j: int|
            0 <= j < self.values@.len() ==> (#[trigger] self.values@[j]) < self.present@.len()
        &&& forall|i: int|
            0 <= i < self.present@.len() ==> ((#[trigger] self.present@[i])
                <==> self.values@.contains(i as usize))
    }

    /// How many indices the set can hold.
    spec fn size(&self) -> nat {
        self.present@.len()
    }

    /// The members, in insertion order.
    spec fn members(&self) -> Seq<usize> {
        self.values@
    }

    fn new(size: usize) -> (r: NodeSet)
        ensures
            r.wf(),
            r.size() == size,
            r.members() == Seq::<usize>::empty(),
    {
        let mut present = BitVector::with_capacity(size);
        let mut k: usize = 0;
        while k < size
            invariant
                k <= size,
                present@.len() == k,
                forall|i: int| 0 <= i < k ==> !(#[trigger] present@[i]),
            decreases size - k,
        {
            present.push(false);
            k = k + 1;
        }
        NodeSet { values: Vec::new(), present }
    }

    fn contains(&self, index: usize) -> (r: bool)
        requires
            self.wf(),
            index < self.size(),
        ensures
            r == self.members().contains(index),
    {
        self.present.get(index).unwrap()
    }

    /// Adds `index`, reporting whether it was already present.
    fn insert(&mut self, index: usize) -> (r: bool)
        requires
            old(self).wf(),
            index < old(self).size(),
        ensures
            final(self).wf(),
            final(self).size() == old(self).size(),
            r == old(self).members().contains(index),
            final(self).members() == if r {
                old(self).members()
            } else {
                old(self).members().push(index)
            },
    {
        let contains = self.contains(index);
        if !contains {
            let ghost pre = *self;
            self.values.push(index);
            self.present.set(index, true).unwrap();
            proof {
                self.present.lemma_len_fits();
                assert forall|p: int, q: int|
                    0 <= p < q < self.values@.len() implies self.values@[p] != self.values@[q] by {
                    if q == self.values@.len() - 1 {
                        assert(pre.values@[p] == self.values@[p]);
                        if self.values@[p] == index {
                            assert(pre.values@.contains(index));
                        }
                    }
                }
                assert forall|i: int|
                    0 <= i < self.present@.len() implies ((#[trigger] self.present@[i])
                    <==> self.values@.contains(i as usize)) by {
                    if i == index {
                        assert(self.values@[self.values@.len() - 1] == index);
                        assert(self.values@.contains(index));
                    } else {
                        if pre.values@.contains(i as usize) {
                            let j = choose|j: int|
                                0 <= j < pre.values@.len() && pre.values@[j] == i as usize;
                            assert(self.values@[j] == i as usize);
                        }
                        if self.values@.contains(i as usize) {
                            let j = choose|j: int|
                                0 <= j < self.values@.len() && self.values@[j] == i as usize;
                            if j == self.values@.len() - 1 {
                                assert(self.values@[j] == index);
                                assert(index as int == i);
                            }
                            assert(j < pre.values@.len());
                            assert(pre.values@.contains(i as usize));
                        }
                    }
                }
            }
        }
        contains
    }

    fn is_empty(&self) -> (r: bool)
        ensures
            r == (self.members().len() == 0),
    {
        self.values.is_empty()
    }
}

/// A sequence of distinct indices below `size` has at most `size` entries.
proof fn lemma_bounded_distinct_len(s: Seq<usize>, size: nat)
    requires
        s.no_duplicates(),
        forall|j: int| 0 <= j < s.len() ==> (#[trigger] s[j]) < size,
    ensures
        s.len() <= size,
{
    broadcast use vstd::set::group_set_axioms;

    let ints = s.map_values(|v: usize| v as int);
    assert(ints.no_duplicates()) by {
        assert forall|p: int, q: int| 0 <= p < q < ints.len() implies ints[p] != ints[q] by {
            assert(s[p] != s[q]);
        }
    }
    ints.unique_seq_to_set();
    let range = vstd::set_lib::set_int_range(0, size as int);
    vstd::set_lib::lemma_int_range(0, size as int);
    assert(ints.to_set().subset_of(range)) by {
        assert forall|x: int| ints.to_set().contains(x) implies range.contains(x) by {
            assert(ints.contains(x));
            let j = choose|j: int| 0 <= j < ints.len() && ints[j] == x;
            assert(s[j] < size);
        }
    }
    vstd::set_lib::lemma_len_subset(ints.to_set(), range);
}

/// A compiled automaton: a node arena and its start and accept nodes.
pub struct NFA {
    nodes: Vec<Node>,
    distinguished_nodes: DistinguishedNodes,
}

impl NFA {
    /// Every transition target, and both distinguished nodes, stay inside
    /// the arena.
    pub closed spec fn wf(&self) -> bool {
        &&& nodes_wf(self.nodes@)
        &&& self.distinguished_nodes.start < self.nodes@.len()
        &&& self.distinguished_nodes.accept < self.nodes@.len()
    }

    /// The arena is one epsilon-free chain recognizing exactly the strings
    /// that satisfy `pattern`: the walk starts at the far end, consumes one
    /// character per node, and accepts at node zero.
    pub closed spec fn is_chain(&self, pattern: Seq<Matcher>) -> bool {
        &&& chain_arena(self.nodes@, pattern)
        &&& self.distinguished_nodes.start == pattern.len()
        &&& self.distinguished_nodes.accept == 0
    }

    /// Inserts `start` into the set and, when it is new, every node its
    /// epsilon transitions reach.
    fn add_reachable(&self, nodes: &mut NodeSet, start: usize)
        requires
            self.wf(),
            old(nodes).wf(),
            old(nodes).size() == self.nodes@.len(),
            start < self.nodes@.len(),
        ensures
            final(nodes).wf(),
            final(nodes).size() == old(nodes).size(),
            final(nodes).members().len() >= old(nodes).members().len(),
            self.nodes@[start as int].epsilon_transitions@.len() == 0 ==> final(nodes).members()
                == if old(nodes).members().contains(start) {
                old(nodes).members()
            } else {
                old(nodes).members().push(start)
            },
        decreases self.nodes@.len() - nodes.members().len(),
    {
        proof {
            lemma_bounded_distinct_len(nodes.members(), self.nodes@.len());
        }
        let already = nodes.insert(start);
        if !already {
            let eps_len = self.nodes[start].epsilon_transitions.len();
            let mut k: usize = 0;
            while k < eps_len
                invariant
                    self.wf(),
                    start < self.nodes@.len(),
                    eps_len == self.nodes@[start as int].epsilon_transitions@.len(),
                    k <= eps_len,
                    nodes.wf(),
                    nodes.size() == self.nodes@.len(),
                    nodes.members().len() >= old(nodes).members().len() + 1,
                    eps_len == 0 ==> nodes.members() == old(nodes).members().push(start),
                decreases eps_len - k,
            {
                let target = self.nodes[start].epsilon_transitions[k];
                proof {
                    assert(self.nodes@[start as int].wf(self.nodes@.len()));
                    lemma_bounded_distinct_len(nodes.members(), self.nodes@.len());
                }
                self.add_reachable(nodes, target);
                k = k + 1;
            }
        }
    }

    /// Runs the automaton over `s`: from the epsilon closure of the start
    /// node, each character moves the live set through its labelled
    /// transitions and their epsilon closures; the string is accepted when
    /// the accept node is live at the end. On a chain automaton (what the
    /// epsilon-free constructors compile to), acceptance is exactly the
    /// chain's pattern match.
    pub fn accepts(&self, s: &str) -> (r: bool)
        requires
            self.wf(),
        ensures
            forall|pattern: Seq<Matcher>|
                #[trigger] self.is_chain(pattern) ==> (r <==> chain_matches(pattern, s@)),
    {
        let n = self.nodes.len();
        let mut current_nodes = NodeSet::new(n);
        let start = self.distinguished_nodes.start;
        let accept = self.distinguished_nodes.accept;
        self.add_reachable(&mut current_nodes, start);
        proof {
            assert forall|pattern: Seq<Matcher>| #[trigger] self.is_chain(pattern) implies {
                &&& current_nodes.members() == seq![(pattern.len()) as usize]
            } by {
                assert(self.nodes@[start as int].epsilon_transitions@.len() == 0);
                assert(current_nodes.members() =~= seq![start]);
            }
        }
        let cs = chars_vec(s);
        let mut ci: usize = 0;
        while ci < cs.len()
            invariant
                self.wf(),
                n == self.nodes@.len(),
                accept == self.distinguished_nodes.accept,
                cs@ == s@,
                ci <= cs@.len(),
                current_nodes.wf(),
                current_nodes.size() == n,
                forall|pattern: Seq<Matcher>|
                    #[trigger] self.is_chain(pattern) ==> {
                        &&& ci <= pattern.len()
                        &&& current_nodes.members() == seq![(pattern.len() - ci) as usize]
                        &&& forall|p: int|
                            0 <= p < ci ==> matcher_admits(#[trigger] pattern[p], s@[p])
                    },
            decreases cs@.len() - ci,
        {
            let c = cs[ci];
            let mut next_nodes = NodeSet::new(n);
            let mut k: usize = 0;
            while k < current_nodes.values.len()
                invariant
                    self.wf(),
                    n == self.nodes@.len(),
                    cs@ == s@,
                    ci < cs@.len(),
                    c == cs@[ci as int],
                    k <= current_nodes.members().len(),
                    current_nodes.wf(),
                    current_nodes.size() == n,
                    next_nodes.wf(),
                    next_nodes.size() == n,
                    forall|pattern: Seq<Matcher>|
                        #[trigger] self.is_chain(pattern) ==> {
                            &&& ci <= pattern.len()
                            &&& current_nodes.members() == seq![(pattern.len() - ci) as usize]
                            &&& forall|p: int|
                                0 <= p < ci ==> matcher_admits(#[trigger] pattern[p], s@[p])
                            &&& (k == 0 ==> next_nodes.members() == Seq::<usize>::empty())
                            &&& (k == 1 ==> next_nodes.members() == (if ci < pattern.len()
                                && matcher_admits(pattern[ci as int], s@[ci as int]) {
                                seq![(pattern.len() - ci - 1) as usize]
                            } else {
                                Seq::<usize>::empty()
                            }))
                        },
                decreases current_nodes.members().len() - k,
            {
                let node = current_nodes.values[k];
                let ghost pre_next = next_nodes;
                match self.nodes[node].node.get_transition(c) {
                    Some(next_node) => {
                        proof {
                            assert(self.nodes@[node as int].wf(self.nodes@.len()));
                        }
                        self.add_reachable(&mut next_nodes, next_node);
                        proof {
                            assert forall|pattern: Seq<Matcher>|
                                #[trigger] self.is_chain(pattern) implies next_nodes.members()
                                == seq![(pattern.len() - ci - 1) as usize] && ci < pattern.len()
                                && matcher_admits(pattern[ci as int], s@[ci as int]) by {
                                assert(node == (pattern.len() - ci) as usize);
                                if ci == pattern.len() {
                                    assert(self.nodes@[0].node is Terminal);
                                    assert(false);
                                }
                                assert(self.nodes@[node as int].node == (match pattern[ci as int] {
                                    Matcher::Any => NodeType::All {
                                        next: (pattern.len() - ci - 1) as usize,
                                    },
                                    Matcher::Exactly(d) => NodeType::Exact {
                                        c: d,
                                        next: (pattern.len() - ci - 1) as usize,
                                    },
                                }));
                                assert(next_node == (pattern.len() - ci - 1) as usize);
                                assert(self.nodes@[next_node as int].epsilon_transitions@.len()
                                    == 0);
                                assert(pre_next.members() =~= Seq::<usize>::empty());
                                assert(next_nodes.members() =~= seq![next_node]);
                            }
                        }
                    },
                    None => {
                        proof {
                            assert forall|pattern: Seq<Matcher>|
                                #[trigger] self.is_chain(pattern) implies !(ci < pattern.len()
                                && matcher_admits(pattern[ci as int], s@[ci as int])) by {
                                assert(node == (pattern.len() - ci) as usize);
                                if ci < pattern.len() && matcher_admits(
                                    pattern[ci as int],
                                    s@[ci as int],
                                ) {
                                    assert(self.nodes@[node as int].node == (match pattern[ci as int] {
                                        Matcher::Any => NodeType::All {
                                            next: (pattern.len() - ci - 1) as usize,
                                        },
                                        Matcher::Exactly(d) => NodeType::Exact {
                                            c: d,
                                            next: (pattern.len() - ci - 1) as usize,
                                        },
                                    }));
                                    assert(false);
                                }
                            }
                        }
                    },
                }
                k = k + 1;
            }
            if next_nodes.is_empty() {
                proof {
                    assert forall|pattern: Seq<Matcher>|
                        #[trigger] self.is_chain(pattern) implies !chain_matches(
                        pattern,
                        s@,
                    ) by {
                        assert(current_nodes.members().len() == 1);
                        if ci < pattern.len() && matcher_admits(pattern[ci as int], s@[ci as int]) {
                            assert(next_nodes.members().len() == 1);
                        }
                        if chain_matches(pattern, s@) {
                            assert(s@.len() == pattern.len());
                            assert(ci < pattern.len());
                            assert(matcher_admits(pattern[ci as int], s@[ci as int]));
                        }
                    }
                }
                return false;
            }
            proof {
                assert forall|pattern: Seq<Matcher>| #[trigger] self.is_chain(pattern) implies {
                    &&& ci + 1 <= pattern.len()
                    &&& next_nodes.members() == seq![(pattern.len() - (ci + 1)) as usize]
                    &&& forall|p: int|
                        0 <= p < ci + 1 ==> matcher_admits(#[trigger] pattern[p], s@[p])
                } by {
                    assert(current_nodes.members().len() == 1);
                    assert(ci < pattern.len() && matcher_admits(pattern[ci as int], s@[ci as int]))
                        by {
                        if !(ci < pattern.len() && matcher_admits(
                            pattern[ci as int],
                            s@[ci as int],
                        )) {
                            assert(next_nodes.members() == Seq::<usize>::empty());
                        }
                    }
                }
            }
            current_nodes = next_nodes;
            ci = ci + 1;
        }
        let verdict = current_nodes.contains(accept);
        proof {
            assert forall|pattern: Seq<Matcher>| #[trigger] self.is_chain(pattern) implies (verdict
                <==> chain_matches(pattern, s@)) by {
                let live = (pattern.len() - ci) as usize;
                assert(current_nodes.members() == seq![live]);
                assert(current_nodes.members()[0] == live);
                if verdict {
                    let w = choose|w: int|
                        0 <= w < current_nodes.members().len() && current_nodes.members()[w]
                            == accept;
                    assert(live == 0);
                    assert(pattern.len() == ci);
                } else {
                    if chain_matches(pattern, s@) {
                        assert(pattern.len() == s@.len());
                        assert(live == 0);
                        assert(current_nodes.members().contains(accept));
                    }
                }
            }
        }
        verdict
    }
}

/// Appends a node with no epsilon transitions, returning its index.
fn add_node(nodes: &mut Vec<Node>, node: NodeType) -> (r: usize)
    requires
        nodes_wf(old(nodes)@),
        node.targets_ok(old(nodes)@.len() + 1),
    ensures
        nodes_wf(final(nodes)@),
        final(nodes)@.len() == old(nodes)@.len() + 1,
        r == old(nodes)@.len(),
        forall|i: int| 0 <= i < old(nodes)@.len() ==> final(nodes)@[i] == old(nodes)@[i],
        final(nodes)@[old(nodes)@.len() as int].node == node,
        final(nodes)@[old(nodes)@.len() as int].epsilon_transitions@.len() == 0,
{
    let index = nodes.len();
    nodes.push(Node { node, epsilon_transitions: Vec::new() });
    proof {
        assert forall|i: int| 0 <= i < nodes@.len() implies (#[trigger] nodes@[i]).wf(
            nodes@.len(),
        ) by {
            if i < nodes@.len() - 1 {
                assert(old(nodes)@[i].wf(old(nodes)@.len()));
            }
        }
    }
    index
}

/// Adds one epsilon transition from `at` to `target`.
fn push_epsilon(nodes: &mut Vec<Node>, at: usize, target: usize)
    requires
        nodes_wf(old(nodes)@),
        at < old(nodes)@.len(),
        target < old(nodes)@.len(),
    ensures
        nodes_wf(final(nodes)@),
        final(nodes)@.len() == old(nodes)@.len(),
{
    let mut tmp = Node { node: NodeType::Terminal, epsilon_transitions: Vec::new() };
    core::mem::swap(&mut tmp, &mut nodes[at]);
    proof {
        assert(old(nodes)@[at as int].wf(old(nodes)@.len()));
    }
    tmp.epsilon_transitions.push(target);
    core::mem::swap(&mut tmp, &mut nodes[at]);
    proof {
        assert forall|i: int| 0 <= i < nodes@.len() implies (#[trigger] nodes@[i]).wf(
            nodes@.len(),
        ) by {
            if i != at {
                assert(nodes@[i] == old(nodes)@[i]);
                assert(old(nodes)@[i].wf(old(nodes)@.len()));
            }
        }
    }
}

/// The regular expressions this automaton builder understands.
pub enum Regex {
    Empty,
    Dot,
    CharLiteral(char),
    StrLiteral(String),
    Concat(Vec<Regex>),
    Union(Vec<Regex>),
    OnePlus(Box<Regex>),
    Optional(Box<Regex>),
    Star(Box<Regex>),
}

impl Regex {
    /// Lowers this expression into the arena, returning its start and
    /// accept nodes.
    fn add_fa(&self, nodes: &mut Vec<Node>) -> (r: DistinguishedNodes)
        requires
            nodes_wf(old(nodes)@),
        ensures
            nodes_wf(final(nodes)@),
            final(nodes)@.len() >= old(nodes)@.len(),
            r.start < final(nodes)@.len(),
            r.accept < final(nodes)@.len(),
            old(nodes)@.len() == 0 ==> match *self {
                Regex::Empty => chain_arena(final(nodes)@, Seq::<Matcher>::empty()) && r.start == 0
                    && r.accept == 0,
                Regex::Dot => chain_arena(final(nodes)@, seq![Matcher::Any]) && r.start == 1
                    && r.accept == 0,
                Regex::CharLiteral(c) => chain_arena(final(nodes)@, seq![Matcher::Exactly(c)])
                    && r.start == 1 && r.accept == 0,
                Regex::StrLiteral(s) => chain_arena(final(nodes)@, exact_pattern(s@)) && r.start
                    == s@.len() && r.accept == 0,
                _ => true,
            },
        decreases *self,
    {
        match self {
            Regex::Empty => {
                // One terminal node that is both start and accept: only the
                // empty string is accepted.
                let accept = add_node(nodes, NodeType::Terminal);
                DistinguishedNodes { start: accept, accept }
            },
            Regex::Dot => {
                let accept = add_node(nodes, NodeType::Terminal);
                let start = add_node(nodes, NodeType::All { next: accept });
                DistinguishedNodes { start, accept }
            },
            Regex::CharLiteral(c) => {
                let accept = add_node(nodes, NodeType::Terminal);
                let start = add_node(nodes, NodeType::Exact { c: *c, next: accept });
                DistinguishedNodes { start, accept }
            },
            Regex::StrLiteral(s) => {
                let accept = add_node(nodes, NodeType::Terminal);
                let cs = chars_vec(s.as_str());
                let mut next_node = accept;
                let mut idx = cs.len();
                while idx > 0
                    invariant
                        idx <= cs@.len(),
                        cs@ == s@,
                        nodes_wf(nodes@),
                        next_node < nodes@.len(),
                        accept < nodes@.len(),
                        old(nodes)@.len() == 0 ==> {
                            &&& nodes@.len() == cs@.len() - idx + 1
                            &&& accept == 0
                            &&& next_node as int == nodes@.len() - 1
                            &&& nodes@[0].node is Terminal
                            &&& forall|j: int|
                                0 <= j < nodes@.len() ==> (
                                #[trigger] nodes@[j]).epsilon_transitions@.len() == 0
                            &&& forall|j: int|
                                1 <= j < nodes@.len() ==> (#[trigger] nodes@[j]).node
                                    == NodeType::Exact {
                                    c: cs@[cs@.len() - j],
                                    next: (j - 1) as usize,
                                }
                        },
                    decreases idx,
                {
                    idx = idx - 1;
                    next_node = add_node(nodes, NodeType::Exact { c: cs[idx], next: next_node });
                }
                proof {
                    if old(nodes)@.len() == 0 {
                        let pattern = exact_pattern(s@);
                        lemma_exact_pattern(s@);
                        assert(pattern.len() == s@.len());
                        assert(cs@.len() == s@.len());
                        assert forall|k: int|
                            0 <= k < pattern.len() implies nodes@[pattern.len() - k].node == (
                        match (#[trigger] pattern[k]) {
                            Matcher::Any => NodeType::All {
                                next: (pattern.len() - k - 1) as usize,
                            },
                            Matcher::Exactly(d) => NodeType::Exact {
                                c: d,
                                next: (pattern.len() - k - 1) as usize,
                            },
                        }) by {
                            let j = pattern.len() - k;
                            assert(1 <= j < nodes@.len());
                            assert(nodes@[j].node == NodeType::Exact {
                                c: cs@[cs@.len() - j],
                                next: (j - 1) as usize,
                            });
                            assert(cs@.len() - j == k);
                            assert(cs@[k] == s@[k]);
                            assert(pattern[k] == Matcher::Exactly(s@[k]));
                        }
                        assert(chain_arena(nodes@, pattern));
                    }
                }
                DistinguishedNodes { start: next_node, accept }
            },
            Regex::Concat(exps) => {
                let accept = add_node(nodes, NodeType::Terminal);
                let mut next_node = accept;
                let mut idx = exps.len();
                while idx > 0
                    invariant
                        idx <= exps@.len(),
                        nodes_wf(nodes@),
                        next_node < nodes@.len(),
                        accept < nodes@.len(),
                        *self == Regex::Concat(*exps),
                    decreases idx,
                {
                    idx = idx - 1;
                    proof {
                        broadcast use vstd::std_specs::vec::group_vec_axioms;

                        assert(self->Concat_0 == *exps);
                        assert(decreases_to!(*self => self->Concat_0));
                        assert(decreases_to!(*exps => exps@[idx as int]));
                        assert(decreases_to!(*self => exps@[idx as int]));
                    }
                    let dn = exps[idx].add_fa(nodes);
                    push_epsilon(nodes, dn.accept, next_node);
                    next_node = dn.start;
                }
                DistinguishedNodes { start: next_node, accept }
            },
            Regex::Union(exps) => {
                let start = add_node(nodes, NodeType::Terminal);
                let accept = add_node(nodes, NodeType::Terminal);
                let mut idx: usize = 0;
                while idx < exps.len()
                    invariant
                        idx <= exps@.len(),
                        nodes_wf(nodes@),
                        start < nodes@.len(),
                        accept < nodes@.len(),
                        *self == Regex::Union(*exps),
                    decreases exps@.len() - idx,
                {
                    proof {
                        broadcast use vstd::std_specs::vec::group_vec_axioms;

                        assert(self->Union_0 == *exps);
                        assert(decreases_to!(*self => self->Union_0));
                        assert(decreases_to!(*exps => exps@[idx as int]));
                        assert(decreases_to!(*self => exps@[idx as int]));
                    }
                    let dn = exps[idx].add_fa(nodes);
                    push_epsilon(nodes, start, dn.start);
                    push_epsilon(nodes, dn.accept, accept);
                    idx = idx + 1;
                }
                DistinguishedNodes { start, accept }
            },
            Regex::OnePlus(exp) => {
                let dn = exp.add_fa(nodes);
                push_epsilon(nodes, dn.accept, dn.start);
                dn
            },
            Regex::Optional(exp) => {
                let dn = exp.add_fa(nodes);
                push_epsilon(nodes, dn.start, dn.accept);
                dn
            },
            Regex::Star(exp) => {
                let dn = exp.add_fa(nodes);
                push_epsilon(nodes, dn.start, dn.accept);
                push_epsilon(nodes, dn.accept, dn.start);
                dn
            },
        }
    }

    /// Compiles this expression into an automaton. The epsilon-free
    /// constructors compile to chains, so their acceptance is pinned: the
    /// empty expression matches only the empty string, a dot any one
    /// character, a character literal exactly itself, and a string literal
    /// exactly its characters.
    pub fn make_fa(&self) -> (r: NFA)
        ensures
            r.wf(),
            match *self {
                Regex::Empty => r.is_chain(Seq::<Matcher>::empty()),
                Regex::Dot => r.is_chain(seq![Matcher::Any]),
                Regex::CharLiteral(c) => r.is_chain(seq![Matcher::Exactly(c)]),
                Regex::StrLiteral(s) => r.is_chain(exact_pattern(s@)),
                _ => true,
            },
    {
        let mut nodes: Vec<Node> = Vec::new();
        let distinguished_nodes = self.add_fa(&mut nodes);
        let r = NFA { nodes, distinguished_nodes };
        proof {
            match self {
                Regex::Empty => {
                    assert(r.is_chain(Seq::<Matcher>::empty()));
                },
                Regex::Dot => {
                    assert(r.is_chain(seq![Matcher::Any]));
                },
                Regex::CharLiteral(c) => {
                    assert(r.is_chain(seq![Matcher::Exactly(*c)]));
                },
                Regex::StrLiteral(s) => {
                    lemma_exact_pattern(s@);
                    assert(r.is_chain(exact_pattern(s@)));
                },
                _ => {},
            }
        }
        r
    }
}

} // verus!
