//! The concrete-syntax-tree node model.
//!
//! A tree is either a `Terminal` (one token with its literal value) or a
//! `NonTerminal` (an interior node owning an ordered sequence of children and
//! a flag saying whether that order is significant).  Every node carries an
//! identity chosen by the caller; two structurally identical subtrees at
//! different positions are distinct entities and are tracked by identity.

use vstd::prelude::*;

verus! {

/// A position in the source text.
#[derive(Clone, Copy, PartialEq, Eq, Structural, Debug)]
pub struct Point {
    pub row: usize,
    pub column: usize,
}

/// A leaf node: one token, its kind tag and literal value.
#[derive(Debug)]
pub struct Terminal {
    pub id: u64,
    pub kind: String,
    pub value: String,
    pub start_position: Point,
    pub end_position: Point,
    pub is_block_end_delimiter: bool,
}

/// An interior node with an ordered sequence of children.
#[derive(Debug)]
pub struct NonTerminal {
    pub id: u64,
    pub kind: String,
    pub are_children_unordered: bool,
    pub start_position: Point,
    pub end_position: Point,
    pub children: Vec<CSTNode>,
}

/// A node of a concrete syntax tree.
#[derive(Debug)]
pub enum CSTNode {
    Terminal(Terminal),
    NonTerminal(NonTerminal),
}

impl CSTNode {
    /// The node's identity.
    pub open spec fn id_spec(self) -> u64 {
        match self {
            CSTNode::Terminal(t) => t.id,
            CSTNode::NonTerminal(nt) => nt.id,
        }
    }

    /// The node's kind tag, as a sequence of characters.
    pub open spec fn kind_spec(self) -> Seq<char> {
        match self {
            CSTNode::Terminal(t) => t.kind@,
            CSTNode::NonTerminal(nt) => nt.kind@,
        }
    }

    /// The number of nodes in the subtree rooted here (the root included).
    pub open spec fn count(self) -> nat
        decreases self,
    {
        match self {
            CSTNode::Terminal(_) => 1,
            CSTNode::NonTerminal(nt) => 1 + CSTNode::count_seq(nt.children@),
        }
    }

    /// The total number of nodes of a sequence of subtrees.
    pub open spec fn count_seq(s: Seq<CSTNode>) -> nat
        decreases s,
    {
        if s.len() == 0 {
            0
        } else {
            s[0].count() + CSTNode::count_seq(s.drop_first())
        }
    }

    /// Whether `a` occurs in the subtree rooted at `self` (the root included).
    pub open spec fn in_subtree(self, a: CSTNode) -> bool
        decreases self,
    {
        a == self || (match self {
            CSTNode::Terminal(_) => false,
            CSTNode::NonTerminal(nt) => CSTNode::in_seq(nt.children@, a),
        })
    }

    /// Whether `a` occurs in some subtree of the sequence `s`.
    pub open spec fn in_seq(s: Seq<CSTNode>, a: CSTNode) -> bool
        decreases s,
    {
        if s.len() == 0 {
            false
        } else {
            s[0].in_subtree(a) || CSTNode::in_seq(s.drop_first(), a)
        }
    }

    /// Deep structural equality: same variants, same kind tags, for terminals
    /// the same literal value, and pointwise isomorphic children.  Identities,
    /// source spans and ordering flags do not take part.
    pub open spec fn isomorphic(self, other: CSTNode) -> bool
        decreases self,
    {
        match (self, other) {
            (CSTNode::Terminal(a), CSTNode::Terminal(b)) => a.kind@ == b.kind@ && a.value@
                == b.value@,
            (CSTNode::NonTerminal(a), CSTNode::NonTerminal(b)) => a.kind@ == b.kind@
                && CSTNode::iso_seq(a.children@, b.children@),
            _ => false,
        }
    }

    /// Pointwise isomorphism of two sequences of subtrees.
    pub open spec fn iso_seq(s: Seq<CSTNode>, t: Seq<CSTNode>) -> bool
        decreases s,
    {
        s.len() == t.len() && (s.len() == 0 || (s[0].isomorphic(t[0]) && CSTNode::iso_seq(
            s.drop_first(),
            t.drop_first(),
        )))
    }

    /// Whether every interior node of the subtree keeps its children
    /// order-significant.
    pub open spec fn all_ordered(self) -> bool
        decreases self,
    {
        match self {
            CSTNode::Terminal(_) => true,
            CSTNode::NonTerminal(nt) => !nt.are_children_unordered && CSTNode::all_ordered_seq(
                nt.children@,
            ),
        }
    }

    /// Whether every subtree of the sequence is order-significant throughout.
    pub open spec fn all_ordered_seq(s: Seq<CSTNode>) -> bool
        decreases s,
    {
        s.len() == 0 || (s[0].all_ordered() && CSTNode::all_ordered_seq(s.drop_first()))
    }

    /// Order-significance throughout holds of each member.
    pub proof fn lemma_all_ordered_seq_index(s: Seq<CSTNode>)
        requires
            CSTNode::all_ordered_seq(s),
        ensures
            forall|i: int| 0 <= i < s.len() ==> #[trigger] s[i].all_ordered(),
        decreases s.len(),
    {
        if s.len() > 0 {
            CSTNode::lemma_all_ordered_seq_index(s.drop_first());
            assert forall|i: int| 0 <= i < s.len() implies #[trigger] s[i].all_ordered() by {
                if i > 0 {
                    assert(s.drop_first()[i - 1] == s[i]);
                }
            }
        }
    }

    /// Order-significance throughout survives dropping the last member.
    pub proof fn lemma_all_ordered_seq_drop_last(s: Seq<CSTNode>)
        requires
            CSTNode::all_ordered_seq(s),
            s.len() > 0,
        ensures
            CSTNode::all_ordered_seq(s.drop_last()),
        decreases s.len(),
    {
        if s.len() > 1 {
            CSTNode::lemma_all_ordered_seq_drop_last(s.drop_first());
            assert(s.drop_last().drop_first() =~= s.drop_first().drop_last());
            assert(s.drop_last()[0] == s[0]);
        }
    }

    /// No node of `self`'s subtree has the same kind tag as any node of
    /// `other`'s subtree.
    pub open spec fn kinds_disjoint(self, other: CSTNode) -> bool {
        forall|a: CSTNode, b: CSTNode|
            self.in_subtree(a) && other.in_subtree(b) ==> a.kind_spec() != b.kind_spec()
    }

    /// The terminal payload; meaningful only on a terminal node.
    pub open spec fn as_terminal(self) -> Terminal
        recommends
            self is Terminal,
    {
        match self {
            CSTNode::Terminal(t) => t,
            CSTNode::NonTerminal(_) => arbitrary(),
        }
    }

    /// The interior payload; meaningful only on an interior node.
    pub open spec fn as_nonterminal(self) -> NonTerminal
        recommends
            self is NonTerminal,
    {
        match self {
            CSTNode::Terminal(_) => arbitrary(),
            CSTNode::NonTerminal(nt) => nt,
        }
    }

    /// The node's kind tag, as an owned string.
    pub fn kind_owned(&self) -> (r: String)
        ensures
            r@ == self.kind_spec(),
    {
        match self {
            CSTNode::Terminal(t) => t.kind.clone(),
            CSTNode::NonTerminal(nt) => nt.kind.clone(),
        }
    }

    /// The node's identity.
    pub fn id(&self) -> (r: u64)
        ensures
            r == self.id_spec(),
    {
        match self {
            CSTNode::Terminal(t) => t.id,
            CSTNode::NonTerminal(nt) => nt.id,
        }
    }

    /// The node's kind tag.
    pub fn kind(&self) -> (r: &str)
        ensures
            r@ == self.kind_spec(),
    {
        match self {
            CSTNode::Terminal(t) => t.kind.as_str(),
            CSTNode::NonTerminal(nt) => nt.kind.as_str(),
        }
    }

    /// The number of nodes in the subtree rooted here.
    pub fn node_count(&self) -> (r: usize)
        requires
            self.count() <= usize::MAX,
        ensures
            r == self.count(),
        decreases *self,
    {
        match self {
            CSTNode::Terminal(_) => 1,
            CSTNode::NonTerminal(nt) => {
                proof {
                    CSTNode::lemma_count_seq_bounds(nt.children@);
                    assert(nt.children@.skip(0) =~= nt.children@);
                    assert(nt.children@.take(0) =~= Seq::<CSTNode>::empty());
                }
                let mut total: usize = 0;
                let mut i: usize = 0;
                while i < nt.children.len()
                    invariant
                        i <= nt.children@.len(),
                        self.count() <= usize::MAX,
                        *self == CSTNode::NonTerminal(*nt),
                        total == CSTNode::count_seq(nt.children@.take(i as int)),
                        total + 1 + CSTNode::count_seq(nt.children@.skip(i as int))
                            == self.count(),
                    decreases nt.children@.len() - i,
                {
                    proof {
                        CSTNode::lemma_count_seq_split(nt.children@, i as int);
                        CSTNode::lemma_count_at_least_one(nt.children@[i as int]);
                        CSTNode::lemma_count_seq_bounds(nt.children@.skip(i as int + 1));
                    }
                    let c = nt.children[i].node_count();
                    total = total + c;
                    i = i + 1;
                }
                proof {
                    assert(nt.children@.take(nt.children@.len() as int) =~= nt.children@);
                    assert(nt.children@.skip(nt.children@.len() as int) =~= Seq::<
                        CSTNode,
                    >::empty());
                }
                total + 1
            },
        }
    }

    /// Every subtree holds at least its root.
    pub proof fn lemma_count_at_least_one(n: CSTNode)
        ensures
            n.count() >= 1,
    {
    }

    /// Splitting a sequence at `i` splits its node count.
    pub proof fn lemma_count_seq_split(s: Seq<CSTNode>, i: int)
        requires
            0 <= i < s.len(),
        ensures
            CSTNode::count_seq(s.take(i + 1)) == CSTNode::count_seq(s.take(i)) + s[i].count(),
            CSTNode::count_seq(s.skip(i)) == s[i].count() + CSTNode::count_seq(s.skip(i + 1)),
        decreases s.len(),
    {
        if i == 0 {
            assert(s.take(1).drop_first() =~= s.take(0));
            assert(s.take(1)[0] == s[0]);
            assert(s.skip(0) =~= s);
            assert(s.drop_first() =~= s.skip(1));
        } else {
            CSTNode::lemma_count_seq_split(s.drop_first(), i - 1);
            assert(s.take(i + 1).drop_first() =~= s.drop_first().take(i));
            assert(s.take(i).drop_first() =~= s.drop_first().take(i - 1));
            assert(s.skip(i) =~= s.drop_first().skip(i - 1));
            assert(s.skip(i + 1) =~= s.drop_first().skip(i));
            assert(s.take(i + 1)[0] == s[0]);
            assert(s.take(i)[0] == s[0]);
        }
    }

    /// A sequence's node count dominates each member's count.
    pub proof fn lemma_count_seq_bounds(s: Seq<CSTNode>)
        ensures
            CSTNode::count_seq(s) >= s.len(),
            forall|i: int|
                0 <= i < s.len() ==> #[trigger] s[i].count() <= CSTNode::count_seq(s),
        decreases s.len(),
    {
        if s.len() > 0 {
            CSTNode::lemma_count_seq_bounds(s.drop_first());
            CSTNode::lemma_count_at_least_one(s[0]);
            assert forall|i: int| 0 <= i < s.len() implies #[trigger] s[i].count()
                <= CSTNode::count_seq(s) by {
                if i > 0 {
                    assert(s.drop_first()[i - 1] == s[i]);
                }
            }
        }
    }

    /// A sequence's node count is split by any cut point.
    pub proof fn lemma_count_seq_take_skip(s: Seq<CSTNode>, i: int)
        requires
            0 <= i <= s.len(),
        ensures
            CSTNode::count_seq(s) == CSTNode::count_seq(s.take(i)) + CSTNode::count_seq(s.skip(i)),
        decreases i,
    {
        if i == 0 {
            assert(s.take(0) =~= Seq::<CSTNode>::empty());
            assert(s.skip(0) =~= s);
        } else {
            CSTNode::lemma_count_seq_take_skip(s, i - 1);
            CSTNode::lemma_count_seq_split(s, i - 1);
        }
    }

    /// A member of a child of `s` is a member of `s`.
    pub proof fn lemma_in_seq_from_member(s: Seq<CSTNode>, k: int, a: CSTNode)
        requires
            0 <= k < s.len(),
            s[k].in_subtree(a),
        ensures
            CSTNode::in_seq(s, a),
        decreases s.len(),
    {
        if k > 0 {
            assert(s.drop_first()[k - 1] == s[k]);
            CSTNode::lemma_in_seq_from_member(s.drop_first(), k - 1, a);
        }
    }

    /// Membership in a sequence gives a witness index.
    pub proof fn lemma_in_seq_witness(s: Seq<CSTNode>, a: CSTNode) -> (k: int)
        requires
            CSTNode::in_seq(s, a),
        ensures
            0 <= k < s.len(),
            s[k].in_subtree(a),
        decreases s.len(),
    {
        if s[0].in_subtree(a) {
            0
        } else {
            let k = CSTNode::lemma_in_seq_witness(s.drop_first(), a);
            assert(s.drop_first()[k] == s[k + 1]);
            k + 1
        }
    }
}

} // verus!
