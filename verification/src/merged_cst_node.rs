//! The result of a merge: a tree of merged nodes and conflict markers.

use vstd::prelude::*;

use crate::cst_node::CSTNode;

verus! {

/// A node of a merged tree.  A `Conflict` records two irreconcilable
/// alternatives — absent sides are `None` — together with the base value when
/// one is known, for a downstream renderer to present.
#[derive(Debug, PartialEq, Eq)]
pub enum MergedCSTNode {
    Terminal { kind: String, value: String },
    NonTerminal { kind: String, children: Vec<MergedCSTNode> },
    Conflict {
        base: Option<Box<MergedCSTNode>>,
        left: Option<Box<MergedCSTNode>>,
        right: Option<Box<MergedCSTNode>>,
    },
}

impl MergedCSTNode {
    /// Whether this merged node mirrors the syntax tree node `n`: same
    /// variant, same kind tag, for terminals the same value, and pointwise
    /// mirrored children.
    pub open spec fn reflects(self, n: CSTNode) -> bool
        decreases n,
    {
        match (self, n) {
            (MergedCSTNode::Terminal { kind, value }, CSTNode::Terminal(t)) => kind@ == t.kind@
                && value@ == t.value@,
            (MergedCSTNode::NonTerminal { kind, children }, CSTNode::NonTerminal(nt)) => kind@
                == nt.kind@ && MergedCSTNode::reflects_seq(children@, nt.children@),
            _ => false,
        }
    }

    /// Pointwise mirroring of a sequence of merged nodes.
    pub open spec fn reflects_seq(ms: Seq<MergedCSTNode>, ns: Seq<CSTNode>) -> bool
        decreases ns,
    {
        ms.len() == ns.len() && (ns.len() == 0 || (ms[0].reflects(ns[0])
            && MergedCSTNode::reflects_seq(ms.drop_first(), ns.drop_first())))
    }

    /// Pointwise mirroring follows from mirroring at every index.
    pub proof fn lemma_reflects_seq_pointwise(ms: Seq<MergedCSTNode>, ns: Seq<CSTNode>)
        requires
            ms.len() == ns.len(),
            forall|k: int| 0 <= k < ns.len() ==> #[trigger] ms[k].reflects(ns[k]),
        ensures
            MergedCSTNode::reflects_seq(ms, ns),
        decreases ns.len(),
    {
        if ns.len() > 0 {
            assert(ms[0].reflects(ns[0]));
            assert forall|k: int|
                0 <= k < ns.drop_first().len() implies #[trigger] ms.drop_first()[k].reflects(
                ns.drop_first()[k],
            ) by {
                assert(ms.drop_first()[k] == ms[k + 1]);
                assert(ns.drop_first()[k] == ns[k + 1]);
            }
            MergedCSTNode::lemma_reflects_seq_pointwise(ms.drop_first(), ns.drop_first());
        }
    }
}

/// Whether `m` is a conflict marker carrying the renderings of a left and a
/// right alternative and no base.
pub open spec fn is_conflict_both(m: MergedCSTNode, lc: CSTNode, rc: CSTNode) -> bool {
    &&& m matches MergedCSTNode::Conflict { base, left, right }
    &&& base is None
    &&& left matches Some(lm)
    &&& lm.reflects(lc)
    &&& right matches Some(rm)
    &&& rm.reflects(rc)
}

/// Whether `m` is a conflict marker carrying only a left alternative.
pub open spec fn is_conflict_left(m: MergedCSTNode, lc: CSTNode) -> bool {
    &&& m matches MergedCSTNode::Conflict { base, left, right }
    &&& base is None
    &&& left matches Some(lm)
    &&& lm.reflects(lc)
    &&& right is None
}

/// Whether `m` is a conflict marker carrying only a right alternative.
pub open spec fn is_conflict_right(m: MergedCSTNode, rc: CSTNode) -> bool {
    &&& m matches MergedCSTNode::Conflict { base, left, right }
    &&& base is None
    &&& left is None
    &&& right matches Some(rm)
    &&& rm.reflects(rc)
}

/// Converts a syntax tree node into its merged representation, keeping kind
/// tags, terminal values and the children's order.
pub fn to_merged(n: &CSTNode) -> (r: MergedCSTNode)
    ensures
        r.reflects(*n),
    decreases *n,
{
    match n {
        CSTNode::Terminal(t) => MergedCSTNode::Terminal {
            kind: t.kind.clone(),
            value: t.value.clone(),
        },
        CSTNode::NonTerminal(nt) => {
            let mut children: Vec<MergedCSTNode> = Vec::new();
            let mut i: usize = 0;
            #[verifier::loop_isolation(false)]
            while i < nt.children.len()
                invariant
                    i <= nt.children@.len(),
                    children@.len() == i,
                    *n == CSTNode::NonTerminal(*nt),
                    forall|k: int|
                        0 <= k < i ==> #[trigger] children@[k].reflects(nt.children@[k]),
                decreases nt.children@.len() - i,
            {
                let c = to_merged(&nt.children[i]);
                children.push(c);
                i = i + 1;
            }
            proof {
                MergedCSTNode::lemma_reflects_seq_pointwise(children@, nt.children@);
            }
            MergedCSTNode::NonTerminal { kind: nt.kind.clone(), children }
        },
    }
}

} // verus!
