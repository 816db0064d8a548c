//! The merge orchestrator.
//!
//! Given base, left and right nodes and the three precomputed correspondence
//! sets, `merge` routes to terminal, ordered or unordered reconciliation, and
//! reports the two structural failures: left and right disagreeing on a
//! node's kind, and the three sides disagreeing on whether a position is a
//! leaf or an interior node.

use vstd::prelude::*;

use crate::cst_node::CSTNode;
use crate::cst_node::NonTerminal;
use crate::log_structures::chunk_is_end;
use crate::log_structures::chunk_is_start;
use crate::log_structures::lemma_log_preserved_trans;
use crate::log_structures::log_events;
use crate::log_structures::log_preserved;
use crate::log_structures::LogState;
use crate::log_structures::MergeChunk;
use crate::matchings::Matchings;
use crate::merge_error::MergeError;
use crate::merge_terminals::merge_terminals;
use crate::merge_terminals::terminal_merge_spec;
use crate::merged_cst_node::MergedCSTNode;
use crate::ordered_merge::ordered_merge;
use crate::unordered_merge::unordered_merge;

verus! {

/// Whether the three sides disagree on being a leaf or an interior node.
pub open spec fn variants_mixed(b: CSTNode, l: CSTNode, r: CSTNode) -> bool {
    !(b is Terminal && l is Terminal && r is Terminal) && !(b is NonTerminal && l is NonTerminal
        && r is NonTerminal)
}

/// Every correspondence of `lr` that links a node of `left`'s subtree with a
/// node of `right`'s subtree links nodes of the same kind and the same
/// variant.  The sets `calculate_matchings` produces are of this shape
/// whenever node identities are not reused across unlike nodes.
pub open spec fn aligned_pairs_compatible(
    lr: Seq<crate::matchings::MatchingRecord>,
    left: CSTNode,
    right: CSTNode,
) -> bool {
    forall|x: CSTNode, y: CSTNode|
        #![trigger left.in_subtree(x), right.in_subtree(y)]
        left.in_subtree(x) && right.in_subtree(y) && crate::matchings::lookup(
            lr,
            x.id_spec(),
            y.id_spec(),
        ) is Some ==> x.kind_spec() == y.kind_spec() && (x is Terminal <==> y is Terminal)
}

/// Every correspondence of `bl` that links a node of `base`'s subtree with a
/// node of `side`'s subtree links nodes of the same variant.
pub open spec fn base_pairs_compatible(
    bl: Seq<crate::matchings::MatchingRecord>,
    base: CSTNode,
    side: CSTNode,
) -> bool {
    forall|x: CSTNode, y: CSTNode|
        #![trigger base.in_subtree(x), side.in_subtree(y)]
        base.in_subtree(x) && side.in_subtree(y) && crate::matchings::lookup(
            bl,
            x.id_spec(),
            y.id_spec(),
        ) is Some ==> (x is Terminal <==> y is Terminal)
}

/// Compatibility of the correspondence sets is inherited by an aligned child
/// triple: the aligned pair agrees on kind and variant, the three variants
/// are not mixed, and the sets stay compatible for the child subtrees.
pub proof fn lemma_inherited_premises(
    base: NonTerminal,
    left: NonTerminal,
    right: NonTerminal,
    bl: Seq<crate::matchings::MatchingRecord>,
    lr: Seq<crate::matchings::MatchingRecord>,
    bc: CSTNode,
    lc: CSTNode,
    rc: CSTNode,
)
    requires
        aligned_pairs_compatible(lr, CSTNode::NonTerminal(left), CSTNode::NonTerminal(right)),
        base_pairs_compatible(bl, CSTNode::NonTerminal(base), CSTNode::NonTerminal(left)),
        CSTNode::NonTerminal(base).in_subtree(bc),
        CSTNode::NonTerminal(left).in_subtree(lc),
        CSTNode::NonTerminal(right).in_subtree(rc),
        crate::matchings::lookup(lr, lc.id_spec(), rc.id_spec()) is Some,
        crate::matchings::lookup(bl, bc.id_spec(), lc.id_spec()) is Some,
    ensures
        lc.kind_spec() == rc.kind_spec(),
        !variants_mixed(bc, lc, rc),
        aligned_pairs_compatible(lr, lc, rc),
        base_pairs_compatible(bl, bc, lc),
{
    assert(lc.kind_spec() == rc.kind_spec() && (lc is Terminal <==> rc is Terminal));
    assert(bc is Terminal <==> lc is Terminal);
    assert forall|x: CSTNode, y: CSTNode|
        #![trigger lc.in_subtree(x), rc.in_subtree(y)]
        lc.in_subtree(x) && rc.in_subtree(y) && crate::matchings::lookup(
            lr,
            x.id_spec(),
            y.id_spec(),
        ) is Some implies x.kind_spec() == y.kind_spec() && (x is Terminal <==> y
        is Terminal) by {
        crate::matching::lemma_in_subtree_trans(CSTNode::NonTerminal(left), lc, x);
        crate::matching::lemma_in_subtree_trans(CSTNode::NonTerminal(right), rc, y);
    }
    assert forall|x: CSTNode, y: CSTNode|
        #![trigger bc.in_subtree(x), lc.in_subtree(y)]
        bc.in_subtree(x) && lc.in_subtree(y) && crate::matchings::lookup(
            bl,
            x.id_spec(),
            y.id_spec(),
        ) is Some implies (x is Terminal <==> y is Terminal) by {
        crate::matching::lemma_in_subtree_trans(CSTNode::NonTerminal(base), bc, x);
        crate::matching::lemma_in_subtree_trans(CSTNode::NonTerminal(left), lc, y);
    }
}

/// The correspondence stored for the base child at `k` and `node`.
pub open spec fn base_pair_lookup(
    bcs: Seq<CSTNode>,
    m: Seq<crate::matchings::MatchingRecord>,
    id: u64,
    k: int,
) -> Option<crate::matchings::MatchingEntry> {
    crate::matchings::lookup(m, bcs[k].id_spec(), id)
}

/// The first base child, at or after `k`, that `m` pairs with the identity
/// `id`, or -1 when there is none.
pub open spec fn first_match_idx(
    bcs: Seq<CSTNode>,
    m: Seq<crate::matchings::MatchingRecord>,
    id: u64,
    k: int,
) -> int
    decreases bcs.len() - k,
{
    if k < 0 || k >= bcs.len() {
        -1
    } else if base_pair_lookup(bcs, m, id, k) is Some {
        k
    } else {
        first_match_idx(bcs, m, id, k + 1)
    }
}

/// `first_match_idx` lands on `k` when nothing before `k` is paired and `k`
/// is.
pub proof fn lemma_first_match_at(
    bcs: Seq<CSTNode>,
    m: Seq<crate::matchings::MatchingRecord>,
    id: u64,
    j: int,
    k: int,
)
    requires
        0 <= j <= k < bcs.len(),
        forall|kk: int| j <= kk < k ==> #[trigger] base_pair_lookup(bcs, m, id, kk) is None,
        base_pair_lookup(bcs, m, id, k) is Some,
    ensures
        first_match_idx(bcs, m, id, j) == k,
    decreases k - j,
{
    if j < k {
        assert(base_pair_lookup(bcs, m, id, j) is None);
        lemma_first_match_at(bcs, m, id, j + 1, k);
    }
}

/// `first_match_idx` finds nothing when no base child is paired.
pub proof fn lemma_first_match_none(
    bcs: Seq<CSTNode>,
    m: Seq<crate::matchings::MatchingRecord>,
    id: u64,
    j: int,
)
    requires
        0 <= j <= bcs.len(),
        forall|kk: int| j <= kk < bcs.len() ==> #[trigger] base_pair_lookup(bcs, m, id, kk) is None,
    ensures
        first_match_idx(bcs, m, id, j) == -1,
    decreases bcs.len() - j,
{
    if j < bcs.len() {
        assert(base_pair_lookup(bcs, m, id, j) is None);
        lemma_first_match_none(bcs, m, id, j + 1);
    }
}

/// How many merged children the resolution of a child aligned with nothing
/// on the other side appends: one for an insertion or a conflict, none for an
/// accepted deletion.
pub open spec fn solo_count(
    node: CSTNode,
    bcs: Seq<CSTNode>,
    m: Seq<crate::matchings::MatchingRecord>,
) -> int {
    let bidx = first_match_idx(bcs, m, node.id_spec(), 0);
    if bidx < 0 {
        1
    } else if !base_pair_lookup(bcs, m, node.id_spec(), bidx).unwrap().is_perfect_match {
        1
    } else {
        0
    }
}

/// What that one appended child is: the kept insertion itself, or a conflict
/// marker carrying the modified child on its side.
pub open spec fn solo_head_ok(
    h: MergedCSTNode,
    node: CSTNode,
    bcs: Seq<CSTNode>,
    m: Seq<crate::matchings::MatchingRecord>,
    conflict_on_left: bool,
) -> bool {
    let bidx = first_match_idx(bcs, m, node.id_spec(), 0);
    if bidx < 0 {
        h.reflects(node)
    } else if conflict_on_left {
        crate::merged_cst_node::is_conflict_left(h, node)
    } else {
        crate::merged_cst_node::is_conflict_right(h, node)
    }
}

/// Resolves a child that the other side aligns with nothing: a child without
/// a base correspondence is an insertion and is kept; one whose first base
/// correspondence is perfect was deleted unchanged by the other side and is
/// dropped; one modified here but deleted there becomes a conflict marker.
pub(crate) fn handle_solo(
    out: &mut Vec<MergedCSTNode>,
    node: &CSTNode,
    base: &NonTerminal,
    m: &Matchings,
    conflict_on_left: bool,
)
    ensures
        final(out)@.len() == old(out)@.len() + solo_count(*node, base.children@, m@),
        forall|q: int| 0 <= q < old(out)@.len() ==> final(out)@[q] == old(out)@[q],
        solo_count(*node, base.children@, m@) == 1 ==> solo_head_ok(
            final(out)@[old(out)@.len() as int],
            *node,
            base.children@,
            m@,
            conflict_on_left,
        ),
{
    let mut k: usize = 0;
    while k < base.children.len()
        invariant
            k <= base.children@.len(),
            out@ == old(out)@,
            forall|kk: int|
                0 <= kk < k ==> #[trigger] base_pair_lookup(
                    base.children@,
                    m@,
                    node.id_spec(),
                    kk,
                ) is None,
        decreases base.children@.len() - k,
    {
        match m.get_matching_entry(&base.children[k], node) {
            Some(entry) => {
                proof {
                    assert(base_pair_lookup(base.children@, m@, node.id_spec(), k as int)
                        is Some);
                    lemma_first_match_at(base.children@, m@, node.id_spec(), 0, k as int);
                }
                if !entry.is_perfect_match {
                    let nm = crate::merged_cst_node::to_merged(node);
                    if conflict_on_left {
                        out.push(
                            MergedCSTNode::Conflict {
                                base: None,
                                left: Some(Box::new(nm)),
                                right: None,
                            },
                        );
                    } else {
                        out.push(
                            MergedCSTNode::Conflict {
                                base: None,
                                left: None,
                                right: Some(Box::new(nm)),
                            },
                        );
                    }
                }
                return;
            },
            None => {
                proof {
                    assert(base_pair_lookup(base.children@, m@, node.id_spec(), k as int)
                        is None);
                }
            },
        }
        k = k + 1;
    }
    proof {
        lemma_first_match_none(base.children@, m@, node.id_spec(), 0);
    }
    let nm = crate::merged_cst_node::to_merged(node);
    out.push(nm);
}

/// The first base child that the given correspondence set pairs with `node`,
/// if any.
pub(crate) fn find_base_child<'a>(base: &'a NonTerminal, node: &CSTNode, m: &Matchings) -> (r:
    Option<&'a CSTNode>)
    ensures
        (r is Some) == (first_match_idx(base.children@, m@, node.id_spec(), 0) >= 0),
        r matches Some(bc) ==> 0 <= first_match_idx(base.children@, m@, node.id_spec(), 0)
            < base.children@.len() && *bc == base.children@[first_match_idx(
            base.children@,
            m@,
            node.id_spec(),
            0,
        )] && crate::matchings::lookup(m@, bc.id_spec(), node.id_spec()) is Some,
{
    let mut k: usize = 0;
    while k < base.children.len()
        invariant
            k <= base.children@.len(),
            forall|kk: int|
                0 <= kk < k ==> #[trigger] base_pair_lookup(
                    base.children@,
                    m@,
                    node.id_spec(),
                    kk,
                ) is None,
        decreases base.children@.len() - k,
    {
        let e = m.get_matching_entry(&base.children[k], node);
        if e.is_some() {
            proof {
                assert(base_pair_lookup(base.children@, m@, node.id_spec(), k as int) is Some);
                lemma_first_match_at(base.children@, m@, node.id_spec(), 0, k as int);
            }
            return Some(&base.children[k]);
        }
        proof {
            assert(base_pair_lookup(base.children@, m@, node.id_spec(), k as int) is None);
        }
        k = k + 1;
    }
    proof {
        lemma_first_match_none(base.children@, m@, node.id_spec(), 0);
    }
    None
}

/// What a successful merge of the triple (b, l, r) returns, as a relation on
/// the merged node: the exact three-way value for leaves, and for interior
/// nodes left's kind over the child sequence the ordered or unordered
/// reconciliation policy fixes.
pub open spec fn merge_ok_rel(
    b: CSTNode,
    l: CSTNode,
    r: CSTNode,
    bl: Seq<crate::matchings::MatchingRecord>,
    br: Seq<crate::matchings::MatchingRecord>,
    lr: Seq<crate::matchings::MatchingRecord>,
    m: MergedCSTNode,
) -> bool
    decreases l, 0int, 0int,
{
    if l.kind_spec() != r.kind_spec() {
        false
    } else {
        match (b, l, r) {
            (CSTNode::Terminal(bt), CSTNode::Terminal(lt), CSTNode::Terminal(rt)) => {
                crate::merge_terminals::terminal_merged_value(bt, lt, rt, m)
            },
            (CSTNode::NonTerminal(bn), CSTNode::NonTerminal(ln), CSTNode::NonTerminal(rn)) => {
                &&& m matches MergedCSTNode::NonTerminal { kind, children }
                &&& kind@ == ln.kind@
                &&& (if ln.are_children_unordered && rn.are_children_unordered {
                    crate::unordered_merge::um_rel_left(
                        children@,
                        bn.children@,
                        ln.children@,
                        rn.children@,
                        bl,
                        br,
                        lr,
                        0,
                        Seq::empty(),
                    )
                } else {
                    crate::ordered_merge::om_rel(
                        children@,
                        bn.children@,
                        ln.children@,
                        rn.children@,
                        bl,
                        br,
                        lr,
                        0,
                        0,
                    )
                })
            },
            _ => false,
        }
    }
}

/// Appends one trace event when a trace is being kept; without one, does
/// nothing.
fn push_chunk(log_state: &mut Option<LogState>, chunk: MergeChunk)
    ensures
        (*old(log_state)) is None ==> (*final(log_state)) is None,
        (*old(log_state)) matches Some(o) ==> ((*final(log_state)) matches Some(n) && n.log@ == o.log@
            .push(chunk)),
{
    match log_state {
        Some(ls) => {
            ls.log.push(chunk);
        },
        None => {},
    }
}

/// Whether left and right carry the same kind tag.
fn kinds_equal(left: &CSTNode, right: &CSTNode) -> (r: bool)
    ensures
        r == (left.kind_spec() == right.kind_spec()),
{
    match (left, right) {
        (CSTNode::Terminal(a), CSTNode::Terminal(b)) => a.kind == b.kind,
        (CSTNode::Terminal(a), CSTNode::NonTerminal(b)) => a.kind == b.kind,
        (CSTNode::NonTerminal(a), CSTNode::Terminal(b)) => a.kind == b.kind,
        (CSTNode::NonTerminal(a), CSTNode::NonTerminal(b)) => a.kind == b.kind,
    }
}

/// Merges two edited versions of a subtree against their common ancestor,
/// guided by the three correspondence sets computed beforehand.
///
/// A kind disagreement between left and right fails with the two kind tags;
/// a leaf paired with an interior node fails likewise; three leaves are
/// reconciled by the three-way terminal rule; three interior nodes are
/// reconciled child by child — in order when both sides keep their children
/// ordered, as sets otherwise, with unordered-context trace events emitted
/// around the latter when a trace is kept.
pub fn merge(
    base: &CSTNode,
    left: &CSTNode,
    right: &CSTNode,
    base_left_matchings: &Matchings,
    base_right_matchings: &Matchings,
    left_right_matchings: &Matchings,
    log_state: &mut Option<LogState>,
) -> (r: Result<MergedCSTNode, MergeError>)
    ensures
        left.kind_spec() != right.kind_spec() ==> (r matches Err(
            MergeError::NodesWithDifferentKinds(lk, rk),
        ) && lk@ == left.kind_spec() && rk@ == right.kind_spec()),
        left.kind_spec() == right.kind_spec() && variants_mixed(*base, *left, *right) ==> r
            matches Err(MergeError::MergingTerminalWithNonTerminal),
        base is Terminal && left is Terminal && right is Terminal && left.kind_spec()
            == right.kind_spec() ==> terminal_merge_spec(
            base.as_terminal(),
            left.as_terminal(),
            right.as_terminal(),
            r,
        ),
        base is NonTerminal && left is NonTerminal && right is NonTerminal && left.kind_spec()
            == right.kind_spec() ==> (r matches Ok(m) ==> (m matches MergedCSTNode::NonTerminal {
            kind,
            children,
        } && kind@ == left.kind_spec())),
        r matches Ok(m) ==> merge_ok_rel(
            *base,
            *left,
            *right,
            base_left_matchings@,
            base_right_matchings@,
            left_right_matchings@,
            m,
        ),
        left.kind_spec() != right.kind_spec() ==> *final(log_state) == *old(log_state),
        base is Terminal && left is Terminal && right is Terminal ==> *final(log_state)
            == *old(log_state),
        left.kind_spec() == right.kind_spec() && variants_mixed(*base, *left, *right)
            ==> *final(log_state) == *old(log_state),
        aligned_pairs_compatible(left_right_matchings@, *left, *right) && base_pairs_compatible(
            base_left_matchings@,
            *base,
            *left,
        ) && left.kind_spec() == right.kind_spec() && !variants_mixed(*base, *left, *right)
            ==> r is Ok,
        log_preserved(*old(log_state), *final(log_state)),
        base is NonTerminal && left is NonTerminal && right is NonTerminal && left.kind_spec()
            == right.kind_spec() && left.as_nonterminal().are_children_unordered
            && right.as_nonterminal().are_children_unordered && (*old(log_state)) is Some && r
            is Ok ==> (*final(log_state)) is Some && log_events(*final(log_state)).len()
            >= log_events(*old(log_state)).len() + 2 && chunk_is_start(
            log_events(*final(log_state))[log_events(*old(log_state)).len() as int],
            left.kind_spec(),
        ) && chunk_is_end(
            log_events(*final(log_state))[log_events(*final(log_state)).len() - 1],
            left.kind_spec(),
        ),
    decreases *left, 1int,
{
    if !kinds_equal(left, right) {
        return Err(MergeError::NodesWithDifferentKinds(left.kind_owned(), right.kind_owned()));
    }
    match (base, left, right) {
        (CSTNode::Terminal(bt), CSTNode::Terminal(lt), CSTNode::Terminal(rt)) => {
            let res = merge_terminals(bt, lt, rt);
            proof {
                assert(*base == CSTNode::Terminal(*bt));
                assert(*left == CSTNode::Terminal(*lt));
                assert(*right == CSTNode::Terminal(*rt));
            }
            res
        },
        (CSTNode::NonTerminal(bn), CSTNode::NonTerminal(ln), CSTNode::NonTerminal(rn)) => {
            if ln.are_children_unordered && rn.are_children_unordered {
                push_chunk(
                    log_state,
                    MergeChunk::UnorderedContextStart { node_kind: ln.kind.clone() },
                );
                let ghost log1 = *log_state;
                let result = unordered_merge(
                    bn,
                    ln,
                    rn,
                    base_left_matchings,
                    base_right_matchings,
                    left_right_matchings,
                    log_state,
                );
                proof {
                    lemma_log_preserved_trans(*old(log_state), log1, *log_state);
                    assert(*left == CSTNode::NonTerminal(*ln));
                    assert(*right == CSTNode::NonTerminal(*rn));
                    assert(*base == CSTNode::NonTerminal(*bn));
                }
                match result {
                    Ok(m) => {
                        let ghost log2 = *log_state;
                        push_chunk(
                            log_state,
                            MergeChunk::UnorderedContextEnd { node_kind: ln.kind.clone() },
                        );
                        proof {
                            lemma_log_preserved_trans(*old(log_state), log2, *log_state);
                        }
                        Ok(m)
                    },
                    Err(e) => Err(e),
                }
            } else {
                let res = ordered_merge(
                    bn,
                    ln,
                    rn,
                    base_left_matchings,
                    base_right_matchings,
                    left_right_matchings,
                    log_state,
                );
                proof {
                    assert(*left == CSTNode::NonTerminal(*ln));
                    assert(*right == CSTNode::NonTerminal(*rn));
                    assert(*base == CSTNode::NonTerminal(*bn));
                }
                res
            }
        },
        (_, _, _) => Err(MergeError::MergingTerminalWithNonTerminal),
    }
}

} // verus!
