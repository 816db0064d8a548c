//! The tree-alignment engine.
//!
//! `calculate_matchings` computes, for a pair of subtrees, the set of
//! correspondences between their descendants together with a similarity
//! score.  Two terminals correspond when kind and value agree.  For two
//! interior nodes the children are aligned: when both sides declare their
//! children order-significant, by weighted sequence alignment (a weighted
//! longest-common-subsequence over the children); otherwise by an
//! order-agnostic correspondence that pairs each left child, in order, with
//! the best-scoring still-unpaired right child, the earliest on ties.  The root
//! pair's score is the sum of the aligned children's scores plus one when the
//! root kinds agree, and a pair is a perfect match exactly when its score
//! covers every node of both subtrees.

use vstd::prelude::*;

use crate::cst_node::CSTNode;
use crate::cst_node::NonTerminal;
use crate::matchings::MatchingEntry;
use crate::matchings::MatchingRecord;
use crate::matchings::Matchings;

verus! {

/// Whether two nodes are terminals that agree on kind and value.
pub open spec fn terminal_matched(l: CSTNode, r: CSTNode) -> bool {
    match (l, r) {
        (CSTNode::Terminal(a), CSTNode::Terminal(b)) => a.kind@ == b.kind@ && a.value@ == b.value@,
        _ => false,
    }
}

/// Whether a pair of nodes yields a root correspondence at all: matched
/// terminals, or two interior nodes.
pub open spec fn compatible(l: CSTNode, r: CSTNode) -> bool {
    terminal_matched(l, r) || (l is NonTerminal && r is NonTerminal)
}

/// The root compatibility contribution: one when the kind tags agree.
pub open spec fn root_match(l: CSTNode, r: CSTNode) -> nat {
    if l.kind_spec() == r.kind_spec() {
        1
    } else {
        0
    }
}

/// The similarity score of a pair of subtrees: the weighted number of
/// corresponding node pairs under the alignment policy described above.
pub open spec fn pair_score(l: CSTNode, r: CSTNode) -> nat
    decreases l, 0int, 0int,
{
    match (l, r) {
        (CSTNode::Terminal(_), CSTNode::Terminal(_)) => if terminal_matched(l, r) {
            1
        } else {
            0
        },
        (CSTNode::NonTerminal(a), CSTNode::NonTerminal(b)) => root_match(l, r) + (if !a.are_children_unordered && !b.are_children_unordered {
            lcs_score(a.children@, b.children@)
        } else {
            greedy_score(a.children@, b.children@)
        }),
        _ => 0,
    }
}

/// The best total score of an order-preserving alignment of two children
/// sequences (weighted longest common subsequence).
pub open spec fn lcs_score(a: Seq<CSTNode>, b: Seq<CSTNode>) -> nat
    decreases a, b.len(), 0int,
{
    if a.len() == 0 || b.len() == 0 {
        0
    } else {
        let skip_right = lcs_score(a.drop_last(), b);
        let skip_left = lcs_score(a, b.drop_last());
        let align = lcs_score(a.drop_last(), b.drop_last()) + pair_score(
            a[a.len() - 1],
            b[b.len() - 1],
        );
        if skip_right >= skip_left && skip_right >= align {
            skip_right
        } else if skip_left >= align {
            skip_left
        } else {
            align
        }
    }
}

/// The position, at or after `j`, of the best-scoring right child against
/// `l` — the earliest such position on ties — or -1 when none scores
/// positively.
pub open spec fn best_pos(l: CSTNode, rs: Seq<CSTNode>, j: int) -> int
    decreases l, 0int, rs.len() - j,
{
    if j < 0 || j >= rs.len() {
        -1
    } else {
        let rest = best_pos(l, rs, j + 1);
        if pair_score(l, rs[j]) > 0 && (rest < 0 || pair_score(l, rs[j]) >= pair_score(
            l,
            rs[rest],
        )) {
            j
        } else {
            rest
        }
    }
}

/// The total score of the order-agnostic correspondence: each left child, in
/// order, is paired with the best-scoring still-unpaired right child — the
/// earliest on ties — and a paired right child is consumed.
pub open spec fn greedy_score(ls: Seq<CSTNode>, rs: Seq<CSTNode>) -> nat
    decreases ls, 0int, 0int,
{
    if ls.len() == 0 {
        0
    } else {
        let j = best_pos(ls[0], rs, 0);
        if j < 0 {
            greedy_score(ls.drop_first(), rs)
        } else {
            pair_score(ls[0], rs[j]) + greedy_score(ls.drop_first(), rs.remove(j))
        }
    }
}

/// Whether a pair of subtrees is a perfect match: its score covers every node
/// of both sides.
pub open spec fn spec_perfect(l: CSTNode, r: CSTNode) -> bool {
    pair_score(l, r) == l.count() && pair_score(l, r) == r.count()
}

/// Whether `rec` is the root record of the pair (l, r): keyed by the two
/// identities, scored by the pair's score, perfect exactly when the score
/// covers both subtrees.
pub open spec fn is_root_record(rec: MatchingRecord, l: CSTNode, r: CSTNode) -> bool {
    &&& rec.left_id == l.id_spec()
    &&& rec.right_id == r.id_spec()
    &&& rec.entry.score == pair_score(l, r)
    &&& rec.entry.is_perfect_match == spec_perfect(l, r)
}

/// Whether `rec` is the exact record of some positively-scoring pair of
/// descendants of `l` and `r`.
pub open spec fn is_descendant_record(rec: MatchingRecord, l: CSTNode, r: CSTNode) -> bool {
    exists|a: CSTNode, b: CSTNode|
        #![trigger l.in_subtree(a), r.in_subtree(b)]
        l.in_subtree(a) && r.in_subtree(b) && rec.left_id == a.id_spec() && rec.right_id
            == b.id_spec() && rec.entry.score == pair_score(a, b) && rec.entry.is_perfect_match
            == spec_perfect(a, b) && pair_score(a, b) > 0
}

/// Whether `rec` is the exact record of some positively-scoring pair drawn
/// from two children sequences.
pub open spec fn is_child_record(rec: MatchingRecord, ls: Seq<CSTNode>, rs: Seq<CSTNode>) -> bool {
    exists|a: CSTNode, b: CSTNode|
        #![trigger CSTNode::in_seq(ls, a), CSTNode::in_seq(rs, b)]
        CSTNode::in_seq(ls, a) && CSTNode::in_seq(rs, b) && rec.left_id == a.id_spec()
            && rec.right_id == b.id_spec() && rec.entry.score == pair_score(a, b)
            && rec.entry.is_perfect_match == spec_perfect(a, b) && pair_score(a, b) > 0
}

/// The exact record the engine stores for the pair (l, r).
pub open spec fn pair_record(l: CSTNode, r: CSTNode) -> MatchingRecord {
    MatchingRecord {
        left_id: l.id_spec(),
        right_id: r.id_spec(),
        entry: MatchingEntry {
            score: pair_score(l, r) as usize,
            is_perfect_match: spec_perfect(l, r),
        },
    }
}

/// The exact sequence of correspondences `calculate_matchings` returns: the
/// root record, followed by the correspondences of exactly those child pairs
/// the alignment aligns with a strictly positive score, reconstructed from
/// the score matrix for ordered children and taken in pairing order for
/// unordered ones; an incompatible pair yields nothing.
pub open spec fn matchings_of(l: CSTNode, r: CSTNode) -> Seq<MatchingRecord>
    decreases l, 2int, 0int,
{
    if !compatible(l, r) {
        Seq::empty()
    } else {
        seq![pair_record(l, r)] + (match (l, r) {
            (CSTNode::NonTerminal(a), CSTNode::NonTerminal(b)) => {
                if !a.are_children_unordered && !b.are_children_unordered {
                    bt_entries(
                        a.children@,
                        b.children@,
                        a.children@.len() as int,
                        b.children@.len() as int,
                    )
                } else {
                    greedy_entries(a.children@, b.children@)
                }
            },
            _ => Seq::empty(),
        })
    }
}

/// The correspondences an ordered alignment reconstructs, walking the score
/// matrix back from the cell (i, j): an aligned child pair contributes its
/// own correspondences exactly when it improved the score.
pub open spec fn bt_entries(lcs: Seq<CSTNode>, rcs: Seq<CSTNode>, i: int, j: int) -> Seq<
    MatchingRecord,
>
    decreases lcs, 1int, i + j,
{
    if i < 1 || j < 1 || i > lcs.len() || j > rcs.len() {
        Seq::empty()
    } else {
        let down = lcs_score(lcs.take(i - 1), rcs.take(j));
        let left_ = lcs_score(lcs.take(i), rcs.take(j - 1));
        let diag = lcs_score(lcs.take(i - 1), rcs.take(j - 1));
        let s = pair_score(lcs[i - 1], rcs[j - 1]);
        let curv = lcs_score(lcs.take(i), rcs.take(j));
        if left_ > down && left_ > diag + s {
            bt_entries(lcs, rcs, i, j - 1)
        } else if !(left_ > down) && down > diag + s {
            bt_entries(lcs, rcs, i - 1, j)
        } else {
            (if curv > diag {
                matchings_of(lcs[i - 1], rcs[j - 1])
            } else {
                Seq::empty()
            }) + bt_entries(lcs, rcs, i - 1, j - 1)
        }
    }
}

/// The correspondences the order-agnostic alignment collects, in pairing
/// order: each left child paired with a right child contributes that pair's
/// own correspondences.
pub open spec fn greedy_entries(ls: Seq<CSTNode>, rs: Seq<CSTNode>) -> Seq<MatchingRecord>
    decreases ls, 1int, 0int,
{
    if ls.len() == 0 {
        Seq::empty()
    } else {
        let j = best_pos(ls[0], rs, 0);
        if j < 0 {
            greedy_entries(ls.drop_first(), rs)
        } else {
            matchings_of(ls[0], rs[j]) + greedy_entries(ls.drop_first(), rs.remove(j))
        }
    }
}

/// A pair's score never exceeds the node count of either side.
pub proof fn lemma_pair_score_le_count(l: CSTNode, r: CSTNode)
    ensures
        pair_score(l, r) <= l.count(),
        pair_score(l, r) <= r.count(),
    decreases l, 0int, 0int,
{
    match (l, r) {
        (CSTNode::NonTerminal(a), CSTNode::NonTerminal(b)) => {
            if !a.are_children_unordered && !b.are_children_unordered {
                lemma_lcs_le_counts(a.children@, b.children@);
            } else {
                lemma_greedy_le_counts(a.children@, b.children@);
            }
        },
        _ => {},
    }
}

/// An ordered alignment's score never exceeds the node count of either side.
pub proof fn lemma_lcs_le_counts(a: Seq<CSTNode>, b: Seq<CSTNode>)
    ensures
        lcs_score(a, b) <= CSTNode::count_seq(a),
        lcs_score(a, b) <= CSTNode::count_seq(b),
    decreases a, b.len(), 0int,
{
    if a.len() == 0 || b.len() == 0 {
    } else {
        lemma_lcs_le_counts(a.drop_last(), b);
        lemma_lcs_le_counts(a, b.drop_last());
        lemma_lcs_le_counts(a.drop_last(), b.drop_last());
        lemma_pair_score_le_count(a[a.len() - 1], b[b.len() - 1]);
        lemma_count_seq_drop_last(a);
        lemma_count_seq_drop_last(b);
    }
}

/// Splitting off the last element splits the node count.
pub proof fn lemma_count_seq_drop_last(s: Seq<CSTNode>)
    requires
        s.len() > 0,
    ensures
        CSTNode::count_seq(s) == CSTNode::count_seq(s.drop_last()) + s[s.len() - 1].count(),
{
    CSTNode::lemma_count_seq_split(s, s.len() - 1);
    assert(s.take(s.len() as int) =~= s);
    assert(s.take(s.len() - 1) =~= s.drop_last());
}

/// Removing one element removes exactly its node count.
pub proof fn lemma_count_seq_remove(s: Seq<CSTNode>, j: int)
    requires
        0 <= j < s.len(),
    ensures
        CSTNode::count_seq(s) == s[j].count() + CSTNode::count_seq(s.remove(j)),
    decreases s.len(),
{
    if j == 0 {
        assert(s.remove(0) =~= s.drop_first());
    } else {
        lemma_count_seq_remove(s.drop_first(), j - 1);
        assert(s.remove(j).drop_first() =~= s.drop_first().remove(j - 1));
        assert(s.remove(j)[0] == s[0]);
    }
}

/// Where `best_pos` lands: either nothing at or after `j` scores
/// positively, or the result is the earliest best-scoring position there.
pub proof fn lemma_best_pos(l: CSTNode, rs: Seq<CSTNode>, j: int)
    requires
        0 <= j <= rs.len(),
    ensures
        best_pos(l, rs, j) == -1 ==> forall|k: int|
            j <= k < rs.len() ==> #[trigger] pair_score(l, rs[k]) == 0,
        best_pos(l, rs, j) != -1 ==> j <= best_pos(l, rs, j) < rs.len() && pair_score(
            l,
            rs[best_pos(l, rs, j)],
        ) > 0 && (forall|k: int|
            j <= k < rs.len() ==> #[trigger] pair_score(l, rs[k]) <= pair_score(
                l,
                rs[best_pos(l, rs, j)],
            )) && (forall|k: int|
            j <= k < best_pos(l, rs, j) ==> #[trigger] pair_score(l, rs[k]) < pair_score(
                l,
                rs[best_pos(l, rs, j)],
            )),
    decreases rs.len() - j,
{
    if j < rs.len() {
        lemma_best_pos(l, rs, j + 1);
    }
}

/// The order-agnostic correspondence's score never exceeds the node count of
/// either side.
pub proof fn lemma_greedy_le_counts(ls: Seq<CSTNode>, rs: Seq<CSTNode>)
    ensures
        greedy_score(ls, rs) <= CSTNode::count_seq(ls),
        greedy_score(ls, rs) <= CSTNode::count_seq(rs),
    decreases ls, 0int, 0int,
{
    if ls.len() > 0 {
        let j = best_pos(ls[0], rs, 0);
        lemma_best_pos(ls[0], rs, 0);
        if j < 0 {
            lemma_greedy_le_counts(ls.drop_first(), rs);
            CSTNode::lemma_count_at_least_one(ls[0]);
        } else {
            lemma_greedy_le_counts(ls.drop_first(), rs.remove(j));
            lemma_pair_score_le_count(ls[0], rs[j]);
            lemma_count_seq_remove(rs, j);
        }
    }
}

/// An incompatible pair scores zero.
pub proof fn lemma_incompatible_zero(l: CSTNode, r: CSTNode)
    requires
        !compatible(l, r),
    ensures
        pair_score(l, r) == 0,
{
}

/// `best_pos` from `j` lands on `k` when `k` scores positively, nothing at
/// or after `j` scores more, and everything between `j` and `k` scores
/// strictly less.
pub proof fn lemma_best_pos_at(l: CSTNode, rs: Seq<CSTNode>, j: int, k: int)
    requires
        0 <= j <= k < rs.len(),
        pair_score(l, rs[k]) > 0,
        forall|kk: int|
            j <= kk < rs.len() ==> #[trigger] pair_score(l, rs[kk]) <= pair_score(l, rs[k]),
        forall|kk: int| j <= kk < k ==> #[trigger] pair_score(l, rs[kk]) < pair_score(l, rs[k]),
    ensures
        best_pos(l, rs, j) == k,
    decreases k - j,
{
    if j < k {
        assert(pair_score(l, rs[j]) < pair_score(l, rs[k]));
        lemma_best_pos_at(l, rs, j + 1, k);
    } else {
        assert(pair_score(l, rs[j]) > 0);
        lemma_best_pos(l, rs, j + 1);
    }
}

/// `best_pos` finds nothing when every index scores zero.
pub proof fn lemma_best_pos_none(l: CSTNode, rs: Seq<CSTNode>, j: int)
    requires
        0 <= j <= rs.len(),
        forall|kk: int| j <= kk < rs.len() ==> #[trigger] pair_score(l, rs[kk]) == 0,
    ensures
        best_pos(l, rs, j) == -1,
    decreases rs.len() - j,
{
    if j < rs.len() {
        assert(pair_score(l, rs[j]) == 0);
        lemma_best_pos_none(l, rs, j + 1);
    }
}

/// What a lookup in the result of `calculate_matchings` on the root pair
/// gives, from that result's shape.
proof fn lemma_entry_score(w: Seq<MatchingRecord>, l: CSTNode, r: CSTNode)
    requires
        compatible(l, r) ==> w.len() >= 1 && is_root_record(w[0], l, r),
        !compatible(l, r) ==> w.len() == 0,
    ensures
        crate::matchings::lookup(w, l.id_spec(), r.id_spec()) matches Some(e) ==> e.score
            == pair_score(l, r) && e.is_perfect_match == spec_perfect(l, r),
        crate::matchings::lookup(w, l.id_spec(), r.id_spec()) is None ==> pair_score(l, r) == 0,
{
    if compatible(l, r) {
        assert(crate::matchings::key_matches(w[0], l.id_spec(), r.id_spec()));
        assert(crate::matchings::lookup(w, l.id_spec(), r.id_spec()) == Some(w[0].entry));
    } else {
        lemma_incompatible_zero(l, r);
    }
}

/// Pointwise consequences of sequence isomorphism.
pub proof fn lemma_iso_seq_props(s: Seq<CSTNode>, t: Seq<CSTNode>)
    requires
        CSTNode::iso_seq(s, t),
    ensures
        s.len() == t.len(),
        forall|i: int| 0 <= i < s.len() ==> #[trigger] s[i].isomorphic(t[i]),
    decreases s.len(),
{
    if s.len() > 0 {
        lemma_iso_seq_props(s.drop_first(), t.drop_first());
        assert forall|i: int| 0 <= i < s.len() implies #[trigger] s[i].isomorphic(t[i]) by {
            if i > 0 {
                assert(s.drop_first()[i - 1] == s[i]);
                assert(t.drop_first()[i - 1] == t[i]);
            }
        }
    }
}

/// Isomorphism of sequences survives dropping the last elements.
pub proof fn lemma_iso_seq_drop_last(s: Seq<CSTNode>, t: Seq<CSTNode>)
    requires
        CSTNode::iso_seq(s, t),
        s.len() > 0,
    ensures
        CSTNode::iso_seq(s.drop_last(), t.drop_last()),
    decreases s.len(),
{
    if s.len() == 1 {
        assert(s.drop_last().len() == 0);
        assert(t.drop_last().len() == 0);
    } else {
        lemma_iso_seq_drop_last(s.drop_first(), t.drop_first());
        assert(s.drop_last().drop_first() =~= s.drop_first().drop_last());
        assert(t.drop_last().drop_first() =~= t.drop_first().drop_last());
        assert(s.drop_last()[0] == s[0]);
        assert(t.drop_last()[0] == t[0]);
    }
}

/// Two deeply identical subtrees are a perfect match, scoring exactly their
/// node count: every node of each corresponds to a node of the other.
pub proof fn lemma_identical_subtrees_perfect(l: CSTNode, r: CSTNode)
    requires
        l.isomorphic(r),
    ensures
        pair_score(l, r) == l.count(),
        l.count() == r.count(),
        spec_perfect(l, r),
    decreases l, 0int, 0int,
{
    match (l, r) {
        (CSTNode::NonTerminal(a), CSTNode::NonTerminal(b)) => {
            if !a.are_children_unordered && !b.are_children_unordered {
                lemma_iso_lcs(a.children@, b.children@);
            } else {
                lemma_iso_greedy(a.children@, b.children@);
            }
        },
        _ => {},
    }
}

/// Ordered alignment of two pointwise isomorphic children sequences scores
/// their full node count.
pub proof fn lemma_iso_lcs(a: Seq<CSTNode>, b: Seq<CSTNode>)
    requires
        CSTNode::iso_seq(a, b),
    ensures
        lcs_score(a, b) == CSTNode::count_seq(a),
        CSTNode::count_seq(a) == CSTNode::count_seq(b),
    decreases a, b.len(), 0int,
{
    lemma_iso_seq_props(a, b);
    if a.len() > 0 {
        lemma_iso_seq_drop_last(a, b);
        lemma_iso_lcs(a.drop_last(), b.drop_last());
        lemma_identical_subtrees_perfect(a[a.len() - 1], b[b.len() - 1]);
        lemma_lcs_le_counts(a, b);
        lemma_count_seq_drop_last(a);
        lemma_count_seq_drop_last(b);
    }
}

/// Order-agnostic alignment of two pointwise isomorphic children sequences
/// scores their full node count.
pub proof fn lemma_iso_greedy(ls: Seq<CSTNode>, rs: Seq<CSTNode>)
    requires
        CSTNode::iso_seq(ls, rs),
    ensures
        greedy_score(ls, rs) == CSTNode::count_seq(ls),
        CSTNode::count_seq(ls) == CSTNode::count_seq(rs),
    decreases ls, 0int, 0int,
{
    if ls.len() > 0 {
        lemma_identical_subtrees_perfect(ls[0], rs[0]);
        assert(pair_score(ls[0], rs[0]) > 0);
        assert forall|kk: int| 0 <= kk < rs.len() implies #[trigger] pair_score(ls[0], rs[kk])
            <= pair_score(ls[0], rs[0]) by {
            lemma_pair_score_le_count(ls[0], rs[kk]);
        }
        lemma_best_pos_at(ls[0], rs, 0, 0);
        assert(best_pos(ls[0], rs, 0) == 0);
        assert(rs.remove(0) =~= rs.drop_first());
        lemma_iso_greedy(ls.drop_first(), rs.drop_first());
    }
}

/// Isomorphism of sequences follows from isomorphism at every index.
pub proof fn lemma_iso_seq_from_pointwise(s: Seq<CSTNode>, t: Seq<CSTNode>)
    requires
        s.len() == t.len(),
        forall|i: int| 0 <= i < s.len() ==> #[trigger] s[i].isomorphic(t[i]),
    ensures
        CSTNode::iso_seq(s, t),
    decreases s.len(),
{
    if s.len() > 0 {
        assert(s[0].isomorphic(t[0]));
        assert forall|i: int| 0 <= i < s.drop_first().len() implies #[trigger] s.drop_first()[i]
            .isomorphic(t.drop_first()[i]) by {
            assert(s.drop_first()[i] == s[i + 1]);
            assert(t.drop_first()[i] == t[i + 1]);
        }
        lemma_iso_seq_from_pointwise(s.drop_first(), t.drop_first());
        assert(CSTNode::iso_seq(s, t));
    }
}

/// The converse of `lemma_identical_subtrees_perfect` for trees whose
/// children are order-significant throughout: a perfect match is a deep
/// structural identity.
pub proof fn lemma_perfect_implies_identical(l: CSTNode, r: CSTNode)
    requires
        spec_perfect(l, r),
        l.all_ordered(),
        r.all_ordered(),
    ensures
        l.isomorphic(r),
    decreases l, 0int, 0int,
{
    match (l, r) {
        (CSTNode::Terminal(_), CSTNode::Terminal(_)) => {
            assert(pair_score(l, r) == 1);
        },
        (CSTNode::NonTerminal(a), CSTNode::NonTerminal(b)) => {
            lemma_lcs_le_counts(a.children@, b.children@);
            assert(root_match(l, r) == 1);
            assert(lcs_score(a.children@, b.children@) == CSTNode::count_seq(a.children@));
            assert(lcs_score(a.children@, b.children@) == CSTNode::count_seq(b.children@));
            lemma_lcs_full_implies_iso(a.children@, b.children@);
        },
        _ => {
            CSTNode::lemma_count_at_least_one(l);
            assert(false);
        },
    }
}

/// An ordered alignment that covers every node of both sequences pairs them
/// off one by one, isomorphically.
pub proof fn lemma_lcs_full_implies_iso(a: Seq<CSTNode>, b: Seq<CSTNode>)
    requires
        CSTNode::all_ordered_seq(a),
        CSTNode::all_ordered_seq(b),
        lcs_score(a, b) == CSTNode::count_seq(a),
        lcs_score(a, b) == CSTNode::count_seq(b),
    ensures
        CSTNode::iso_seq(a, b),
    decreases a, b.len(), 0int,
{
    CSTNode::lemma_count_seq_bounds(a);
    CSTNode::lemma_count_seq_bounds(b);
    if a.len() == 0 || b.len() == 0 {
        assert(a.len() == 0 && b.len() == 0);
    } else {
        lemma_count_seq_drop_last(a);
        lemma_count_seq_drop_last(b);
        CSTNode::lemma_count_at_least_one(a[a.len() - 1]);
        CSTNode::lemma_count_at_least_one(b[b.len() - 1]);
        lemma_lcs_le_counts(a.drop_last(), b);
        lemma_lcs_le_counts(a, b.drop_last());
        lemma_lcs_le_counts(a.drop_last(), b.drop_last());
        lemma_pair_score_le_count(a[a.len() - 1], b[b.len() - 1]);
        assert(lcs_score(a.drop_last(), b.drop_last()) == CSTNode::count_seq(a.drop_last()));
        assert(lcs_score(a.drop_last(), b.drop_last()) == CSTNode::count_seq(b.drop_last()));
        assert(pair_score(a[a.len() - 1], b[b.len() - 1]) == a[a.len() - 1].count());
        assert(pair_score(a[a.len() - 1], b[b.len() - 1]) == b[b.len() - 1].count());
        CSTNode::lemma_all_ordered_seq_drop_last(a);
        CSTNode::lemma_all_ordered_seq_drop_last(b);
        lemma_lcs_full_implies_iso(a.drop_last(), b.drop_last());
        CSTNode::lemma_all_ordered_seq_index(a);
        CSTNode::lemma_all_ordered_seq_index(b);
        lemma_perfect_implies_identical(a[a.len() - 1], b[b.len() - 1]);
        lemma_iso_seq_props(a.drop_last(), b.drop_last());
        assert forall|i: int| 0 <= i < a.len() implies #[trigger] a[i].isomorphic(b[i]) by {
            if i < a.len() - 1 {
                assert(a.drop_last()[i] == a[i]);
                assert(b.drop_last()[i] == b[i]);
            }
        }
        lemma_iso_seq_from_pointwise(a, b);
    }
}

/// An ordered alignment over sequences whose pairs all score zero scores
/// zero itself.
pub proof fn lemma_lcs_all_zero(a: Seq<CSTNode>, b: Seq<CSTNode>)
    requires
        forall|i: int, j: int|
            0 <= i < a.len() && 0 <= j < b.len() ==> #[trigger] pair_score(a[i], b[j]) == 0,
    ensures
        lcs_score(a, b) == 0,
    decreases a, b.len(), 0int,
{
    if a.len() > 0 && b.len() > 0 {
        assert forall|i: int, j: int|
            0 <= i < a.drop_last().len() && 0 <= j < b.len() implies #[trigger] pair_score(
            a.drop_last()[i],
            b[j],
        ) == 0 by {
            assert(a.drop_last()[i] == a[i]);
        }
        assert forall|i: int, j: int|
            0 <= i < a.len() && 0 <= j < b.drop_last().len() implies #[trigger] pair_score(
            a[i],
            b.drop_last()[j],
        ) == 0 by {
            assert(b.drop_last()[j] == b[j]);
        }
        assert forall|i: int, j: int|
            0 <= i < a.drop_last().len() && 0 <= j < b.drop_last().len() implies #[trigger]
            pair_score(a.drop_last()[i], b.drop_last()[j]) == 0 by {
            assert(a.drop_last()[i] == a[i]);
            assert(b.drop_last()[j] == b[j]);
        }
        lemma_lcs_all_zero(a.drop_last(), b);
        lemma_lcs_all_zero(a, b.drop_last());
        lemma_lcs_all_zero(a.drop_last(), b.drop_last());
        assert(pair_score(a[a.len() - 1], b[b.len() - 1]) == 0);
    }
}

/// An order-agnostic alignment over sequences whose pairs all score zero
/// scores zero itself.
pub proof fn lemma_greedy_all_zero(ls: Seq<CSTNode>, rs: Seq<CSTNode>)
    requires
        forall|i: int, j: int|
            0 <= i < ls.len() && 0 <= j < rs.len() ==> #[trigger] pair_score(ls[i], rs[j]) == 0,
    ensures
        greedy_score(ls, rs) == 0,
    decreases ls, 0int, 0int,
{
    if ls.len() > 0 {
        assert forall|kk: int| 0 <= kk < rs.len() implies #[trigger] pair_score(ls[0], rs[kk])
            == 0 by {}
        lemma_best_pos_none(ls[0], rs, 0);
        assert forall|i: int, j: int|
            0 <= i < ls.drop_first().len() && 0 <= j < rs.len() implies #[trigger] pair_score(
            ls.drop_first()[i],
            rs[j],
        ) == 0 by {
            assert(ls.drop_first()[i] == ls[i + 1]);
        }
        lemma_greedy_all_zero(ls.drop_first(), rs);
    }
}

/// Containment in a subtree composes.
pub proof fn lemma_in_subtree_trans(t: CSTNode, m: CSTNode, x: CSTNode)
    requires
        t.in_subtree(m),
        m.in_subtree(x),
    ensures
        t.in_subtree(x),
    decreases t,
{
    if m != t {
        match t {
            CSTNode::Terminal(_) => {},
            CSTNode::NonTerminal(nt) => {
                let k = CSTNode::lemma_in_seq_witness(nt.children@, m);
                lemma_in_subtree_trans(nt.children@[k], m, x);
                CSTNode::lemma_in_seq_from_member(nt.children@, k, x);
            },
        }
    }
}

/// When no node of `l`'s subtree shares a kind with any node of `r`'s
/// subtree, every pair of their subtrees scores zero — so nothing
/// corresponds, at any depth.
pub proof fn lemma_no_shared_kinds_no_matches(l: CSTNode, r: CSTNode, a: CSTNode, b: CSTNode)
    requires
        l.kinds_disjoint(r),
        l.in_subtree(a),
        r.in_subtree(b),
    ensures
        pair_score(a, b) == 0,
    decreases a, 0int, 0int,
{
    assert(a.kind_spec() != b.kind_spec());
    match (a, b) {
        (CSTNode::NonTerminal(x), CSTNode::NonTerminal(y)) => {
            assert forall|i: int, j: int|
                0 <= i < x.children@.len() && 0 <= j < y.children@.len() implies #[trigger]
                pair_score(x.children@[i], y.children@[j]) == 0 by {
                assert(x.children@[i].in_subtree(x.children@[i]));
                CSTNode::lemma_in_seq_from_member(x.children@, i, x.children@[i]);
                assert(a.in_subtree(x.children@[i]));
                lemma_in_subtree_trans(l, a, x.children@[i]);
                assert(y.children@[j].in_subtree(y.children@[j]));
                CSTNode::lemma_in_seq_from_member(y.children@, j, y.children@[j]);
                assert(b.in_subtree(y.children@[j]));
                lemma_in_subtree_trans(r, b, y.children@[j]);
                lemma_no_shared_kinds_no_matches(l, r, x.children@[i], y.children@[j]);
            }
            if !x.are_children_unordered && !y.are_children_unordered {
                lemma_lcs_all_zero(x.children@, y.children@);
            } else {
                lemma_greedy_all_zero(x.children@, y.children@);
            }
        },
        _ => {},
    }
}

/// When no kinds are shared, the computed correspondences hold nothing
/// beyond the root record (which then scores zero itself).
pub proof fn lemma_no_shared_kinds_no_entries(l: CSTNode, r: CSTNode, recs: Seq<MatchingRecord>)
    requires
        l.kinds_disjoint(r),
        forall|k: int| 1 <= k < recs.len() ==> is_descendant_record(recs[k], l, r),
    ensures
        recs.len() <= 1,
{
    if recs.len() > 1 {
        assert(is_descendant_record(recs[1], l, r));
        let (a, b) = choose|a: CSTNode, b: CSTNode|
            #![trigger l.in_subtree(a), r.in_subtree(b)]
            l.in_subtree(a) && r.in_subtree(b) && recs[1].left_id == a.id_spec()
                && recs[1].right_id == b.id_spec() && recs[1].entry.score == pair_score(a, b)
                && recs[1].entry.is_perfect_match == spec_perfect(a, b) && pair_score(a, b) > 0;
        lemma_no_shared_kinds_no_matches(l, r, a, b);
        assert(false);
    }
}

/// Every node of either subtree carries its own identity: two nodes drawn
/// from the two subtrees with the same identity are the same node.  This is
/// the data model's invariant — identities are unique per node instance —
/// under which identity-keyed lookups speak for node pairs.
pub open spec fn distinct_identities(l: CSTNode, r: CSTNode) -> bool {
    forall|x: CSTNode, y: CSTNode|
        #![trigger x.id_spec(), y.id_spec()]
        (l.in_subtree(x) || r.in_subtree(x)) && (l.in_subtree(y) || r.in_subtree(y))
            && x.id_spec() == y.id_spec() ==> x == y
}

/// When no kinds are shared and identities are unique, a lookup in the
/// computed correspondences answers `None` for every pair of the two
/// subtrees' nodes other than the root pair itself.
pub proof fn lemma_no_shared_kinds_lookup_none(
    l: CSTNode,
    r: CSTNode,
    recs: Seq<MatchingRecord>,
    a: CSTNode,
    b: CSTNode,
)
    requires
        l.kinds_disjoint(r),
        distinct_identities(l, r),
        recs.len() <= 1,
        recs.len() == 1 ==> is_root_record(recs[0], l, r),
        l.in_subtree(a),
        r.in_subtree(b),
        !(a == l && b == r),
        !(a == r && b == l),
    ensures
        crate::matchings::lookup(recs, a.id_spec(), b.id_spec()) is None,
{
    if recs.len() == 1 {
        assert(l.in_subtree(l));
        assert(r.in_subtree(r));
        if crate::matchings::key_matches(recs[0], a.id_spec(), b.id_spec()) {
            if a.id_spec() == l.id_spec() && b.id_spec() == r.id_spec() {
                assert((l.in_subtree(a) || r.in_subtree(a)) && (l.in_subtree(l) || r.in_subtree(
                    l,
                )) && a.id_spec() == l.id_spec());
                assert(a == l);
                assert(b == r);
                assert(false);
            } else {
                assert(a.id_spec() == r.id_spec() && b.id_spec() == l.id_spec());
                assert((l.in_subtree(a) || r.in_subtree(a)) && (l.in_subtree(r) || r.in_subtree(
                    r,
                )) && a.id_spec() == r.id_spec());
                assert(a == r);
                assert(b == l);
                assert(false);
            }
        }
        assert(!crate::matchings::key_matches(recs[0], a.id_spec(), b.id_spec()));
        assert(recs.drop_first().len() == 0);
        assert(crate::matchings::lookup(recs.drop_first(), a.id_spec(), b.id_spec()) is None);
        assert(crate::matchings::lookup(recs, a.id_spec(), b.id_spec()) is None);
    }
}

/// A pair whose node counts differ is never a perfect match — in particular
/// a pair of interior nodes with differently sized subtrees, where any
/// alignment must leave some child unaligned.
pub proof fn lemma_count_mismatch_not_perfect(l: CSTNode, r: CSTNode)
    requires
        l.count() != r.count(),
    ensures
        !spec_perfect(l, r),
{
}

/// A pair whose score misses any node of either side is never a perfect
/// match.
pub proof fn lemma_partial_score_not_perfect(l: CSTNode, r: CSTNode)
    requires
        pair_score(l, r) < l.count() || pair_score(l, r) < r.count(),
    ensures
        !spec_perfect(l, r),
{
}

/// An ordered pair of interior nodes whose children alignment does not cover
/// every child node on both sides — some child is left unaligned, wholly or
/// in part — is never a perfect match.
pub proof fn lemma_unaligned_child_not_perfect(a: NonTerminal, b: NonTerminal)
    requires
        !a.are_children_unordered,
        !b.are_children_unordered,
        lcs_score(a.children@, b.children@) < CSTNode::count_seq(a.children@) || lcs_score(
            a.children@,
            b.children@,
        ) < CSTNode::count_seq(b.children@),
    ensures
        !spec_perfect(CSTNode::NonTerminal(a), CSTNode::NonTerminal(b)),
{
    let l = CSTNode::NonTerminal(a);
    let r = CSTNode::NonTerminal(b);
    assert(pair_score(l, r) == root_match(l, r) + lcs_score(a.children@, b.children@));
    assert(pair_score(l, r) < l.count() || pair_score(l, r) < r.count());
    lemma_partial_score_not_perfect(l, r);
}

/// Dropping the last left child never raises an ordered alignment's score.
pub proof fn lemma_lcs_drop_last_le(a: Seq<CSTNode>, b: Seq<CSTNode>)
    requires
        a.len() > 0,
    ensures
        lcs_score(a.drop_last(), b) <= lcs_score(a, b),
{
    if b.len() == 0 {
    }
}

/// `best_pos` ignores an appended child that scores zero.
pub proof fn lemma_best_pos_push(l: CSTNode, rs: Seq<CSTNode>, c: CSTNode, j0: int)
    requires
        pair_score(l, c) == 0,
        0 <= j0 <= rs.len(),
    ensures
        best_pos(l, rs.push(c), j0) == best_pos(l, rs, j0),
    decreases rs.len() - j0,
{
    assert(rs.push(c)[rs.len() as int] == c);
    if j0 < rs.len() {
        assert(rs.push(c)[j0] == rs[j0]);
        lemma_best_pos_push(l, rs, c, j0 + 1);
        lemma_best_pos(l, rs, j0 + 1);
        if best_pos(l, rs, j0 + 1) >= 0 {
            assert(rs.push(c)[best_pos(l, rs, j0 + 1)] == rs[best_pos(l, rs, j0 + 1)]);
        }
    } else {
        assert(best_pos(l, rs.push(c), j0 + 1) == -1);
        assert(best_pos(l, rs.push(c), j0) == -1);
    }
}

/// An ordered alignment is unchanged by appending a right child that scores
/// zero against every left child.
pub proof fn lemma_lcs_push_unmatched(a: Seq<CSTNode>, b: Seq<CSTNode>, c: CSTNode)
    requires
        forall|i: int| 0 <= i < a.len() ==> #[trigger] pair_score(a[i], c) == 0,
    ensures
        lcs_score(a, b.push(c)) == lcs_score(a, b),
    decreases a.len(),
{
    if a.len() == 0 {
    } else {
        assert forall|i: int| 0 <= i < a.drop_last().len() implies #[trigger] pair_score(
            a.drop_last()[i],
            c,
        ) == 0 by {
            assert(a.drop_last()[i] == a[i]);
        }
        lemma_lcs_push_unmatched(a.drop_last(), b, c);
        assert(b.push(c).drop_last() =~= b);
        assert(b.push(c)[b.push(c).len() - 1] == c);
        assert(pair_score(a[a.len() - 1], c) == 0);
        lemma_lcs_drop_last_le(a, b);
    }
}

/// An order-agnostic alignment is unchanged by appending a right child that
/// scores zero against every left child.
pub proof fn lemma_greedy_push_unmatched(ls: Seq<CSTNode>, rs: Seq<CSTNode>, c: CSTNode)
    requires
        forall|i: int| 0 <= i < ls.len() ==> #[trigger] pair_score(ls[i], c) == 0,
    ensures
        greedy_score(ls, rs.push(c)) == greedy_score(ls, rs),
    decreases ls.len(),
{
    if ls.len() > 0 {
        assert forall|i: int| 0 <= i < ls.drop_first().len() implies #[trigger] pair_score(
            ls.drop_first()[i],
            c,
        ) == 0 by {
            assert(ls.drop_first()[i] == ls[i + 1]);
        }
        assert(pair_score(ls[0], c) == 0);
        lemma_best_pos_push(ls[0], rs, c, 0);
        let j = best_pos(ls[0], rs, 0);
        if j < 0 {
            lemma_greedy_push_unmatched(ls.drop_first(), rs, c);
        } else {
            lemma_best_pos(ls[0], rs, 0);
            assert(rs.push(c)[j] == rs[j]);
            assert(rs.push(c).remove(j) =~= rs.remove(j).push(c));
            lemma_greedy_push_unmatched(ls.drop_first(), rs.remove(j), c);
        }
    }
}

/// Adding to one side a sibling that corresponds to nothing on the other
/// side leaves the pair's score exactly as it was — and the grown pair can
/// no longer be a perfect match, since the new child stays unaligned.
/// Every other pair's score is untouched, a pair's score being a function of
/// the two subtrees alone.
pub proof fn lemma_unmatched_sibling(
    lnt: NonTerminal,
    rnt: NonTerminal,
    rnt2: NonTerminal,
    c: CSTNode,
)
    requires
        rnt2.kind@ == rnt.kind@,
        rnt2.are_children_unordered == rnt.are_children_unordered,
        rnt2.children@ == rnt.children@.push(c),
        forall|i: int|
            0 <= i < lnt.children@.len() ==> #[trigger] pair_score(lnt.children@[i], c) == 0,
    ensures
        pair_score(CSTNode::NonTerminal(lnt), CSTNode::NonTerminal(rnt2)) == pair_score(
            CSTNode::NonTerminal(lnt),
            CSTNode::NonTerminal(rnt),
        ),
        !spec_perfect(CSTNode::NonTerminal(lnt), CSTNode::NonTerminal(rnt2)),
{
    if !lnt.are_children_unordered && !rnt.are_children_unordered {
        lemma_lcs_push_unmatched(lnt.children@, rnt.children@, c);
    } else {
        lemma_greedy_push_unmatched(lnt.children@, rnt.children@, c);
    }
    lemma_pair_score_le_count(CSTNode::NonTerminal(lnt), CSTNode::NonTerminal(rnt));
    lemma_count_seq_drop_last(rnt2.children@);
    assert(rnt2.children@.drop_last() =~= rnt.children@);
    CSTNode::lemma_count_at_least_one(c);
}

/// The subtrees of a children sequence named by a sequence of indices.
pub open spec fn map_indices(rs: Seq<CSTNode>, idx: Seq<usize>) -> Seq<CSTNode> {
    Seq::new(idx.len(), |k: int| rs[idx[k] as int])
}

/// Scans the still-unpaired right children for the best-scoring one against
/// `lc`, keeping the earliest on ties; returns its position in `remaining`,
/// the score, and the pair's correspondences.
fn find_best_match(lc: &CSTNode, rs: &Vec<CSTNode>, remaining: &Vec<usize>) -> (r: Option<
    (usize, usize, Matchings),
>)
    requires
        lc.count() <= usize::MAX,
        forall|k: int| 0 <= k < remaining@.len() ==> #[trigger] remaining@[k] < rs@.len(),
        forall|k: int| 0 <= k < rs@.len() ==> #[trigger] rs@[k].count() <= usize::MAX,
    ensures
        r is None ==> best_pos(*lc, map_indices(rs@, remaining@), 0) == -1,
        r matches Some(p) ==> p.0 < remaining@.len() && best_pos(
            *lc,
            map_indices(rs@, remaining@),
            0,
        ) == p.0 && p.1 == pair_score(*lc, rs@[remaining@[p.0 as int] as int]) && p.1 > 0
            && p.2@.len() >= 1 && is_root_record(p.2@[0], *lc, rs@[remaining@[p.0 as int] as int])
            && (forall|kk: int|
            1 <= kk < p.2@.len() ==> is_descendant_record(
                p.2@[kk],
                *lc,
                rs@[remaining@[p.0 as int] as int],
            )) && p.2@ == matchings_of(*lc, rs@[remaining@[p.0 as int] as int]),
    decreases *lc, 1int,
{
    let ghost ms = map_indices(rs@, remaining@);
    let mut k: usize = 0;
    let mut best_k: usize = 0;
    let mut best_s: usize = 0;
    while k < remaining.len()
        invariant
            k <= remaining@.len(),
            ms == map_indices(rs@, remaining@),
            lc.count() <= usize::MAX,
            forall|kk: int| 0 <= kk < remaining@.len() ==> #[trigger] remaining@[kk] < rs@.len(),
            forall|kk: int| 0 <= kk < rs@.len() ==> #[trigger] rs@[kk].count() <= usize::MAX,
            best_s == 0 ==> forall|kk: int|
                0 <= kk < k ==> #[trigger] pair_score(*lc, ms[kk]) == 0,
            best_s > 0 ==> best_k < k && best_s == pair_score(*lc, ms[best_k as int]) && (
            forall|kk: int| 0 <= kk < k ==> #[trigger] pair_score(*lc, ms[kk]) <= best_s) && (
            forall|kk: int| 0 <= kk < best_k ==> #[trigger] pair_score(*lc, ms[kk]) < best_s),
        decreases remaining@.len() - k,
    {
        let idx = remaining[k];
        let w = calculate_matchings(lc, &rs[idx]);
        let e = w.get_matching_entry(lc, &rs[idx]);
        let s: usize = match e {
            Some(en) => en.score,
            None => 0,
        };
        proof {
            lemma_entry_score(w@, *lc, rs@[idx as int]);
            assert(ms[k as int] == rs@[idx as int]);
        }
        if s > best_s {
            best_k = k;
            best_s = s;
        }
        k = k + 1;
    }
    if best_s > 0 {
        proof {
            lemma_best_pos_at(*lc, ms, 0, best_k as int);
        }
        let idx = remaining[best_k];
        let w = calculate_matchings(lc, &rs[idx]);
        let e = w.get_matching_entry(lc, &rs[idx]);
        proof {
            lemma_entry_score(w@, *lc, rs@[idx as int]);
            assert(ms[best_k as int] == rs@[idx as int]);
        }
        match e {
            Some(en) => Some((best_k, en.score, w)),
            None => {
                proof {
                    assert(false);
                }
                None
            },
        }
    } else {
        proof {
            lemma_best_pos_none(*lc, ms, 0);
        }
        None
    }
}

/// Aligns the children of two interior nodes whose order is not significant:
/// each left child, in order, is paired with the best-scoring still-unpaired
/// right child, the earliest on ties.  Returns the total score of the paired
/// children and their correspondences.
fn unordered_alignment(a: &NonTerminal, b: &NonTerminal) -> (r: (usize, Matchings))
    requires
        CSTNode::count_seq(a.children@) + 1 <= usize::MAX,
        CSTNode::count_seq(b.children@) + 1 <= usize::MAX,
    ensures
        r.0 == greedy_score(a.children@, b.children@),
        forall|k: int| 0 <= k < r.1@.len() ==> is_child_record(r.1@[k], a.children@, b.children@),
        r.1@ == greedy_entries(a.children@, b.children@),
    decreases *a, 1int,
{
    let m = a.children.len();
    let n = b.children.len();
    proof {
        CSTNode::lemma_count_seq_bounds(a.children@);
        CSTNode::lemma_count_seq_bounds(b.children@);
        lemma_greedy_le_counts(a.children@, b.children@);
    }
    let mut remaining: Vec<usize> = Vec::new();
    let mut t: usize = 0;
    while t < n
        invariant
            t <= n,
            n == b.children@.len(),
            remaining@.len() == t,
            forall|k: int| 0 <= k < t ==> #[trigger] remaining@[k] == k,
        decreases n - t,
    {
        remaining.push(t);
        t = t + 1;
    }
    proof {
        assert(map_indices(b.children@, remaining@) =~= b.children@);
        assert(a.children@.skip(0) =~= a.children@);
    }
    let mut total: usize = 0;
    let mut desc = Matchings::empty();
    proof {
        assert(desc@ + greedy_entries(
            a.children@.skip(0),
            map_indices(b.children@, remaining@),
        ) =~= greedy_entries(a.children@, b.children@));
    }
    let mut i: usize = 0;
    while i < m
        invariant
            i <= m,
            m == a.children@.len(),
            CSTNode::count_seq(a.children@) + 1 <= usize::MAX,
            CSTNode::count_seq(b.children@) + 1 <= usize::MAX,
            forall|k: int|
                0 <= k < a.children@.len() ==> #[trigger] a.children@[k].count() <= usize::MAX,
            forall|k: int|
                0 <= k < b.children@.len() ==> #[trigger] b.children@[k].count() <= usize::MAX,
            forall|k: int|
                0 <= k < remaining@.len() ==> #[trigger] remaining@[k] < b.children@.len(),
            total + greedy_score(a.children@.skip(i as int), map_indices(b.children@, remaining@))
                == greedy_score(a.children@, b.children@),
            greedy_entries(a.children@, b.children@) == desc@ + greedy_entries(
                a.children@.skip(i as int),
                map_indices(b.children@, remaining@),
            ),
            greedy_score(a.children@, b.children@) <= CSTNode::count_seq(a.children@),
            forall|k: int|
                0 <= k < desc@.len() ==> is_child_record(desc@[k], a.children@, b.children@),
        decreases m - i,
    {
        let ghost ls = a.children@;
        let ghost rem0 = remaining@;
        let res = find_best_match(&a.children[i], &b.children, &remaining);
        proof {
            assert(ls.skip(i as int)[0] == ls[i as int]);
            assert(ls.skip(i as int).drop_first() =~= ls.skip(i as int + 1));
        }
        match res {
            None => {
                proof {
                    assert(greedy_score(ls.skip(i as int), map_indices(b.children@, rem0))
                        == greedy_score(ls.skip(i as int + 1), map_indices(b.children@, rem0)));
                    assert(greedy_entries(ls.skip(i as int), map_indices(b.children@, rem0))
                        == greedy_entries(
                        ls.skip(i as int + 1),
                        map_indices(b.children@, rem0),
                    ));
                }
            },
            Some((k, s, w)) => {
                let ghost rc = b.children@[rem0[k as int] as int];
                proof {
                    assert(map_indices(b.children@, rem0)[k as int] == rc);
                    assert(greedy_score(ls.skip(i as int), map_indices(b.children@, rem0)) == s
                        + greedy_score(
                        ls.skip(i as int + 1),
                        map_indices(b.children@, rem0).remove(k as int),
                    ));
                    assert(greedy_entries(ls.skip(i as int), map_indices(b.children@, rem0))
                        == matchings_of(ls[i as int], rc) + greedy_entries(
                        ls.skip(i as int + 1),
                        map_indices(b.children@, rem0).remove(k as int),
                    ));
                }
                total = total + s;
                let ghost desc0 = desc@;
                desc.extend(&w);
                proof {
                    assert(pair_score(ls[i as int], rc) > 0);
                    if !compatible(ls[i as int], rc) {
                        lemma_incompatible_zero(ls[i as int], rc);
                    }
                    assert(compatible(ls[i as int], rc));
                    assert(ls[i as int].in_subtree(ls[i as int]));
                    CSTNode::lemma_in_seq_from_member(ls, i as int, ls[i as int]);
                    assert(rc.in_subtree(rc));
                    CSTNode::lemma_in_seq_from_member(
                        b.children@,
                        rem0[k as int] as int,
                        rc,
                    );
                    assert forall|kk: int| 0 <= kk < desc@.len() implies is_child_record(
                        desc@[kk],
                        a.children@,
                        b.children@,
                    ) by {
                        if kk >= desc0.len() + w@.len() {
                        } else if kk < desc0.len() {
                        } else {
                            let wk = kk - desc0.len();
                            if wk == 0 {
                                assert(is_root_record(w@[0], ls[i as int], rc));
                                assert(is_child_record(desc@[kk], a.children@, b.children@));
                            } else {
                                assert(is_descendant_record(w@[wk], ls[i as int], rc));
                                let (x, y) = choose|x: CSTNode, y: CSTNode|
                                    #![trigger ls[i as int].in_subtree(x), rc.in_subtree(y)]
                                    ls[i as int].in_subtree(x) && rc.in_subtree(y)
                                        && w@[wk].left_id == x.id_spec() && w@[wk].right_id
                                        == y.id_spec() && w@[wk].entry.score == pair_score(x, y)
                                        && w@[wk].entry.is_perfect_match == spec_perfect(x, y)
                                        && pair_score(x, y) > 0;
                                CSTNode::lemma_in_seq_from_member(ls, i as int, x);
                                CSTNode::lemma_in_seq_from_member(
                                    b.children@,
                                    rem0[k as int] as int,
                                    y,
                                );
                                assert(is_child_record(desc@[kk], a.children@, b.children@));
                            }
                        }
                    }
                }
                remaining.remove(k);
                proof {
                    assert forall|x: int|
                        0 <= x < remaining@.len() implies #[trigger] map_indices(
                        b.children@,
                        remaining@,
                    )[x] == map_indices(b.children@, rem0).remove(k as int)[x] by {
                        if x < k {
                        } else {
                        }
                    }
                    assert(map_indices(b.children@, remaining@) =~= map_indices(
                        b.children@,
                        rem0,
                    ).remove(k as int));
                    assert(desc@ =~= desc0 + w@);
                    assert(greedy_entries(ls, b.children@) =~= desc@ + greedy_entries(
                        ls.skip(i as int + 1),
                        map_indices(b.children@, remaining@),
                    ));
                }
            },
        }
        i = i + 1;
    }
    proof {
        assert(a.children@.skip(m as int).len() == 0);
        assert(greedy_score(a.children@.skip(m as int), map_indices(b.children@, remaining@))
            == 0);
        assert(greedy_entries(a.children@.skip(m as int), map_indices(b.children@, remaining@))
            =~= Seq::<MatchingRecord>::empty());
        assert(desc@ =~= greedy_entries(a.children@, b.children@));
    }
    (total, desc)
}

/// Aligns the children of two interior nodes whose order is significant, by
/// weighted sequence alignment: a score matrix over prefixes is filled, and
/// the alignment is then reconstructed from that matrix.  Returns the best
/// total score of an order-preserving alignment, and the correspondences of
/// every aligned, positively-scoring child pair.
fn ordered_alignment(a: &NonTerminal, b: &NonTerminal) -> (r: (usize, Matchings))
    requires
        CSTNode::count_seq(a.children@) + 1 <= usize::MAX,
        CSTNode::count_seq(b.children@) + 1 <= usize::MAX,
    ensures
        r.0 == lcs_score(a.children@, b.children@),
        forall|k: int| 0 <= k < r.1@.len() ==> is_child_record(r.1@[k], a.children@, b.children@),
        r.1@ == bt_entries(
            a.children@,
            b.children@,
            a.children@.len() as int,
            b.children@.len() as int,
        ),
    decreases *a, 1int,
{
    let m = a.children.len();
    let n = b.children.len();
    proof {
        CSTNode::lemma_count_seq_bounds(a.children@);
        CSTNode::lemma_count_seq_bounds(b.children@);
        assert(m < usize::MAX);
        assert(n < usize::MAX);
    }
    let mut row0: Vec<usize> = Vec::new();
    let mut j0: usize = 0;
    while j0 <= n
        invariant
            j0 <= n + 1,
            n < usize::MAX,
            n == b.children@.len(),
            row0@.len() == j0,
            forall|jj: int| 0 <= jj < j0 ==> #[trigger] row0@[jj] == 0,
        decreases n + 1 - j0,
    {
        row0.push(0);
        j0 = j0 + 1;
    }
    let mut rows: Vec<Vec<usize>> = Vec::new();
    rows.push(row0);
    proof {
        assert forall|jj: int| 0 <= jj <= n implies rows@[0]@[jj] == lcs_score(
            a.children@.take(0),
            b.children@.take(jj),
        ) by {
            assert(a.children@.take(0).len() == 0);
        }
    }
    let mut i: usize = 1;
    while i <= m
        invariant
            1 <= i <= m + 1,
            m < usize::MAX,
            n < usize::MAX,
            m == a.children@.len(),
            n == b.children@.len(),
            CSTNode::count_seq(a.children@) + 1 <= usize::MAX,
            CSTNode::count_seq(b.children@) + 1 <= usize::MAX,
            forall|k: int|
                0 <= k < a.children@.len() ==> #[trigger] a.children@[k].count() <= usize::MAX,
            forall|k: int|
                0 <= k < b.children@.len() ==> #[trigger] b.children@[k].count() <= usize::MAX,
            rows@.len() == i,
            forall|ii: int| 0 <= ii < i ==> #[trigger] rows@[ii]@.len() == n + 1,
            forall|ii: int, jj: int|
                0 <= ii < i && 0 <= jj <= n ==> #[trigger] rows@[ii]@[jj] == lcs_score(
                    a.children@.take(ii),
                    b.children@.take(jj),
                ),
        decreases m + 1 - i,
    {
        let mut cur: Vec<usize> = Vec::new();
        cur.push(0);
        proof {
            assert(b.children@.take(0).len() == 0);
        }
        let mut j: usize = 1;
        while j <= n
            invariant
                1 <= j <= n + 1,
                1 <= i <= m,
                m < usize::MAX,
                n < usize::MAX,
                m == a.children@.len(),
                n == b.children@.len(),
                CSTNode::count_seq(a.children@) + 1 <= usize::MAX,
                CSTNode::count_seq(b.children@) + 1 <= usize::MAX,
                forall|k: int|
                    0 <= k < a.children@.len() ==> #[trigger] a.children@[k].count()
                        <= usize::MAX,
                forall|k: int|
                    0 <= k < b.children@.len() ==> #[trigger] b.children@[k].count()
                        <= usize::MAX,
                rows@.len() == i,
                forall|ii: int| 0 <= ii < i ==> #[trigger] rows@[ii]@.len() == n + 1,
                forall|ii: int, jj: int|
                    0 <= ii < i && 0 <= jj <= n ==> #[trigger] rows@[ii]@[jj] == lcs_score(
                        a.children@.take(ii),
                        b.children@.take(jj),
                    ),
                cur@.len() == j,
                forall|jj: int|
                    0 <= jj < j ==> #[trigger] cur@[jj] == lcs_score(
                        a.children@.take(i as int),
                        b.children@.take(jj),
                    ),
            decreases n + 1 - j,
        {
            let w = calculate_matchings(&a.children[i - 1], &b.children[j - 1]);
            let e = w.get_matching_entry(&a.children[i - 1], &b.children[j - 1]);
            let s: usize = match e {
                Some(en) => en.score,
                None => 0,
            };
            let down = rows[i - 1][j];
            let left_ = cur[j - 1];
            let diag = rows[i - 1][j - 1];
            proof {
                lemma_entry_score(w@, a.children@[i - 1], b.children@[j - 1]);
                lemma_lcs_le_counts(a.children@.take(i - 1), b.children@.take(j - 1));
                lemma_pair_score_le_count(a.children@[i - 1], b.children@[j - 1]);
                CSTNode::lemma_count_seq_split(a.children@, i - 1);
                CSTNode::lemma_count_seq_take_skip(a.children@, i as int);
                CSTNode::lemma_count_seq_bounds(a.children@.take(i - 1));
                assert(CSTNode::count_seq(a.children@.take(i as int)) == CSTNode::count_seq(
                    a.children@.take(i - 1),
                ) + a.children@[i - 1].count());
            }
            let v: usize = if left_ > down {
                if left_ > diag + s {
                    left_
                } else {
                    diag + s
                }
            } else {
                if down > diag + s {
                    down
                } else {
                    diag + s
                }
            };
            proof {
                assert(a.children@.take(i as int).drop_last() =~= a.children@.take(i - 1));
                assert(b.children@.take(j as int).drop_last() =~= b.children@.take(j - 1));
                assert(a.children@.take(i as int)[i - 1] == a.children@[i - 1]);
                assert(b.children@.take(j as int)[j - 1] == b.children@[j - 1]);
                assert(v == lcs_score(a.children@.take(i as int), b.children@.take(j as int)));
            }
            cur.push(v);
            j = j + 1;
        }
        rows.push(cur);
        i = i + 1;
    }
    let mut desc = Matchings::empty();
    let mut bi = m;
    let mut bj = n;
    proof {
        assert(desc@ + bt_entries(a.children@, b.children@, m as int, n as int) =~= bt_entries(
            a.children@,
            b.children@,
            m as int,
            n as int,
        ));
    }
    while bi >= 1 && bj >= 1
        invariant
            bi <= m,
            bj <= n,
            m == a.children@.len(),
            n == b.children@.len(),
            CSTNode::count_seq(a.children@) + 1 <= usize::MAX,
            CSTNode::count_seq(b.children@) + 1 <= usize::MAX,
            forall|k: int|
                0 <= k < a.children@.len() ==> #[trigger] a.children@[k].count() <= usize::MAX,
            forall|k: int|
                0 <= k < b.children@.len() ==> #[trigger] b.children@[k].count() <= usize::MAX,
            rows@.len() == m + 1,
            forall|ii: int| 0 <= ii <= m ==> #[trigger] rows@[ii]@.len() == n + 1,
            forall|ii: int, jj: int|
                0 <= ii <= m && 0 <= jj <= n ==> #[trigger] rows@[ii]@[jj] == lcs_score(
                    a.children@.take(ii),
                    b.children@.take(jj),
                ),
            forall|k: int|
                0 <= k < desc@.len() ==> is_child_record(desc@[k], a.children@, b.children@),
            bt_entries(a.children@, b.children@, m as int, n as int) == desc@ + bt_entries(
                a.children@,
                b.children@,
                bi as int,
                bj as int,
            ),
        decreases bi + bj,
    {
        let ghost bi0 = bi as int;
        let ghost bj0 = bj as int;
        let ghost lc = a.children@[bi - 1];
        let ghost rc = b.children@[bj - 1];
        let w = calculate_matchings(&a.children[bi - 1], &b.children[bj - 1]);
        let e = w.get_matching_entry(&a.children[bi - 1], &b.children[bj - 1]);
        let s: usize = match e {
            Some(en) => en.score,
            None => 0,
        };
        proof {
            lemma_entry_score(w@, lc, rc);
            lemma_lcs_le_counts(a.children@.take(bi - 1), b.children@.take(bj - 1));
            lemma_pair_score_le_count(lc, rc);
            CSTNode::lemma_count_seq_split(a.children@, bi - 1);
            CSTNode::lemma_count_seq_take_skip(a.children@, bi as int);
            CSTNode::lemma_count_seq_bounds(a.children@.take(bi - 1));
        }
        let down = rows[bi - 1][bj];
        let left_ = rows[bi][bj - 1];
        let diag = rows[bi - 1][bj - 1];
        let curv = rows[bi][bj];
        if left_ > down && left_ > diag + s {
            bj = bj - 1;
            proof {
                assert(bt_entries(a.children@, b.children@, bi0, bj0) == bt_entries(
                    a.children@,
                    b.children@,
                    bi0,
                    bj0 - 1,
                ));
            }
        } else if !(left_ > down) && down > diag + s {
            bi = bi - 1;
            proof {
                assert(bt_entries(a.children@, b.children@, bi0, bj0) == bt_entries(
                    a.children@,
                    b.children@,
                    bi0 - 1,
                    bj0,
                ));
            }
        } else {
            if curv > diag {
                proof {
                    assert(a.children@.take(bi as int).drop_last() =~= a.children@.take(bi - 1));
                    assert(b.children@.take(bj as int).drop_last() =~= b.children@.take(bj - 1));
                    assert(a.children@.take(bi as int)[bi - 1] == lc);
                    assert(b.children@.take(bj as int)[bj - 1] == rc);
                    assert(curv <= diag + s);
                    assert(s > 0);
                    assert(pair_score(lc, rc) > 0);
                    if !compatible(lc, rc) {
                        lemma_incompatible_zero(lc, rc);
                    }
                    assert(compatible(lc, rc));
                }
                let ghost desc0 = desc@;
                desc.extend(&w);
                proof {
                    assert(lc.in_subtree(lc));
                    CSTNode::lemma_in_seq_from_member(a.children@, bi - 1, lc);
                    assert(rc.in_subtree(rc));
                    CSTNode::lemma_in_seq_from_member(b.children@, bj - 1, rc);
                    assert forall|kk: int| 0 <= kk < desc@.len() implies is_child_record(
                        desc@[kk],
                        a.children@,
                        b.children@,
                    ) by {
                        if kk < desc0.len() {
                        } else {
                            let wk = kk - desc0.len();
                            if wk == 0 {
                                assert(is_root_record(w@[0], lc, rc));
                                assert(is_child_record(desc@[kk], a.children@, b.children@));
                            } else {
                                assert(is_descendant_record(w@[wk], lc, rc));
                                let (x, y) = choose|x: CSTNode, y: CSTNode|
                                    #![trigger lc.in_subtree(x), rc.in_subtree(y)]
                                    lc.in_subtree(x) && rc.in_subtree(y) && w@[wk].left_id
                                        == x.id_spec() && w@[wk].right_id == y.id_spec()
                                        && w@[wk].entry.score == pair_score(x, y)
                                        && w@[wk].entry.is_perfect_match == spec_perfect(x, y)
                                        && pair_score(x, y) > 0;
                                CSTNode::lemma_in_seq_from_member(a.children@, bi - 1, x);
                                CSTNode::lemma_in_seq_from_member(b.children@, bj - 1, y);
                                assert(is_child_record(desc@[kk], a.children@, b.children@));
                            }
                        }
                    }
                    assert(desc@ =~= desc0 + w@);
                    assert(bt_entries(a.children@, b.children@, bi0, bj0) == matchings_of(lc, rc)
                        + bt_entries(a.children@, b.children@, bi0 - 1, bj0 - 1));
                    assert(bt_entries(a.children@, b.children@, m as int, n as int) =~= desc@
                        + bt_entries(a.children@, b.children@, bi0 - 1, bj0 - 1));
                }
            } else {
                proof {
                    assert(bt_entries(a.children@, b.children@, bi0, bj0) =~= Seq::<
                        MatchingRecord,
                    >::empty() + bt_entries(a.children@, b.children@, bi0 - 1, bj0 - 1));
                    assert(bt_entries(a.children@, b.children@, bi0, bj0) =~= bt_entries(
                        a.children@,
                        b.children@,
                        bi0 - 1,
                        bj0 - 1,
                    ));
                }
            }
            bi = bi - 1;
            bj = bj - 1;
        }
    }
    let score = rows[m][n];
    proof {
        assert(a.children@.take(m as int) =~= a.children@);
        assert(b.children@.take(n as int) =~= b.children@);
        assert(bt_entries(a.children@, b.children@, bi as int, bj as int) =~= Seq::<
            MatchingRecord,
        >::empty());
        assert(desc@ =~= bt_entries(a.children@, b.children@, m as int, n as int));
    }
    (score, desc)
}

/// Computes the set of correspondences between the descendants of `left` and
/// `right`, together with their scores.
///
/// Two matched terminals yield a single perfect entry of score one; two
/// interior nodes yield one entry for the root pair — scored by the aligned
/// children's total plus one when the root kinds agree — unioned with the
/// correspondences of every positively-scoring aligned descendant pair; any
/// other combination yields no correspondence at all.
pub fn calculate_matchings(left: &CSTNode, right: &CSTNode) -> (result: Matchings)
    requires
        left.count() <= usize::MAX,
        right.count() <= usize::MAX,
    ensures
        !compatible(*left, *right) ==> result@.len() == 0,
        compatible(*left, *right) ==> result@.len() >= 1 && is_root_record(
            result@[0],
            *left,
            *right,
        ),
        forall|k: int| 1 <= k < result@.len() ==> is_descendant_record(result@[k], *left, *right),
        left.isomorphic(*right) ==> pair_score(*left, *right) == left.count() && spec_perfect(
            *left,
            *right,
        ),
        left.kinds_disjoint(*right) ==> result@.len() <= 1,
        result@ == matchings_of(*left, *right),
    decreases *left, 0int,
{
    proof {
        if left.isomorphic(*right) {
            lemma_identical_subtrees_perfect(*left, *right);
        }
    }
    match (left, right) {
        (CSTNode::Terminal(lt), CSTNode::Terminal(rt)) => {
            if lt.kind == rt.kind && lt.value == rt.value {
                let entry = MatchingEntry::new(left, right, 1);
                let result = Matchings::from_single(left, right, entry);
                proof {
                    assert(terminal_matched(*left, *right));
                    assert(pair_score(*left, *right) == 1);
                    assert(left.count() == 1 && right.count() == 1);
                    assert(is_root_record(result@[0], *left, *right));
                    assert(result@[0] == pair_record(*left, *right));
                    assert(result@ =~= matchings_of(*left, *right));
                }
                result
            } else {
                let result = Matchings::empty();
                proof {
                    assert(result@ =~= matchings_of(*left, *right));
                }
                result
            }
        },
        (CSTNode::NonTerminal(a), CSTNode::NonTerminal(b)) => {
            proof {
                assert(left.count() == 1 + CSTNode::count_seq(a.children@));
                assert(right.count() == 1 + CSTNode::count_seq(b.children@));
            }
            let root_m: usize = if a.kind == b.kind {
                1
            } else {
                0
            };
            let ordered = !a.are_children_unordered && !b.are_children_unordered;
            let (child_score, desc) = if ordered {
                ordered_alignment(a, b)
            } else {
                unordered_alignment(a, b)
            };
            proof {
                if ordered {
                    lemma_lcs_le_counts(a.children@, b.children@);
                } else {
                    lemma_greedy_le_counts(a.children@, b.children@);
                }
                assert(root_m == root_match(*left, *right));
            }
            let total = child_score + root_m;
            let entry = MatchingEntry::new(left, right, total);
            let mut result = Matchings::from_single(left, right, entry);
            result.extend(&desc);
            proof {
                assert(pair_score(*left, *right) == total);
                assert(is_root_record(result@[0], *left, *right));
                assert forall|k: int| 1 <= k < result@.len() implies is_descendant_record(
                    result@[k],
                    *left,
                    *right,
                ) by {
                    assert(is_child_record(desc@[k - 1], a.children@, b.children@));
                    let (x, y) = choose|x: CSTNode, y: CSTNode|
                        #![trigger CSTNode::in_seq(a.children@, x), CSTNode::in_seq(b.children@, y)]
                        CSTNode::in_seq(a.children@, x) && CSTNode::in_seq(b.children@, y)
                            && desc@[k - 1].left_id == x.id_spec() && desc@[k - 1].right_id
                            == y.id_spec() && desc@[k - 1].entry.score == pair_score(x, y)
                            && desc@[k - 1].entry.is_perfect_match == spec_perfect(x, y)
                            && pair_score(x, y) > 0;
                    assert(left.in_subtree(x));
                    assert(right.in_subtree(y));
                    assert(is_descendant_record(result@[k], *left, *right));
                }
                if left.kinds_disjoint(*right) {
                    lemma_no_shared_kinds_no_entries(*left, *right, result@);
                }
                lemma_pair_score_le_count(*left, *right);
                assert(result@[0] == pair_record(*left, *right));
                assert(result@ =~= matchings_of(*left, *right));
            }
            result
        },
        _ => {
            let result = Matchings::empty();
            proof {
                assert(result@ =~= matchings_of(*left, *right));
            }
            result
        },
    }
}

} // verus!
