//! Reconciliation of the children of three interior nodes whose order is not
//! significant.
//!
//! The children are treated as a set; `um_rel_left` and `um_rel_right` state
//! the reconciliation as a relation and the function is proved against it.
//! Each left child is paired with the first not-yet-consumed right child the
//! correspondence set aligns it with, wherever that child stands; an aligned
//! pair is merged as in the ordered reconciliation.  A left child aligned
//! with nothing is an insertion (kept), an accepted deletion (dropped) or a
//! modification concurrent with a deletion (a conflict marker), according to
//! its correspondence with base; the right children left unconsumed are then
//! handled the same way.  Only membership and the per-element outcome are
//! preserved, not position.

use vstd::prelude::*;

use crate::cst_node::CSTNode;
use crate::cst_node::NonTerminal;
use crate::log_structures::lemma_log_preserved_trans;
use crate::log_structures::log_preserved;
use crate::log_structures::LogState;
use crate::matchings::MatchingEntry;
use crate::matchings::MatchingRecord;
use crate::matchings::Matchings;
use crate::merge::find_base_child;
use crate::merge::first_match_idx;
use crate::merge::handle_solo;
use crate::merge::merge;
use crate::merge::merge_ok_rel;
use crate::merge::solo_count;
use crate::merge::solo_head_ok;
use crate::merge_error::MergeError;
use crate::merged_cst_node::is_conflict_both;
use crate::merged_cst_node::to_merged;
use crate::merged_cst_node::MergedCSTNode;

verus! {

/// The correspondence stored for the identity `id` and the right child at
/// `j`.
pub open spec fn partner_lookup(
    rcs: Seq<CSTNode>,
    lr: Seq<MatchingRecord>,
    id: u64,
    j: int,
) -> Option<MatchingEntry> {
    crate::matchings::lookup(lr, id, rcs[j].id_spec())
}

/// The first right child, at or after `j`, that is not yet consumed and that
/// `lr` aligns with the identity `id`, or -1 when there is none.
pub open spec fn partner_idx(
    rcs: Seq<CSTNode>,
    lr: Seq<MatchingRecord>,
    id: u64,
    consumed: Seq<usize>,
    j: int,
) -> int
    decreases rcs.len() - j,
{
    if j < 0 || j >= rcs.len() {
        -1
    } else if !consumed.contains(j as usize) && partner_lookup(rcs, lr, id, j) is Some {
        j
    } else {
        partner_idx(rcs, lr, id, consumed, j + 1)
    }
}

/// `partner_idx` lands on `k` when everything before `k` is consumed or
/// unaligned and `k` is neither.
pub proof fn lemma_partner_at(
    rcs: Seq<CSTNode>,
    lr: Seq<MatchingRecord>,
    id: u64,
    consumed: Seq<usize>,
    j0: int,
    k: int,
)
    requires
        0 <= j0 <= k < rcs.len(),
        forall|jj: int|
            j0 <= jj < k ==> consumed.contains(jj as usize) || #[trigger] partner_lookup(
                rcs,
                lr,
                id,
                jj,
            ) is None,
        !consumed.contains(k as usize),
        partner_lookup(rcs, lr, id, k) is Some,
    ensures
        partner_idx(rcs, lr, id, consumed, j0) == k,
    decreases k - j0,
{
    if j0 < k {
        assert(consumed.contains(j0 as usize) || partner_lookup(rcs, lr, id, j0) is None);
        lemma_partner_at(rcs, lr, id, consumed, j0 + 1, k);
    }
}

/// `partner_idx` finds nothing when every right child is consumed or
/// unaligned.
pub proof fn lemma_partner_none(
    rcs: Seq<CSTNode>,
    lr: Seq<MatchingRecord>,
    id: u64,
    consumed: Seq<usize>,
    j0: int,
)
    requires
        0 <= j0 <= rcs.len(),
        forall|jj: int|
            j0 <= jj < rcs.len() ==> consumed.contains(jj as usize) || #[trigger] partner_lookup(
                rcs,
                lr,
                id,
                jj,
            ) is None,
    ensures
        partner_idx(rcs, lr, id, consumed, j0) == -1,
    decreases rcs.len() - j0,
{
    if j0 < rcs.len() {
        assert(consumed.contains(j0 as usize) || partner_lookup(rcs, lr, id, j0) is None);
        lemma_partner_none(rcs, lr, id, consumed, j0 + 1);
    }
}

/// The second pass as a relation: `out` is what resolving the not-yet
/// consumed right children from `j` on appends.
pub open spec fn um_rel_right(
    out: Seq<MergedCSTNode>,
    bcs: Seq<CSTNode>,
    rcs: Seq<CSTNode>,
    br: Seq<MatchingRecord>,
    j: int,
    consumed: Seq<usize>,
) -> bool
    decreases rcs.len() - j,
{
    if !(0 <= j <= rcs.len()) {
        false
    } else if j == rcs.len() {
        out.len() == 0
    } else if consumed.contains(j as usize) {
        um_rel_right(out, bcs, rcs, br, j + 1, consumed)
    } else {
        let c = solo_count(rcs[j], bcs, br);
        (c == 1 ==> out.len() >= 1 && solo_head_ok(out[0], rcs[j], bcs, br, false))
            && um_rel_right(out.skip(c), bcs, rcs, br, j + 1, consumed)
    }
}

/// The first pass as a relation: `out` is what walking the left children
/// from `i`, with the given right children already consumed, produces —
/// followed by the second pass over what stays unconsumed.
pub open spec fn um_rel_left(
    out: Seq<MergedCSTNode>,
    bcs: Seq<CSTNode>,
    lcs: Seq<CSTNode>,
    rcs: Seq<CSTNode>,
    bl: Seq<MatchingRecord>,
    br: Seq<MatchingRecord>,
    lr: Seq<MatchingRecord>,
    i: int,
    consumed: Seq<usize>,
) -> bool
    decreases lcs, 1int, lcs.len() - i,
{
    if !(0 <= i <= lcs.len()) {
        false
    } else if i == lcs.len() {
        um_rel_right(out, bcs, rcs, br, 0, consumed)
    } else {
        let lc = lcs[i];
        let p = partner_idx(rcs, lr, lc.id_spec(), consumed, 0);
        if p >= 0 {
            let e = partner_lookup(rcs, lr, lc.id_spec(), p).unwrap();
            if e.is_perfect_match {
                out.len() >= 1 && out[0].reflects(lc) && um_rel_left(
                    out.skip(1),
                    bcs,
                    lcs,
                    rcs,
                    bl,
                    br,
                    lr,
                    i + 1,
                    consumed.push(p as usize),
                )
            } else {
                let bidx = first_match_idx(bcs, bl, lc.id_spec(), 0);
                if bidx >= 0 {
                    out.len() >= 1 && merge_ok_rel(bcs[bidx], lc, rcs[p], bl, br, lr, out[0])
                        && um_rel_left(
                        out.skip(1),
                        bcs,
                        lcs,
                        rcs,
                        bl,
                        br,
                        lr,
                        i + 1,
                        consumed.push(p as usize),
                    )
                } else {
                    out.len() >= 1 && is_conflict_both(out[0], lc, rcs[p]) && um_rel_left(
                        out.skip(1),
                        bcs,
                        lcs,
                        rcs,
                        bl,
                        br,
                        lr,
                        i + 1,
                        consumed.push(p as usize),
                    )
                }
            }
        } else {
            let c = solo_count(lc, bcs, bl);
            (c == 1 ==> out.len() >= 1 && solo_head_ok(out[0], lc, bcs, bl, true)) && um_rel_left(
                out.skip(c),
                bcs,
                lcs,
                rcs,
                bl,
                br,
                lr,
                i + 1,
                consumed,
            )
        }
    }
}

/// Whether `x` is among the already-consumed indices.
fn contains_idx(v: &Vec<usize>, x: usize) -> (r: bool)
    ensures
        r == v@.contains(x),
{
    let mut k: usize = 0;
    while k < v.len()
        invariant
            k <= v@.len(),
            forall|kk: int| 0 <= kk < k ==> v@[kk] != x,
        decreases v@.len() - k,
    {
        if v[k] == x {
            proof {
                assert(v@[k as int] == x);
            }
            return true;
        }
        k = k + 1;
    }
    proof {
        if v@.contains(x) {
            let widx = choose|q: int| 0 <= q < v@.len() && v@[q] == x;
            assert(v@[widx] != x);
        }
    }
    false
}

/// The first not-yet-consumed right child the correspondence set aligns with
/// `lc`, as its index and entry.
fn find_partner(
    lc: &CSTNode,
    right_children: &Vec<CSTNode>,
    consumed: &Vec<usize>,
    left_right_matchings: &Matchings,
) -> (r: Option<(usize, MatchingEntry)>)
    ensures
        r is None ==> partner_idx(
            right_children@,
            left_right_matchings@,
            lc.id_spec(),
            consumed@,
            0,
        ) == -1,
        r matches Some(p) ==> p.0 < right_children@.len() && partner_idx(
            right_children@,
            left_right_matchings@,
            lc.id_spec(),
            consumed@,
            0,
        ) == p.0 && partner_lookup(
            right_children@,
            left_right_matchings@,
            lc.id_spec(),
            p.0 as int,
        ) == Some(p.1),
{
    let mut j: usize = 0;
    while j < right_children.len()
        invariant
            j <= right_children@.len(),
            forall|jj: int|
                0 <= jj < j ==> consumed@.contains(jj as usize) || #[trigger] partner_lookup(
                    right_children@,
                    left_right_matchings@,
                    lc.id_spec(),
                    jj,
                ) is None,
        decreases right_children@.len() - j,
    {
        if !contains_idx(consumed, j) {
            match left_right_matchings.get_matching_entry(lc, &right_children[j]) {
                Some(entry) => {
                    proof {
                        assert(partner_lookup(
                            right_children@,
                            left_right_matchings@,
                            lc.id_spec(),
                            j as int,
                        ) is Some);
                        lemma_partner_at(
                            right_children@,
                            left_right_matchings@,
                            lc.id_spec(),
                            consumed@,
                            0,
                            j as int,
                        );
                    }
                    return Some((j, entry));
                },
                None => {
                    proof {
                        assert(partner_lookup(
                            right_children@,
                            left_right_matchings@,
                            lc.id_spec(),
                            j as int,
                        ) is None);
                    }
                },
            }
        }
        j = j + 1;
    }
    proof {
        lemma_partner_none(
            right_children@,
            left_right_matchings@,
            lc.id_spec(),
            consumed@,
            0,
        );
    }
    None
}

/// Reconciles the children of three interior nodes whose order is not
/// significant into one merged child sequence, exactly as `um_rel_left`
/// states.
pub fn unordered_merge(
    base: &NonTerminal,
    left: &NonTerminal,
    right: &NonTerminal,
    base_left_matchings: &Matchings,
    base_right_matchings: &Matchings,
    left_right_matchings: &Matchings,
    log_state: &mut Option<LogState>,
) -> (r: Result<MergedCSTNode, MergeError>)
    ensures
        r matches Ok(m) ==> (m matches MergedCSTNode::NonTerminal { kind, children } && kind@
            == left.kind@ && um_rel_left(
            children@,
            base.children@,
            left.children@,
            right.children@,
            base_left_matchings@,
            base_right_matchings@,
            left_right_matchings@,
            0,
            Seq::empty(),
        )),
        log_preserved(*old(log_state), *final(log_state)),
        crate::merge::aligned_pairs_compatible(
            left_right_matchings@,
            CSTNode::NonTerminal(*left),
            CSTNode::NonTerminal(*right),
        ) && crate::merge::base_pairs_compatible(
            base_left_matchings@,
            CSTNode::NonTerminal(*base),
            CSTNode::NonTerminal(*left),
        ) ==> r is Ok,
    decreases *left, 0int,
{
    let mut out: Vec<MergedCSTNode> = Vec::new();
    let mut consumed: Vec<usize> = Vec::new();
    let mut i: usize = 0;
    proof {
        assert(consumed@ =~= Seq::<usize>::empty());
        assert forall|x: Seq<MergedCSTNode>| #[trigger] um_rel_left(
            x,
            base.children@,
            left.children@,
            right.children@,
            base_left_matchings@,
            base_right_matchings@,
            left_right_matchings@,
            0,
            consumed@,
        ) implies um_rel_left(
            out@ + x,
            base.children@,
            left.children@,
            right.children@,
            base_left_matchings@,
            base_right_matchings@,
            left_right_matchings@,
            0,
            Seq::empty(),
        ) by {
            assert(out@ + x =~= x);
        }
    }
    while i < left.children.len()
        invariant
            i <= left.children@.len(),
            log_preserved(*old(log_state), *log_state),
            forall|x: Seq<MergedCSTNode>| #[trigger] um_rel_left(
                x,
                base.children@,
                left.children@,
                right.children@,
                base_left_matchings@,
                base_right_matchings@,
                left_right_matchings@,
                i as int,
                consumed@,
            ) ==> um_rel_left(
                out@ + x,
                base.children@,
                left.children@,
                right.children@,
                base_left_matchings@,
                base_right_matchings@,
                left_right_matchings@,
                0,
                Seq::empty(),
            ),
        decreases left.children@.len() - i,
    {
        let ghost out0 = out@;
        let ghost con0 = consumed@;
        let ghost ii = i as int;
        let ghost bcs = base.children@;
        let ghost lcs = left.children@;
        let ghost rcs = right.children@;
        let ghost blv = base_left_matchings@;
        let ghost brv = base_right_matchings@;
        let ghost lrv = left_right_matchings@;
        let lc = &left.children[i];
        match find_partner(lc, &right.children, &consumed, left_right_matchings) {
            Some((p, entry)) => {
                consumed.push(p);
                if entry.is_perfect_match {
                    let mh = to_merged(lc);
                    out.push(mh);
                    i = i + 1;
                    proof {
                        assert forall|x: Seq<MergedCSTNode>| #[trigger] um_rel_left(
                            x,
                            bcs,
                            lcs,
                            rcs,
                            blv,
                            brv,
                            lrv,
                            ii + 1,
                            consumed@,
                        ) implies um_rel_left(
                            out@ + x,
                            bcs,
                            lcs,
                            rcs,
                            blv,
                            brv,
                            lrv,
                            0,
                            Seq::empty(),
                        ) by {
                            let y = seq![mh] + x;
                            assert(y[0] == mh);
                            assert(y.skip(1) =~= x);
                            assert(consumed@ == con0.push(p as usize));
                            assert(um_rel_left(y, bcs, lcs, rcs, blv, brv, lrv, ii, con0));
                            assert(um_rel_left(
                                out0 + y,
                                bcs,
                                lcs,
                                rcs,
                                blv,
                                brv,
                                lrv,
                                0,
                                Seq::empty(),
                            ));
                            assert(out0 + y =~= out@ + x);
                        }
                    }
                } else {
                    let rc = &right.children[p];
                    match find_base_child(base, lc, base_left_matchings) {
                        Some(base_child) => {
                            let ghost log1 = *log_state;
                            let sub = merge(
                                base_child,
                                lc,
                                rc,
                                base_left_matchings,
                                base_right_matchings,
                                left_right_matchings,
                                log_state,
                            );
                            let ghost subg = sub;
                            proof {
                                lemma_log_preserved_trans(*old(log_state), log1, *log_state);
                            }
                            match sub {
                                Ok(mh) => {
                                    out.push(mh);
                                    i = i + 1;
                                    proof {
                                        let bidx = first_match_idx(
                                            bcs,
                                            blv,
                                            lcs[ii].id_spec(),
                                            0,
                                        );
                                        assert(merge_ok_rel(
                                            bcs[bidx],
                                            lcs[ii],
                                            rcs[p as int],
                                            blv,
                                            brv,
                                            lrv,
                                            mh,
                                        ));
                                        assert forall|x: Seq<MergedCSTNode>| #[trigger]
                                        um_rel_left(
                                            x,
                                            bcs,
                                            lcs,
                                            rcs,
                                            blv,
                                            brv,
                                            lrv,
                                            ii + 1,
                                            consumed@,
                                        ) implies um_rel_left(
                                            out@ + x,
                                            bcs,
                                            lcs,
                                            rcs,
                                            blv,
                                            brv,
                                            lrv,
                                            0,
                                            Seq::empty(),
                                        ) by {
                                            let y = seq![mh] + x;
                                            assert(y[0] == mh);
                                            assert(y.skip(1) =~= x);
                                            assert(consumed@ == con0.push(p as usize));
                                            assert(um_rel_left(
                                                y,
                                                bcs,
                                                lcs,
                                                rcs,
                                                blv,
                                                brv,
                                                lrv,
                                                ii,
                                                con0,
                                            ));
                                            assert(um_rel_left(
                                                out0 + y,
                                                bcs,
                                                lcs,
                                                rcs,
                                                blv,
                                                brv,
                                                lrv,
                                                0,
                                                Seq::empty(),
                                            ));
                                            assert(out0 + y =~= out@ + x);
                                        }
                                    }
                                },
                                Err(e) => {
                                    proof {
                                        if crate::merge::aligned_pairs_compatible(
                                            lrv,
                                            CSTNode::NonTerminal(*left),
                                            CSTNode::NonTerminal(*right),
                                        ) && crate::merge::base_pairs_compatible(
                                            blv,
                                            CSTNode::NonTerminal(*base),
                                            CSTNode::NonTerminal(*left),
                                        ) {
                                            let lcg = lcs[ii];
                                            let rcg = rcs[p as int];
                                            assert(lcg.in_subtree(lcg));
                                            CSTNode::lemma_in_seq_from_member(lcs, ii, lcg);
                                            assert(rcg.in_subtree(rcg));
                                            CSTNode::lemma_in_seq_from_member(
                                                rcs,
                                                p as int,
                                                rcg,
                                            );
                                            let kb = first_match_idx(
                                                bcs,
                                                blv,
                                                lcg.id_spec(),
                                                0,
                                            );
                                            assert(bcs[kb].in_subtree(*base_child));
                                            CSTNode::lemma_in_seq_from_member(
                                                bcs,
                                                kb,
                                                *base_child,
                                            );
                                            crate::merge::lemma_inherited_premises(
                                                *base,
                                                *left,
                                                *right,
                                                blv,
                                                lrv,
                                                *base_child,
                                                lcg,
                                                rcg,
                                            );
                                            assert(subg is Ok);
                                            assert(false);
                                        }
                                    }
                                    return Err(e);
                                },
                            }
                        },
                        None => {
                            let lm = to_merged(lc);
                            let rm = to_merged(rc);
                            let mh = MergedCSTNode::Conflict {
                                base: None,
                                left: Some(Box::new(lm)),
                                right: Some(Box::new(rm)),
                            };
                            out.push(mh);
                            i = i + 1;
                            proof {
                                assert(is_conflict_both(mh, lcs[ii], rcs[p as int]));
                                assert forall|x: Seq<MergedCSTNode>| #[trigger] um_rel_left(
                                    x,
                                    bcs,
                                    lcs,
                                    rcs,
                                    blv,
                                    brv,
                                    lrv,
                                    ii + 1,
                                    consumed@,
                                ) implies um_rel_left(
                                    out@ + x,
                                    bcs,
                                    lcs,
                                    rcs,
                                    blv,
                                    brv,
                                    lrv,
                                    0,
                                    Seq::empty(),
                                ) by {
                                    let y = seq![mh] + x;
                                    assert(y[0] == mh);
                                    assert(y.skip(1) =~= x);
                                    assert(consumed@ == con0.push(p as usize));
                                    assert(um_rel_left(
                                        y,
                                        bcs,
                                        lcs,
                                        rcs,
                                        blv,
                                        brv,
                                        lrv,
                                        ii,
                                        con0,
                                    ));
                                    assert(um_rel_left(
                                        out0 + y,
                                        bcs,
                                        lcs,
                                        rcs,
                                        blv,
                                        brv,
                                        lrv,
                                        0,
                                        Seq::empty(),
                                    ));
                                    assert(out0 + y =~= out@ + x);
                                }
                            }
                        },
                    }
                }
            },
            None => {
                handle_solo(&mut out, lc, base, base_left_matchings, true);
                i = i + 1;
                proof {
                    let c = solo_count(lcs[ii], bcs, blv);
                    let app = out@.skip(out0.len() as int);
                    assert(out@ =~= out0 + app);
                    assert forall|x: Seq<MergedCSTNode>| #[trigger] um_rel_left(
                        x,
                        bcs,
                        lcs,
                        rcs,
                        blv,
                        brv,
                        lrv,
                        ii + 1,
                        consumed@,
                    ) implies um_rel_left(
                        out@ + x,
                        bcs,
                        lcs,
                        rcs,
                        blv,
                        brv,
                        lrv,
                        0,
                        Seq::empty(),
                    ) by {
                        let y = app + x;
                        assert(y.skip(c) =~= x);
                        if c == 1 {
                            assert(y[0] == out@[out0.len() as int]);
                        }
                        assert(um_rel_left(y, bcs, lcs, rcs, blv, brv, lrv, ii, con0));
                        assert(um_rel_left(
                            out0 + y,
                            bcs,
                            lcs,
                            rcs,
                            blv,
                            brv,
                            lrv,
                            0,
                            Seq::empty(),
                        ));
                        assert(out0 + y =~= out@ + x);
                    }
                }
            },
        }
    }
    let ghost con_final = consumed@;
    proof {
        assert forall|x: Seq<MergedCSTNode>| #[trigger] um_rel_right(
            x,
            base.children@,
            right.children@,
            base_right_matchings@,
            0,
            con_final,
        ) implies um_rel_left(
            out@ + x,
            base.children@,
            left.children@,
            right.children@,
            base_left_matchings@,
            base_right_matchings@,
            left_right_matchings@,
            0,
            Seq::empty(),
        ) by {
            assert(um_rel_left(
                x,
                base.children@,
                left.children@,
                right.children@,
                base_left_matchings@,
                base_right_matchings@,
                left_right_matchings@,
                left.children@.len() as int,
                con_final,
            ));
        }
    }
    let mut j: usize = 0;
    while j < right.children.len()
        invariant
            j <= right.children@.len(),
            consumed@ == con_final,
            log_preserved(*old(log_state), *log_state),
            forall|x: Seq<MergedCSTNode>| #[trigger] um_rel_right(
                x,
                base.children@,
                right.children@,
                base_right_matchings@,
                j as int,
                con_final,
            ) ==> um_rel_left(
                out@ + x,
                base.children@,
                left.children@,
                right.children@,
                base_left_matchings@,
                base_right_matchings@,
                left_right_matchings@,
                0,
                Seq::empty(),
            ),
        decreases right.children@.len() - j,
    {
        let ghost out0 = out@;
        let ghost jj = j as int;
        let ghost bcs = base.children@;
        let ghost rcs = right.children@;
        let ghost brv = base_right_matchings@;
        if !contains_idx(&consumed, j) {
            let rc = &right.children[j];
            handle_solo(&mut out, rc, base, base_right_matchings, false);
            proof {
                let c = solo_count(rcs[jj], bcs, brv);
                let app = out@.skip(out0.len() as int);
                assert(out@ =~= out0 + app);
                assert forall|x: Seq<MergedCSTNode>| #[trigger] um_rel_right(
                    x,
                    bcs,
                    rcs,
                    brv,
                    jj + 1,
                    con_final,
                ) implies um_rel_left(
                    out@ + x,
                    base.children@,
                    left.children@,
                    right.children@,
                    base_left_matchings@,
                    base_right_matchings@,
                    left_right_matchings@,
                    0,
                    Seq::empty(),
                ) by {
                    let y = app + x;
                    assert(y.skip(c) =~= x);
                    if c == 1 {
                        assert(y[0] == out@[out0.len() as int]);
                    }
                    assert(um_rel_right(y, bcs, rcs, brv, jj, con_final));
                    assert(um_rel_left(
                        out0 + y,
                        base.children@,
                        left.children@,
                        right.children@,
                        base_left_matchings@,
                        base_right_matchings@,
                        left_right_matchings@,
                        0,
                        Seq::empty(),
                    ));
                    assert(out0 + y =~= out@ + x);
                }
            }
        } else {
            proof {
                assert forall|x: Seq<MergedCSTNode>| #[trigger] um_rel_right(
                    x,
                    bcs,
                    rcs,
                    brv,
                    jj + 1,
                    con_final,
                ) implies um_rel_left(
                    out@ + x,
                    base.children@,
                    left.children@,
                    right.children@,
                    base_left_matchings@,
                    base_right_matchings@,
                    left_right_matchings@,
                    0,
                    Seq::empty(),
                ) by {
                    assert(um_rel_right(x, bcs, rcs, brv, jj, con_final));
                }
            }
        }
        j = j + 1;
    }
    proof {
        assert(um_rel_right(
            Seq::<MergedCSTNode>::empty(),
            base.children@,
            right.children@,
            base_right_matchings@,
            right.children@.len() as int,
            con_final,
        ));
        assert(out@ + Seq::<MergedCSTNode>::empty() =~= out@);
    }
    Ok(MergedCSTNode::NonTerminal { kind: left.kind.clone(), children: out })
}

} // verus!
