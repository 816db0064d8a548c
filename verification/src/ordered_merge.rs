//! Reconciliation of the children of three order-significant interior nodes.
//!
//! Two cursors walk the left and right children together; `om_rel` states the
//! walk as a relation and the function is proved against it.  A pair the
//! correspondence set aligns is merged: taken as is when the pair is perfect,
//! recursed into through the orchestrator when a corresponding base child is
//! found, and emitted as a conflict marker otherwise.  A child aligned with
//! nothing on the other side is an insertion (kept), a deletion accepted by
//! the other side (dropped), or a modification concurrent with a deletion (a
//! conflict marker), according to its correspondence with base; crossing
//! correspondences — both cursors aligned, but not with each other — are
//! emitted as a conflict marker for the pair.  Kept children stay in their
//! sides' relative order, and a conflict never aborts the merging of
//! unrelated siblings.

use vstd::prelude::*;

use crate::cst_node::CSTNode;
use crate::cst_node::NonTerminal;
use crate::log_structures::lemma_log_preserved_trans;
use crate::log_structures::log_preserved;
use crate::log_structures::LogState;
use crate::matchings::MatchingRecord;
use crate::matchings::Matchings;
use crate::merge::find_base_child;
use crate::merge::first_match_idx;
use crate::merge::handle_solo;
use crate::merge::merge;
use crate::merge::merge_ok_rel;
use crate::merge::solo_count;
use crate::merge::solo_head_ok;
use crate::merge_error::MergeError;
use crate::merged_cst_node::is_conflict_both;
use crate::merged_cst_node::to_merged;
use crate::merged_cst_node::MergedCSTNode;

verus! {

/// The ordered reconciliation as a relation: `out` is exactly what the
/// two-cursor walk over the left children from `i` and the right children
/// from `j` produces, under the three correspondence sets, with every
/// recursive merge successful.
pub open spec fn om_rel(
    out: Seq<MergedCSTNode>,
    bcs: Seq<CSTNode>,
    lcs: Seq<CSTNode>,
    rcs: Seq<CSTNode>,
    bl: Seq<MatchingRecord>,
    br: Seq<MatchingRecord>,
    lr: Seq<MatchingRecord>,
    i: int,
    j: int,
) -> bool
    decreases lcs, 1int, lcs.len() + rcs.len() - i - j,
{
    if !(0 <= i <= lcs.len() && 0 <= j <= rcs.len()) {
        false
    } else if i == lcs.len() && j == rcs.len() {
        out.len() == 0
    } else if i < lcs.len() && j < rcs.len() {
        let lc = lcs[i];
        let rc = rcs[j];
        match crate::matchings::lookup(lr, lc.id_spec(), rc.id_spec()) {
            Some(e) => {
                if e.is_perfect_match {
                    out.len() >= 1 && out[0].reflects(lc) && om_rel(
                        out.skip(1),
                        bcs,
                        lcs,
                        rcs,
                        bl,
                        br,
                        lr,
                        i + 1,
                        j + 1,
                    )
                } else {
                    let bidx = first_match_idx(bcs, bl, lc.id_spec(), 0);
                    if bidx >= 0 {
                        out.len() >= 1 && merge_ok_rel(bcs[bidx], lc, rc, bl, br, lr, out[0])
                            && om_rel(out.skip(1), bcs, lcs, rcs, bl, br, lr, i + 1, j + 1)
                    } else {
                        out.len() >= 1 && is_conflict_both(out[0], lc, rc) && om_rel(
                            out.skip(1),
                            bcs,
                            lcs,
                            rcs,
                            bl,
                            br,
                            lr,
                            i + 1,
                            j + 1,
                        )
                    }
                }
            },
            None => {
                if !crate::matchings::involves(lr, lc.id_spec()) {
                    let c = solo_count(lc, bcs, bl);
                    (c == 1 ==> out.len() >= 1 && solo_head_ok(out[0], lc, bcs, bl, true))
                        && om_rel(out.skip(c), bcs, lcs, rcs, bl, br, lr, i + 1, j)
                } else if !crate::matchings::involves(lr, rc.id_spec()) {
                    let c = solo_count(rc, bcs, br);
                    (c == 1 ==> out.len() >= 1 && solo_head_ok(out[0], rc, bcs, br, false))
                        && om_rel(out.skip(c), bcs, lcs, rcs, bl, br, lr, i, j + 1)
                } else {
                    out.len() >= 1 && is_conflict_both(out[0], lc, rc) && om_rel(
                        out.skip(1),
                        bcs,
                        lcs,
                        rcs,
                        bl,
                        br,
                        lr,
                        i + 1,
                        j + 1,
                    )
                }
            },
        }
    } else if i < lcs.len() {
        let c = solo_count(lcs[i], bcs, bl);
        (c == 1 ==> out.len() >= 1 && solo_head_ok(out[0], lcs[i], bcs, bl, true)) && om_rel(
            out.skip(c),
            bcs,
            lcs,
            rcs,
            bl,
            br,
            lr,
            i + 1,
            j,
        )
    } else {
        let c = solo_count(rcs[j], bcs, br);
        (c == 1 ==> out.len() >= 1 && solo_head_ok(out[0], rcs[j], bcs, br, false)) && om_rel(
            out.skip(c),
            bcs,
            lcs,
            rcs,
            bl,
            br,
            lr,
            i,
            j + 1,
        )
    }
}

/// Reconciles the children of three order-significant interior nodes into
/// one merged child sequence, exactly as `om_rel` states.
pub fn ordered_merge(
    base: &NonTerminal,
    left: &NonTerminal,
    right: &NonTerminal,
    base_left_matchings: &Matchings,
    base_right_matchings: &Matchings,
    left_right_matchings: &Matchings,
    log_state: &mut Option<LogState>,
) -> (r: Result<MergedCSTNode, MergeError>)
    ensures
        r matches Ok(m) ==> (m matches MergedCSTNode::NonTerminal { kind, children } && kind@
            == left.kind@ && om_rel(
            children@,
            base.children@,
            left.children@,
            right.children@,
            base_left_matchings@,
            base_right_matchings@,
            left_right_matchings@,
            0,
            0,
        )),
        log_preserved(*old(log_state), *final(log_state)),
        crate::merge::aligned_pairs_compatible(
            left_right_matchings@,
            CSTNode::NonTerminal(*left),
            CSTNode::NonTerminal(*right),
        ) && crate::merge::base_pairs_compatible(
            base_left_matchings@,
            CSTNode::NonTerminal(*base),
            CSTNode::NonTerminal(*left),
        ) ==> r is Ok,
    decreases *left, 0int,
{
    let mut out: Vec<MergedCSTNode> = Vec::new();
    let mut i: usize = 0;
    let mut j: usize = 0;
    proof {
        assert forall|x: Seq<MergedCSTNode>| #[trigger] om_rel(
            x,
            base.children@,
            left.children@,
            right.children@,
            base_left_matchings@,
            base_right_matchings@,
            left_right_matchings@,
            0,
            0,
        ) implies om_rel(
            out@ + x,
            base.children@,
            left.children@,
            right.children@,
            base_left_matchings@,
            base_right_matchings@,
            left_right_matchings@,
            0,
            0,
        ) by {
            assert(out@ + x =~= x);
        }
    }
    while i < left.children.len() || j < right.children.len()
        invariant
            i <= left.children@.len(),
            j <= right.children@.len(),
            log_preserved(*old(log_state), *log_state),
            forall|x: Seq<MergedCSTNode>| #[trigger] om_rel(
                x,
                base.children@,
                left.children@,
                right.children@,
                base_left_matchings@,
                base_right_matchings@,
                left_right_matchings@,
                i as int,
                j as int,
            ) ==> om_rel(
                out@ + x,
                base.children@,
                left.children@,
                right.children@,
                base_left_matchings@,
                base_right_matchings@,
                left_right_matchings@,
                0,
                0,
            ),
        decreases left.children@.len() - i + right.children@.len() - j,
    {
        let ghost out0 = out@;
        let ghost ii = i as int;
        let ghost jj = j as int;
        let ghost bcs = base.children@;
        let ghost lcs = left.children@;
        let ghost rcs = right.children@;
        let ghost blv = base_left_matchings@;
        let ghost brv = base_right_matchings@;
        let ghost lrv = left_right_matchings@;
        if i < left.children.len() && j < right.children.len() {
            let lc = &left.children[i];
            let rc = &right.children[j];
            match left_right_matchings.get_matching_entry(lc, rc) {
                Some(entry) => {
                    if entry.is_perfect_match {
                        let mh = to_merged(lc);
                        out.push(mh);
                        i = i + 1;
                        j = j + 1;
                        proof {
                            assert forall|x: Seq<MergedCSTNode>| #[trigger] om_rel(
                                x,
                                bcs,
                                lcs,
                                rcs,
                                blv,
                                brv,
                                lrv,
                                ii + 1,
                                jj + 1,
                            ) implies om_rel(out@ + x, bcs, lcs, rcs, blv, brv, lrv, 0, 0) by {
                                let y = seq![mh] + x;
                                assert(y[0] == mh);
                                assert(y.skip(1) =~= x);
                                assert(om_rel(y, bcs, lcs, rcs, blv, brv, lrv, ii, jj));
                                assert(om_rel(out0 + y, bcs, lcs, rcs, blv, brv, lrv, 0, 0));
                                assert(out0 + y =~= out@ + x);
                            }
                        }
                    } else {
                        match find_base_child(base, lc, base_left_matchings) {
                            Some(base_child) => {
                                let ghost log1 = *log_state;
                                let sub = merge(
                                    base_child,
                                    lc,
                                    rc,
                                    base_left_matchings,
                                    base_right_matchings,
                                    left_right_matchings,
                                    log_state,
                                );
                                let ghost subg = sub;
                                proof {
                                    lemma_log_preserved_trans(
                                        *old(log_state),
                                        log1,
                                        *log_state,
                                    );
                                }
                                match sub {
                                    Ok(mh) => {
                                        out.push(mh);
                                        i = i + 1;
                                        j = j + 1;
                                        proof {
                                            let bidx = first_match_idx(
                                                bcs,
                                                blv,
                                                lcs[ii].id_spec(),
                                                0,
                                            );
                                            assert(merge_ok_rel(
                                                bcs[bidx],
                                                lcs[ii],
                                                rcs[jj],
                                                blv,
                                                brv,
                                                lrv,
                                                mh,
                                            ));
                                            assert forall|x: Seq<MergedCSTNode>| #[trigger]
                                            om_rel(
                                                x,
                                                bcs,
                                                lcs,
                                                rcs,
                                                blv,
                                                brv,
                                                lrv,
                                                ii + 1,
                                                jj + 1,
                                            ) implies om_rel(
                                                out@ + x,
                                                bcs,
                                                lcs,
                                                rcs,
                                                blv,
                                                brv,
                                                lrv,
                                                0,
                                                0,
                                            ) by {
                                                let y = seq![mh] + x;
                                                assert(y[0] == mh);
                                                assert(y.skip(1) =~= x);
                                                assert(om_rel(
                                                    y,
                                                    bcs,
                                                    lcs,
                                                    rcs,
                                                    blv,
                                                    brv,
                                                    lrv,
                                                    ii,
                                                    jj,
                                                ));
                                                assert(om_rel(
                                                    out0 + y,
                                                    bcs,
                                                    lcs,
                                                    rcs,
                                                    blv,
                                                    brv,
                                                    lrv,
                                                    0,
                                                    0,
                                                ));
                                                assert(out0 + y =~= out@ + x);
                                            }
                                        }
                                    },
                                    Err(e) => {
                                        proof {
                                            if crate::merge::aligned_pairs_compatible(
                                                lrv,
                                                CSTNode::NonTerminal(*left),
                                                CSTNode::NonTerminal(*right),
                                            ) && crate::merge::base_pairs_compatible(
                                                blv,
                                                CSTNode::NonTerminal(*base),
                                                CSTNode::NonTerminal(*left),
                                            ) {
                                                let lcg = lcs[ii];
                                                let rcg = rcs[jj];
                                                assert(lcg.in_subtree(lcg));
                                                CSTNode::lemma_in_seq_from_member(lcs, ii, lcg);
                                                assert(rcg.in_subtree(rcg));
                                                CSTNode::lemma_in_seq_from_member(rcs, jj, rcg);
                                                let kb = first_match_idx(
                                                    bcs,
                                                    blv,
                                                    lcg.id_spec(),
                                                    0,
                                                );
                                                assert(bcs[kb].in_subtree(*base_child));
                                                CSTNode::lemma_in_seq_from_member(
                                                    bcs,
                                                    kb,
                                                    *base_child,
                                                );
                                                crate::merge::lemma_inherited_premises(
                                                    *base,
                                                    *left,
                                                    *right,
                                                    blv,
                                                    lrv,
                                                    *base_child,
                                                    lcg,
                                                    rcg,
                                                );
                                                assert(subg is Ok);
                                                assert(false);
                                            }
                                        }
                                        return Err(e);
                                    },
                                }
                            },
                            None => {
                                let lm = to_merged(lc);
                                let rm = to_merged(rc);
                                let mh = MergedCSTNode::Conflict {
                                    base: None,
                                    left: Some(Box::new(lm)),
                                    right: Some(Box::new(rm)),
                                };
                                out.push(mh);
                                i = i + 1;
                                j = j + 1;
                                proof {
                                    assert(is_conflict_both(mh, lcs[ii], rcs[jj]));
                                    assert forall|x: Seq<MergedCSTNode>| #[trigger] om_rel(
                                        x,
                                        bcs,
                                        lcs,
                                        rcs,
                                        blv,
                                        brv,
                                        lrv,
                                        ii + 1,
                                        jj + 1,
                                    ) implies om_rel(
                                        out@ + x,
                                        bcs,
                                        lcs,
                                        rcs,
                                        blv,
                                        brv,
                                        lrv,
                                        0,
                                        0,
                                    ) by {
                                        let y = seq![mh] + x;
                                        assert(y[0] == mh);
                                        assert(y.skip(1) =~= x);
                                        assert(om_rel(y, bcs, lcs, rcs, blv, brv, lrv, ii, jj));
                                        assert(om_rel(
                                            out0 + y,
                                            bcs,
                                            lcs,
                                            rcs,
                                            blv,
                                            brv,
                                            lrv,
                                            0,
                                            0,
                                        ));
                                        assert(out0 + y =~= out@ + x);
                                    }
                                }
                            },
                        }
                    }
                },
                None => {
                    if !left_right_matchings.has_match_involving(lc) {
                        handle_solo(&mut out, lc, base, base_left_matchings, true);
                        i = i + 1;
                        proof {
                            let c = solo_count(lcs[ii], bcs, blv);
                            let app = out@.skip(out0.len() as int);
                            assert(out@ =~= out0 + app);
                            assert forall|x: Seq<MergedCSTNode>| #[trigger] om_rel(
                                x,
                                bcs,
                                lcs,
                                rcs,
                                blv,
                                brv,
                                lrv,
                                ii + 1,
                                jj,
                            ) implies om_rel(out@ + x, bcs, lcs, rcs, blv, brv, lrv, 0, 0) by {
                                let y = app + x;
                                assert(y.skip(c) =~= x);
                                if c == 1 {
                                    assert(y[0] == out@[out0.len() as int]);
                                }
                                assert(om_rel(y, bcs, lcs, rcs, blv, brv, lrv, ii, jj));
                                assert(om_rel(out0 + y, bcs, lcs, rcs, blv, brv, lrv, 0, 0));
                                assert(out0 + y =~= out@ + x);
                            }
                        }
                    } else if !left_right_matchings.has_match_involving(rc) {
                        handle_solo(&mut out, rc, base, base_right_matchings, false);
                        j = j + 1;
                        proof {
                            let c = solo_count(rcs[jj], bcs, brv);
                            let app = out@.skip(out0.len() as int);
                            assert(out@ =~= out0 + app);
                            assert forall|x: Seq<MergedCSTNode>| #[trigger] om_rel(
                                x,
                                bcs,
                                lcs,
                                rcs,
                                blv,
                                brv,
                                lrv,
                                ii,
                                jj + 1,
                            ) implies om_rel(out@ + x, bcs, lcs, rcs, blv, brv, lrv, 0, 0) by {
                                let y = app + x;
                                assert(y.skip(c) =~= x);
                                if c == 1 {
                                    assert(y[0] == out@[out0.len() as int]);
                                }
                                assert(om_rel(y, bcs, lcs, rcs, blv, brv, lrv, ii, jj));
                                assert(om_rel(out0 + y, bcs, lcs, rcs, blv, brv, lrv, 0, 0));
                                assert(out0 + y =~= out@ + x);
                            }
                        }
                    } else {
                        let lm = to_merged(lc);
                        let rm = to_merged(rc);
                        let mh = MergedCSTNode::Conflict {
                            base: None,
                            left: Some(Box::new(lm)),
                            right: Some(Box::new(rm)),
                        };
                        out.push(mh);
                        i = i + 1;
                        j = j + 1;
                        proof {
                            assert(is_conflict_both(mh, lcs[ii], rcs[jj]));
                            assert forall|x: Seq<MergedCSTNode>| #[trigger] om_rel(
                                x,
                                bcs,
                                lcs,
                                rcs,
                                blv,
                                brv,
                                lrv,
                                ii + 1,
                                jj + 1,
                            ) implies om_rel(out@ + x, bcs, lcs, rcs, blv, brv, lrv, 0, 0) by {
                                let y = seq![mh] + x;
                                assert(y[0] == mh);
                                assert(y.skip(1) =~= x);
                                assert(om_rel(y, bcs, lcs, rcs, blv, brv, lrv, ii, jj));
                                assert(om_rel(out0 + y, bcs, lcs, rcs, blv, brv, lrv, 0, 0));
                                assert(out0 + y =~= out@ + x);
                            }
                        }
                    }
                },
            }
        } else if i < left.children.len() {
            let lc = &left.children[i];
            handle_solo(&mut out, lc, base, base_left_matchings, true);
            i = i + 1;
            proof {
                let c = solo_count(lcs[ii], bcs, blv);
                let app = out@.skip(out0.len() as int);
                assert(out@ =~= out0 + app);
                assert forall|x: Seq<MergedCSTNode>| #[trigger] om_rel(
                    x,
                    bcs,
                    lcs,
                    rcs,
                    blv,
                    brv,
                    lrv,
                    ii + 1,
                    jj,
                ) implies om_rel(out@ + x, bcs, lcs, rcs, blv, brv, lrv, 0, 0) by {
                    let y = app + x;
                    assert(y.skip(c) =~= x);
                    if c == 1 {
                        assert(y[0] == out@[out0.len() as int]);
                    }
                    assert(om_rel(y, bcs, lcs, rcs, blv, brv, lrv, ii, jj));
                    assert(om_rel(out0 + y, bcs, lcs, rcs, blv, brv, lrv, 0, 0));
                    assert(out0 + y =~= out@ + x);
                }
            }
        } else {
            let rc = &right.children[j];
            handle_solo(&mut out, rc, base, base_right_matchings, false);
            j = j + 1;
            proof {
                let c = solo_count(rcs[jj], bcs, brv);
                let app = out@.skip(out0.len() as int);
                assert(out@ =~= out0 + app);
                assert forall|x: Seq<MergedCSTNode>| #[trigger] om_rel(
                    x,
                    bcs,
                    lcs,
                    rcs,
                    blv,
                    brv,
                    lrv,
                    ii,
                    jj + 1,
                ) implies om_rel(out@ + x, bcs, lcs, rcs, blv, brv, lrv, 0, 0) by {
                    let y = app + x;
                    assert(y.skip(c) =~= x);
                    if c == 1 {
                        assert(y[0] == out@[out0.len() as int]);
                    }
                    assert(om_rel(y, bcs, lcs, rcs, blv, brv, lrv, ii, jj));
                    assert(om_rel(out0 + y, bcs, lcs, rcs, blv, brv, lrv, 0, 0));
                    assert(out0 + y =~= out@ + x);
                }
            }
        }
    }
    proof {
        assert(om_rel(
            Seq::<MergedCSTNode>::empty(),
            base.children@,
            left.children@,
            right.children@,
            base_left_matchings@,
            base_right_matchings@,
            left_right_matchings@,
            left.children@.len() as int,
            right.children@.len() as int,
        ));
        assert(out@ + Seq::<MergedCSTNode>::empty() =~= out@);
    }
    Ok(MergedCSTNode::NonTerminal { kind: left.kind.clone(), children: out })
}

} // verus!
