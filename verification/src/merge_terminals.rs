//! Three-way reconciliation of one atomic leaf value, by the classic
//! three-way rule: agreement wins, a one-sided edit wins, and a two-sided
//! disagreement becomes a conflict marker — never an error.

use vstd::prelude::*;

use crate::cst_node::Terminal;
use crate::merge_error::MergeError;
use crate::merged_cst_node::MergedCSTNode;

verus! {

/// The equality the reconciliation goes by: kind and value agree.
pub open spec fn term_eq(a: Terminal, b: Terminal) -> bool {
    a.kind@ == b.kind@ && a.value@ == b.value@
}

/// Whether `m` is the merged rendering of the terminal `t`.
pub open spec fn merged_is_terminal(m: MergedCSTNode, t: Terminal) -> bool {
    m matches MergedCSTNode::Terminal { kind, value } && kind@ == t.kind@ && value@ == t.value@
}

/// Whether `m` is a conflict marker carrying the renderings of the base,
/// left and right terminals.
pub open spec fn merged_is_conflict_of(m: MergedCSTNode, b: Terminal, l: Terminal, r: Terminal) -> bool {
    &&& m matches MergedCSTNode::Conflict { base, left, right }
    &&& base matches Some(bb)
    &&& merged_is_terminal(*bb, b)
    &&& left matches Some(lm)
    &&& merged_is_terminal(*lm, l)
    &&& right matches Some(rm)
    &&& merged_is_terminal(*rm, r)
}

/// What the reconciliation of one leaf returns, case by case; it always
/// succeeds.
///
/// Equal left and right win even when both differ from base (a convergent
/// edit); otherwise the side that moved away from base wins; and when both
/// moved away, in different directions, the result is a conflict marker
/// carrying all three values.  In particular merging a value with itself
/// gives that value back, and a one-sided edit is taken as it stands.
pub open spec fn terminal_merged_value(b: Terminal, l: Terminal, r: Terminal, m: MergedCSTNode) -> bool {
    if term_eq(l, r) {
        merged_is_terminal(m, l)
    } else if term_eq(l, b) {
        merged_is_terminal(m, r)
    } else if term_eq(r, b) {
        merged_is_terminal(m, l)
    } else {
        merged_is_conflict_of(m, b, l, r)
    }
}

/// The reconciliation as a relation on the `Result`: it always succeeds, with
/// the value `terminal_merged_value` fixes.
pub open spec fn terminal_merge_spec(
    b: Terminal,
    l: Terminal,
    r: Terminal,
    res: Result<MergedCSTNode, MergeError>,
) -> bool {
    res matches Ok(m) && terminal_merged_value(b, l, r, m)
}

/// Reconciles one leaf three ways.
pub fn merge_terminals(base: &Terminal, left: &Terminal, right: &Terminal) -> (r: Result<
    MergedCSTNode,
    MergeError,
>)
    ensures
        terminal_merge_spec(*base, *left, *right, r),
{
    if left.kind == right.kind && left.value == right.value {
        Ok(MergedCSTNode::Terminal { kind: left.kind.clone(), value: left.value.clone() })
    } else if left.kind == base.kind && left.value == base.value {
        Ok(MergedCSTNode::Terminal { kind: right.kind.clone(), value: right.value.clone() })
    } else if right.kind == base.kind && right.value == base.value {
        Ok(MergedCSTNode::Terminal { kind: left.kind.clone(), value: left.value.clone() })
    } else {
        Ok(
            MergedCSTNode::Conflict {
                base: Some(
                    Box::new(
                        MergedCSTNode::Terminal {
                            kind: base.kind.clone(),
                            value: base.value.clone(),
                        },
                    ),
                ),
                left: Some(
                    Box::new(
                        MergedCSTNode::Terminal {
                            kind: left.kind.clone(),
                            value: left.value.clone(),
                        },
                    ),
                ),
                right: Some(
                    Box::new(
                        MergedCSTNode::Terminal {
                            kind: right.kind.clone(),
                            value: right.value.clone(),
                        },
                    ),
                ),
            },
        )
    }
}

} // verus!
