use generic_merge::calculate_matchings;
use generic_merge::merge;
use generic_merge::CSTNode;
use generic_merge::LogState;
use generic_merge::Matchings;
use generic_merge::MergeChunk;
use generic_merge::MergeError;
use generic_merge::MergedCSTNode;
use generic_merge::NonTerminal;
use generic_merge::Point;
use generic_merge::Terminal;

fn term(id: u64, kind: &str, value: &str) -> CSTNode {
    CSTNode::Terminal(Terminal {
        id,
        kind: kind.to_string(),
        value: value.to_string(),
        start_position: Point { row: 0, column: 0 },
        end_position: Point { row: 0, column: 7 },
        is_block_end_delimiter: false,
    })
}

fn nonterm(id: u64, kind: &str, unordered: bool, children: Vec<CSTNode>) -> CSTNode {
    CSTNode::NonTerminal(NonTerminal {
        id,
        kind: kind.to_string(),
        are_children_unordered: unordered,
        start_position: Point { row: 0, column: 0 },
        end_position: Point { row: 1, column: 7 },
        children,
    })
}

fn merged_term(kind: &str, value: &str) -> MergedCSTNode {
    MergedCSTNode::Terminal {
        kind: kind.to_string(),
        value: value.to_string(),
    }
}

fn merge_all(base: &CSTNode, left: &CSTNode, right: &CSTNode) -> Result<MergedCSTNode, MergeError> {
    let bl = calculate_matchings(base, left);
    let br = calculate_matchings(base, right);
    let lr = calculate_matchings(left, right);
    let mut log_state = None;
    merge(base, left, right, &bl, &br, &lr, &mut log_state)
}

#[test]
fn test_can_not_merge_terminal_with_non_terminal() {
    let mut log_state = None;
    let error = merge(
        &term(1, "kind", "value"),
        &term(2, "kind", "value"),
        &nonterm(3, "kind", false, vec![]),
        &Matchings::empty(),
        &Matchings::empty(),
        &Matchings::empty(),
        &mut log_state,
    )
    .unwrap_err();

    assert_eq!(error, MergeError::MergingTerminalWithNonTerminal);
}

#[test]
fn merging_different_kinds_reports_both_kind_tags() {
    let error = merge_all(
        &term(1, "kind_base", "v"),
        &term(2, "kind_left", "v"),
        &term(3, "kind_right", "v"),
    )
    .unwrap_err();

    assert_eq!(
        error,
        MergeError::NodesWithDifferentKinds("kind_left".to_string(), "kind_right".to_string())
    );
}

#[test]
fn merging_a_terminal_with_itself_gives_it_back() {
    let result = merge_all(
        &term(1, "kind", "value"),
        &term(2, "kind", "value"),
        &term(3, "kind", "value"),
    )
    .unwrap();
    assert_eq!(result, merged_term("kind", "value"));
}

#[test]
fn a_right_edit_of_a_terminal_wins_over_an_unchanged_left() {
    let result = merge_all(
        &term(1, "kind", "old"),
        &term(2, "kind", "old"),
        &term(3, "kind", "new"),
    )
    .unwrap();
    assert_eq!(result, merged_term("kind", "new"));
}

#[test]
fn a_left_edit_of_a_terminal_wins_over_an_unchanged_right() {
    let result = merge_all(
        &term(1, "kind", "old"),
        &term(2, "kind", "new"),
        &term(3, "kind", "old"),
    )
    .unwrap();
    assert_eq!(result, merged_term("kind", "new"));
}

#[test]
fn a_two_sided_terminal_edit_becomes_a_conflict_with_all_three_values() {
    let result = merge_all(
        &term(1, "kind", "old"),
        &term(2, "kind", "left_new"),
        &term(3, "kind", "right_new"),
    )
    .unwrap();
    assert_eq!(
        result,
        MergedCSTNode::Conflict {
            base: Some(Box::new(merged_term("kind", "old"))),
            left: Some(Box::new(merged_term("kind", "left_new"))),
            right: Some(Box::new(merged_term("kind", "right_new"))),
        }
    );
}

#[test]
fn merging_identical_interior_nodes_yields_no_conflict() {
    let base = nonterm(10, "kind_a", false, vec![term(1, "kind_b", "value_b")]);
    let left = nonterm(11, "kind_a", false, vec![term(1, "kind_b", "value_b")]);
    let right = nonterm(12, "kind_a", false, vec![term(1, "kind_b", "value_b")]);

    let lr = calculate_matchings(&left, &right);
    let root = lr.get_matching_entry(&left, &right).unwrap();
    assert_eq!(2, root.score);
    assert!(root.is_perfect_match);

    let result = merge_all(&base, &left, &right).unwrap();
    assert_eq!(
        result,
        MergedCSTNode::NonTerminal {
            kind: "kind_a".to_string(),
            children: vec![merged_term("kind_b", "value_b")],
        }
    );
}

#[test]
fn a_child_added_on_one_side_is_kept_and_spoils_perfection() {
    let base = nonterm(10, "kind_a", false, vec![term(1, "kind_b", "value_b")]);
    let left = nonterm(11, "kind_a", false, vec![term(1, "kind_b", "value_b")]);
    let right = nonterm(
        12,
        "kind_a",
        false,
        vec![term(1, "kind_b", "value_b"), term(2, "kind_c", "value_c")],
    );

    let lr = calculate_matchings(&left, &right);
    let root = lr.get_matching_entry(&left, &right).unwrap();
    assert_eq!(2, root.score);
    assert!(!root.is_perfect_match);

    let result = merge_all(&base, &left, &right).unwrap();
    assert_eq!(
        result,
        MergedCSTNode::NonTerminal {
            kind: "kind_a".to_string(),
            children: vec![
                merged_term("kind_b", "value_b"),
                merged_term("kind_c", "value_c"),
            ],
        }
    );
}

#[test]
fn a_child_modified_by_left_and_deleted_by_right_becomes_a_conflict() {
    let base = nonterm(
        10,
        "kind_a",
        false,
        vec![nonterm(20, "kind_s", false, vec![term(1, "kind_b", "old")])],
    );
    let left = nonterm(
        11,
        "kind_a",
        false,
        vec![nonterm(21, "kind_s", false, vec![term(2, "kind_b", "new")])],
    );
    let right = nonterm(12, "kind_a", false, vec![]);

    let result = merge_all(&base, &left, &right).unwrap();
    assert_eq!(
        result,
        MergedCSTNode::NonTerminal {
            kind: "kind_a".to_string(),
            children: vec![MergedCSTNode::Conflict {
                base: None,
                left: Some(Box::new(MergedCSTNode::NonTerminal {
                    kind: "kind_s".to_string(),
                    children: vec![merged_term("kind_b", "new")],
                })),
                right: None,
            }],
        }
    );
}

#[test]
fn an_unordered_merge_traces_its_context_and_merges_as_a_set() {
    let base = nonterm(
        10,
        "block",
        true,
        vec![term(1, "stmt", "a"), term(2, "stmt", "b")],
    );
    let left = nonterm(
        11,
        "block",
        true,
        vec![term(1, "stmt", "a"), term(2, "stmt", "b"), term(3, "stmt", "c")],
    );
    let right = nonterm(12, "block", true, vec![term(1, "stmt", "a")]);

    let bl = calculate_matchings(&base, &left);
    let br = calculate_matchings(&base, &right);
    let lr = calculate_matchings(&left, &right);
    let mut log_state = Some(LogState::new());
    let result = merge(&base, &left, &right, &bl, &br, &lr, &mut log_state).unwrap();

    assert_eq!(
        result,
        MergedCSTNode::NonTerminal {
            kind: "block".to_string(),
            children: vec![merged_term("stmt", "a"), merged_term("stmt", "c")],
        }
    );
    let log = log_state.unwrap().log;
    assert_eq!(2, log.len());
    assert_eq!(
        log[0],
        MergeChunk::UnorderedContextStart {
            node_kind: "block".to_string()
        }
    );
    assert_eq!(
        log[1],
        MergeChunk::UnorderedContextEnd {
            node_kind: "block".to_string()
        }
    );
}

#[test]
fn merging_without_a_log_keeps_none() {
    let base = nonterm(10, "block", true, vec![term(1, "stmt", "a")]);
    let left = nonterm(11, "block", true, vec![term(1, "stmt", "a")]);
    let right = nonterm(12, "block", true, vec![term(1, "stmt", "a")]);

    let bl = calculate_matchings(&base, &left);
    let br = calculate_matchings(&base, &right);
    let lr = calculate_matchings(&left, &right);
    let mut log_state = None;
    let result = merge(&base, &left, &right, &bl, &br, &lr, &mut log_state).unwrap();
    assert!(log_state.is_none());
    assert_eq!(
        result,
        MergedCSTNode::NonTerminal {
            kind: "block".to_string(),
            children: vec![merged_term("stmt", "a")],
        }
    );
}

#[test]
fn merging_childless_interior_nodes_succeeds_with_no_children() {
    let base = nonterm(1, "kind_a", false, vec![]);
    let left = nonterm(2, "kind_a", false, vec![]);
    let right = nonterm(3, "kind_a", false, vec![]);

    let result = merge_all(&base, &left, &right).unwrap();
    assert_eq!(
        result,
        MergedCSTNode::NonTerminal {
            kind: "kind_a".to_string(),
            children: vec![],
        }
    );
}

#[test]
fn two_sided_edits_of_a_shared_child_recurse_through_the_base() {
    let base = nonterm(
        10,
        "kind_a",
        false,
        vec![nonterm(20, "kind_s", false, vec![term(1, "t", "old"), term(2, "u", "keep")])],
    );
    let left = nonterm(
        11,
        "kind_a",
        false,
        vec![nonterm(21, "kind_s", false, vec![term(3, "t", "old"), term(4, "u", "keep")])],
    );
    let right = nonterm(
        12,
        "kind_a",
        false,
        vec![nonterm(22, "kind_s", false, vec![term(5, "u", "keep")])],
    );

    let result = merge_all(&base, &left, &right).unwrap();
    assert_eq!(
        result,
        MergedCSTNode::NonTerminal {
            kind: "kind_a".to_string(),
            children: vec![MergedCSTNode::NonTerminal {
                kind: "kind_s".to_string(),
                children: vec![merged_term("u", "keep")],
            }],
        }
    );
}
