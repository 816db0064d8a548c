use generic_merge::calculate_matchings;
use generic_merge::CSTNode;
use generic_merge::NonTerminal;
use generic_merge::Point;
use generic_merge::Terminal;

fn term(id: u64, kind: &str, value: &str) -> CSTNode {
    CSTNode::Terminal(Terminal {
        id,
        kind: kind.to_string(),
        value: value.to_string(),
        start_position: Point { row: 0, column: 0 },
        end_position: Point { row: 0, column: 7 },
        is_block_end_delimiter: false,
    })
}

fn nonterm(id: u64, kind: &str, unordered: bool, children: Vec<CSTNode>) -> CSTNode {
    CSTNode::NonTerminal(NonTerminal {
        id,
        kind: kind.to_string(),
        are_children_unordered: unordered,
        start_position: Point { row: 0, column: 0 },
        end_position: Point { row: 1, column: 7 },
        children,
    })
}

#[test]
fn it_matches_deep_nodes_as_well() {
    let child = term(1, "kind_b", "value_b");
    let left = nonterm(10, "kind_a", false, vec![term(1, "kind_b", "value_b")]);
    let right = nonterm(11, "kind_a", false, vec![term(1, "kind_b", "value_b")]);

    let matchings = calculate_matchings(&left, &right);

    let child_matching = matchings.get_matching_entry(&child, &child);
    assert!(child_matching.is_some());
    assert_eq!(1, child_matching.unwrap().score);
    assert!(child_matching.unwrap().is_perfect_match)
}

#[test]
fn if_no_match_is_found_it_returns_none() {
    let left_child = term(1, "kind_b", "value_b");
    let right_child = term(2, "kind_c", "value_c");
    let left = nonterm(3, "kind_a", false, vec![term(1, "kind_b", "value_b")]);
    let right = nonterm(4, "kind_a", false, vec![term(2, "kind_c", "value_c")]);

    let matchings = calculate_matchings(&left, &right);
    assert!(matchings
        .get_matching_entry(&left_child, &right_child)
        .is_none())
}

#[test]
fn the_matching_between_two_subtrees_is_the_sum_of_the_matchings_plus_the_root() {
    let left = nonterm(3, "kind_a", false, vec![term(1, "kind_b", "value_b")]);
    let right = nonterm(
        4,
        "kind_a",
        false,
        vec![term(1, "kind_b", "value_b"), term(2, "kind_c", "value_c")],
    );

    let matchings = calculate_matchings(&left, &right);

    let left_right_matchings = matchings.get_matching_entry(&left, &right).unwrap();
    assert_eq!(2, left_right_matchings.score);
    assert!(!left_right_matchings.is_perfect_match);
}

#[test]
fn perfect_matching_deep_nodes() {
    let left = nonterm(3, "kind_a", false, vec![term(1, "kind_b", "value_b")]);
    let right = nonterm(4, "kind_a", false, vec![term(1, "kind_b", "value_b")]);

    let matchings = calculate_matchings(&left, &right);

    let left_right_matchings = matchings.get_matching_entry(&left, &right).unwrap();
    assert_eq!(2, left_right_matchings.score);
    assert!(left_right_matchings.is_perfect_match);
}

#[test]
fn perfect_matching_deeper_nodes() {
    let intermediate = nonterm(2, "intermediate", false, vec![term(1, "kind_b", "value_b")]);
    let left = nonterm(
        3,
        "kind_a",
        false,
        vec![nonterm(2, "intermediate", false, vec![term(1, "kind_b", "value_b")])],
    );
    let right = nonterm(
        4,
        "kind_a",
        false,
        vec![nonterm(2, "intermediate", false, vec![term(1, "kind_b", "value_b")])],
    );

    let matchings = calculate_matchings(&left, &right);

    let intermediate_matching = matchings
        .get_matching_entry(&intermediate, &intermediate)
        .unwrap();
    assert_eq!(2, intermediate_matching.score);
    assert!(intermediate_matching.is_perfect_match);

    let left_right_matching = matchings.get_matching_entry(&left, &right).unwrap();
    assert_eq!(3, left_right_matching.score);
    assert!(left_right_matching.is_perfect_match);
}

#[test]
fn identical_unordered_subtrees_match_perfectly() {
    let left = nonterm(
        7,
        "block",
        true,
        vec![term(1, "stmt", "a"), term(2, "stmt", "b")],
    );
    let right = nonterm(
        8,
        "block",
        true,
        vec![term(1, "stmt", "a"), term(2, "stmt", "b")],
    );

    let matchings = calculate_matchings(&left, &right);

    let entry = matchings.get_matching_entry(&left, &right).unwrap();
    assert_eq!(3, entry.score);
    assert!(entry.is_perfect_match);
}

#[test]
fn disjoint_kinds_leave_every_descendant_unmatched() {
    let left_child = term(1, "kind_p", "v1");
    let right_child = term(2, "kind_q", "v2");
    let left = nonterm(3, "kind_x", false, vec![term(1, "kind_p", "v1")]);
    let right = nonterm(4, "kind_y", false, vec![term(2, "kind_q", "v2")]);

    let matchings = calculate_matchings(&left, &right);

    assert!(matchings
        .get_matching_entry(&left_child, &right_child)
        .is_none());
    assert!(matchings.get_matching_entry(&left_child, &right).is_none());
    assert!(matchings.get_matching_entry(&left, &right_child).is_none());
    let root = matchings.get_matching_entry(&left, &right).unwrap();
    assert_eq!(0, root.score);
    assert!(!root.is_perfect_match);
}

#[test]
fn unmatched_sibling_keeps_the_score_and_breaks_perfection() {
    let left = nonterm(3, "kind_a", false, vec![term(1, "kind_b", "value_b")]);
    let right = nonterm(4, "kind_a", false, vec![term(1, "kind_b", "value_b")]);
    let right_grown = nonterm(
        4,
        "kind_a",
        false,
        vec![term(1, "kind_b", "value_b"), term(2, "kind_z", "value_z")],
    );

    let small = calculate_matchings(&left, &right)
        .get_matching_entry(&left, &right)
        .unwrap();
    let grown = calculate_matchings(&left, &right_grown)
        .get_matching_entry(&left, &right_grown)
        .unwrap();

    assert_eq!(small.score, grown.score);
    assert!(small.is_perfect_match);
    assert!(!grown.is_perfect_match);
}

#[test]
fn two_matched_terminals_score_one_and_are_perfect() {
    let left = term(1, "kind_b", "value_b");
    let right = term(2, "kind_b", "value_b");

    let matchings = calculate_matchings(&left, &right);

    let entry = matchings.get_matching_entry(&left, &right).unwrap();
    assert_eq!(1, entry.score);
    assert!(entry.is_perfect_match);
}

#[test]
fn two_differing_terminals_yield_no_matchings_at_all() {
    let left = term(1, "kind_b", "value_b");
    let right = term(2, "kind_b", "other");

    let matchings = calculate_matchings(&left, &right);
    assert!(matchings.get_matching_entry(&left, &right).is_none());
}

#[test]
fn a_terminal_against_an_interior_node_yields_no_matchings() {
    let left = term(1, "kind_b", "value_b");
    let right = nonterm(2, "kind_b", false, vec![]);

    let matchings = calculate_matchings(&left, &right);
    assert!(matchings.get_matching_entry(&left, &right).is_none());
}

#[test]
fn an_unordered_child_pairs_with_its_best_partner_not_its_first() {
    let x = nonterm(10, "s", false, vec![term(11, "a", "1"), term(12, "b", "2")]);
    let weak = nonterm(20, "s", false, vec![term(21, "a", "1")]);
    let strong = nonterm(30, "s", false, vec![term(31, "a", "1"), term(32, "b", "2")]);
    let left = nonterm(
        5,
        "block",
        true,
        vec![nonterm(10, "s", false, vec![term(11, "a", "1"), term(12, "b", "2")])],
    );
    let right = nonterm(
        6,
        "block",
        true,
        vec![
            nonterm(20, "s", false, vec![term(21, "a", "1")]),
            nonterm(30, "s", false, vec![term(31, "a", "1"), term(32, "b", "2")]),
        ],
    );

    let matchings = calculate_matchings(&left, &right);

    let best = matchings.get_matching_entry(&x, &strong).unwrap();
    assert_eq!(3, best.score);
    assert!(best.is_perfect_match);
    assert!(matchings.get_matching_entry(&x, &weak).is_none());
    let root = matchings.get_matching_entry(&left, &right).unwrap();
    assert_eq!(4, root.score);
    assert!(!root.is_perfect_match);
}

#[test]
fn spans_and_delimiter_flags_do_not_affect_matching() {
    let left = CSTNode::Terminal(Terminal {
        id: 1,
        kind: "kind_b".to_string(),
        value: "value_b".to_string(),
        start_position: Point { row: 0, column: 0 },
        end_position: Point { row: 0, column: 7 },
        is_block_end_delimiter: false,
    });
    let right = CSTNode::Terminal(Terminal {
        id: 2,
        kind: "kind_b".to_string(),
        value: "value_b".to_string(),
        start_position: Point { row: 9, column: 3 },
        end_position: Point { row: 9, column: 10 },
        is_block_end_delimiter: true,
    });

    let matchings = calculate_matchings(&left, &right);

    let entry = matchings.get_matching_entry(&left, &right).unwrap();
    assert_eq!(1, entry.score);
    assert!(entry.is_perfect_match);
}

#[test]
fn lookup_is_order_insensitive() {
    let left = nonterm(3, "kind_a", false, vec![term(1, "kind_b", "value_b")]);
    let right = nonterm(4, "kind_a", false, vec![term(1, "kind_b", "value_b")]);

    let matchings = calculate_matchings(&left, &right);

    assert_eq!(
        matchings.get_matching_entry(&left, &right),
        matchings.get_matching_entry(&right, &left)
    );
    let child = term(1, "kind_b", "value_b");
    assert_eq!(
        matchings.get_matching_entry(&child, &child),
        matchings.get_matching_entry(&child, &child)
    );
}
