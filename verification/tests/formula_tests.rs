use std::collections::HashMap;

use rust_logic_tools::formula_precomputer::{
    generate_truth_tables_with_up_to_n_variables, NormalFormulaGenerator,
};
use rust_logic_tools::logic::{
    get_variable_index, is_positive_literal, LogicFormula, SimpleLogicNode, TruthValue,
    NEGATIVITY_FLAG,
};
use rust_logic_tools::truth_table_size_5::TruthTableSize5Computer;

fn names(n: u32) -> Vec<String> {
    let mut list = Vec::new();
    for i in 1..=n {
        list.push(format!("p{}", i));
    }
    list
}

fn lit(index: u32) -> SimpleLogicNode {
    SimpleLogicNode::Literal(index)
}

fn neg(index: u32) -> SimpleLogicNode {
    SimpleLogicNode::Literal(index | NEGATIVITY_FLAG)
}

#[test]
fn literal_packing() {
    assert_eq!(get_variable_index(3), 3);
    assert_eq!(get_variable_index(3 | NEGATIVITY_FLAG), 3);
    assert!(is_positive_literal(5));
    assert!(!is_positive_literal(5 | NEGATIVITY_FLAG));
}

#[test]
fn count_binary_operators_counts_operator_nodes() {
    assert_eq!(SimpleLogicNode::False.count_binary_operators(), 0);
    assert_eq!(SimpleLogicNode::True.count_binary_operators(), 0);
    assert_eq!(lit(1).count_binary_operators(), 0);
    let inner = SimpleLogicNode::Conjunction(vec![lit(1), lit(2)]);
    let outer = SimpleLogicNode::Disjunction(vec![inner, neg(1)]);
    assert_eq!(outer.count_binary_operators(), 2);
}

#[test]
fn get_as_text_renders_formulas() {
    let list = names(2);
    assert_eq!(SimpleLogicNode::False.get_as_text(&list), "FALSE");
    assert_eq!(SimpleLogicNode::True.get_as_text(&list), "TRUE");
    assert_eq!(lit(1).get_as_text(&list), "p1");
    assert_eq!(neg(2).get_as_text(&list), "~p2");
    let dnf = SimpleLogicNode::Disjunction(vec![
        lit(1),
        SimpleLogicNode::Conjunction(vec![neg(1), lit(2)]),
    ]);
    assert_eq!(dnf.get_as_text(&list), "p1 | (~p1 & p2)");
    let empty = SimpleLogicNode::Conjunction(vec![]);
    assert_eq!(empty.get_as_text(&list), "null");
}

#[test]
fn evaluate_uses_known_truth_values() {
    let mut values: HashMap<u32, bool> = HashMap::new();
    values.insert(1, true);
    assert_eq!(lit(1).evaluate(&values), TruthValue::MustBeTrue);
    assert_eq!(neg(1).evaluate(&values), TruthValue::MustBeFalse);
    assert_eq!(lit(2).evaluate(&values), TruthValue::Unrestricted);

    let conjunction = SimpleLogicNode::Conjunction(vec![lit(1), lit(2)]);
    assert_eq!(conjunction.evaluate(&values), TruthValue::Unrestricted);
    let falsified = SimpleLogicNode::Conjunction(vec![neg(1), lit(2)]);
    assert_eq!(falsified.evaluate(&values), TruthValue::MustBeFalse);
    let disjunction = SimpleLogicNode::Disjunction(vec![lit(1), lit(2)]);
    assert_eq!(disjunction.evaluate(&values), TruthValue::MustBeTrue);
    let open_disjunction = SimpleLogicNode::Disjunction(vec![neg(1), lit(2)]);
    assert_eq!(open_disjunction.evaluate(&values), TruthValue::Unrestricted);
    assert_eq!(SimpleLogicNode::False.evaluate(&values), TruthValue::MustBeFalse);
    assert_eq!(SimpleLogicNode::True.evaluate(&values), TruthValue::MustBeTrue);
}

#[test]
fn bitmask_construction_for_one_boolean() {
    // positive[0] = 0b10 and negative[0] = 0b01, observed through literal
    // truth tables.
    let computer = TruthTableSize5Computer::new(1);
    assert_eq!(computer.compute_truth_table(&lit(1)), 0b10);
    assert_eq!(computer.compute_truth_table(&neg(1)), 0b01);
    assert_eq!(computer.compute_truth_table(&SimpleLogicNode::True), 0b11);
    assert_eq!(computer.compute_truth_table(&SimpleLogicNode::False), 0);
}

#[test]
fn literal_equals_its_expansion_over_two_booleans() {
    // p1 is equivalent to (p1 & p2) | (p1 & ~p2).
    let computer = TruthTableSize5Computer::new(2);
    let expansion = SimpleLogicNode::Disjunction(vec![
        SimpleLogicNode::Conjunction(vec![lit(1), lit(2)]),
        SimpleLogicNode::Conjunction(vec![lit(1), neg(2)]),
    ]);
    assert_eq!(
        computer.compute_truth_table(&lit(1)),
        computer.compute_truth_table(&expansion)
    );
}

#[test]
fn dual_construction_is_an_involution_and_not_equivalent() {
    // DNF (p1 & p2) | (~p1 & ~p2) is true exactly when p1 = p2; its
    // structural dual (p1 | p2) & (~p1 | ~p2) is true exactly when p1 and
    // p2 differ. The truth tables differ, while dualizing twice restores
    // the original tree.
    let dnf = SimpleLogicNode::Disjunction(vec![
        SimpleLogicNode::Conjunction(vec![lit(1), lit(2)]),
        SimpleLogicNode::Conjunction(vec![neg(1), neg(2)]),
    ]);
    let dual = NormalFormulaGenerator::generate_cnf_from_dnf(&dnf);
    let double_dual = NormalFormulaGenerator::generate_cnf_from_dnf(&dual);
    assert_eq!(double_dual, dnf);

    let list = names(2);
    assert_eq!(dual.get_as_text(&list), "(p1 | p2) & (~p1 | ~p2)");

    let computer = TruthTableSize5Computer::new(2);
    let dnf_table = computer.compute_truth_table(&dnf);
    let dual_table = computer.compute_truth_table(&dual);
    assert_eq!(dnf_table, 0b1001);
    assert_eq!(dual_table, 0b0110);
    assert_ne!(dnf_table, dual_table);
}

#[test]
fn one_boolean_generates_four_buckets() {
    // n = 1: bucket 0 holds False, the all-ones bucket holds True, and the
    // two remaining buckets hold exactly ~p1 and p1, each minimal in its
    // bucket.
    let buckets = generate_truth_tables_with_up_to_n_variables(1);
    assert_eq!(buckets.len(), 4);
    let list = names(1);
    assert_eq!(buckets[0].get_formula_list_as_text(&list), "FALSE\n");
    assert_eq!(buckets[1].get_formula_list_as_text(&list), "~p1\n");
    assert_eq!(buckets[2].get_formula_list_as_text(&list), "p1\n");
    assert_eq!(buckets[3].get_formula_list_as_text(&list), "TRUE\n");

    let mut generator = rust_logic_tools::html_text::HtmlGenerator::new();
    buckets[2].add_html_for_formula_list(&mut generator, &list);
    let page = generator.get_full_text();
    assert!(page.contains("<p>Minimum Formula: p1</p>"));
    assert!(page.contains("<li >p1"));
}

#[test]
fn two_booleans_generate_sixteen_buckets_with_constants_seeded() {
    let buckets = generate_truth_tables_with_up_to_n_variables(2);
    assert_eq!(buckets.len(), 16);
    let list = names(2);
    let bucket0 = buckets[0].get_formula_list_as_text(&list);
    assert!(bucket0.starts_with("FALSE\n"));
    let bucket15 = buckets[15].get_formula_list_as_text(&list);
    assert!(bucket15.starts_with("TRUE\n"));
}

#[test]
fn formulas_are_filed_under_their_own_truth_table() {
    // The truth table of p1 over two booleans is rows 2 and 3: 0b1100.
    let computer = TruthTableSize5Computer::new(2);
    assert_eq!(computer.compute_truth_table(&lit(1)), 0b1100);
    let buckets = generate_truth_tables_with_up_to_n_variables(2);
    let list = names(2);
    let bucket = buckets[0b1100].get_formula_list_as_text(&list);
    assert!(bucket.lines().any(|line| line == "p1"));
    let mut generator = rust_logic_tools::html_text::HtmlGenerator::new();
    buckets[0b1100].add_html_for_formula_list(&mut generator, &list);
    assert!(generator.get_full_text().contains("<p>Minimum Formula: p1</p>"));
}

#[test]
fn subsumption_pruning_holds_in_generated_output() {
    // {p1} together with {p1, p2} never appears as sibling clauses.
    let buckets = generate_truth_tables_with_up_to_n_variables(2);
    let list = names(2);
    for bucket in &buckets {
        let text = bucket.get_formula_list_as_text(&list);
        for line in text.lines() {
            assert_ne!(line, "p1 | (p1 & p2)");
            assert_ne!(line, "(p1 & p2) | p1");
        }
    }
}

#[test]
fn unit_contradiction_pruning_holds_in_generated_output() {
    // p1 and ~p1 never appear together as top-level clauses.
    let buckets = generate_truth_tables_with_up_to_n_variables(2);
    let list = names(2);
    for bucket in &buckets {
        let text = bucket.get_formula_list_as_text(&list);
        for line in text.lines() {
            assert_ne!(line, "p1 | ~p1");
            assert_ne!(line, "~p1 | p1");
            assert_ne!(line, "p2 | ~p2");
        }
    }
}

#[test]
fn minimum_formula_has_fewest_operators() {
    // The bucket of p1's truth table also receives larger formulas such as
    // (p1 & p2) | (p1 & ~p2), yet keeps the operator-free p1 as minimum.
    let buckets = generate_truth_tables_with_up_to_n_variables(2);
    let list = names(2);
    let text = buckets[0b1100].get_formula_list_as_text(&list);
    assert!(text.lines().any(|line| line == "p1"));
    assert!(text.lines().any(|line| line == "(p1 & p2) | (p1 & ~p2)"));
    let mut generator = rust_logic_tools::html_text::HtmlGenerator::new();
    buckets[0b1100].add_html_for_formula_list(&mut generator, &list);
    assert!(generator.get_full_text().contains("<p>Minimum Formula: p1</p>"));
}

#[test]
fn bitmasks_grow_by_doubling_up_to_five_booleans() {
    // The first boolean's positive mask covers the upper half of the
    // table at every size, and True covers every row.
    let computer3 = TruthTableSize5Computer::new(3);
    assert_eq!(computer3.compute_truth_table(&lit(1)), 0xF0);
    assert_eq!(computer3.compute_truth_table(&lit(2)), 0xCC);
    assert_eq!(computer3.compute_truth_table(&lit(3)), 0xAA);
    assert_eq!(computer3.compute_truth_table(&neg(1)), 0x0F);
    assert_eq!(computer3.compute_truth_table(&SimpleLogicNode::True), 0xFF);

    let computer4 = TruthTableSize5Computer::new(4);
    assert_eq!(computer4.compute_truth_table(&lit(1)), 0xFF00);
    assert_eq!(computer4.compute_truth_table(&lit(4)), 0xAAAA);
    assert_eq!(computer4.compute_truth_table(&SimpleLogicNode::True), 0xFFFF);

    let computer5 = TruthTableSize5Computer::new(5);
    assert_eq!(computer5.compute_truth_table(&lit(1)), 0xFFFF_0000);
    assert_eq!(computer5.compute_truth_table(&lit(5)), 0xAAAA_AAAA);
    assert_eq!(computer5.compute_truth_table(&neg(5)), 0x5555_5555);
    assert_eq!(computer5.compute_truth_table(&SimpleLogicNode::True), 0xFFFF_FFFF);
    let mixed = SimpleLogicNode::Conjunction(vec![lit(1), neg(5)]);
    assert_eq!(computer5.compute_truth_table(&mixed), 0x5555_0000);
}

#[test]
fn generation_is_deterministic() {
    // Two runs with the same n agree bucket for bucket, formula for
    // formula, minimum for minimum.
    let first = generate_truth_tables_with_up_to_n_variables(2);
    let second = generate_truth_tables_with_up_to_n_variables(2);
    assert_eq!(first.len(), second.len());
    let list = names(2);
    for (a, b) in first.iter().zip(second.iter()) {
        assert_eq!(
            a.get_formula_list_as_text(&list),
            b.get_formula_list_as_text(&list)
        );
        let mut page_a = rust_logic_tools::html_text::HtmlGenerator::new();
        let mut page_b = rust_logic_tools::html_text::HtmlGenerator::new();
        a.add_html_for_formula_list(&mut page_a, &list);
        b.add_html_for_formula_list(&mut page_b, &list);
        assert_eq!(page_a.get_full_text(), page_b.get_full_text());
    }
}
