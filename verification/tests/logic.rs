use boole::eval::{evaluate, give_value_to_char, print_truth_table, sat};
use boole::formula::{ast_to_rpn, copy_tree, operator_symbol, tree_eq, FormulaError, Node, Operator};
use boole::parser::{parse_formula, parse_formula_binary, parse_formula_char};
use boole::rewriter::{
    conjunctive_normal_form, de_morgans_law, distributivity, do_all, double_negation, equivalence,
    material_conditon, negation_normal_form, remove_xor,
};

#[test]
fn parse_serialize_round_trip() {
    for s in ["A", "AB&", "AB|C&", "AB&C|DE&^FG|^HI&^", "AB|C|D|", "A!!", "AB="] {
        let tree = parse_formula(s).unwrap();
        assert_eq!(ast_to_rpn(&tree).unwrap(), s);
    }
}

#[test]
fn parse_rejects_malformed() {
    assert_eq!(parse_formula("A&"), Err(FormulaError::MalformedFormula));
    assert_eq!(parse_formula("AB"), Err(FormulaError::MalformedFormula));
    assert_eq!(parse_formula(""), Err(FormulaError::MalformedFormula));
    assert_eq!(parse_formula("a"), Err(FormulaError::MalformedFormula));
    assert_eq!(parse_formula("A1&"), Err(FormulaError::MalformedFormula));
    assert_eq!(parse_formula("!"), Err(FormulaError::MalformedFormula));
}

#[test]
fn parse_binary_rejects_letters() {
    assert!(parse_formula_binary("10&").is_ok());
    assert_eq!(parse_formula_binary("A"), Err(FormulaError::MalformedFormula));
}

#[test]
fn parse_builds_expected_tree() {
    let tree = parse_formula("AB&").unwrap();
    let expected = Node::BinaryExpr {
        op: Operator::Conjunction,
        lhs: Box::new(Node::Value('A')),
        rhs: Box::new(Node::Value('B')),
    };
    assert_eq!(tree, expected);
    assert!(tree_eq(&tree, &expected));
    assert!(tree_eq(&copy_tree(&tree), &expected));
}

#[test]
fn operator_symbols() {
    assert_eq!(operator_symbol(&Operator::Negation), "!");
    assert_eq!(operator_symbol(&Operator::Conjunction), "&");
    assert_eq!(operator_symbol(&Operator::Disjunction), "|");
    assert_eq!(operator_symbol(&Operator::ExclusiveDisjunction), "^");
    assert_eq!(operator_symbol(&Operator::MaterialCondition), ">");
    assert_eq!(operator_symbol(&Operator::LogicalEquivalence), "=");
}

#[test]
fn serializer_rejects_literal_leaves() {
    let tree = parse_formula_binary("10&").unwrap();
    assert_eq!(ast_to_rpn(&tree), Err(FormulaError::UnexpectedLiteral));
}

#[test]
fn evaluate_literal_trees() {
    assert_eq!(evaluate(&parse_formula_binary("1").unwrap()), Ok(true));
    assert_eq!(evaluate(&parse_formula_binary("10&").unwrap()), Ok(false));
    assert_eq!(evaluate(&parse_formula_binary("11&").unwrap()), Ok(true));
    assert_eq!(evaluate(&parse_formula_binary("10|").unwrap()), Ok(true));
    assert_eq!(evaluate(&parse_formula_binary("10^").unwrap()), Ok(true));
    assert_eq!(evaluate(&parse_formula_binary("11^").unwrap()), Ok(false));
    assert_eq!(evaluate(&parse_formula_binary("10>").unwrap()), Ok(false));
    assert_eq!(evaluate(&parse_formula_binary("01>").unwrap()), Ok(true));
    assert_eq!(evaluate(&parse_formula_binary("10=").unwrap()), Ok(false));
    assert_eq!(evaluate(&parse_formula_binary("11=").unwrap()), Ok(true));
    assert_eq!(evaluate(&parse_formula_binary("1!").unwrap()), Ok(false));
}

#[test]
fn evaluate_rejects_free_variables() {
    let tree = parse_formula("A").unwrap();
    assert_eq!(evaluate(&tree), Err(FormulaError::UnboundVariable));
}

#[test]
fn parse_then_eval_conjunction() {
    // A true and B false falsify the conjunction
    let used = vec!['A', 'B'];
    let tree = give_value_to_char(2, "AB&", &used).unwrap();
    assert_eq!(evaluate(&tree), Ok(false));
    let tree = give_value_to_char(3, "AB&", &used).unwrap();
    assert_eq!(evaluate(&tree), Ok(true));
}

#[test]
fn collects_distinct_letters_in_order() {
    assert_eq!(parse_formula_char("AC&B|").unwrap(), vec!['A', 'C', 'B']);
    assert_eq!(parse_formula_char("AA!&").unwrap(), vec!['A']);
    assert_eq!(parse_formula_char("0"), Err(FormulaError::MalformedFormula));
}

#[test]
fn nnf_rewrites_expected() {
    assert_eq!(negation_normal_form("AB&!").unwrap(), "A!B!|");
    assert_eq!(negation_normal_form("AB|!").unwrap(), "A!B!&");
    assert_eq!(negation_normal_form("AB>").unwrap(), "A!B|");
    assert_eq!(negation_normal_form("AB=").unwrap(), "A!B|B!A|&");
    assert_eq!(negation_normal_form("AB|C&!").unwrap(), "A!B!&C!|");
    assert_eq!(negation_normal_form("A!B!&!").unwrap(), "AB|");
    assert_eq!(negation_normal_form("A!!").unwrap(), "A");
    assert_eq!(negation_normal_form("B&"), Err(FormulaError::MalformedFormula));
}

#[test]
fn equivalence_rewrite_matches_expected_truth_table() {
    // A = B is equivalent to (A and B) or (not A and not B)
    let rewritten = negation_normal_form("AB=").unwrap();
    let combined = format!("{}AB&A!B!&|=!", rewritten);
    assert_eq!(sat(&combined), Ok(false));
}

#[test]
fn cnf_rewrites_expected() {
    assert_eq!(conjunctive_normal_form("AB&!").unwrap(), "A!B!|");
    assert_eq!(conjunctive_normal_form("AB|!").unwrap(), "A!B!&");
    assert_eq!(conjunctive_normal_form("AB|C&").unwrap(), "AB|C&");
    assert_eq!(conjunctive_normal_form("AB&C|").unwrap(), "AC|BC|&");
    assert_eq!(conjunctive_normal_form("AB&!C!|").unwrap(), "A!B!|C!|");
    assert_eq!(conjunctive_normal_form("AB|C|D|").unwrap(), "AB|C|D|");
}

#[test]
fn rewrites_preserve_truth_tables() {
    for s in ["AB&C|DE&^FG|^", "AB=C>", "AB^C^", "AB>BA>&", "AB|C&!"] {
        let nnf = negation_normal_form(s).unwrap();
        let cnf = conjunctive_normal_form(s).unwrap();
        let nnf_check = format!("{}{}=!", s, nnf);
        let cnf_check = format!("{}{}=!", s, cnf);
        assert_eq!(sat(&nnf_check), Ok(false), "nnf of {s}");
        assert_eq!(sat(&cnf_check), Ok(false), "cnf of {s}");
    }
}

#[test]
fn rewrite_is_idempotent() {
    for s in ["AB&C|DE&^FG|^", "AB=C>", "AB&C|", "AB|!"] {
        let once = negation_normal_form(s).unwrap();
        assert_eq!(negation_normal_form(&once).unwrap(), once);
        let conj = conjunctive_normal_form(s).unwrap();
        assert_eq!(conjunctive_normal_form(&conj).unwrap(), conj);
    }
}

#[test]
fn rewrite_output_uses_only_nnf_symbols() {
    for s in ["AB&C|DE&^FG|^HI&^", "AB=C=", "AB>C>"] {
        let out = conjunctive_normal_form(s).unwrap();
        assert!(out.chars().all(|c| c.is_ascii_uppercase() || c == '!' || c == '&' || c == '|'));
    }
}

#[test]
fn single_passes_rewrite_locally() {
    let xor = parse_formula("AB^").unwrap();
    assert_eq!(ast_to_rpn(&remove_xor(xor)).unwrap(), "AB!&A!B&|");
    let eq = parse_formula("AB=").unwrap();
    assert_eq!(ast_to_rpn(&equivalence(eq)).unwrap(), "AB>BA>&");
    let cond = parse_formula("AB>").unwrap();
    assert_eq!(ast_to_rpn(&material_conditon(cond)).unwrap(), "A!B|");
    let neg = parse_formula("AB&!").unwrap();
    assert_eq!(ast_to_rpn(&de_morgans_law(neg)).unwrap(), "A!B!|");
    let dn = parse_formula("A!!").unwrap();
    assert_eq!(ast_to_rpn(&double_negation(dn)).unwrap(), "A");
    let dist = parse_formula("AB&C|").unwrap();
    assert_eq!(ast_to_rpn(&distributivity(dist)).unwrap(), "AC|BC|&");
    let all = parse_formula("AB>").unwrap();
    assert_eq!(ast_to_rpn(&do_all(all)).unwrap(), "A!B|");
}

#[test]
fn sat_finds_assignments() {
    assert_eq!(sat("AB|"), Ok(true));
    assert_eq!(sat("AB&"), Ok(true));
    assert_eq!(sat("AA!&"), Ok(false));
    assert_eq!(sat("AA^"), Ok(false));
    assert_eq!(sat("&"), Err(FormulaError::MalformedFormula));
}

#[test]
fn truth_table_text_exact() {
    let expected = "| A | B | = |\n|---|---|---|\n| 0 | 0 | 0 |\n| 0 | 1 | 0 |\n| 1 | 0 | 0 |\n| 1 | 1 | 1 |\n";
    assert_eq!(print_truth_table("AB&").unwrap(), expected);
}

#[test]
fn truth_table_header_order_is_first_occurrence() {
    let table = print_truth_table("AC&B|").unwrap();
    assert!(table.starts_with("| A | C | B | = |\n|---|---|---|---|\n"));
    assert_eq!(table.lines().count(), 10);
}
