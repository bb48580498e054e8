//! The formula tree: connectives, nodes, their truth semantics, and the
//! postfix (reverse-Polish) rendering of a tree.

use vstd::prelude::*;

verus! {

/// The connectives of the propositional language.
#[derive(Clone, Copy, Debug, PartialEq, Eq, Structural)]
pub enum Operator {
    Negation,
    Conjunction,
    Disjunction,
    ExclusiveDisjunction,
    MaterialCondition,
    LogicalEquivalence,
}

/// A formula tree. Leaves are either a concrete truth value or a variable
/// named by an uppercase letter; every node owns its children outright.
/// [`copy_tree`] makes a verified structural copy.
#[derive(Debug, PartialEq, Eq)]
pub enum Node {
    Value(char),
    Bool(bool),
    UnaryExpr { op: Operator, child: Box<Node> },
    BinaryExpr { op: Operator, lhs: Box<Node>, rhs: Box<Node> },
}

/// Every failure the library can report.
#[derive(Clone, Copy, Debug, PartialEq, Eq, Structural)]
pub enum FormulaError {
    /// The postfix text does not describe exactly one formula.
    MalformedFormula,
    /// Evaluation reached a variable leaf that was never substituted.
    UnboundVariable,
    /// Serialization reached a concrete truth-value leaf.
    UnexpectedLiteral,
    /// Minimization is defined for at most four variables.
    TooManyVariables,
    /// Minimization is defined for at least two variables.
    TooFewVariables,
}

/// The single-character postfix symbol of each connective.
pub open spec fn op_symbol(op: Operator) -> char {
    match op {
        Operator::Negation => '!',
        Operator::Conjunction => '&',
        Operator::Disjunction => '|',
        Operator::ExclusiveDisjunction => '^',
        Operator::MaterialCondition => '>',
        Operator::LogicalEquivalence => '=',
    }
}

/// Well-formed trees negate at unary nodes and keep the binary connectives
/// at binary nodes.
pub open spec fn wf(n: Node) -> bool
    decreases n,
{
    match n {
        Node::Value(_) => true,
        Node::Bool(_) => true,
        Node::UnaryExpr { op, child } => op == Operator::Negation && wf(*child),
        Node::BinaryExpr { op, lhs, rhs } => op != Operator::Negation && wf(*lhs) && wf(*rhs),
    }
}

/// A symbolic tree has no concrete truth-value leaf.
pub open spec fn symbolic(n: Node) -> bool
    decreases n,
{
    match n {
        Node::Value(_) => true,
        Node::Bool(_) => false,
        Node::UnaryExpr { op, child } => symbolic(*child),
        Node::BinaryExpr { op, lhs, rhs } => symbolic(*lhs) && symbolic(*rhs),
    }
}

/// A fully substituted tree has no variable leaf.
pub open spec fn literal_only(n: Node) -> bool
    decreases n,
{
    match n {
        Node::Value(_) => false,
        Node::Bool(_) => true,
        Node::UnaryExpr { op, child } => literal_only(*child),
        Node::BinaryExpr { op, lhs, rhs } => literal_only(*lhs) && literal_only(*rhs),
    }
}

/// The truth table of each binary connective.
pub open spec fn binary_truth(op: Operator, l: bool, r: bool) -> bool {
    match op {
        Operator::Conjunction => l && r,
        Operator::Disjunction => l || r,
        Operator::ExclusiveDisjunction => l != r,
        Operator::MaterialCondition => !l || r,
        Operator::LogicalEquivalence => l == r,
        Operator::Negation => arbitrary(),
    }
}

/// The truth value of a tree under an assignment of its variables.
/// A unary node negates its child whatever its connective says, matching
/// the evaluator.
pub open spec fn eval_env(n: Node, env: Map<char, bool>) -> bool
    decreases n,
{
    match n {
        Node::Bool(b) => b,
        Node::Value(c) => env[c],
        Node::UnaryExpr { op, child } => !eval_env(*child, env),
        Node::BinaryExpr { op, lhs, rhs } => binary_truth(
            op,
            eval_env(*lhs, env),
            eval_env(*rhs, env),
        ),
    }
}

/// Whether the given connective occurs anywhere in the tree.
pub open spec fn contains_op(n: Node, target: Operator) -> bool
    decreases n,
{
    match n {
        Node::Value(_) => false,
        Node::Bool(_) => false,
        Node::UnaryExpr { op, child } => op == target || contains_op(*child, target),
        Node::BinaryExpr { op, lhs, rhs } => op == target || contains_op(*lhs, target)
            || contains_op(*rhs, target),
    }
}

/// The postfix text of a tree: children first, then the node's symbol.
pub open spec fn rpn_of(n: Node) -> Seq<char>
    decreases n,
{
    match n {
        Node::Value(c) => seq![c],
        Node::Bool(b) => seq![if b { '1' } else { '0' }],
        Node::UnaryExpr { op, child } => rpn_of(*child).push(op_symbol(op)),
        Node::BinaryExpr { op, lhs, rhs } => rpn_of(*lhs) + rpn_of(*rhs) + seq![op_symbol(op)],
    }
}

/// The postfix symbol of a connective, as text.
pub fn operator_symbol(op: &Operator) -> (r: &'static str)
    ensures
        r@ == seq![op_symbol(*op)],
{
    proof {
        reveal_strlit("!");
        reveal_strlit("&");
        reveal_strlit("|");
        reveal_strlit("^");
        reveal_strlit(">");
        reveal_strlit("=");
    }
    match op {
        Operator::Negation => "!",
        Operator::Conjunction => "&",
        Operator::Disjunction => "|",
        Operator::ExclusiveDisjunction => "^",
        Operator::MaterialCondition => ">",
        Operator::LogicalEquivalence => "=",
    }
}

/// Structural equality of two trees.
pub fn tree_eq(a: &Node, b: &Node) -> (r: bool)
    ensures
        r <==> *a == *b,
    decreases *a,
{
    match (a, b) {
        (Node::Value(x), Node::Value(y)) => *x == *y,
        (Node::Bool(x), Node::Bool(y)) => *x == *y,
        (
            Node::UnaryExpr { op: aop, child: ac },
            Node::UnaryExpr { op: bop, child: bc },
        ) => *aop == *bop && tree_eq(ac, bc),
        (
            Node::BinaryExpr { op: aop, lhs: al, rhs: ar },
            Node::BinaryExpr { op: bop, lhs: bl, rhs: br },
        ) => *aop == *bop && tree_eq(al, bl) && tree_eq(ar, br),
        _ => false,
    }
}

/// A structurally identical copy of a tree.
pub fn copy_tree(n: &Node) -> (r: Node)
    ensures
        r == *n,
    decreases *n,
{
    match n {
        Node::Value(c) => Node::Value(*c),
        Node::Bool(b) => Node::Bool(*b),
        Node::UnaryExpr { op, child } => Node::UnaryExpr {
            op: *op,
            child: Box::new(copy_tree(child)),
        },
        Node::BinaryExpr { op, lhs, rhs } => Node::BinaryExpr {
            op: *op,
            lhs: Box::new(copy_tree(lhs)),
            rhs: Box::new(copy_tree(rhs)),
        },
    }
}

/// Relies on String::push: appends exactly one character at the end.
#[verifier::external_body]
pub fn push_char(s: &mut String, c: char)
    ensures
        final(s)@ == old(s)@.push(c),
{
    s.push(c);
}

/// Appends the postfix symbol of a connective to a text buffer.
fn push_symbol(s: &mut String, op: &Operator)
    ensures
        final(s)@ == old(s)@.push(op_symbol(*op)),
{
    let symbol = operator_symbol(op);
    s.append(symbol);
    proof {
        assert(final(s)@ =~= old(s)@.push(op_symbol(*op)));
    }
}

/// Serializes a symbolic tree to postfix text, children before node.
/// Fails on a concrete truth-value leaf: postfix text is defined only for
/// symbolic formulas.
pub fn ast_to_rpn(node: &Node) -> (r: Result<String, FormulaError>)
    ensures
        r is Ok <==> symbolic(*node),
        r is Ok ==> r->Ok_0@ == rpn_of(*node),
        r is Err ==> r->Err_0 == FormulaError::UnexpectedLiteral,
    decreases *node,
{
    match node {
        Node::Value(c) => {
            let mut s = String::new();
            push_char(&mut s, *c);
            proof {
                assert(s@ =~= rpn_of(*node));
            }
            Ok(s)
        }
        Node::Bool(_) => Err(FormulaError::UnexpectedLiteral),
        Node::UnaryExpr { op, child } => {
            match ast_to_rpn(child) {
                Ok(mut s) => {
                    push_symbol(&mut s, op);
                    Ok(s)
                }
                Err(e) => Err(e),
            }
        }
        Node::BinaryExpr { op, lhs, rhs } => {
            match ast_to_rpn(lhs) {
                Ok(mut s) => {
                    match ast_to_rpn(rhs) {
                        Ok(rtext) => {
                            s.append(rtext.as_str());
                            push_symbol(&mut s, op);
                            proof {
                                assert(s@ =~= rpn_of(*node));
                            }
                            Ok(s)
                        }
                        Err(e) => Err(e),
                    }
                }
                Err(e) => Err(e),
            }
        }
    }
}

} // verus!
